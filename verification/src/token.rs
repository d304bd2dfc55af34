//! The token read model: an id, the minting-time owner, and the fixed supply.

use vstd::prelude::*;
use crate::model::TokenM;

verus! {

/// A token id: the decimal rendering of the mint counter, unique per token.
pub type TokenId = String;

/// An account identifier, an opaque string.
pub type AccountId = String;

/// A token amount.
pub type Balance = u128;

/// Info on an individual token. `owner_id` records the minting-time owner
/// only; once balances move it carries no authoritative meaning.
pub struct Token {
    pub token_id: TokenId,
    pub owner_id: AccountId,
    /// Total amount generated, immutable after mint.
    pub supply: u128,
}

impl View for Token {
    type V = TokenM;

    open spec fn view(&self) -> TokenM {
        TokenM { id: self.token_id@, owner: self.owner_id@, supply: self.supply }
    }
}

impl Clone for Token {
    fn clone(&self) -> (r: Self)
        ensures
            r == *self,
    {
        Token {
            token_id: self.token_id.clone(),
            owner_id: self.owner_id.clone(),
            supply: self.supply,
        }
    }
}

} // verus!
