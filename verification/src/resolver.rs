//! The settlement capability the ledger owes itself after every
//! transfer-call.

use vstd::prelude::*;
use crate::errors::Error;
use crate::token::{AccountId, TokenId};

verus! {

/// Finalizes the chain of calls a transfer-call starts.
///
/// The flow per saga: the ledger moves the funds, notifies the receiver,
/// and — once the receiver's own chain has completed, successfully or not —
/// settles by moving the reported unused amounts back. Settlement must be
/// callable only by the ledger contract itself, must treat a failed chain
/// as fully unused, and answers with the amounts the receiver kept.
pub trait MultiTokenResolver {
    fn mt_resolve_transfer(
        &mut self,
        caller_id: &AccountId,
        sender_id: &AccountId,
        receiver_id: &AccountId,
        token_ids: &Vec<TokenId>,
        amounts: &Vec<u128>,
        unused: Option<Vec<u128>>,
    ) -> Result<Vec<u128>, Error>;
}

} // verus!
