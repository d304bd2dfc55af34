//! The receiver capability a transfer-call notifies.

use vstd::prelude::*;
use crate::defi::{EscrowCall, ExchangeAction};
use crate::errors::Error;
use crate::token::{AccountId, TokenId};

verus! {

/// Implemented by contracts that receive funds through a transfer-call.
///
/// The receiver is notified after the move has already been applied. It
/// must validate that the caller is a ledger it trusts. Its answer is the
/// follow-up disbursement to run on its behalf; an error fails the
/// notification chain, which the settlement step reads as "nothing was
/// used" and reverses the whole transfer.
pub trait MultiTokenReceiver {
    fn mt_on_transfer(
        &mut self,
        caller_id: &AccountId,
        sender_id: &AccountId,
        token_ids: &Vec<TokenId>,
        amounts: &Vec<u128>,
        msg: Option<ExchangeAction>,
    ) -> Result<EscrowCall, Error>;
}

} // verus!
