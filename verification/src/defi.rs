//! The escrow exchange: a receiver of transfer-call notifications that
//! redistributes the funds it was sent and declares leftovers as change,
//! which the settlement step then returns to the original sender.

use vstd::prelude::*;
use crate::errors::Error;
use crate::token::{AccountId, TokenId};

verus! {

/// An application-defined exchange instruction, carried opaquely through a
/// transfer-call and interpreted by the escrow receiver. `counterpart_id`
/// names the account the swapped funds go on to.
pub enum ExchangeAction {
    /// Pass the listed amounts on to the counterpart; declare nothing
    /// unused.
    Swap { counterpart_id: AccountId, token_ids: Vec<TokenId>, amounts: Vec<u128> },
    /// Pass the listed amounts less the change on to the counterpart;
    /// declare the change unused, so settlement returns it to the sender.
    SwapWithChange {
        counterpart_id: AccountId,
        token_ids: Vec<TokenId>,
        amounts: Vec<u128>,
        change_amounts: Vec<u128>,
    },
    /// Abort deliberately, exercising the full-reversal path.
    Fail,
}

/// The disbursement the exchange asks the ledger to run on its behalf:
/// move `amounts` less `change_amounts` of each token from the escrow
/// account to `receiver_id`, and resolve with `change_amounts` unused.
pub struct EscrowCall {
    pub receiver_id: AccountId,
    pub token_ids: Vec<TokenId>,
    pub amounts: Vec<u128>,
    pub change_amounts: Vec<u128>,
}

/// The capability the escrow exchange consumes from the ledger: disburse
/// escrowed funds and hand the change declaration back to settlement.
pub trait EscrowTransfer {
    fn escrow_transfer(
        &mut self,
        sender_id: &AccountId,
        receiver_id: &AccountId,
        token_ids: &Vec<TokenId>,
        amounts: &Vec<u128>,
        change_amounts: Vec<u128>,
    ) -> Result<Vec<u128>, Error>;
}

/// The escrow exchange contract. It trusts notifications only from the one
/// ledger account it was constructed with.
pub struct DeFi {
    pub multi_token_account_id: AccountId,
}

impl DeFi {
    /// A new exchange trusting the given ledger account.
    pub fn new(multi_token_account_id: AccountId) -> (r: Self)
        ensures
            r.multi_token_account_id == multi_token_account_id,
    {
        DeFi { multi_token_account_id }
    }

    /// Acts on a transfer-call notification: refuses callers other than the
    /// trusted ledger, reads the exchange instruction, and answers with the
    /// escrow disbursement to run. `msg` is the instruction as parsed from
    /// the opaque payload; `None` stands for an unreadable payload. An error
    /// here fails the notification chain, which settlement reads as
    /// "nothing was used".
    pub fn mt_on_transfer(
        &mut self,
        caller_id: &AccountId,
        _sender_id: &AccountId,
        _token_ids: &Vec<TokenId>,
        _amounts: &Vec<u128>,
        msg: Option<ExchangeAction>,
    ) -> (r: Result<EscrowCall, Error>)
        ensures
            *final(self) == *old(self),
            caller_id@ != old(self).multi_token_account_id@ ==> r == Err::<EscrowCall, Error>(
                Error::UntrustedCaller,
            ),
            caller_id@ == old(self).multi_token_account_id@ ==> match msg {
                None => r == Err::<EscrowCall, Error>(Error::UnparseableMessage),
                Some(ExchangeAction::Fail) => r == Err::<EscrowCall, Error>(
                    Error::DeliberateFailure,
                ),
                Some(ExchangeAction::Swap { counterpart_id, token_ids, amounts }) => (r matches Ok(
                    c,
                ) && c.receiver_id == counterpart_id && c.token_ids == token_ids && c.amounts
                    == amounts && c.change_amounts@ == Seq::new(amounts@.len(), |k: int| 0u128)),
                Some(
                    ExchangeAction::SwapWithChange {
                        counterpart_id,
                        token_ids,
                        amounts,
                        change_amounts,
                    },
                ) => if amounts@.len() == change_amounts@.len() {
                    (r matches Ok(c) && c.receiver_id == counterpart_id && c.token_ids == token_ids
                        && c.amounts == amounts && c.change_amounts == change_amounts)
                } else {
                    r == Err::<EscrowCall, Error>(Error::MismatchedLengths)
                },
            },
    {
        if !(*caller_id == self.multi_token_account_id) {
            return Err(Error::UntrustedCaller);
        }
        match msg {
            None => Err(Error::UnparseableMessage),
            Some(ExchangeAction::Fail) => Err(Error::DeliberateFailure),
            Some(ExchangeAction::Swap { counterpart_id, token_ids, amounts }) => {
                let mut zeros: Vec<u128> = Vec::new();
                let mut i: usize = 0;
                while i < amounts.len()
                    invariant
                        i <= amounts@.len(),
                        zeros@ == Seq::new(i as nat, |k: int| 0u128),
                    decreases amounts@.len() - i,
                {
                    zeros.push(0);
                    proof {
                        assert(zeros@ =~= Seq::new((i + 1) as nat, |k: int| 0u128));
                    }
                    i += 1;
                }
                Ok(
                    EscrowCall {
                        receiver_id: counterpart_id,
                        token_ids,
                        amounts,
                        change_amounts: zeros,
                    },
                )
            },
            Some(
                ExchangeAction::SwapWithChange {
                    counterpart_id,
                    token_ids,
                    amounts,
                    change_amounts,
                },
            ) => {
                if amounts.len() != change_amounts.len() {
                    return Err(Error::MismatchedLengths);
                }
                Ok(EscrowCall { receiver_id: counterpart_id, token_ids, amounts, change_amounts })
            },
        }
    }
}

} // verus!
