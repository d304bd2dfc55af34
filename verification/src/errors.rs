//! The ways a ledger, transfer or exchange operation can fail. Every public
//! operation reports failure through these variants instead of aborting, and
//! a failed operation leaves the ledger exactly as it found it.

use vstd::prelude::*;

verus! {

/// Why an operation was refused.
#[derive(Clone, Copy, Debug, PartialEq, Eq, Structural)]
pub enum Error {
    /// The caller lacks the identity the operation demands.
    Unauthorized,
    /// The token id was never minted.
    TokenNotFound,
    /// Sender and receiver are the same account.
    SameAccount,
    /// A transfer of zero tokens.
    ZeroAmount,
    /// The sender's balance is below the requested amount.
    InsufficientBalance,
    /// Crediting the receiver would leave the unsigned 128-bit range.
    Overflow,
    /// The token-id counter is exhausted; no further token can be minted.
    CounterOverflow,
    /// Two lists that must pair up element by element differ in length.
    MismatchedLengths,
    /// A notification came from an account that is not the trusted ledger.
    UntrustedCaller,
    /// The opaque message could not be read as an exchange instruction.
    UnparseableMessage,
    /// The exchange instruction asked for a deliberate abort.
    DeliberateFailure,
}

} // verus!
