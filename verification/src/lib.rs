//! A multi-asset fungible-token ledger with a two-phase transfer-call
//! protocol: a balance move is applied optimistically, the receiver is
//! notified, and a settlement step reconciles the ledger from the unused
//! amounts the receiver reports — reverting the move wholly or in part.

use vstd::prelude::*;

pub mod defi;
pub mod errors;
pub mod ids;
pub mod laws;
pub mod model;
pub mod receiver;
pub mod resolver;
pub mod token;

verus! {

pub use crate::defi::{DeFi, EscrowCall, EscrowTransfer, ExchangeAction};
pub use crate::errors::Error;
pub use crate::receiver::MultiTokenReceiver;
pub use crate::resolver::MultiTokenResolver;
pub use crate::token::{AccountId, Balance, Token, TokenId};
use crate::model::{
    balance_in, entry_matches, has_balance, has_token, keys_unique, move_bals, norm_unused,
    refund_of, set_balance, spec_batch, spec_escrow, spec_mint, spec_resolve, spec_transfer,
    supply_of, wf, BalM, LedgerV, TokenM,
};
use crate::model::{
    lemma_balance_entry, lemma_balance_zero, lemma_batch_err_persists, lemma_escrow_err_persists,
    lemma_has_balance_iff, lemma_has_token_iff, lemma_mint_preserves_wf, lemma_move_props,
    lemma_set_balance_balance, lemma_set_balance_update, lemma_supply_entry,
    lemma_two_balances_le_sum, lemma_wf_ids_unique,
};
use crate::ids::{dec_str, u64_to_dec};

/// The tokens a listing query reports for a list of ids: one read-model
/// entry per minted id, in the order asked for; ids never minted are left
/// out. The owner field of a read-model entry is not stored and carries no
/// authoritative meaning.
pub open spec fn token_list_v(tokens: Seq<TokenM>, ids: Seq<Seq<char>>) -> Seq<TokenM>
    decreases ids.len(),
{
    if ids.len() == 0 {
        Seq::empty()
    } else {
        let rest = token_list_v(tokens, ids.drop_last());
        if has_token(tokens, ids.last()) {
            rest.push(
                TokenM {
                    id: ids.last(),
                    owner: "not stored"@,
                    supply: supply_of(tokens, ids.last()),
                },
            )
        } else {
            rest
        }
    }
}

/// The registry entries whose minting-time owner is `owner`, in mint order.
pub open spec fn tokens_of_owner(tokens: Seq<Token>, owner: Seq<char>) -> Seq<Token>
    decreases tokens.len(),
{
    if tokens.len() == 0 {
        Seq::empty()
    } else {
        let rest = tokens_of_owner(tokens.drop_last(), owner);
        if tokens.last().owner_id@ == owner {
            rest.push(tokens.last())
        } else {
            rest
        }
    }
}

/// Where a page starts: the requested offset, clamped to the list's end;
/// no offset means the beginning.
pub open spec fn page_start(from_index: Option<u128>, len: int) -> int {
    let f = match from_index {
        Some(f) => f as int,
        None => 0,
    };
    if f < len {
        f
    } else {
        len
    }
}

/// Where a page ends: at most `limit` entries past `start`; no limit means
/// the list's end.
pub open spec fn page_end(start: int, limit: Option<u64>, len: int) -> int {
    match limit {
        Some(l) => if start + l < len {
            start + l
        } else {
            len
        },
        None => len,
    }
}

/// The page of `src` the offset and limit select.
fn page_of(src: &Vec<Token>, from_index: Option<u128>, limit: Option<u64>) -> (r: Vec<Token>)
    ensures
        r@ == src@.subrange(
            page_start(from_index, src@.len() as int),
            page_end(page_start(from_index, src@.len() as int), limit, src@.len() as int),
        ),
{
    let len = src.len();
    let start: usize = match from_index {
        None => 0,
        Some(f) => if f >= len as u128 {
            len
        } else {
            f as usize
        },
    };
    let end: usize = match limit {
        None => len,
        Some(l) => {
            let rem = len - start;
            if (l as u128) < (rem as u128) {
                start + (l as usize)
            } else {
                len
            }
        },
    };
    let mut out: Vec<Token> = Vec::new();
    let mut i = start;
    while i < end
        invariant
            start <= i <= end <= src@.len(),
            out@ == src@.subrange(start as int, i as int),
        decreases end - i,
    {
        out.push(src[i].clone());
        proof {
            assert(src@.subrange(start as int, i + 1) =~= src@.subrange(start as int, i as int).push(
                src@[i as int],
            ));
        }
        i += 1;
    }
    proof {
        assert(out@ =~= src@.subrange(
            page_start(from_index, src@.len() as int),
            page_end(page_start(from_index, src@.len() as int), limit, src@.len() as int),
        ));
    }
    out
}

/// The continuation context a transfer-call schedules: who must be
/// notified with what, and the settlement the ledger owes afterwards.
/// The notification carries (`sender_id`, `token_ids`, `amounts`, `msg`)
/// to `receiver_id`; settlement reads the same ids and amounts back.
pub struct PendingTransfer {
    pub sender_id: AccountId,
    pub receiver_id: AccountId,
    pub token_ids: Vec<TokenId>,
    pub amounts: Vec<u128>,
    pub msg: String,
}

/// Storage key prefixes, one per persistent collection of the contract.
pub enum KeyPrefix {
    BalancesPerAccount { token_id: Vec<u8> },
    TotalSupply,
    BalancesPerToken,
    Token,
    OwnerByTokenId,
    TokensPerOwner,
    OwnerTokens,
}

/// One row of the flattened balance table: `account_id` holds `amount`
/// of the token `token_id`.
pub struct BalanceEntry {
    pub token_id: TokenId,
    pub account_id: AccountId,
    pub amount: u128,
}

impl View for BalanceEntry {
    type V = BalM;

    open spec fn view(&self) -> BalM {
        BalM { token: self.token_id@, account: self.account_id@, amount: self.amount }
    }
}

/// The multi-token ledger: the admin account, the ledger's own account id
/// (settlement is restricted to it), the token registry in mint order, the
/// balance table, and the token-id counter.
pub struct MultiTokenContract {
    pub owner_id: AccountId,
    pub contract_id: AccountId,
    pub tokens: Vec<Token>,
    pub balances: Vec<BalanceEntry>,
    pub next_token_id: u64,
}

impl View for MultiTokenContract {
    type V = LedgerV;

    open spec fn view(&self) -> LedgerV {
        LedgerV {
            owner: self.owner_id@,
            contract: self.contract_id@,
            tokens: self.tokens@.map_values(|t: Token| t@),
            bals: self.balances@.map_values(|b: BalanceEntry| b@),
            next: self.next_token_id,
        }
    }
}

impl MultiTokenContract {
    /// Creates a new, empty multi-token ledger.
    ///
    /// `owner_id` is the only account allowed to mint; `contract_id` is the
    /// account the ledger itself runs under, the only caller settlement
    /// accepts.
    pub fn new(owner_id: AccountId, contract_id: AccountId) -> (r: Self)
        ensures
            wf(r@),
            r@.owner == owner_id@,
            r@.contract == contract_id@,
            r@.tokens.len() == 0,
            r@.bals.len() == 0,
            r@.next == 0,
    {
        let r = MultiTokenContract {
            owner_id,
            contract_id,
            tokens: Vec::new(),
            balances: Vec::new(),
            next_token_id: 0,
        };
        proof {
            assert(r@.tokens =~= Seq::<TokenM>::empty());
            assert(r@.bals =~= Seq::<BalM>::empty());
        }
        r
    }

    /// The index of the registry entry for `token_id`, if it was minted.
    fn find_token(&self, token_id: &TokenId) -> (r: Option<usize>)
        ensures
            match r {
                Some(i) => i < self.tokens@.len() && self@.tokens[i as int].id == token_id@
                    && has_token(self@.tokens, token_id@),
                None => !has_token(self@.tokens, token_id@),
            },
    {
        let mut i: usize = 0;
        while i < self.tokens.len()
            invariant
                i <= self.tokens@.len(),
                forall|j: int| 0 <= j < i ==> (#[trigger] self@.tokens[j]).id != token_id@,
            decreases self.tokens@.len() - i,
        {
            if self.tokens[i].token_id == *token_id {
                proof {
                    lemma_has_token_iff(self@.tokens, token_id@);
                }
                return Some(i);
            }
            i += 1;
        }
        proof {
            lemma_has_token_iff(self@.tokens, token_id@);
        }
        None
    }

    /// The index of the balance row for (`token_id`, `account_id`), if any.
    fn find_balance(&self, token_id: &TokenId, account_id: &AccountId) -> (r: Option<usize>)
        ensures
            match r {
                Some(i) => i < self.balances@.len() && entry_matches(
                    self@.bals[i as int],
                    token_id@,
                    account_id@,
                ),
                None => !has_balance(self@.bals, token_id@, account_id@),
            },
    {
        let mut i: usize = 0;
        while i < self.balances.len()
            invariant
                i <= self.balances@.len(),
                forall|j: int|
                    0 <= j < i ==> !entry_matches(#[trigger] self@.bals[j], token_id@, account_id@),
            decreases self.balances@.len() - i,
        {
            if self.balances[i].token_id == *token_id && self.balances[i].account_id == *account_id {
                return Some(i);
            }
            i += 1;
        }
        proof {
            lemma_has_balance_iff(self@.bals, token_id@, account_id@);
        }
        None
    }

    /// The balance of `account_id` in `token_id`; an absent row means 0.
    fn balance_amount(&self, token_id: &TokenId, account_id: &AccountId) -> (r: u128)
        requires
            keys_unique(self@.bals),
        ensures
            r == balance_in(self@.bals, token_id@, account_id@),
    {
        match self.find_balance(token_id, account_id) {
            Some(i) => {
                proof {
                    lemma_balance_entry(self@.bals, token_id@, account_id@, i as int);
                }
                self.balances[i].amount
            },
            None => {
                proof {
                    lemma_balance_zero(self@.bals, token_id@, account_id@);
                }
                0
            },
        }
    }

    /// Applies a fully checked move of `amount` from sender to receiver.
    fn internal_move(
        &mut self,
        sender_id: &AccountId,
        receiver_id: &AccountId,
        token_id: &TokenId,
        amount: u128,
    )
        requires
            wf(old(self)@),
            sender_id@ != receiver_id@,
            amount > 0,
            has_token(old(self)@.tokens, token_id@),
            balance_in(old(self)@.bals, token_id@, sender_id@) >= amount,
            balance_in(old(self)@.bals, token_id@, receiver_id@) + amount <= u128::MAX,
        ensures
            wf(final(self)@),
            final(self)@ == (LedgerV {
                bals: move_bals(old(self)@.bals, sender_id@, receiver_id@, token_id@, amount),
                ..old(self)@
            }),
    {
        let ghost b0 = self@.bals;
        let ghost tks = self@.tokens;
        proof {
            lemma_move_props(b0, tks, sender_id@, receiver_id@, token_id@, amount);
        }
        let ghost v1 = (balance_in(b0, token_id@, sender_id@) - amount) as u128;
        let ghost b1 = set_balance(b0, token_id@, sender_id@, v1);
        // Debit the sender; the row exists because its balance is positive.
        let si = match self.find_balance(token_id, sender_id) {
            Some(i) => i,
            None => {
                proof {
                    lemma_balance_zero(b0, token_id@, sender_id@);
                    assert(false);
                }
                0
            },
        };
        proof {
            lemma_balance_entry(b0, token_id@, sender_id@, si as int);
        }
        let cur = self.balances[si].amount;
        self.balances[si].amount = cur - amount;
        proof {
            lemma_set_balance_update(b0, token_id@, sender_id@, v1, si as int);
            assert(self@.bals =~= b1);
        }
        // Credit the receiver, appending a row if there is none yet.
        let ghost v2 = (balance_in(b0, token_id@, receiver_id@) + amount) as u128;
        proof {
            lemma_set_balance_balance(b0, token_id@, sender_id@, v1, token_id@, receiver_id@);
        }
        match self.find_balance(token_id, receiver_id) {
            Some(ri) => {
                proof {
                    crate::model::lemma_set_balance_unique(b0, token_id@, sender_id@, v1);
                    lemma_balance_entry(b1, token_id@, receiver_id@, ri as int);
                }
                let rcur = self.balances[ri].amount;
                self.balances[ri].amount = rcur + amount;
                proof {
                    crate::model::lemma_set_balance_unique(b0, token_id@, sender_id@, v1);
                    lemma_set_balance_update(b1, token_id@, receiver_id@, v2, ri as int);
                    assert(self@.bals =~= set_balance(b1, token_id@, receiver_id@, v2));
                }
            },
            None => {
                proof {
                    lemma_balance_zero(b1, token_id@, receiver_id@);
                }
                self.balances.push(
                    BalanceEntry {
                        token_id: token_id.clone(),
                        account_id: receiver_id.clone(),
                        amount,
                    },
                );
                proof {
                    assert(self@.bals =~= set_balance(b1, token_id@, receiver_id@, v2));
                }
            },
        }
        proof {
            assert(final(self)@ =~= (LedgerV {
                bals: move_bals(b0, sender_id@, receiver_id@, token_id@, amount),
                ..old(self)@
            }));
            // The invariant survives: keys stay unique, rows stay minted,
            // and every token's total is untouched by the move.
            assert forall|k: int| 0 <= k < final(self)@.tokens.len() implies crate::model::sum_for(
                final(self)@.bals,
                (#[trigger] final(self)@.tokens[k]).id,
            ) == final(self)@.tokens[k].supply as int by {
                assert(crate::model::sum_for(final(self)@.bals, final(self)@.tokens[k].id)
                    == crate::model::sum_for(b0, final(self)@.tokens[k].id));
            }
        }
    }

    /// Transfers `amount` of `token_id` from the sender to the receiver.
    ///
    /// Fails — leaving every balance as it was — when sender and receiver
    /// coincide, the amount is zero, the token was never minted, the
    /// sender's balance is short, or the receiver's balance would leave the
    /// unsigned 128-bit range; otherwise it debits the sender and credits
    /// the receiver atomically.
    pub fn mt_transfer(
        &mut self,
        sender_id: &AccountId,
        receiver_id: &AccountId,
        token_id: &TokenId,
        amount: u128,
        _memo: Option<String>,
    ) -> (r: Result<(), Error>)
        requires
            wf(old(self)@),
        ensures
            wf(final(self)@),
            match spec_transfer(old(self)@, sender_id@, receiver_id@, token_id@, amount) {
                Ok(l2) => r is Ok && final(self)@ == l2,
                Err(e) => r == Err::<(), Error>(e) && final(self)@ == old(self)@,
            },
    {
        if *sender_id == *receiver_id {
            return Err(Error::SameAccount);
        }
        if amount == 0 {
            return Err(Error::ZeroAmount);
        }
        if self.find_token(token_id).is_none() {
            return Err(Error::TokenNotFound);
        }
        let sb = self.balance_amount(token_id, sender_id);
        if sb < amount {
            return Err(Error::InsufficientBalance);
        }
        let rb = self.balance_amount(token_id, receiver_id);
        if rb > u128::MAX - amount {
            return Err(Error::Overflow);
        }
        self.internal_move(sender_id, receiver_id, token_id, amount);
        Ok(())
    }

    /// The total supply of `token_id`, if it was minted.
    pub fn mt_supply(&self, token_id: &TokenId) -> (r: Option<u128>)
        requires
            wf(self@),
        ensures
            r == if has_token(self@.tokens, token_id@) {
                Some(supply_of(self@.tokens, token_id@))
            } else {
                None::<u128>
            },
    {
        match self.find_token(token_id) {
            Some(i) => {
                proof {
                    lemma_wf_ids_unique(self@);
                    lemma_supply_entry(self@.tokens, token_id@, i as int);
                }
                Some(self.tokens[i].supply)
            },
            None => None,
        }
    }

    /// The total supply of each listed token id, in order.
    pub fn mt_batch_supply(&self, token_ids: &Vec<TokenId>) -> (r: Vec<Option<u128>>)
        requires
            wf(self@),
        ensures
            r@.len() == token_ids@.len(),
            forall|i: int|
                0 <= i < r@.len() ==> r@[i] == (if has_token(
                    self@.tokens,
                    (#[trigger] token_ids@[i])@,
                ) {
                    Some(supply_of(self@.tokens, token_ids@[i]@))
                } else {
                    None::<u128>
                }),
    {
        let mut out: Vec<Option<u128>> = Vec::new();
        let mut i: usize = 0;
        while i < token_ids.len()
            invariant
                wf(self@),
                i <= token_ids@.len(),
                out@.len() == i,
                forall|j: int|
                    0 <= j < i ==> out@[j] == (if has_token(
                        self@.tokens,
                        (#[trigger] token_ids@[j])@,
                    ) {
                        Some(supply_of(self@.tokens, token_ids@[j]@))
                    } else {
                        None::<u128>
                    }),
            decreases token_ids@.len() - i,
        {
            let s = self.mt_supply(&token_ids[i]);
            out.push(s);
            i += 1;
        }
        out
    }

    /// The balance of `account_id` in `token_id`: 0 for an account with no
    /// recorded row; an error when the token itself was never minted.
    pub fn mt_balance_of(&self, account_id: &AccountId, token_id: &TokenId) -> (r: Result<
        u128,
        Error,
    >)
        requires
            wf(self@),
        ensures
            has_token(self@.tokens, token_id@) ==> r == Ok::<u128, Error>(
                balance_in(self@.bals, token_id@, account_id@),
            ),
            !has_token(self@.tokens, token_id@) ==> r == Err::<u128, Error>(Error::TokenNotFound),
    {
        match self.find_token(token_id) {
            None => Err(Error::TokenNotFound),
            Some(_) => Ok(self.balance_amount(token_id, account_id)),
        }
    }

    /// The balances of `account_id` in each listed token, in order; an
    /// error when any listed token was never minted.
    pub fn mt_batch_balance_of(&self, account_id: &AccountId, token_ids: &Vec<TokenId>) -> (r:
        Result<Vec<u128>, Error>)
        requires
            wf(self@),
        ensures
            (forall|i: int|
                0 <= i < token_ids@.len() ==> has_token(self@.tokens, (#[trigger] token_ids@[i])@))
                ==> (r matches Ok(v) && v@.len() == token_ids@.len() && forall|i: int|
                0 <= i < token_ids@.len() ==> v@[i] == balance_in(
                    self@.bals,
                    (#[trigger] token_ids@[i])@,
                    account_id@,
                )),
            (exists|i: int|
                0 <= i < token_ids@.len() && !has_token(
                    self@.tokens,
                    (#[trigger] token_ids@[i])@,
                )) ==> r == Err::<Vec<u128>, Error>(Error::TokenNotFound),
    {
        let mut out: Vec<u128> = Vec::new();
        let mut i: usize = 0;
        while i < token_ids.len()
            invariant
                wf(self@),
                i <= token_ids@.len(),
                out@.len() == i,
                forall|j: int|
                    0 <= j < i ==> has_token(self@.tokens, (#[trigger] token_ids@[j])@),
                forall|j: int|
                    0 <= j < i ==> out@[j] == balance_in(
                        self@.bals,
                        (#[trigger] token_ids@[j])@,
                        account_id@,
                    ),
            decreases token_ids@.len() - i,
        {
            match self.mt_balance_of(account_id, &token_ids[i]) {
                Ok(b) => {
                    out.push(b);
                },
                Err(e) => {
                    return Err(e);
                },
            }
            i += 1;
        }
        Ok(out)
    }

    /// The read model of `token_id`, if it was minted. The owner field is
    /// not stored and carries no authoritative meaning.
    pub fn mt_token(&self, token_id: TokenId) -> (r: Option<Token>)
        requires
            wf(self@),
        ensures
            match r {
                Some(t) => has_token(self@.tokens, token_id@) && t@ == (TokenM {
                    id: token_id@,
                    owner: "not stored"@,
                    supply: supply_of(self@.tokens, token_id@),
                }),
                None => !has_token(self@.tokens, token_id@),
            },
    {
        match self.mt_supply(&token_id) {
            Some(supply) => {
                let t = Token { token_id, owner_id: "not stored".to_owned(), supply };
                proof {
                    assert(t@ =~= (TokenM {
                        id: t.token_id@,
                        owner: "not stored"@,
                        supply: t.supply,
                    }));
                }
                Some(t)
            },
            None => None,
        }
    }

    /// The read models of the listed ids that were minted, in the order
    /// asked for.
    pub fn mt_token_list(&self, token_ids: &Vec<TokenId>) -> (r: Vec<Token>)
        requires
            wf(self@),
        ensures
            r@.map_values(|t: Token| t@) == token_list_v(self@.tokens, token_ids.deep_view()),
    {
        let mut out: Vec<Token> = Vec::new();
        let mut i: usize = 0;
        while i < token_ids.len()
            invariant
                wf(self@),
                i <= token_ids@.len(),
                out@.map_values(|t: Token| t@) == token_list_v(
                    self@.tokens,
                    token_ids.deep_view().take(i as int),
                ),
            decreases token_ids@.len() - i,
        {
            let ghost prefix = token_ids.deep_view().take(i as int);
            let ghost prefix2 = token_ids.deep_view().take(i + 1);
            match self.mt_token(token_ids[i].clone()) {
                Some(t) => {
                    out.push(t);
                },
                None => {},
            }
            proof {
                assert(prefix2.drop_last() =~= prefix);
                assert(prefix2.last() == token_ids@[i as int]@);
                assert(out@.map_values(|t: Token| t@) =~= token_list_v(self@.tokens, prefix2));
            }
            i += 1;
        }
        proof {
            assert(token_ids.deep_view().take(token_ids@.len() as int) =~= token_ids.deep_view());
        }
        out
    }

    /// All minted tokens in mint order, narrowed to the page the offset and
    /// limit select.
    pub fn mt_tokens(&self, from_index: Option<u128>, limit: Option<u64>) -> (r: Vec<Token>)
        ensures
            r@ == self.tokens@.subrange(
                page_start(from_index, self.tokens@.len() as int),
                page_end(
                    page_start(from_index, self.tokens@.len() as int),
                    limit,
                    self.tokens@.len() as int,
                ),
            ),
    {
        page_of(&self.tokens, from_index, limit)
    }

    /// The tokens whose minting-time owner is `account_id`, in mint order,
    /// narrowed to the page the offset and limit select. The reverse index
    /// is derived from the registry's minting-time owners; transfers do not
    /// move a token between owners' listings.
    pub fn mt_tokens_for_owner(
        &self,
        account_id: &AccountId,
        from_index: Option<u128>,
        limit: Option<u64>,
    ) -> (r: Vec<Token>)
        ensures
            ({
                let owned = tokens_of_owner(self.tokens@, account_id@);
                r@ == owned.subrange(
                    page_start(from_index, owned.len() as int),
                    page_end(page_start(from_index, owned.len() as int), limit, owned.len() as int),
                )
            }),
    {
        let mut owned: Vec<Token> = Vec::new();
        let mut i: usize = 0;
        while i < self.tokens.len()
            invariant
                i <= self.tokens@.len(),
                owned@ == tokens_of_owner(self.tokens@.take(i as int), account_id@),
            decreases self.tokens@.len() - i,
        {
            let ghost prefix = self.tokens@.take(i as int);
            let ghost prefix2 = self.tokens@.take(i + 1);
            if self.tokens[i].owner_id == *account_id {
                owned.push(self.tokens[i].clone());
            }
            proof {
                assert(prefix2.drop_last() =~= prefix);
                assert(owned@ =~= tokens_of_owner(prefix2, account_id@));
            }
            i += 1;
        }
        proof {
            assert(self.tokens@.take(self.tokens@.len() as int) =~= self.tokens@);
        }
        page_of(&owned, from_index, limit)
    }

    /// Mints a new token. Only the admin account may mint (`Unauthorized`
    /// otherwise); a fresh id is drawn from the counter (`CounterOverflow`
    /// when it is exhausted), the supply is recorded, and the whole supply
    /// is credited to `token_owner_id`. On any failure nothing changes.
    pub fn mt_mint(&mut self, caller_id: &AccountId, token_owner_id: AccountId, supply: u128) -> (r:
        Result<Token, Error>)
        requires
            wf(old(self)@),
        ensures
            wf(final(self)@),
            match spec_mint(old(self)@, caller_id@, token_owner_id@, supply) {
                Ok(pair) => r matches Ok(t) && final(self)@ == pair.0 && t@ == pair.1,
                Err(e) => r == Err::<Token, Error>(e) && final(self)@ == old(self)@,
            },
    {
        if !(*caller_id == self.owner_id) {
            return Err(Error::Unauthorized);
        }
        if self.next_token_id == u64::MAX {
            return Err(Error::CounterOverflow);
        }
        let ghost l0 = self@;
        self.next_token_id = self.next_token_id + 1;
        let token_id = u64_to_dec(self.next_token_id);
        let token = Token { token_id: token_id.clone(), owner_id: token_owner_id.clone(), supply };
        let registry_entry = token.clone();
        self.tokens.push(registry_entry);
        self.balances.push(BalanceEntry { token_id, account_id: token_owner_id, amount: supply });
        proof {
            let id = dec_str((l0.next + 1) as nat);
            let tok = TokenM { id, owner: token.owner_id@, supply };
            assert(final(self)@.tokens =~= l0.tokens.push(tok));
            assert(final(self)@.bals =~= l0.bals.push(
                BalM { token: id, account: token.owner_id@, amount: supply },
            ));
            lemma_mint_preserves_wf(l0, caller_id@, token.owner_id@, supply);
            assert(final(self)@ =~= spec_mint(l0, caller_id@, token.owner_id@, supply)->Ok_0.0);
        }
        Ok(token)
    }

    /// A copy of the balance table, for restoring it when a batch aborts.
    fn clone_balances(&self) -> (r: Vec<BalanceEntry>)
        ensures
            r@ == self.balances@,
    {
        let mut r: Vec<BalanceEntry> = Vec::new();
        let mut i: usize = 0;
        while i < self.balances.len()
            invariant
                i <= self.balances@.len(),
                r@ == self.balances@.subrange(0, i as int),
            decreases self.balances@.len() - i,
        {
            let e = &self.balances[i];
            r.push(
                BalanceEntry {
                    token_id: e.token_id.clone(),
                    account_id: e.account_id.clone(),
                    amount: e.amount,
                },
            );
            proof {
                assert(self.balances@.subrange(0, i + 1) =~= self.balances@.subrange(
                    0,
                    i as int,
                ).push(self.balances@[i as int]));
            }
            i += 1;
        }
        proof {
            assert(self.balances@.subrange(0, self.balances@.len() as int) =~= self.balances@);
        }
        r
    }

    /// Transfers several tokens from the sender to one receiver, applying
    /// the single transfers in order. The id and amount lists must pair up;
    /// on any failure the whole batch is discarded and every balance is as
    /// it was before the call.
    pub fn mt_batch_transfer(
        &mut self,
        sender_id: &AccountId,
        receiver_id: &AccountId,
        token_ids: &Vec<TokenId>,
        amounts: &Vec<u128>,
        _memo: Option<String>,
    ) -> (r: Result<(), Error>)
        requires
            wf(old(self)@),
        ensures
            wf(final(self)@),
            token_ids@.len() != amounts@.len() ==> r == Err::<(), Error>(Error::MismatchedLengths)
                && final(self)@ == old(self)@,
            token_ids@.len() == amounts@.len() ==> match spec_batch(
                old(self)@,
                sender_id@,
                receiver_id@,
                token_ids.deep_view(),
                amounts@,
            ) {
                Ok(l2) => r is Ok && final(self)@ == l2,
                Err(e) => r == Err::<(), Error>(e) && final(self)@ == old(self)@,
            },
    {
        if token_ids.len() != amounts.len() {
            return Err(Error::MismatchedLengths);
        }
        let saved = self.clone_balances();
        let mut i: usize = 0;
        while i < token_ids.len()
            invariant
                wf(old(self)@),
                wf(self@),
                i <= token_ids@.len(),
                token_ids@.len() == amounts@.len(),
                saved@ == old(self).balances@,
                self@.owner == old(self)@.owner,
                self@.contract == old(self)@.contract,
                self@.tokens == old(self)@.tokens,
                self@.next == old(self)@.next,
                spec_batch(
                    old(self)@,
                    sender_id@,
                    receiver_id@,
                    token_ids.deep_view().take(i as int),
                    amounts@.take(i as int),
                ) == Ok::<LedgerV, Error>(self@),
            decreases token_ids@.len() - i,
        {
            let ghost ids_pre = token_ids.deep_view().take(i as int);
            let ghost ids_now = token_ids.deep_view().take(i + 1);
            let ghost amts_pre = amounts@.take(i as int);
            let ghost amts_now = amounts@.take(i + 1);
            proof {
                assert(ids_now.drop_last() =~= ids_pre);
                assert(amts_now.drop_last() =~= amts_pre);
            }
            match self.mt_transfer(sender_id, receiver_id, &token_ids[i], amounts[i], None) {
                Ok(_) => {},
                Err(e) => {
                    proof {
                        lemma_batch_err_persists(
                            old(self)@,
                            sender_id@,
                            receiver_id@,
                            token_ids.deep_view(),
                            amounts@,
                            i + 1,
                            e,
                        );
                    }
                    self.balances = saved;
                    proof {
                        assert(self@ =~= old(self)@);
                    }
                    return Err(e);
                },
            }
            i += 1;
        }
        proof {
            assert(token_ids.deep_view().take(token_ids@.len() as int) =~= token_ids.deep_view());
            assert(amounts@.take(amounts@.len() as int) =~= amounts@);
        }
        Ok(())
    }

    /// Transfers one token amount and schedules the two-step continuation
    /// — notify the receiver, then settle — that the saga owes. The move is
    /// applied optimistically before the notification; settlement later
    /// reverses whatever the receiver reports unused.
    pub fn mt_transfer_call(
        &mut self,
        sender_id: &AccountId,
        receiver_id: &AccountId,
        token_id: &TokenId,
        amount: u128,
        _memo: Option<String>,
        msg: String,
    ) -> (r: Result<PendingTransfer, Error>)
        requires
            wf(old(self)@),
        ensures
            wf(final(self)@),
            match spec_transfer(old(self)@, sender_id@, receiver_id@, token_id@, amount) {
                Ok(l2) => r matches Ok(p) && final(self)@ == l2 && p.sender_id@ == sender_id@
                    && p.receiver_id@ == receiver_id@ && p.token_ids.deep_view() == seq![token_id@]
                    && p.amounts@ == seq![amount] && p.msg@ == msg@,
                Err(e) => r matches Err(e2) && e2 == e && final(self)@ == old(self)@,
            },
    {
        match self.mt_transfer(sender_id, receiver_id, token_id, amount, None) {
            Err(e) => Err(e),
            Ok(_) => {
                let mut tids: Vec<TokenId> = Vec::new();
                tids.push(token_id.clone());
                let mut amts: Vec<u128> = Vec::new();
                amts.push(amount);
                proof {
                    assert(tids.deep_view() =~= seq![token_id@]);
                    assert(amts@ =~= seq![amount]);
                }
                Ok(
                    PendingTransfer {
                        sender_id: sender_id.clone(),
                        receiver_id: receiver_id.clone(),
                        token_ids: tids,
                        amounts: amts,
                        msg,
                    },
                )
            },
        }
    }

    /// Transfers several tokens as one batch and schedules the two-step
    /// continuation — notify the receiver, then settle — that the saga
    /// owes. On any failure nothing is scheduled and nothing moves.
    pub fn mt_batch_transfer_call(
        &mut self,
        sender_id: &AccountId,
        receiver_id: &AccountId,
        token_ids: Vec<TokenId>,
        amounts: Vec<u128>,
        _memo: Option<String>,
        msg: String,
    ) -> (r: Result<PendingTransfer, Error>)
        requires
            wf(old(self)@),
        ensures
            wf(final(self)@),
            token_ids@.len() != amounts@.len() ==> (r matches Err(e2) && e2
                == Error::MismatchedLengths && final(self)@ == old(self)@),
            token_ids@.len() == amounts@.len() ==> match spec_batch(
                old(self)@,
                sender_id@,
                receiver_id@,
                token_ids.deep_view(),
                amounts@,
            ) {
                Ok(l2) => r matches Ok(p) && final(self)@ == l2 && p.sender_id@ == sender_id@
                    && p.receiver_id@ == receiver_id@ && p.token_ids.deep_view()
                    == token_ids.deep_view() && p.amounts@ == amounts@ && p.msg@ == msg@,
                Err(e) => r matches Err(e2) && e2 == e && final(self)@ == old(self)@,
            },
    {
        match self.mt_batch_transfer(sender_id, receiver_id, &token_ids, &amounts, None) {
            Err(e) => Err(e),
            Ok(_) => Ok(
                PendingTransfer {
                    sender_id: sender_id.clone(),
                    receiver_id: receiver_id.clone(),
                    token_ids,
                    amounts,
                    msg,
                },
            ),
        }
    }

    /// Settles a transfer-call once its notification chain has completed.
    ///
    /// Only the ledger's own account may call this. `unused` is what the
    /// chain reported: `None` (or a report that does not pair up with the
    /// amounts) stands for a failed chain and reverses everything; a report
    /// of `u` per token moves `u` back — clamped to the transferred amount
    /// and to what the receiver still holds. Returns, per token, the amount
    /// the receiver kept.
    pub fn mt_resolve_transfer(
        &mut self,
        caller_id: &AccountId,
        sender_id: &AccountId,
        receiver_id: &AccountId,
        token_ids: &Vec<TokenId>,
        amounts: &Vec<u128>,
        unused: Option<Vec<u128>>,
    ) -> (r: Result<Vec<u128>, Error>)
        requires
            wf(old(self)@),
        ensures
            wf(final(self)@),
            caller_id@ != old(self)@.contract ==> r == Err::<Vec<u128>, Error>(Error::Unauthorized)
                && final(self)@ == old(self)@,
            caller_id@ == old(self)@.contract && token_ids@.len() != amounts@.len() ==> r
                == Err::<Vec<u128>, Error>(Error::MismatchedLengths) && final(self)@ == old(self)@,
            caller_id@ == old(self)@.contract && token_ids@.len() == amounts@.len() && sender_id@
                == receiver_id@ ==> r == Err::<Vec<u128>, Error>(Error::SameAccount)
                && final(self)@ == old(self)@,
            caller_id@ == old(self)@.contract && token_ids@.len() == amounts@.len() && sender_id@
                != receiver_id@ ==> ({
                let (l2, kept) = spec_resolve(
                    old(self)@,
                    sender_id@,
                    receiver_id@,
                    token_ids.deep_view(),
                    amounts@,
                    norm_unused(unused, amounts@),
                );
                r matches Ok(v) && v@ == kept && final(self)@ == l2
            }),
    {
        if !(*caller_id == self.contract_id) {
            return Err(Error::Unauthorized);
        }
        if token_ids.len() != amounts.len() {
            return Err(Error::MismatchedLengths);
        }
        if *sender_id == *receiver_id {
            return Err(Error::SameAccount);
        }
        let un: &Vec<u128> = match &unused {
            Some(v) => if v.len() == amounts.len() {
                v
            } else {
                amounts
            },
            None => amounts,
        };
        proof {
            assert(un@ =~= norm_unused(unused, amounts@));
        }
        let mut kept: Vec<u128> = Vec::new();
        let mut i: usize = 0;
        while i < token_ids.len()
            invariant
                wf(self@),
                i <= token_ids@.len(),
                token_ids@.len() == amounts@.len(),
                un@.len() == amounts@.len(),
                un@ == norm_unused(unused, amounts@),
                sender_id@ != receiver_id@,
                ({
                    let (lm, km) = spec_resolve(
                        old(self)@,
                        sender_id@,
                        receiver_id@,
                        token_ids.deep_view().take(i as int),
                        amounts@.take(i as int),
                        un@.take(i as int),
                    );
                    self@ == lm && kept@ == km
                }),
            decreases token_ids@.len() - i,
        {
            let ghost ids_pre = token_ids.deep_view().take(i as int);
            let ghost ids_now = token_ids.deep_view().take(i + 1);
            let ghost amts_pre = amounts@.take(i as int);
            let ghost amts_now = amounts@.take(i + 1);
            let ghost un_pre = un@.take(i as int);
            let ghost un_now = un@.take(i + 1);
            proof {
                assert(ids_now.drop_last() =~= ids_pre);
                assert(amts_now.drop_last() =~= amts_pre);
                assert(un_now.drop_last() =~= un_pre);
            }
            let t = &token_ids[i];
            let a = amounts[i];
            let u = un[i];
            let cap = if u < a {
                u
            } else {
                a
            };
            let rb = self.balance_amount(t, receiver_id);
            let refund = if cap < rb {
                cap
            } else {
                rb
            };
            proof {
                assert(refund == refund_of(self@, receiver_id@, t@, a, u));
            }
            if refund > 0 {
                proof {
                    // The receiver's row exists and its token is minted.
                    lemma_balance_zero(self@.bals, t@, receiver_id@);
                    lemma_has_balance_iff(self@.bals, t@, receiver_id@);
                    let j = choose|j: int|
                        0 <= j < self@.bals.len() && entry_matches(
                            #[trigger] self@.bals[j],
                            t@,
                            receiver_id@,
                        );
                    assert(has_token(self@.tokens, t@));
                    // Crediting the sender stays in range: the two rows
                    // together never exceed the token's fixed supply.
                    lemma_two_balances_le_sum(self@.bals, t@, receiver_id@, sender_id@);
                    lemma_has_token_iff(self@.tokens, t@);
                    let k = choose|k: int|
                        0 <= k < self@.tokens.len() && (#[trigger] self@.tokens[k]).id == t@;
                    assert(crate::model::sum_for(self@.bals, t@) == self@.tokens[k].supply as int);
                }
                self.internal_move(receiver_id, sender_id, t, refund);
            }
            kept.push(a - refund);
            proof {
                let (lm, km) = spec_resolve(
                    old(self)@,
                    sender_id@,
                    receiver_id@,
                    ids_now,
                    amts_now,
                    un_now,
                );
                assert(self@ =~= lm);
                assert(kept@ =~= km);
            }
            i += 1;
        }
        proof {
            assert(token_ids.deep_view().take(token_ids@.len() as int) =~= token_ids.deep_view());
            assert(amounts@.take(amounts@.len() as int) =~= amounts@);
            assert(un@.take(un@.len() as int) =~= un@);
        }
        Ok(kept)
    }

    /// Disburses escrowed funds: per token, in order, passes the received
    /// amount less the declared change on from the escrow account to the
    /// exchange counterpart, and hands the change declaration back for the
    /// settlement step. The three lists must pair up; on any failure the
    /// whole disbursement is discarded.
    pub fn escrow_transfer(
        &mut self,
        sender_id: &AccountId,
        receiver_id: &AccountId,
        token_ids: &Vec<TokenId>,
        amounts: &Vec<u128>,
        change_amounts: Vec<u128>,
    ) -> (r: Result<Vec<u128>, Error>)
        requires
            wf(old(self)@),
        ensures
            wf(final(self)@),
            token_ids@.len() != amounts@.len() || amounts@.len() != change_amounts@.len() ==> r
                == Err::<Vec<u128>, Error>(Error::MismatchedLengths) && final(self)@ == old(self)@,
            token_ids@.len() == amounts@.len() && amounts@.len() == change_amounts@.len()
                ==> match spec_escrow(
                old(self)@,
                sender_id@,
                receiver_id@,
                token_ids.deep_view(),
                amounts@,
                change_amounts@,
            ) {
                Ok(l2) => r matches Ok(v) && v@ == change_amounts@ && final(self)@ == l2,
                Err(e) => r matches Err(e2) && e2 == e && final(self)@ == old(self)@,
            },
    {
        if token_ids.len() != amounts.len() || amounts.len() != change_amounts.len() {
            return Err(Error::MismatchedLengths);
        }
        let saved = self.clone_balances();
        let mut i: usize = 0;
        while i < token_ids.len()
            invariant
                wf(old(self)@),
                wf(self@),
                i <= token_ids@.len(),
                token_ids@.len() == amounts@.len(),
                amounts@.len() == change_amounts@.len(),
                saved@ == old(self).balances@,
                self@.owner == old(self)@.owner,
                self@.contract == old(self)@.contract,
                self@.tokens == old(self)@.tokens,
                self@.next == old(self)@.next,
                spec_escrow(
                    old(self)@,
                    sender_id@,
                    receiver_id@,
                    token_ids.deep_view().take(i as int),
                    amounts@.take(i as int),
                    change_amounts@.take(i as int),
                ) == Ok::<LedgerV, Error>(self@),
            decreases token_ids@.len() - i,
        {
            let ghost ids_pre = token_ids.deep_view().take(i as int);
            let ghost ids_now = token_ids.deep_view().take(i + 1);
            let ghost amts_pre = amounts@.take(i as int);
            let ghost amts_now = amounts@.take(i + 1);
            let ghost chg_pre = change_amounts@.take(i as int);
            let ghost chg_now = change_amounts@.take(i + 1);
            proof {
                assert(ids_now.drop_last() =~= ids_pre);
                assert(amts_now.drop_last() =~= amts_pre);
                assert(chg_now.drop_last() =~= chg_pre);
            }
            let on = if change_amounts[i] <= amounts[i] {
                amounts[i] - change_amounts[i]
            } else {
                0
            };
            if on > 0 {
                match self.mt_transfer(sender_id, receiver_id, &token_ids[i], on, None) {
                    Ok(_) => {},
                    Err(e) => {
                        proof {
                            lemma_escrow_err_persists(
                                old(self)@,
                                sender_id@,
                                receiver_id@,
                                token_ids.deep_view(),
                                amounts@,
                                change_amounts@,
                                i + 1,
                                e,
                            );
                        }
                        self.balances = saved;
                        proof {
                            assert(self@ =~= old(self)@);
                        }
                        return Err(e);
                    },
                }
            }
            i += 1;
        }
        proof {
            assert(token_ids.deep_view().take(token_ids@.len() as int) =~= token_ids.deep_view());
            assert(amounts@.take(amounts@.len() as int) =~= amounts@);
            assert(change_amounts@.take(change_amounts@.len() as int) =~= change_amounts@);
        }
        Ok(change_amounts)
    }
}

} // verus!
