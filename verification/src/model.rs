//! The mathematical model of the ledger: token registry, balance table,
//! the well-formedness invariant (no value created or destroyed, no negative
//! balance), and the transition functions that every operation's contract is
//! stated against.

use vstd::prelude::*;
use crate::errors::Error;
use crate::ids::{dec_str, lemma_dec_str_injective};

verus! {

/// A token as the model sees it.
#[verifier::ext_equal]
pub ghost struct TokenM {
    pub id: Seq<char>,
    pub owner: Seq<char>,
    pub supply: u128,
}

/// One balance-table row: `account` holds `amount` of `token`.
#[verifier::ext_equal]
pub ghost struct BalM {
    pub token: Seq<char>,
    pub account: Seq<char>,
    pub amount: u128,
}

/// The whole ledger state: admin account, the ledger's own account id,
/// the registry in mint order, the balance table, and the id counter.
#[verifier::ext_equal]
pub ghost struct LedgerV {
    pub owner: Seq<char>,
    pub contract: Seq<char>,
    pub tokens: Seq<TokenM>,
    pub bals: Seq<BalM>,
    pub next: u64,
}

// ---------------------------------------------------------------------------
// Registry lookups

/// Whether a token with this id was minted.
pub open spec fn has_token(tokens: Seq<TokenM>, id: Seq<char>) -> bool
    decreases tokens.len(),
{
    if tokens.len() == 0 {
        false
    } else {
        tokens.last().id == id || has_token(tokens.drop_last(), id)
    }
}

/// The minted supply of the token with this id (0 if never minted).
pub open spec fn supply_of(tokens: Seq<TokenM>, id: Seq<char>) -> u128
    decreases tokens.len(),
{
    if tokens.len() == 0 {
        0
    } else if tokens.last().id == id {
        tokens.last().supply
    } else {
        supply_of(tokens.drop_last(), id)
    }
}

pub proof fn lemma_has_token_iff(tokens: Seq<TokenM>, id: Seq<char>)
    ensures
        has_token(tokens, id) <==> exists|i: int|
            0 <= i < tokens.len() && (#[trigger] tokens[i]).id == id,
    decreases tokens.len(),
{
    if tokens.len() > 0 {
        lemma_has_token_iff(tokens.drop_last(), id);
        if tokens.last().id == id {
            assert(tokens[tokens.len() - 1].id == id);
        }
        if exists|i: int| 0 <= i < tokens.len() && (#[trigger] tokens[i]).id == id {
            let i = choose|i: int| 0 <= i < tokens.len() && (#[trigger] tokens[i]).id == id;
            if i < tokens.len() - 1 {
                assert(tokens.drop_last()[i].id == id);
            }
        }
    }
}

/// With pairwise-distinct ids, the entry found at any index gives the supply.
pub proof fn lemma_supply_entry(tokens: Seq<TokenM>, id: Seq<char>, i: int)
    requires
        forall|p: int, q: int|
            0 <= p < q < tokens.len() ==> (#[trigger] tokens[p]).id != (#[trigger] tokens[q]).id,
        0 <= i < tokens.len(),
        tokens[i].id == id,
    ensures
        has_token(tokens, id),
        supply_of(tokens, id) == tokens[i].supply,
    decreases tokens.len(),
{
    if i == tokens.len() - 1 {
    } else {
        assert(tokens.last().id != id);
        assert(forall|p: int, q: int|
            0 <= p < q < tokens.drop_last().len() ==> (#[trigger] tokens.drop_last()[p]).id != (
            #[trigger] tokens.drop_last()[q]).id);
        lemma_supply_entry(tokens.drop_last(), id, i);
    }
}

/// How `has_token` and `supply_of` see a registry push.
pub proof fn lemma_registry_push(tokens: Seq<TokenM>, tok: TokenM, id: Seq<char>)
    ensures
        has_token(tokens.push(tok), id) == (tok.id == id || has_token(tokens, id)),
        supply_of(tokens.push(tok), id) == if tok.id == id {
            tok.supply
        } else {
            supply_of(tokens, id)
        },
{
    assert(tokens.push(tok).drop_last() =~= tokens);
}

// ---------------------------------------------------------------------------
// Balance-table lookups

pub open spec fn entry_matches(e: BalM, t: Seq<char>, a: Seq<char>) -> bool {
    e.token == t && e.account == a
}

/// Whether the table has a row for (`t`, `a`).
pub open spec fn has_balance(bals: Seq<BalM>, t: Seq<char>, a: Seq<char>) -> bool
    decreases bals.len(),
{
    if bals.len() == 0 {
        false
    } else {
        entry_matches(bals.last(), t, a) || has_balance(bals.drop_last(), t, a)
    }
}

/// The balance of `a` in token `t`; an absent row means 0.
pub open spec fn balance_in(bals: Seq<BalM>, t: Seq<char>, a: Seq<char>) -> u128
    decreases bals.len(),
{
    if bals.len() == 0 {
        0
    } else if entry_matches(bals.last(), t, a) {
        bals.last().amount
    } else {
        balance_in(bals.drop_last(), t, a)
    }
}

/// What one row contributes to the circulating amount of token `t`.
pub open spec fn part_of(e: BalM, t: Seq<char>) -> int {
    if e.token == t {
        e.amount as int
    } else {
        0
    }
}

/// The total of all balances recorded for token `t`.
pub open spec fn sum_for(bals: Seq<BalM>, t: Seq<char>) -> int
    decreases bals.len(),
{
    if bals.len() == 0 {
        0
    } else {
        sum_for(bals.drop_last(), t) + part_of(bals.last(), t)
    }
}

/// No two rows share a (token, account) key.
pub open spec fn keys_unique(bals: Seq<BalM>) -> bool {
    forall|i: int, j: int|
        0 <= i < j < bals.len() ==> !((#[trigger] bals[i]).token == (#[trigger] bals[j]).token
            && bals[i].account == bals[j].account)
}

pub proof fn lemma_has_balance_iff(bals: Seq<BalM>, t: Seq<char>, a: Seq<char>)
    ensures
        has_balance(bals, t, a) <==> exists|i: int|
            0 <= i < bals.len() && entry_matches(#[trigger] bals[i], t, a),
    decreases bals.len(),
{
    if bals.len() > 0 {
        lemma_has_balance_iff(bals.drop_last(), t, a);
        if entry_matches(bals.last(), t, a) {
            assert(entry_matches(bals[bals.len() - 1], t, a));
        }
        if exists|i: int| 0 <= i < bals.len() && entry_matches(#[trigger] bals[i], t, a) {
            let i = choose|i: int| 0 <= i < bals.len() && entry_matches(#[trigger] bals[i], t, a);
            if i < bals.len() - 1 {
                assert(entry_matches(bals.drop_last()[i], t, a));
            }
        }
    }
}

pub proof fn lemma_balance_zero(bals: Seq<BalM>, t: Seq<char>, a: Seq<char>)
    ensures
        !has_balance(bals, t, a) ==> balance_in(bals, t, a) == 0,
    decreases bals.len(),
{
    if bals.len() > 0 {
        lemma_balance_zero(bals.drop_last(), t, a);
    }
}

/// With unique keys, the row found at any index gives the balance.
pub proof fn lemma_balance_entry(bals: Seq<BalM>, t: Seq<char>, a: Seq<char>, i: int)
    requires
        keys_unique(bals),
        0 <= i < bals.len(),
        entry_matches(bals[i], t, a),
    ensures
        has_balance(bals, t, a),
        balance_in(bals, t, a) == bals[i].amount,
    decreases bals.len(),
{
    if i == bals.len() - 1 {
    } else {
        assert(!entry_matches(bals.last(), t, a));
        assert(forall|p: int| 0 <= p < bals.drop_last().len() ==> bals.drop_last()[p] == bals[p]);
        lemma_balance_entry(bals.drop_last(), t, a, i);
    }
}

pub proof fn lemma_sum_nonneg(bals: Seq<BalM>, t: Seq<char>)
    ensures
        sum_for(bals, t) >= 0,
    decreases bals.len(),
{
    if bals.len() > 0 {
        lemma_sum_nonneg(bals.drop_last(), t);
    }
}

pub proof fn lemma_balance_le_sum(bals: Seq<BalM>, t: Seq<char>, a: Seq<char>)
    ensures
        balance_in(bals, t, a) <= sum_for(bals, t),
    decreases bals.len(),
{
    lemma_sum_nonneg(bals, t);
    if bals.len() > 0 {
        lemma_balance_le_sum(bals.drop_last(), t, a);
        lemma_sum_nonneg(bals.drop_last(), t);
    }
}

/// Two distinct accounts together never hold more than the recorded total.
pub proof fn lemma_two_balances_le_sum(bals: Seq<BalM>, t: Seq<char>, a1: Seq<char>, a2: Seq<char>)
    requires
        a1 != a2,
    ensures
        balance_in(bals, t, a1) + balance_in(bals, t, a2) <= sum_for(bals, t),
    decreases bals.len(),
{
    if bals.len() == 0 {
    } else {
        lemma_two_balances_le_sum(bals.drop_last(), t, a1, a2);
        if entry_matches(bals.last(), t, a1) {
            lemma_balance_le_sum(bals.drop_last(), t, a2);
        } else if entry_matches(bals.last(), t, a2) {
            lemma_balance_le_sum(bals.drop_last(), t, a1);
        } else {
            lemma_sum_nonneg(bals.drop_last(), t);
        }
    }
}

/// No row for token `t` means a zero total for `t`.
pub proof fn lemma_sum_absent(bals: Seq<BalM>, t: Seq<char>)
    requires
        forall|i: int| 0 <= i < bals.len() ==> (#[trigger] bals[i]).token != t,
    ensures
        sum_for(bals, t) == 0,
    decreases bals.len(),
{
    if bals.len() > 0 {
        assert(bals.last().token != t);
        lemma_sum_absent(bals.drop_last(), t);
    }
}

pub proof fn lemma_sum_push(bals: Seq<BalM>, e: BalM, t: Seq<char>)
    ensures
        sum_for(bals.push(e), t) == sum_for(bals, t) + part_of(e, t),
{
    assert(bals.push(e).drop_last() =~= bals);
}

// ---------------------------------------------------------------------------
// Writing one balance row

/// The table with the row for (`t`, `a`) set to `v` — updated in place when
/// present, appended when absent.
pub open spec fn set_balance(bals: Seq<BalM>, t: Seq<char>, a: Seq<char>, v: u128) -> Seq<BalM>
    decreases bals.len(),
{
    if !has_balance(bals, t, a) {
        bals.push(BalM { token: t, account: a, amount: v })
    } else if entry_matches(bals.last(), t, a) {
        bals.drop_last().push(BalM { token: t, account: a, amount: v })
    } else {
        set_balance(bals.drop_last(), t, a, v).push(bals.last())
    }
}

/// Every row of the written table keeps a key of the old table or carries
/// the written key; the length grows only on an append.
pub proof fn lemma_set_balance_keys(bals: Seq<BalM>, t: Seq<char>, a: Seq<char>, v: u128)
    ensures
        ({
            let sb = set_balance(bals, t, a, v);
            &&& forall|i: int|
                0 <= i < sb.len() ==> (exists|j: int|
                    0 <= j < bals.len() && (#[trigger] bals[j]).token == (#[trigger] sb[i]).token
                        && bals[j].account == sb[i].account) || (sb[i].token == t && sb[i].account
                    == a)
            &&& sb.len() == if has_balance(bals, t, a) {
                bals.len() as int
            } else {
                bals.len() + 1 as int
            }
        }),
    decreases bals.len(),
{
    let sb = set_balance(bals, t, a, v);
    if !has_balance(bals, t, a) {
        assert forall|i: int| 0 <= i < sb.len() implies (exists|j: int|
            0 <= j < bals.len() && (#[trigger] bals[j]).token == (#[trigger] sb[i]).token
                && bals[j].account == sb[i].account) || (sb[i].token == t && sb[i].account == a) by {
            if i < bals.len() {
                assert(bals[i].token == sb[i].token && bals[i].account == sb[i].account);
            }
        }
    } else if entry_matches(bals.last(), t, a) {
        assert forall|i: int| 0 <= i < sb.len() implies (exists|j: int|
            0 <= j < bals.len() && (#[trigger] bals[j]).token == (#[trigger] sb[i]).token
                && bals[j].account == sb[i].account) || (sb[i].token == t && sb[i].account == a) by {
            if i < bals.len() - 1 {
                assert(bals[i].token == sb[i].token && bals[i].account == sb[i].account);
            }
        }
    } else {
        lemma_set_balance_keys(bals.drop_last(), t, a, v);
        let sd = set_balance(bals.drop_last(), t, a, v);
        assert forall|i: int| 0 <= i < sb.len() implies (exists|j: int|
            0 <= j < bals.len() && (#[trigger] bals[j]).token == (#[trigger] sb[i]).token
                && bals[j].account == sb[i].account) || (sb[i].token == t && sb[i].account == a) by {
            if i < sd.len() {
                assert(sb[i] == sd[i]);
                if exists|j: int|
                    0 <= j < bals.drop_last().len() && (#[trigger] bals.drop_last()[j]).token
                        == sd[i].token && bals.drop_last()[j].account == sd[i].account {
                    let j = choose|j: int|
                        0 <= j < bals.drop_last().len() && (#[trigger] bals.drop_last()[j]).token
                            == sd[i].token && bals.drop_last()[j].account == sd[i].account;
                    assert(bals[j].token == sb[i].token && bals[j].account == sb[i].account);
                }
            } else {
                assert(sb[i] == bals.last());
                assert(bals[bals.len() - 1].token == sb[i].token && bals[bals.len() - 1].account
                    == sb[i].account);
            }
        }
    }
}

pub proof fn lemma_set_balance_unique(bals: Seq<BalM>, t: Seq<char>, a: Seq<char>, v: u128)
    requires
        keys_unique(bals),
    ensures
        keys_unique(set_balance(bals, t, a, v)),
    decreases bals.len(),
{
    let sb = set_balance(bals, t, a, v);
    if !has_balance(bals, t, a) {
        lemma_has_balance_iff(bals, t, a);
        assert forall|i: int, j: int| 0 <= i < j < sb.len() implies !((#[trigger] sb[i]).token == (
        #[trigger] sb[j]).token && sb[i].account == sb[j].account) by {
            if j < bals.len() {
                assert(sb[i] == bals[i] && sb[j] == bals[j]);
            } else {
                assert(sb[i] == bals[i]);
                if sb[i].token == t && sb[i].account == a {
                    assert(entry_matches(bals[i], t, a));
                }
            }
        }
    } else if entry_matches(bals.last(), t, a) {
        assert forall|i: int, j: int| 0 <= i < j < sb.len() implies !((#[trigger] sb[i]).token == (
        #[trigger] sb[j]).token && sb[i].account == sb[j].account) by {
            assert(sb[i] == bals[i]);
            if j < bals.len() - 1 {
                assert(sb[j] == bals[j]);
            } else {
                assert(sb[j].token == bals[bals.len() - 1].token && sb[j].account == bals[bals.len()
                    - 1].account);
            }
        }
    } else {
        assert(forall|p: int| 0 <= p < bals.drop_last().len() ==> bals.drop_last()[p] == bals[p]);
        lemma_set_balance_unique(bals.drop_last(), t, a, v);
        lemma_set_balance_keys(bals.drop_last(), t, a, v);
        let sd = set_balance(bals.drop_last(), t, a, v);
        assert forall|i: int, j: int| 0 <= i < j < sb.len() implies !((#[trigger] sb[i]).token == (
        #[trigger] sb[j]).token && sb[i].account == sb[j].account) by {
            if j < sd.len() {
                assert(sb[i] == sd[i] && sb[j] == sd[j]);
            } else {
                // The last row keeps its old key, which neither the written key
                // nor any key of the shortened table equals.
                assert(sb[j] == bals.last());
                assert(sb[i] == sd[i]);
                if sb[i].token == sb[j].token && sb[i].account == sb[j].account {
                    if sd[i].token == t && sd[i].account == a {
                        assert(entry_matches(bals.last(), t, a));
                    } else {
                        let k = choose|k: int|
                            0 <= k < bals.drop_last().len() && (#[trigger] bals.drop_last()[
                            k]).token == sd[i].token && bals.drop_last()[k].account
                                == sd[i].account;
                        assert(!(bals[k].token == bals[bals.len() - 1].token && bals[k].account
                            == bals[bals.len() - 1].account));
                    }
                }
            }
        }
    }
}

/// Writing one row changes exactly that row's balance.
pub proof fn lemma_set_balance_balance(
    bals: Seq<BalM>,
    t: Seq<char>,
    a: Seq<char>,
    v: u128,
    t2: Seq<char>,
    a2: Seq<char>,
)
    ensures
        balance_in(set_balance(bals, t, a, v), t2, a2) == if t2 == t && a2 == a {
            v
        } else {
            balance_in(bals, t2, a2)
        },
        has_balance(set_balance(bals, t, a, v), t2, a2) == ((t2 == t && a2 == a) || has_balance(
            bals,
            t2,
            a2,
        )),
    decreases bals.len(),
{
    let sb = set_balance(bals, t, a, v);
    if !has_balance(bals, t, a) {
        assert(sb.drop_last() =~= bals);
        lemma_balance_zero(bals, t, a);
    } else if entry_matches(bals.last(), t, a) {
        assert(sb.drop_last() =~= bals.drop_last());
    } else {
        lemma_set_balance_balance(bals.drop_last(), t, a, v, t2, a2);
        let sd = set_balance(bals.drop_last(), t, a, v);
        assert(sb.drop_last() =~= sd);
        assert(sb.last() == bals.last());
    }
}

/// Writing one row moves the token's total by the difference at that row
/// and leaves every other token's total unchanged.
pub proof fn lemma_set_balance_sum(
    bals: Seq<BalM>,
    t: Seq<char>,
    a: Seq<char>,
    v: u128,
    t2: Seq<char>,
)
    requires
        keys_unique(bals),
    ensures
        sum_for(set_balance(bals, t, a, v), t2) == if t2 == t {
            sum_for(bals, t2) - balance_in(bals, t, a) + v
        } else {
            sum_for(bals, t2)
        },
    decreases bals.len(),
{
    let sb = set_balance(bals, t, a, v);
    if !has_balance(bals, t, a) {
        lemma_sum_push(bals, BalM { token: t, account: a, amount: v }, t2);
        lemma_balance_zero(bals, t, a);
    } else if entry_matches(bals.last(), t, a) {
        lemma_sum_push(bals.drop_last(), BalM { token: t, account: a, amount: v }, t2);
    } else {
        assert(forall|p: int| 0 <= p < bals.drop_last().len() ==> bals.drop_last()[p] == bals[p]);
        lemma_set_balance_sum(bals.drop_last(), t, a, v, t2);
        lemma_sum_push(set_balance(bals.drop_last(), t, a, v), bals.last(), t2);
    }
}

/// With unique keys, writing a present row is an in-place update at its index.
pub proof fn lemma_set_balance_update(bals: Seq<BalM>, t: Seq<char>, a: Seq<char>, v: u128, i: int)
    requires
        keys_unique(bals),
        0 <= i < bals.len(),
        entry_matches(bals[i], t, a),
    ensures
        set_balance(bals, t, a, v) =~= bals.update(i, BalM { token: t, account: a, amount: v }),
    decreases bals.len(),
{
    lemma_balance_entry(bals, t, a, i);
    if entry_matches(bals.last(), t, a) {
        assert(i == bals.len() - 1);
    } else {
        assert(i < bals.len() - 1);
        assert(forall|p: int| 0 <= p < bals.drop_last().len() ==> bals.drop_last()[p] == bals[p]);
        lemma_set_balance_update(bals.drop_last(), t, a, v, i);
    }
}

// ---------------------------------------------------------------------------
// The well-formedness invariant

/// The registry holds the ids the counter produced, in mint order.
pub open spec fn tokens_wf(l: LedgerV) -> bool {
    &&& l.next as int == l.tokens.len()
    &&& forall|k: int|
        0 <= k < l.tokens.len() ==> (#[trigger] l.tokens[k]).id == dec_str((k + 1) as nat)
}

/// The ledger invariant: registry ids come from the counter, balance keys
/// are unique, every row is for a minted token, and for every token the
/// balances add up to exactly the minted supply.
pub open spec fn wf(l: LedgerV) -> bool {
    &&& tokens_wf(l)
    &&& keys_unique(l.bals)
    &&& forall|i: int| 0 <= i < l.bals.len() ==> has_token(l.tokens, (#[trigger] l.bals[i]).token)
    &&& forall|k: int|
        0 <= k < l.tokens.len() ==> sum_for(l.bals, (#[trigger] l.tokens[k]).id) == l.tokens[
            k].supply as int
}

// ---------------------------------------------------------------------------
// Transitions

/// The checks a transfer runs, in order; `None` means the move may proceed.
pub open spec fn transfer_check(
    l: LedgerV,
    sender: Seq<char>,
    receiver: Seq<char>,
    token: Seq<char>,
    amount: u128,
) -> Option<Error> {
    if sender == receiver {
        Some(Error::SameAccount)
    } else if amount == 0 {
        Some(Error::ZeroAmount)
    } else if !has_token(l.tokens, token) {
        Some(Error::TokenNotFound)
    } else if balance_in(l.bals, token, sender) < amount {
        Some(Error::InsufficientBalance)
    } else if balance_in(l.bals, token, receiver) + amount > u128::MAX {
        Some(Error::Overflow)
    } else {
        None
    }
}

/// The balance table after a checked move of `amount` from `sender` to
/// `receiver`.
pub open spec fn move_bals(
    bals: Seq<BalM>,
    sender: Seq<char>,
    receiver: Seq<char>,
    token: Seq<char>,
    amount: u128,
) -> Seq<BalM> {
    let sb = balance_in(bals, token, sender);
    let rb = balance_in(bals, token, receiver);
    let b1 = set_balance(bals, token, sender, (sb - amount) as u128);
    set_balance(b1, token, receiver, (rb + amount) as u128)
}

/// A single transfer: debit the sender, credit the receiver, or fail with
/// the first failing check and leave the state as it was.
pub open spec fn spec_transfer(
    l: LedgerV,
    sender: Seq<char>,
    receiver: Seq<char>,
    token: Seq<char>,
    amount: u128,
) -> Result<LedgerV, Error> {
    match transfer_check(l, sender, receiver, token, amount) {
        Some(e) => Err(e),
        None => Ok(LedgerV { bals: move_bals(l.bals, sender, receiver, token, amount), ..l }),
    }
}

/// Minting: only the admin may mint; the counter must not be exhausted.
/// A fresh id is drawn, the supply recorded, and the whole supply credited
/// to the token's owner.
pub open spec fn spec_mint(
    l: LedgerV,
    caller: Seq<char>,
    owner: Seq<char>,
    supply: u128,
) -> Result<(LedgerV, TokenM), Error> {
    if caller != l.owner {
        Err(Error::Unauthorized)
    } else if l.next == u64::MAX {
        Err(Error::CounterOverflow)
    } else {
        let id = dec_str((l.next + 1) as nat);
        let tok = TokenM { id, owner, supply };
        Ok(
            (
                LedgerV {
                    tokens: l.tokens.push(tok),
                    bals: l.bals.push(BalM { token: id, account: owner, amount: supply }),
                    next: (l.next + 1) as u64,
                    ..l
                },
                tok,
            ),
        )
    }
}

/// A batch of transfers applied in order against one (sender, receiver)
/// pair; the first failure wins and discards the whole batch.
pub open spec fn spec_batch(
    l: LedgerV,
    sender: Seq<char>,
    receiver: Seq<char>,
    tokens: Seq<Seq<char>>,
    amounts: Seq<u128>,
) -> Result<LedgerV, Error>
    decreases tokens.len(),
{
    if tokens.len() == 0 {
        Ok(l)
    } else {
        match spec_batch(l, sender, receiver, tokens.drop_last(), amounts.drop_last()) {
            Err(e) => Err(e),
            Ok(m) => spec_transfer(m, sender, receiver, tokens.last(), amounts.last()),
        }
    }
}

/// How much of one token settlement moves back from receiver to sender:
/// the declared unused amount, clamped to the transferred amount and to
/// what the receiver still holds.
pub open spec fn refund_of(
    l: LedgerV,
    receiver: Seq<char>,
    token: Seq<char>,
    amount: u128,
    unused: u128,
) -> u128 {
    let cap = if unused < amount {
        unused
    } else {
        amount
    };
    let rb = balance_in(l.bals, token, receiver);
    if cap < rb {
        cap
    } else {
        rb
    }
}

/// The state after moving a settlement refund back to the sender.
pub open spec fn apply_refund(
    l: LedgerV,
    sender: Seq<char>,
    receiver: Seq<char>,
    token: Seq<char>,
    refund: u128,
) -> LedgerV {
    if refund == 0 {
        l
    } else {
        LedgerV { bals: move_bals(l.bals, receiver, sender, token, refund), ..l }
    }
}

/// Settlement of a transfer-call: per token, in order, refund the unused
/// part and report the amount the receiver kept.
pub open spec fn spec_resolve(
    l: LedgerV,
    sender: Seq<char>,
    receiver: Seq<char>,
    tokens: Seq<Seq<char>>,
    amounts: Seq<u128>,
    unused: Seq<u128>,
) -> (LedgerV, Seq<u128>)
    decreases tokens.len(),
{
    if tokens.len() == 0 {
        (l, Seq::empty())
    } else {
        let (m, kept) = spec_resolve(
            l,
            sender,
            receiver,
            tokens.drop_last(),
            amounts.drop_last(),
            unused.drop_last(),
        );
        let refund = refund_of(m, receiver, tokens.last(), amounts.last(), unused.last());
        (
            apply_refund(m, sender, receiver, tokens.last(), refund),
            kept.push((amounts.last() - refund) as u128),
        )
    }
}

/// The unused amounts settlement works from: what the notification chain
/// reported if it succeeded with one entry per token, the full amounts
/// (a complete reversal) otherwise.
pub open spec fn norm_unused(unused: Option<Vec<u128>>, amounts: Seq<u128>) -> Seq<u128> {
    match unused {
        Some(v) => if v@.len() == amounts.len() {
            v@
        } else {
            amounts
        },
        None => amounts,
    }
}

/// What the escrow passes on for one token: the received amount less the
/// declared change, or nothing when the declaration exceeds the amount.
pub open spec fn onward_of(amount: u128, change: u128) -> u128 {
    if change <= amount {
        (amount - change) as u128
    } else {
        0
    }
}

/// The escrow's disbursement: per token, in order, pass the amount less
/// the change on to the exchange counterpart; the first failure wins and
/// discards the whole disbursement. Tokens with nothing to pass on are
/// skipped.
pub open spec fn spec_escrow(
    l: LedgerV,
    sender: Seq<char>,
    receiver: Seq<char>,
    tokens: Seq<Seq<char>>,
    amounts: Seq<u128>,
    changes: Seq<u128>,
) -> Result<LedgerV, Error>
    decreases tokens.len(),
{
    if tokens.len() == 0 {
        Ok(l)
    } else {
        match spec_escrow(
            l,
            sender,
            receiver,
            tokens.drop_last(),
            amounts.drop_last(),
            changes.drop_last(),
        ) {
            Err(e) => Err(e),
            Ok(m) => {
                let on = onward_of(amounts.last(), changes.last());
                if on == 0 {
                    Ok(m)
                } else {
                    spec_transfer(m, sender, receiver, tokens.last(), on)
                }
            },
        }
    }
}

/// A batch that has already failed on a prefix fails as a whole, with the
/// same error.
pub proof fn lemma_batch_err_persists(
    l: LedgerV,
    sender: Seq<char>,
    receiver: Seq<char>,
    tokens: Seq<Seq<char>>,
    amounts: Seq<u128>,
    k: int,
    e: Error,
)
    requires
        0 <= k <= tokens.len(),
        tokens.len() == amounts.len(),
        spec_batch(l, sender, receiver, tokens.take(k), amounts.take(k)) == Err::<LedgerV, Error>(
            e,
        ),
    ensures
        spec_batch(l, sender, receiver, tokens, amounts) == Err::<LedgerV, Error>(e),
    decreases tokens.len() - k,
{
    if k == tokens.len() {
        assert(tokens.take(k) =~= tokens);
        assert(amounts.take(k) =~= amounts);
    } else {
        assert(tokens.take(k + 1).drop_last() =~= tokens.take(k));
        assert(amounts.take(k + 1).drop_last() =~= amounts.take(k));
        lemma_batch_err_persists(l, sender, receiver, tokens, amounts, k + 1, e);
    }
}

/// A disbursement that has already failed on a prefix fails as a whole,
/// with the same error.
pub proof fn lemma_escrow_err_persists(
    l: LedgerV,
    sender: Seq<char>,
    receiver: Seq<char>,
    tokens: Seq<Seq<char>>,
    amounts: Seq<u128>,
    changes: Seq<u128>,
    k: int,
    e: Error,
)
    requires
        0 <= k <= tokens.len(),
        tokens.len() == amounts.len(),
        tokens.len() == changes.len(),
        spec_escrow(l, sender, receiver, tokens.take(k), amounts.take(k), changes.take(k))
            == Err::<LedgerV, Error>(e),
    ensures
        spec_escrow(l, sender, receiver, tokens, amounts, changes) == Err::<LedgerV, Error>(e),
    decreases tokens.len() - k,
{
    if k == tokens.len() {
        assert(tokens.take(k) =~= tokens);
        assert(amounts.take(k) =~= amounts);
        assert(changes.take(k) =~= changes);
    } else {
        assert(tokens.take(k + 1).drop_last() =~= tokens.take(k));
        assert(amounts.take(k + 1).drop_last() =~= amounts.take(k));
        assert(changes.take(k + 1).drop_last() =~= changes.take(k));
        lemma_escrow_err_persists(l, sender, receiver, tokens, amounts, changes, k + 1, e);
    }
}

// ---------------------------------------------------------------------------
// The move lemma

/// A checked move keeps keys unique and rows minted, debits the sender,
/// credits the receiver, touches no other balance, and keeps every token's
/// total unchanged.
pub proof fn lemma_move_props(
    bals: Seq<BalM>,
    tokens: Seq<TokenM>,
    sender: Seq<char>,
    receiver: Seq<char>,
    token: Seq<char>,
    amount: u128,
)
    requires
        keys_unique(bals),
        sender != receiver,
        balance_in(bals, token, sender) >= amount,
        balance_in(bals, token, receiver) + amount <= u128::MAX,
        forall|i: int| 0 <= i < bals.len() ==> has_token(tokens, (#[trigger] bals[i]).token),
        has_token(tokens, token),
    ensures
        ({
            let nb = move_bals(bals, sender, receiver, token, amount);
            &&& keys_unique(nb)
            &&& forall|i: int| 0 <= i < nb.len() ==> has_token(tokens, (#[trigger] nb[i]).token)
            &&& balance_in(nb, token, sender) as int == balance_in(bals, token, sender) - amount
            &&& balance_in(nb, token, receiver) as int == balance_in(bals, token, receiver)
                + amount
            &&& forall|t2: Seq<char>, a2: Seq<char>|
                !(t2 == token && a2 == sender) && !(t2 == token && a2 == receiver)
                    ==> balance_in(nb, t2, a2) == balance_in(bals, t2, a2)
            &&& forall|t2: Seq<char>| sum_for(nb, t2) == sum_for(bals, t2)
        }),
{
    let sb = balance_in(bals, token, sender);
    let rb = balance_in(bals, token, receiver);
    let v1 = (sb - amount) as u128;
    let v2 = (rb + amount) as u128;
    let b1 = set_balance(bals, token, sender, v1);
    let nb = set_balance(b1, token, receiver, v2);
    lemma_set_balance_unique(bals, token, sender, v1);
    lemma_set_balance_unique(b1, token, receiver, v2);
    lemma_set_balance_balance(bals, token, sender, v1, token, sender);
    lemma_set_balance_balance(bals, token, sender, v1, token, receiver);
    lemma_set_balance_balance(b1, token, receiver, v2, token, receiver);
    lemma_set_balance_balance(b1, token, receiver, v2, token, sender);
    assert forall|t2: Seq<char>, a2: Seq<char>|
        !(t2 == token && a2 == sender) && !(t2 == token && a2 == receiver) implies balance_in(
        nb,
        t2,
        a2,
    ) == balance_in(bals, t2, a2) by {
        lemma_set_balance_balance(bals, token, sender, v1, t2, a2);
        lemma_set_balance_balance(b1, token, receiver, v2, t2, a2);
    }
    assert forall|t2: Seq<char>| sum_for(nb, t2) == sum_for(bals, t2) by {
        lemma_set_balance_sum(bals, token, sender, v1, t2);
        lemma_set_balance_sum(b1, token, receiver, v2, t2);
    }
    assert forall|i: int| 0 <= i < nb.len() implies has_token(tokens, (#[trigger] nb[i]).token) by {
        lemma_set_balance_keys(bals, token, sender, v1);
        lemma_set_balance_keys(b1, token, receiver, v2);
        if !(nb[i].token == token) {
            let j = choose|j: int|
                0 <= j < b1.len() && (#[trigger] b1[j]).token == nb[i].token && b1[j].account
                    == nb[i].account;
            let k = choose|k: int|
                0 <= k < bals.len() && (#[trigger] bals[k]).token == b1[j].token && bals[k].account
                    == b1[j].account;
            assert(has_token(tokens, bals[k].token));
        }
    }
}

/// A successful mint preserves the ledger invariant: the fresh id extends
/// the counter-ordered registry, its balance row is new, and its supply
/// enters circulation in full at the owner's row.
pub proof fn lemma_mint_preserves_wf(l: LedgerV, caller: Seq<char>, owner: Seq<char>, supply: u128)
    requires
        wf(l),
        spec_mint(l, caller, owner, supply) is Ok,
    ensures
        wf(spec_mint(l, caller, owner, supply)->Ok_0.0),
{
    let id = dec_str((l.next + 1) as nat);
    let tok = TokenM { id, owner, supply };
    let e = BalM { token: id, account: owner, amount: supply };
    let l2 = spec_mint(l, caller, owner, supply)->Ok_0.0;
    // No existing row or registry entry carries the fresh id.
    assert forall|i: int| 0 <= i < l.bals.len() implies (#[trigger] l.bals[i]).token != id by {
        lemma_has_token_iff(l.tokens, l.bals[i].token);
        let k = choose|k: int| 0 <= k < l.tokens.len() && (#[trigger] l.tokens[k]).id == l.bals[
        i].token;
        lemma_dec_str_injective((k + 1) as nat, (l.next + 1) as nat);
    }
    assert forall|k: int| 0 <= k < l.tokens.len() implies (#[trigger] l.tokens[k]).id != id by {
        lemma_dec_str_injective((k + 1) as nat, (l.next + 1) as nat);
    }
    // Registry: the new entry continues the counter order.
    assert forall|k: int| 0 <= k < l2.tokens.len() implies (#[trigger] l2.tokens[k]).id == dec_str(
        (k + 1) as nat,
    ) by {
        if k < l.tokens.len() {
            assert(l2.tokens[k] == l.tokens[k]);
        }
    }
    // Balance keys stay unique; every row is still for a minted token.
    assert forall|i: int, j: int| 0 <= i < j < l2.bals.len() implies !((#[trigger] l2.bals[i]).token
        == (#[trigger] l2.bals[j]).token && l2.bals[i].account == l2.bals[j].account) by {
        if j < l.bals.len() {
            assert(l2.bals[i] == l.bals[i] && l2.bals[j] == l.bals[j]);
        } else {
            assert(l2.bals[i] == l.bals[i] && l2.bals[j] == e);
        }
    }
    assert forall|i: int| 0 <= i < l2.bals.len() implies has_token(
        l2.tokens,
        (#[trigger] l2.bals[i]).token,
    ) by {
        lemma_registry_push(l.tokens, tok, l2.bals[i].token);
        if i < l.bals.len() {
            assert(l2.bals[i] == l.bals[i]);
        }
    }
    // Totals: old tokens are untouched by the new row; the new token's
    // total is exactly its supply.
    assert forall|k: int| 0 <= k < l2.tokens.len() implies sum_for(
        l2.bals,
        (#[trigger] l2.tokens[k]).id,
    ) == l2.tokens[k].supply as int by {
        lemma_sum_push(l.bals, e, l2.tokens[k].id);
        if k < l.tokens.len() {
            assert(l2.tokens[k] == l.tokens[k]);
        } else {
            assert(l2.tokens[k] == tok);
            lemma_sum_absent(l.bals, id);
        }
    }
}

/// Counter-derived ids are pairwise distinct.
pub proof fn lemma_wf_ids_unique(l: LedgerV)
    requires
        tokens_wf(l),
    ensures
        forall|i: int, j: int|
            0 <= i < j < l.tokens.len() ==> (#[trigger] l.tokens[i]).id != (
            #[trigger] l.tokens[j]).id,
{
    assert forall|i: int, j: int| 0 <= i < j < l.tokens.len() implies (#[trigger] l.tokens[i]).id
        != (#[trigger] l.tokens[j]).id by {
        lemma_dec_str_injective((i + 1) as nat, (j + 1) as nat);
    }
}

} // verus!
