//! The library's global laws, proved over the transition functions that
//! the executable operations' contracts are stated against.

use vstd::prelude::*;
use crate::ids::lemma_dec_str_injective;
use crate::model::{
    balance_in, has_token, keys_unique, lemma_move_props, lemma_registry_push, spec_escrow,
    spec_mint, spec_resolve, spec_transfer, sum_for, supply_of, wf, LedgerV,
};

verus! {

/// Conservation: in a well-formed ledger state — and every operation's
/// contract keeps the ledger well-formed — the balances recorded for each
/// minted token add up to exactly its minted supply. No operation creates
/// or destroys value, and no balance is ever negative: balances are
/// unsigned.
pub proof fn lemma_conservation(l: LedgerV, k: int)
    requires
        wf(l),
        0 <= k < l.tokens.len(),
    ensures
        sum_for(l.bals, l.tokens[k].id) == l.tokens[k].supply as int,
{
}

/// Non-negativity: an attempt to move more than the sender holds is
/// rejected as `InsufficientBalance`, and a rejected transfer leaves the
/// ledger exactly as it was — the operations' contracts map every error
/// to an unchanged state. A balance below zero cannot be represented at
/// all: balances are unsigned.
pub proof fn lemma_overdraw_rejected(
    l: LedgerV,
    sender: Seq<char>,
    receiver: Seq<char>,
    token: Seq<char>,
    amount: u128,
)
    requires
        sender != receiver,
        amount > 0,
        has_token(l.tokens, token),
        balance_in(l.bals, token, sender) < amount,
    ensures
        spec_transfer(l, sender, receiver, token, amount) == Err::<LedgerV, crate::errors::Error>(
            crate::errors::Error::InsufficientBalance,
        ),
{
}

/// Two successive successful mints produce distinct token ids, each with
/// its own supply: reading either id in the final registry gives the
/// supply that mint recorded.
pub proof fn lemma_mint_ids_distinct(
    l0: LedgerV,
    caller1: Seq<char>,
    owner1: Seq<char>,
    supply1: u128,
    caller2: Seq<char>,
    owner2: Seq<char>,
    supply2: u128,
)
    requires
        spec_mint(l0, caller1, owner1, supply1) is Ok,
        spec_mint(spec_mint(l0, caller1, owner1, supply1)->Ok_0.0, caller2, owner2, supply2)
            is Ok,
    ensures
        ({
            let (l1, t1) = spec_mint(l0, caller1, owner1, supply1)->Ok_0;
            let (l2, t2) = spec_mint(l1, caller2, owner2, supply2)->Ok_0;
            &&& t1.id != t2.id
            &&& supply_of(l2.tokens, t1.id) == supply1
            &&& supply_of(l2.tokens, t2.id) == supply2
        }),
{
    let (l1, t1) = spec_mint(l0, caller1, owner1, supply1)->Ok_0;
    let (l2, t2) = spec_mint(l1, caller2, owner2, supply2)->Ok_0;
    lemma_dec_str_injective((l0.next + 1) as nat, (l0.next + 2) as nat);
    lemma_registry_push(l1.tokens, t2, t1.id);
    lemma_registry_push(l0.tokens, t1, t1.id);
    lemma_registry_push(l1.tokens, t2, t2.id);
}

/// A transfer moves balances only: the registry — every token's recorded
/// supply among it — and the id counter are untouched.
pub proof fn lemma_transfer_preserves_registry(
    l: LedgerV,
    sender: Seq<char>,
    receiver: Seq<char>,
    token: Seq<char>,
    amount: u128,
)
    requires
        spec_transfer(l, sender, receiver, token, amount) is Ok,
    ensures
        spec_transfer(l, sender, receiver, token, amount)->Ok_0.tokens == l.tokens,
        spec_transfer(l, sender, receiver, token, amount)->Ok_0.next == l.next,
        forall|id: Seq<char>|
            supply_of(
                spec_transfer(l, sender, receiver, token, amount)->Ok_0.tokens,
                id,
            ) == supply_of(l.tokens, id),
{
}

/// Full reversal: when the whole transferred amount is reported unused —
/// as settlement assumes of a failed notification chain — settling returns
/// every balance to its value before the move, and the receiver kept
/// nothing.
pub proof fn lemma_full_reversal(
    l0: LedgerV,
    sender: Seq<char>,
    receiver: Seq<char>,
    token: Seq<char>,
    amount: u128,
)
    requires
        wf(l0),
        spec_transfer(l0, sender, receiver, token, amount) is Ok,
    ensures
        ({
            let l1 = spec_transfer(l0, sender, receiver, token, amount)->Ok_0;
            let (l2, kept) = spec_resolve(
                l1,
                sender,
                receiver,
                seq![token],
                seq![amount],
                seq![amount],
            );
            &&& forall|t2: Seq<char>, a2: Seq<char>|
                balance_in(l2.bals, t2, a2) == balance_in(l0.bals, t2, a2)
            &&& kept == seq![0u128]
        }),
{
    let l1 = spec_transfer(l0, sender, receiver, token, amount)->Ok_0;
    let (l2, kept) = spec_resolve(l1, sender, receiver, seq![token], seq![amount], seq![amount]);
    assert(seq![token].drop_last() =~= Seq::<Seq<char>>::empty());
    assert(seq![amount].drop_last() =~= Seq::<u128>::empty());
    assert(spec_resolve(
        l1,
        sender,
        receiver,
        Seq::<Seq<char>>::empty(),
        Seq::<u128>::empty(),
        Seq::<u128>::empty(),
    ) == (l1, Seq::<u128>::empty()));
    lemma_move_props(l0.bals, l0.tokens, sender, receiver, token, amount);
    // After the move the receiver holds at least `amount`, so the refund is
    // the full amount, and moving it back is the inverse of the move.
    lemma_move_props(l1.bals, l0.tokens, receiver, sender, token, amount);
    assert(kept =~= seq![0u128]);
    assert forall|t2: Seq<char>, a2: Seq<char>| balance_in(l2.bals, t2, a2) == balance_in(
        l0.bals,
        t2,
        a2,
    ) by {
        if t2 == token && a2 == sender {
        } else if t2 == token && a2 == receiver {
        } else {
        }
    }
}

/// Partial reversal: a swap-with-change saga over one token leaves the
/// counterpart with the amount less the change, returns the change to the
/// sender, leaves the escrow where it started, and reports the passed-on
/// amount as kept.
pub proof fn lemma_partial_reversal(
    l0: LedgerV,
    sender: Seq<char>,
    escrow: Seq<char>,
    counterpart: Seq<char>,
    token: Seq<char>,
    amount: u128,
    change: u128,
)
    requires
        wf(l0),
        change <= amount,
        sender != escrow,
        escrow != counterpart,
        counterpart != sender,
        spec_transfer(l0, sender, escrow, token, amount) is Ok,
        spec_escrow(
            spec_transfer(l0, sender, escrow, token, amount)->Ok_0,
            escrow,
            counterpart,
            seq![token],
            seq![amount],
            seq![change],
        ) is Ok,
    ensures
        ({
            let l1 = spec_transfer(l0, sender, escrow, token, amount)->Ok_0;
            let l2 = spec_escrow(
                l1,
                escrow,
                counterpart,
                seq![token],
                seq![amount],
                seq![change],
            )->Ok_0;
            let (l3, kept) = spec_resolve(
                l2,
                sender,
                escrow,
                seq![token],
                seq![amount],
                seq![change],
            );
            &&& balance_in(l3.bals, token, sender) as int == balance_in(l0.bals, token, sender)
                - amount + change
            &&& balance_in(l3.bals, token, counterpart) as int == balance_in(
                l0.bals,
                token,
                counterpart,
            ) + (amount - change)
            &&& balance_in(l3.bals, token, escrow) == balance_in(l0.bals, token, escrow)
            &&& kept == seq![(amount - change) as u128]
        }),
{
    let l1 = spec_transfer(l0, sender, escrow, token, amount)->Ok_0;
    let l2 = spec_escrow(l1, escrow, counterpart, seq![token], seq![amount], seq![change])->Ok_0;
    let (l3, kept) = spec_resolve(l2, sender, escrow, seq![token], seq![amount], seq![change]);
    assert(seq![token].drop_last() =~= Seq::<Seq<char>>::empty());
    assert(seq![amount].drop_last() =~= Seq::<u128>::empty());
    assert(seq![change].drop_last() =~= Seq::<u128>::empty());
    assert(spec_escrow(
        l1,
        escrow,
        counterpart,
        Seq::<Seq<char>>::empty(),
        Seq::<u128>::empty(),
        Seq::<u128>::empty(),
    ) == Ok::<LedgerV, crate::errors::Error>(l1));
    assert(spec_resolve(
        l2,
        sender,
        escrow,
        Seq::<Seq<char>>::empty(),
        Seq::<u128>::empty(),
        Seq::<u128>::empty(),
    ) == (l2, Seq::<u128>::empty()));
    let onward = (amount - change) as u128;
    lemma_move_props(l0.bals, l0.tokens, sender, escrow, token, amount);
    if onward == 0 {
        // Nothing is passed on; the escrow holds the whole amount and the
        // refund is the whole declared change.
        assert(l2 == l1);
        if change > 0 {
            lemma_move_props(l1.bals, l0.tokens, escrow, sender, token, change);
        }
        assert(kept =~= seq![(amount - change) as u128]);
    } else {
        let l2e = spec_transfer(l1, escrow, counterpart, token, onward)->Ok_0;
        lemma_move_props(l1.bals, l0.tokens, escrow, counterpart, token, onward);
        assert(l2 == l2e);
        if change > 0 {
            lemma_move_props(l2.bals, l0.tokens, escrow, sender, token, change);
        }
        assert(kept =~= seq![(amount - change) as u128]);
    }
}

} // verus!
