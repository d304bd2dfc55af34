//! Tests of the transfer-call saga: move, notify, settle — and the escrow
//! exchange driving it, run as the environment would run the chain.

use multi_token::{DeFi, Error, ExchangeAction, MultiTokenContract};

const LEDGER: &str = "mt.ledger";

fn setup_contract() -> MultiTokenContract {
    MultiTokenContract::new("alice".to_string(), LEDGER.to_string())
}

fn owner() -> String {
    "alice".to_string()
}

fn ledger_id() -> String {
    LEDGER.to_string()
}

#[test]
fn saga_full_reversal() {
    let mut contract = setup_contract();
    let sender = "bob".to_string();
    let escrow = "defi".to_string();
    let t = contract.mt_mint(&owner(), sender.clone(), 100).unwrap();

    // Move: the transfer is applied optimistically.
    let pending = contract
        .mt_transfer_call(&sender, &escrow, &t.token_id, 100, None, "Fail".to_string())
        .unwrap();
    assert_eq!(contract.mt_balance_of(&sender, &t.token_id).unwrap(), 0);
    assert_eq!(contract.mt_balance_of(&escrow, &t.token_id).unwrap(), 100);

    // Notify: the receiver aborts deliberately, failing the chain.
    let mut defi = DeFi::new(ledger_id());
    let outcome = defi.mt_on_transfer(
        &ledger_id(),
        &pending.sender_id,
        &pending.token_ids,
        &pending.amounts,
        Some(ExchangeAction::Fail),
    );
    assert!(matches!(outcome, Err(Error::DeliberateFailure)));

    // Settle: a failed chain counts as fully unused.
    let kept = contract
        .mt_resolve_transfer(
            &ledger_id(),
            &pending.sender_id,
            &pending.receiver_id,
            &pending.token_ids,
            &pending.amounts,
            None,
        )
        .unwrap();
    assert_eq!(kept, vec![0]);
    assert_eq!(contract.mt_balance_of(&sender, &t.token_id).unwrap(), 100);
    assert_eq!(contract.mt_balance_of(&escrow, &t.token_id).unwrap(), 0);
}

#[test]
fn saga_partial_reversal() {
    let mut contract = setup_contract();
    let sender = "bob".to_string();
    let escrow = "defi".to_string();
    let counterpart = "carol".to_string();
    let t = contract.mt_mint(&owner(), sender.clone(), 100).unwrap();

    let pending = contract
        .mt_transfer_call(&sender, &escrow, &t.token_id, 100, None, "swap".to_string())
        .unwrap();

    // Notify: the escrow swaps with change 20 over an amount of 100.
    let mut defi = DeFi::new(ledger_id());
    let call = defi
        .mt_on_transfer(
            &ledger_id(),
            &pending.sender_id,
            &pending.token_ids,
            &pending.amounts,
            Some(ExchangeAction::SwapWithChange {
                counterpart_id: counterpart.clone(),
                token_ids: vec![t.token_id.clone()],
                amounts: vec![100],
                change_amounts: vec![20],
            }),
        )
        .unwrap();
    assert_eq!(call.receiver_id, counterpart);

    // The escrow's own sub-call: pass 80 on to the counterpart.
    let change = contract
        .escrow_transfer(&escrow, &call.receiver_id, &call.token_ids, &call.amounts, call.change_amounts)
        .unwrap();
    assert_eq!(change, vec![20]);

    // Settle: the declared change goes back to the sender.
    let kept = contract
        .mt_resolve_transfer(
            &ledger_id(),
            &pending.sender_id,
            &pending.receiver_id,
            &pending.token_ids,
            &pending.amounts,
            Some(change),
        )
        .unwrap();
    assert_eq!(kept, vec![80]);
    assert_eq!(contract.mt_balance_of(&counterpart, &t.token_id).unwrap(), 80);
    assert_eq!(contract.mt_balance_of(&sender, &t.token_id).unwrap(), 20);
    assert_eq!(contract.mt_balance_of(&escrow, &t.token_id).unwrap(), 0);
}

#[test]
fn transfer_call_fails_without_moving() {
    let mut contract = setup_contract();
    let sender = "bob".to_string();
    let t = contract.mt_mint(&owner(), sender.clone(), 50).unwrap();
    let r = contract.mt_transfer_call(
        &sender,
        &"defi".to_string(),
        &t.token_id,
        60,
        None,
        "Fail".to_string(),
    );
    assert!(matches!(r, Err(Error::InsufficientBalance)));
    assert_eq!(contract.mt_balance_of(&sender, &t.token_id).unwrap(), 50);
}

#[test]
fn batch_transfer_call_carries_the_batch() {
    let mut contract = setup_contract();
    let sender = "bob".to_string();
    let escrow = "defi".to_string();
    let t1 = contract.mt_mint(&owner(), sender.clone(), 100).unwrap();
    let t2 = contract.mt_mint(&owner(), sender.clone(), 40).unwrap();
    let pending = contract
        .mt_batch_transfer_call(
            &sender,
            &escrow,
            vec![t1.token_id.clone(), t2.token_id.clone()],
            vec![30, 40],
            None,
            "swap".to_string(),
        )
        .unwrap();
    assert_eq!(pending.token_ids, vec![t1.token_id.clone(), t2.token_id.clone()]);
    assert_eq!(pending.amounts, vec![30, 40]);
    assert_eq!(contract.mt_balance_of(&escrow, &t1.token_id).unwrap(), 30);
    assert_eq!(contract.mt_balance_of(&escrow, &t2.token_id).unwrap(), 40);

    // Settle a failed chain: both moves come back.
    let kept = contract
        .mt_resolve_transfer(&ledger_id(), &sender, &escrow, &pending.token_ids, &pending.amounts, None)
        .unwrap();
    assert_eq!(kept, vec![0, 0]);
    assert_eq!(contract.mt_balance_of(&sender, &t1.token_id).unwrap(), 100);
    assert_eq!(contract.mt_balance_of(&sender, &t2.token_id).unwrap(), 40);
}

#[test]
fn batch_transfer_call_rejects_mismatched_lengths() {
    let mut contract = setup_contract();
    let sender = "bob".to_string();
    let t = contract.mt_mint(&owner(), sender.clone(), 100).unwrap();
    let r = contract.mt_batch_transfer_call(
        &sender,
        &"defi".to_string(),
        vec![t.token_id.clone()],
        vec![10, 20],
        None,
        "swap".to_string(),
    );
    assert!(matches!(r, Err(Error::MismatchedLengths)));
}

#[test]
fn resolve_is_restricted_to_the_ledger_account() {
    let mut contract = setup_contract();
    let sender = "bob".to_string();
    let escrow = "defi".to_string();
    let t = contract.mt_mint(&owner(), sender.clone(), 100).unwrap();
    let pending = contract
        .mt_transfer_call(&sender, &escrow, &t.token_id, 100, None, "Fail".to_string())
        .unwrap();
    let r = contract.mt_resolve_transfer(
        &"mallory".to_string(),
        &pending.sender_id,
        &pending.receiver_id,
        &pending.token_ids,
        &pending.amounts,
        None,
    );
    assert!(matches!(r, Err(Error::Unauthorized)));
    // The optimistic move stands until the ledger itself settles.
    assert_eq!(contract.mt_balance_of(&escrow, &t.token_id).unwrap(), 100);
}

#[test]
fn resolve_clamps_the_refund_to_what_the_receiver_still_holds() {
    let mut contract = setup_contract();
    let sender = "bob".to_string();
    let escrow = "defi".to_string();
    let t = contract.mt_mint(&owner(), sender.clone(), 100).unwrap();
    let pending = contract
        .mt_transfer_call(&sender, &escrow, &t.token_id, 100, None, "swap".to_string())
        .unwrap();
    // The receiver has meanwhile spent 70 elsewhere.
    contract.mt_transfer(&escrow, &"carol".to_string(), &t.token_id, 70, None).unwrap();
    // The chain reports everything unused, but only 30 are left to refund.
    let kept = contract
        .mt_resolve_transfer(&ledger_id(), &sender, &escrow, &pending.token_ids, &pending.amounts, None)
        .unwrap();
    assert_eq!(kept, vec![70]);
    assert_eq!(contract.mt_balance_of(&sender, &t.token_id).unwrap(), 30);
    assert_eq!(contract.mt_balance_of(&escrow, &t.token_id).unwrap(), 0);
}

#[test]
fn resolve_treats_a_malformed_report_as_a_failed_chain() {
    let mut contract = setup_contract();
    let sender = "bob".to_string();
    let escrow = "defi".to_string();
    let t = contract.mt_mint(&owner(), sender.clone(), 100).unwrap();
    let pending = contract
        .mt_transfer_call(&sender, &escrow, &t.token_id, 100, None, "swap".to_string())
        .unwrap();
    // A report whose length does not pair up with the amounts.
    let kept = contract
        .mt_resolve_transfer(
            &ledger_id(),
            &sender,
            &escrow,
            &pending.token_ids,
            &pending.amounts,
            Some(vec![1, 2]),
        )
        .unwrap();
    assert_eq!(kept, vec![0]);
    assert_eq!(contract.mt_balance_of(&sender, &t.token_id).unwrap(), 100);
}

#[test]
fn resolve_caps_the_refund_at_the_transferred_amount() {
    let mut contract = setup_contract();
    let sender = "bob".to_string();
    let escrow = "defi".to_string();
    let t = contract.mt_mint(&owner(), sender.clone(), 100).unwrap();
    let pending = contract
        .mt_transfer_call(&sender, &escrow, &t.token_id, 100, None, "swap".to_string())
        .unwrap();
    // The chain over-reports: more unused than was ever transferred.
    let kept = contract
        .mt_resolve_transfer(
            &ledger_id(),
            &sender,
            &escrow,
            &pending.token_ids,
            &pending.amounts,
            Some(vec![200]),
        )
        .unwrap();
    assert_eq!(kept, vec![0]);
    assert_eq!(contract.mt_balance_of(&sender, &t.token_id).unwrap(), 100);
}

#[test]
fn resolve_handles_a_token_repeated_in_one_batch() {
    let mut contract = setup_contract();
    let sender = "bob".to_string();
    let escrow = "defi".to_string();
    let t = contract.mt_mint(&owner(), sender.clone(), 100).unwrap();
    let pending = contract
        .mt_batch_transfer_call(
            &sender,
            &escrow,
            vec![t.token_id.clone(), t.token_id.clone()],
            vec![30, 40],
            None,
            "swap".to_string(),
        )
        .unwrap();
    assert_eq!(contract.mt_balance_of(&escrow, &t.token_id).unwrap(), 70);
    // Both entries refund against the receiver's evolving balance.
    let kept = contract
        .mt_resolve_transfer(
            &ledger_id(),
            &sender,
            &escrow,
            &pending.token_ids,
            &pending.amounts,
            Some(vec![30, 40]),
        )
        .unwrap();
    assert_eq!(kept, vec![0, 0]);
    assert_eq!(contract.mt_balance_of(&sender, &t.token_id).unwrap(), 100);
    assert_eq!(contract.mt_balance_of(&escrow, &t.token_id).unwrap(), 0);
}

#[test]
fn on_transfer_rejects_untrusted_callers() {
    let mut defi = DeFi::new(ledger_id());
    let r = defi.mt_on_transfer(
        &"mallory".to_string(),
        &"bob".to_string(),
        &vec!["1".to_string()],
        &vec![10],
        Some(ExchangeAction::Fail),
    );
    assert!(matches!(r, Err(Error::UntrustedCaller)));
}

#[test]
fn on_transfer_rejects_unreadable_messages() {
    let mut defi = DeFi::new(ledger_id());
    let r = defi.mt_on_transfer(
        &ledger_id(),
        &"bob".to_string(),
        &vec!["1".to_string()],
        &vec![10],
        None,
    );
    assert!(matches!(r, Err(Error::UnparseableMessage)));
}

#[test]
fn on_transfer_swap_declares_zero_change() {
    let mut defi = DeFi::new(ledger_id());
    let call = defi
        .mt_on_transfer(
            &ledger_id(),
            &"bob".to_string(),
            &vec!["1".to_string(), "2".to_string()],
            &vec![10, 20],
            Some(ExchangeAction::Swap {
                counterpart_id: "carol".to_string(),
                token_ids: vec!["1".to_string(), "2".to_string()],
                amounts: vec![10, 20],
            }),
        )
        .unwrap();
    assert_eq!(call.receiver_id, "carol");
    assert_eq!(call.change_amounts, vec![0, 0]);
}

#[test]
fn on_transfer_rejects_mismatched_change() {
    let mut defi = DeFi::new(ledger_id());
    let r = defi.mt_on_transfer(
        &ledger_id(),
        &"bob".to_string(),
        &vec!["1".to_string()],
        &vec![10],
        Some(ExchangeAction::SwapWithChange {
            counterpart_id: "carol".to_string(),
            token_ids: vec!["1".to_string()],
            amounts: vec![10],
            change_amounts: vec![1, 2],
        }),
    );
    assert!(matches!(r, Err(Error::MismatchedLengths)));
}

#[test]
fn escrow_transfer_skips_tokens_with_nothing_to_pass_on() {
    let mut contract = setup_contract();
    let escrow = "defi".to_string();
    let t = contract.mt_mint(&owner(), escrow.clone(), 20).unwrap();
    // The declared change exceeds the amount: nothing is passed on.
    let change = contract
        .escrow_transfer(
            &escrow,
            &"carol".to_string(),
            &vec![t.token_id.clone()],
            &vec![20],
            vec![30],
        )
        .unwrap();
    assert_eq!(change, vec![30]);
    assert_eq!(contract.mt_balance_of(&escrow, &t.token_id).unwrap(), 20);
    assert_eq!(contract.mt_balance_of(&"carol".to_string(), &t.token_id).unwrap(), 0);
}

#[test]
fn escrow_transfer_discards_everything_on_failure() {
    let mut contract = setup_contract();
    let escrow = "defi".to_string();
    let t1 = contract.mt_mint(&owner(), escrow.clone(), 50).unwrap();
    let t2 = contract.mt_mint(&owner(), escrow.clone(), 10).unwrap();
    let r = contract.escrow_transfer(
        &escrow,
        &"carol".to_string(),
        &vec![t1.token_id.clone(), t2.token_id.clone()],
        &vec![50, 99],
        vec![0, 0],
    );
    assert!(matches!(r, Err(Error::InsufficientBalance)));
    assert_eq!(contract.mt_balance_of(&escrow, &t1.token_id).unwrap(), 50);
    assert_eq!(contract.mt_balance_of(&escrow, &t2.token_id).unwrap(), 10);
}
