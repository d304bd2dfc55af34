//! Tests of the ledger core: minting, transfers, batches and queries.

use multi_token::{Error, MultiTokenContract};

fn setup_contract() -> MultiTokenContract {
    MultiTokenContract::new("alice".to_string(), "mt.ledger".to_string())
}

fn owner() -> String {
    "alice".to_string()
}

#[test]
fn list_asset_balances() {
    let mut contract = setup_contract();
    let token = contract.mt_mint(&owner(), owner(), u128::MAX).unwrap();
    // mint a second token to fully demonstrate the api.
    let _ = contract.mt_mint(&owner(), owner(), u128::MAX).unwrap();

    let user_account = "bob".to_string();
    let token_amount: u128 = 100;

    contract
        .mt_transfer(&owner(), &user_account, &token.token_id, token_amount, None)
        .unwrap();

    let tokens = contract.mt_tokens(None, None);
    let ids: Vec<String> = tokens.iter().map(|t| t.token_id.clone()).collect();

    let balances = contract.mt_batch_balance_of(&user_account, &ids).unwrap();

    // Verify that all the tokens are listed. Note, that all the contract tokens are listed
    // regardless of whether or not the current user has any.
    assert_eq!(balances.len(), 2);
    // Make sure the user received deposited amount.
    assert_eq!(balances[0], token_amount);
    // Make sure that the other token amount is 0, because the user has no balance.
    assert_eq!(balances[1], 0);
}

#[test]
fn mint_assigns_decimal_ids_in_order() {
    let mut contract = setup_contract();
    for expected in 1..=12u32 {
        let t = contract.mt_mint(&owner(), owner(), 5).unwrap();
        assert_eq!(t.token_id, expected.to_string());
    }
}

#[test]
fn mint_requires_admin() {
    let mut contract = setup_contract();
    let r = contract.mt_mint(&"bob".to_string(), "bob".to_string(), 10);
    assert!(matches!(r, Err(Error::Unauthorized)));
    assert_eq!(contract.mt_tokens(None, None).len(), 0);
}

#[test]
fn failed_mint_does_not_consume_an_id() {
    let mut contract = setup_contract();
    let r = contract.mt_mint(&"bob".to_string(), "bob".to_string(), 10);
    assert!(matches!(r, Err(Error::Unauthorized)));
    let t = contract.mt_mint(&owner(), owner(), 10).unwrap();
    assert_eq!(t.token_id, "1");
}

#[test]
fn mint_twice_gives_independent_tokens() {
    let mut contract = setup_contract();
    let t1 = contract.mt_mint(&owner(), owner(), 100).unwrap();
    let t2 = contract.mt_mint(&owner(), owner(), 70).unwrap();
    assert_ne!(t1.token_id, t2.token_id);
    assert_eq!(contract.mt_supply(&t1.token_id), Some(100));
    assert_eq!(contract.mt_supply(&t2.token_id), Some(70));
    // An unrelated transfer on one token leaves the other's supply alone.
    let before = contract.mt_supply(&t2.token_id);
    contract
        .mt_transfer(&owner(), &"bob".to_string(), &t1.token_id, 30, None)
        .unwrap();
    assert_eq!(contract.mt_supply(&t2.token_id), before);
    assert_eq!(contract.mt_supply(&t1.token_id), Some(100));
}

#[test]
fn transfer_moves_balance() {
    let mut contract = setup_contract();
    let t = contract.mt_mint(&owner(), owner(), 100).unwrap();
    let bob = "bob".to_string();
    contract.mt_transfer(&owner(), &bob, &t.token_id, 40, None).unwrap();
    assert_eq!(contract.mt_balance_of(&owner(), &t.token_id).unwrap(), 60);
    assert_eq!(contract.mt_balance_of(&bob, &t.token_id).unwrap(), 40);
}

#[test]
fn transfer_rejects_same_account() {
    let mut contract = setup_contract();
    let t = contract.mt_mint(&owner(), owner(), 100).unwrap();
    let r = contract.mt_transfer(&owner(), &owner(), &t.token_id, 10, None);
    assert!(matches!(r, Err(Error::SameAccount)));
    assert_eq!(contract.mt_balance_of(&owner(), &t.token_id).unwrap(), 100);
}

#[test]
fn transfer_rejects_zero_amount() {
    let mut contract = setup_contract();
    let t = contract.mt_mint(&owner(), owner(), 100).unwrap();
    let r = contract.mt_transfer(&owner(), &"bob".to_string(), &t.token_id, 0, None);
    assert!(matches!(r, Err(Error::ZeroAmount)));
}

#[test]
fn transfer_rejects_unknown_token() {
    let mut contract = setup_contract();
    let r = contract.mt_transfer(&owner(), &"bob".to_string(), &"7".to_string(), 10, None);
    assert!(matches!(r, Err(Error::TokenNotFound)));
}

#[test]
fn transfer_rejects_insufficient_balance() {
    let mut contract = setup_contract();
    let t = contract.mt_mint(&owner(), owner(), 100).unwrap();
    let bob = "bob".to_string();
    let r = contract.mt_transfer(&owner(), &bob, &t.token_id, 101, None);
    assert!(matches!(r, Err(Error::InsufficientBalance)));
    // Nothing moved.
    assert_eq!(contract.mt_balance_of(&owner(), &t.token_id).unwrap(), 100);
    assert_eq!(contract.mt_balance_of(&bob, &t.token_id).unwrap(), 0);
}

#[test]
fn balance_of_unknown_token_fails() {
    let contract = setup_contract();
    let r = contract.mt_balance_of(&owner(), &"1".to_string());
    assert!(matches!(r, Err(Error::TokenNotFound)));
}

#[test]
fn batch_transfer_applies_all_pairs_in_order() {
    let mut contract = setup_contract();
    let t1 = contract.mt_mint(&owner(), owner(), 100).unwrap();
    let t2 = contract.mt_mint(&owner(), owner(), 50).unwrap();
    let bob = "bob".to_string();
    contract
        .mt_batch_transfer(
            &owner(),
            &bob,
            &vec![t1.token_id.clone(), t2.token_id.clone(), t1.token_id.clone()],
            &vec![10, 20, 5],
            None,
        )
        .unwrap();
    assert_eq!(contract.mt_balance_of(&bob, &t1.token_id).unwrap(), 15);
    assert_eq!(contract.mt_balance_of(&bob, &t2.token_id).unwrap(), 20);
    assert_eq!(contract.mt_balance_of(&owner(), &t1.token_id).unwrap(), 85);
    assert_eq!(contract.mt_balance_of(&owner(), &t2.token_id).unwrap(), 30);
}

#[test]
fn batch_transfer_rejects_mismatched_lengths() {
    let mut contract = setup_contract();
    let t1 = contract.mt_mint(&owner(), owner(), 100).unwrap();
    let t2 = contract.mt_mint(&owner(), owner(), 50).unwrap();
    let bob = "bob".to_string();
    let r = contract.mt_batch_transfer(
        &owner(),
        &bob,
        &vec![t1.token_id.clone(), t2.token_id.clone()],
        &vec![10],
        None,
    );
    assert!(matches!(r, Err(Error::MismatchedLengths)));
    assert_eq!(contract.mt_balance_of(&owner(), &t1.token_id).unwrap(), 100);
    assert_eq!(contract.mt_balance_of(&owner(), &t2.token_id).unwrap(), 50);
    assert_eq!(contract.mt_balance_of(&bob, &t1.token_id).unwrap(), 0);
}

#[test]
fn batch_transfer_discards_earlier_pairs_on_failure() {
    let mut contract = setup_contract();
    let t1 = contract.mt_mint(&owner(), owner(), 100).unwrap();
    let t2 = contract.mt_mint(&owner(), owner(), 50).unwrap();
    let bob = "bob".to_string();
    let r = contract.mt_batch_transfer(
        &owner(),
        &bob,
        &vec![t1.token_id.clone(), t2.token_id.clone()],
        &vec![30, 200],
        None,
    );
    assert!(matches!(r, Err(Error::InsufficientBalance)));
    // The first pair had already been applied and is rolled back.
    assert_eq!(contract.mt_balance_of(&owner(), &t1.token_id).unwrap(), 100);
    assert_eq!(contract.mt_balance_of(&bob, &t1.token_id).unwrap(), 0);
}

#[test]
fn supply_queries() {
    let mut contract = setup_contract();
    let t1 = contract.mt_mint(&owner(), owner(), 100).unwrap();
    assert_eq!(contract.mt_supply(&t1.token_id), Some(100));
    assert_eq!(contract.mt_supply(&"9".to_string()), None);
    let supplies =
        contract.mt_batch_supply(&vec![t1.token_id.clone(), "9".to_string()]);
    assert_eq!(supplies, vec![Some(100), None]);
}

#[test]
fn token_queries_use_placeholder_owner() {
    let mut contract = setup_contract();
    let t1 = contract.mt_mint(&owner(), owner(), 100).unwrap();
    let info = contract.mt_token(t1.token_id.clone()).unwrap();
    assert_eq!(info.token_id, t1.token_id);
    assert_eq!(info.supply, 100);
    assert_eq!(info.owner_id, "not stored");
    assert!(contract.mt_token("9".to_string()).is_none());
    let listed = contract.mt_token_list(&vec![
        t1.token_id.clone(),
        "9".to_string(),
        t1.token_id.clone(),
    ]);
    assert_eq!(listed.len(), 2);
    assert_eq!(listed[0].token_id, t1.token_id);
    assert_eq!(listed[1].token_id, t1.token_id);
}

#[test]
fn pagination_returns_second_token() {
    let mut contract = setup_contract();
    let _t1 = contract.mt_mint(&owner(), owner(), 10).unwrap();
    let t2 = contract.mt_mint(&owner(), owner(), 20).unwrap();
    let _t3 = contract.mt_mint(&owner(), owner(), 30).unwrap();
    let page = contract.mt_tokens(Some(1), Some(1));
    assert_eq!(page.len(), 1);
    assert_eq!(page[0].token_id, t2.token_id);
    assert_eq!(page[0].supply, 20);
}

#[test]
fn pagination_clamps_to_the_registry() {
    let mut contract = setup_contract();
    let _ = contract.mt_mint(&owner(), owner(), 10).unwrap();
    let _ = contract.mt_mint(&owner(), owner(), 20).unwrap();
    assert_eq!(contract.mt_tokens(Some(5), None).len(), 0);
    assert_eq!(contract.mt_tokens(None, Some(0)).len(), 0);
    assert_eq!(contract.mt_tokens(None, None).len(), 2);
    assert_eq!(contract.mt_tokens(Some(1), Some(10)).len(), 1);
}

#[test]
fn tokens_for_owner_lists_minting_time_owners() {
    let mut contract = setup_contract();
    let bob = "bob".to_string();
    let t1 = contract.mt_mint(&owner(), bob.clone(), 10).unwrap();
    let _t2 = contract.mt_mint(&owner(), owner(), 20).unwrap();
    let t3 = contract.mt_mint(&owner(), bob.clone(), 30).unwrap();
    let owned = contract.mt_tokens_for_owner(&bob, None, None);
    assert_eq!(owned.len(), 2);
    assert_eq!(owned[0].token_id, t1.token_id);
    assert_eq!(owned[1].token_id, t3.token_id);
    let page = contract.mt_tokens_for_owner(&bob, Some(1), Some(1));
    assert_eq!(page.len(), 1);
    assert_eq!(page[0].token_id, t3.token_id);
    assert_eq!(contract.mt_tokens_for_owner(&"carol".to_string(), None, None).len(), 0);
}

#[test]
fn conservation_across_operations() {
    // The sum of all balances of a token equals its supply after every call.
    let mut contract = setup_contract();
    let t = contract.mt_mint(&owner(), owner(), 1000).unwrap();
    let bob = "bob".to_string();
    let carol = "carol".to_string();
    contract.mt_transfer(&owner(), &bob, &t.token_id, 400, None).unwrap();
    contract.mt_transfer(&bob, &carol, &t.token_id, 150, None).unwrap();
    let _ = contract.mt_transfer(&carol, &bob, &t.token_id, 9999, None);
    let a = contract.mt_balance_of(&owner(), &t.token_id).unwrap();
    let b = contract.mt_balance_of(&bob, &t.token_id).unwrap();
    let c = contract.mt_balance_of(&carol, &t.token_id).unwrap();
    assert_eq!(a + b + c, 1000);
    assert_eq!((a, b, c), (600, 250, 150));
}
