use subcosdex::engine::Subcosdex;
use subcosdex::types::{DexError, Event};

#[test]
fn new_engine_is_empty() {
    let s = Subcosdex::new();
    assert_eq!(s.balance_of(1, 1), 0);
    assert_eq!(s.tokens().len(), 0);
    assert_eq!(s.events.len(), 0);
    assert!(s.order_for(0).is_none());
}

#[test]
fn default_matches_new() {
    let s: Subcosdex = Default::default();
    assert_eq!(s.balance_of(7, 7), 0);
    assert_eq!(s.next_counter, 0);
}

#[test]
fn deposit_then_withdraw_nets_difference() {
    let mut s = Subcosdex::new();
    assert_eq!(s.deposit(1, 10, 100), Ok(100));
    assert_eq!(s.withdraw(1, 10, 40), Ok(60));
    assert_eq!(s.balance_of(1, 10), 60);
}

#[test]
fn over_withdrawal_fails_and_keeps_balance() {
    let mut s = Subcosdex::new();
    assert_eq!(s.deposit(1, 10, 100), Ok(100));
    assert_eq!(s.withdraw(1, 10, 101), Err(DexError::InsufficientBalance));
    assert_eq!(s.balance_of(1, 10), 100);
}

#[test]
fn zero_deposit_is_invalid() {
    let mut s = Subcosdex::new();
    assert_eq!(s.deposit(1, 10, 0), Err(DexError::InvalidAmount));
    assert_eq!(s.balance_of(1, 10), 0);
    assert_eq!(s.events.len(), 0);
}

#[test]
fn zero_withdrawal_is_invalid() {
    let mut s = Subcosdex::new();
    assert_eq!(s.deposit(1, 10, 5), Ok(5));
    assert_eq!(s.withdraw(1, 10, 0), Err(DexError::InvalidAmount));
    assert_eq!(s.balance_of(1, 10), 5);
}

#[test]
fn withdraw_from_unknown_account_is_insufficient() {
    let mut s = Subcosdex::new();
    assert_eq!(s.withdraw(9, 9, 1), Err(DexError::InsufficientBalance));
}

#[test]
fn deposits_accumulate_per_account_and_asset() {
    let mut s = Subcosdex::new();
    assert_eq!(s.deposit(1, 10, 30), Ok(30));
    assert_eq!(s.deposit(1, 10, 12), Ok(42));
    assert_eq!(s.deposit(1, 11, 5), Ok(5));
    assert_eq!(s.deposit(2, 10, 7), Ok(7));
    assert_eq!(s.balance_of(1, 10), 42);
    assert_eq!(s.balance_of(1, 11), 5);
    assert_eq!(s.balance_of(2, 10), 7);
}

#[test]
fn transfer_moves_exactly_the_amount() {
    let mut s = Subcosdex::new();
    assert_eq!(s.deposit(1, 10, 50), Ok(50));
    assert_eq!(s.transfer(1, 2, 10, 20), Ok(()));
    assert_eq!(s.balance_of(1, 10), 30);
    assert_eq!(s.balance_of(2, 10), 20);
}

#[test]
fn transfer_without_cover_changes_nothing() {
    let mut s = Subcosdex::new();
    assert_eq!(s.deposit(1, 10, 10), Ok(10));
    assert_eq!(s.transfer(1, 2, 10, 11), Err(DexError::InsufficientBalance));
    assert_eq!(s.balance_of(1, 10), 10);
    assert_eq!(s.balance_of(2, 10), 0);
}

#[test]
fn transfer_to_self_is_a_no_op() {
    let mut s = Subcosdex::new();
    assert_eq!(s.deposit(1, 10, 10), Ok(10));
    assert_eq!(s.transfer(1, 1, 10, 4), Ok(()));
    assert_eq!(s.balance_of(1, 10), 10);
}

#[test]
fn transfer_of_zero_is_invalid() {
    let mut s = Subcosdex::new();
    assert_eq!(s.transfer(1, 2, 10, 0), Err(DexError::InvalidAmount));
}

#[test]
fn ledger_events_fire_once_per_success() {
    let mut s = Subcosdex::new();
    assert_eq!(s.deposit(1, 10, 5), Ok(5));
    assert_eq!(s.withdraw(1, 10, 2), Ok(3));
    let _ = s.withdraw(1, 10, 99);
    assert_eq!(s.events.len(), 2);
    assert!(matches!(s.events[0], Event::Deposit(ref d) if d.asset_id == 10 && d.amount == 5));
    assert!(matches!(s.events[1], Event::Withdraw(ref w) if w.asset_id == 10 && w.amount == 2));
}

#[test]
fn tokens_lists_each_active_asset_once() {
    let mut s = Subcosdex::new();
    assert_eq!(s.deposit(1, 10, 5), Ok(5));
    assert_eq!(s.deposit(2, 10, 5), Ok(5));
    assert_eq!(s.deposit(1, 11, 5), Ok(5));
    let toks = s.tokens();
    assert_eq!(toks, vec![10, 11]);
}

#[test]
fn tokens_excludes_assets_withdrawn_to_zero() {
    let mut s = Subcosdex::new();
    assert_eq!(s.deposit(1, 10, 5), Ok(5));
    assert_eq!(s.deposit(1, 11, 5), Ok(5));
    assert_eq!(s.withdraw(1, 10, 5), Ok(0));
    assert_eq!(s.tokens(), vec![11]);
}

#[test]
fn owners_tokens_lists_only_that_owner() {
    let mut s = Subcosdex::new();
    assert_eq!(s.deposit(1, 10, 5), Ok(5));
    assert_eq!(s.deposit(1, 12, 5), Ok(5));
    assert_eq!(s.deposit(2, 11, 5), Ok(5));
    assert_eq!(s.owners_tokens(1), vec![10, 12]);
    assert_eq!(s.owners_tokens(2), vec![11]);
    assert_eq!(s.owners_tokens(3), Vec::<u32>::new());
}

#[test]
fn owner_token_by_index_paginates() {
    let mut s = Subcosdex::new();
    assert_eq!(s.deposit(1, 10, 5), Ok(5));
    assert_eq!(s.deposit(1, 12, 5), Ok(5));
    assert_eq!(s.owner_token_by_index(1, 0), Ok(10));
    assert_eq!(s.owner_token_by_index(1, 1), Ok(12));
    assert_eq!(s.owner_token_by_index(1, 2), Err(DexError::IndexOutOfRange));
    assert_eq!(s.owner_token_by_index(9, 0), Err(DexError::IndexOutOfRange));
}
