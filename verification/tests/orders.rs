use subcosdex::engine::Subcosdex;
use subcosdex::types::{DexError, Event, OrderType};

const O: u64 = 1;
const T: u64 = 2;
const X: u32 = 10;
const Y: u32 = 20;

fn engine_with_funds() -> Subcosdex {
    let mut s = Subcosdex::new();
    assert_eq!(s.deposit(O, X, 100), Ok(100));
    assert_eq!(s.deposit(T, Y, 100), Ok(100));
    s
}

#[test]
fn make_order_escrows_and_stores() {
    let mut s = engine_with_funds();
    let id = s.make_order(O, X, Y, 10, 5, OrderType::SELL).unwrap();
    assert_eq!(id, 0);
    assert_eq!(s.balance_of(O, X), 90);
    let o = s.order_for(id).unwrap();
    assert_eq!(o.counter, 0);
    assert_eq!(o.address, O);
    assert_eq!(o.pair, (X, Y));
    assert_eq!(o.amount_offered, 10);
    assert_eq!(o.amount_requested, 5);
    assert_eq!(o.order_type, OrderType::SELL);
    assert!(matches!(s.events.last().unwrap(), Event::OrderCreated(_)));
}

#[test]
fn order_counters_increase_and_never_reuse() {
    let mut s = engine_with_funds();
    let a = s.make_order(O, X, Y, 1, 1, OrderType::SELL).unwrap();
    let b = s.make_order(O, X, Y, 1, 1, OrderType::SELL).unwrap();
    assert_eq!((a, b), (0, 1));
    assert_eq!(s.cancel_order(a, O), Ok(()));
    let c = s.make_order(O, X, Y, 1, 1, OrderType::SELL).unwrap();
    assert_eq!(c, 2);
}

#[test]
fn make_order_rejects_zero_amounts() {
    let mut s = engine_with_funds();
    assert_eq!(s.make_order(O, X, Y, 0, 5, OrderType::SELL), Err(DexError::InvalidAmount));
    assert_eq!(s.make_order(O, X, Y, 10, 0, OrderType::SELL), Err(DexError::InvalidAmount));
    assert_eq!(s.balance_of(O, X), 100);
    assert_eq!(s.events.len(), 2);
}

#[test]
fn make_order_rejects_uncovered_offer() {
    let mut s = engine_with_funds();
    assert_eq!(
        s.make_order(O, X, Y, 101, 5, OrderType::SELL),
        Err(DexError::InsufficientBalance)
    );
    assert_eq!(s.balance_of(O, X), 100);
}

#[test]
fn cancel_restores_balance_and_clears_indexes() {
    let mut s = engine_with_funds();
    let id = s.make_order(O, X, Y, 10, 5, OrderType::SELL).unwrap();
    assert_eq!(s.balance_of(O, X), 90);
    assert_eq!(s.cancel_order(id, O), Ok(()));
    assert_eq!(s.balance_of(O, X), 100);
    assert!(s.order_for(id).is_none());
    assert_eq!(s.pair_orders(X, Y).len(), 0);
    assert_eq!(s.user_orders(O).len(), 0);
    assert!(matches!(s.events.last().unwrap(), Event::OrderCanceled(e) if e.counter == id));
}

#[test]
fn cancel_by_non_owner_is_rejected() {
    let mut s = engine_with_funds();
    let id = s.make_order(O, X, Y, 10, 5, OrderType::SELL).unwrap();
    assert_eq!(s.cancel_order(id, T), Err(DexError::NotOwner));
    assert_eq!(s.balance_of(O, X), 90);
    assert!(s.order_for(id).is_some());
}

#[test]
fn cancel_unknown_id_is_not_found() {
    let mut s = engine_with_funds();
    assert_eq!(s.cancel_order(77, O), Err(DexError::NotFound));
}

#[test]
fn repeated_cancel_is_a_not_found_no_op() {
    let mut s = engine_with_funds();
    let id = s.make_order(O, X, Y, 10, 5, OrderType::SELL).unwrap();
    assert_eq!(s.cancel_order(id, O), Ok(()));
    assert_eq!(s.balance_of(O, X), 100);
    assert_eq!(s.cancel_order(id, O), Err(DexError::NotFound));
    assert_eq!(s.balance_of(O, X), 100);
    assert_eq!(s.cancel_order(id, O), Err(DexError::NotFound));
    assert_eq!(s.balance_of(O, X), 100);
}

#[test]
fn take_settles_both_legs_and_removes_order() {
    let mut s = Subcosdex::new();
    assert_eq!(s.deposit(O, X, 10), Ok(10));
    assert_eq!(s.deposit(T, Y, 5), Ok(5));
    let id = s.make_order(O, X, Y, 10, 5, OrderType::SELL).unwrap();
    assert_eq!(s.take_order(id, T), Ok(()));
    assert_eq!(s.balance_of(T, X), 10);
    assert_eq!(s.balance_of(T, Y), 0);
    assert_eq!(s.balance_of(O, X), 0);
    assert_eq!(s.balance_of(O, Y), 5);
    assert!(s.order_for(id).is_none());
    assert_eq!(s.pair_orders(X, Y).len(), 0);
    assert_eq!(s.user_orders(O).len(), 0);
    assert!(matches!(s.events.last().unwrap(), Event::OrderTaken(e) if e.counter == id));
}

#[test]
fn take_unknown_id_changes_no_balance() {
    let mut s = engine_with_funds();
    assert_eq!(s.take_order(42, T), Err(DexError::NotFound));
    assert_eq!(s.balance_of(O, X), 100);
    assert_eq!(s.balance_of(T, Y), 100);
    assert_eq!(s.events.len(), 2);
}

#[test]
fn self_take_is_rejected_without_changes() {
    let mut s = engine_with_funds();
    let id = s.make_order(O, X, Y, 10, 5, OrderType::SELL).unwrap();
    assert_eq!(s.take_order(id, O), Err(DexError::SelfTrade));
    assert_eq!(s.balance_of(O, X), 90);
    assert_eq!(s.balance_of(O, Y), 0);
    assert!(s.order_for(id).is_some());
}

#[test]
fn take_without_cover_leaves_order_open() {
    let mut s = Subcosdex::new();
    assert_eq!(s.deposit(O, X, 10), Ok(10));
    assert_eq!(s.deposit(T, Y, 4), Ok(4));
    let id = s.make_order(O, X, Y, 10, 5, OrderType::SELL).unwrap();
    assert_eq!(s.take_order(id, T), Err(DexError::InsufficientBalance));
    assert_eq!(s.balance_of(T, Y), 4);
    assert_eq!(s.balance_of(O, Y), 0);
    assert!(s.order_for(id).is_some());
    assert_eq!(s.pair_orders(X, Y).len(), 1);
}

#[test]
fn pagination_is_stable_across_removal() {
    let mut s = engine_with_funds();
    let a = s.make_order(O, X, Y, 1, 1, OrderType::SELL).unwrap();
    let b = s.make_order(O, X, Y, 2, 2, OrderType::SELL).unwrap();
    let c = s.make_order(O, X, Y, 3, 3, OrderType::SELL).unwrap();
    assert_eq!((a, b, c), (0, 1, 2));
    assert_eq!(s.user_order_by_index(O, 2).unwrap().counter, 2);
    assert_eq!(s.cancel_order(b, O), Ok(()));
    // This engine pins the stable compaction rule: after removing counter 1,
    // position 1 holds counter 2's order and position 2 is out of range.
    assert_eq!(s.user_order_by_index(O, 0).unwrap().counter, 0);
    assert_eq!(s.user_order_by_index(O, 1).unwrap().counter, 2);
    assert!(matches!(s.user_order_by_index(O, 2), Err(DexError::IndexOutOfRange)));
    assert_eq!(s.pair_order_by_index(X, Y, 1).unwrap().counter, 2);
}

#[test]
fn pair_books_are_asymmetric() {
    let mut s = engine_with_funds();
    assert_eq!(s.deposit(O, Y, 50), Ok(50));
    let xy = s.make_order(O, X, Y, 1, 1, OrderType::SELL).unwrap();
    let yx = s.make_order(O, Y, X, 2, 2, OrderType::BUY).unwrap();
    let xy_orders = s.pair_orders(X, Y);
    let yx_orders = s.pair_orders(Y, X);
    assert_eq!(xy_orders.len(), 1);
    assert_eq!(xy_orders[0].counter, xy);
    assert_eq!(yx_orders.len(), 1);
    assert_eq!(yx_orders[0].counter, yx);
    assert_eq!(s.pair_orders(Y, 99).len(), 0);
}

#[test]
fn user_orders_lists_only_that_owner() {
    let mut s = engine_with_funds();
    assert_eq!(s.deposit(T, X, 50), Ok(50));
    let a = s.make_order(O, X, Y, 1, 1, OrderType::SELL).unwrap();
    let b = s.make_order(T, X, Y, 2, 2, OrderType::SELL).unwrap();
    let of_o = s.user_orders(O);
    let of_t = s.user_orders(T);
    assert_eq!(of_o.len(), 1);
    assert_eq!(of_o[0].counter, a);
    assert_eq!(of_t.len(), 1);
    assert_eq!(of_t[0].counter, b);
    assert_eq!(s.user_orders(9).len(), 0);
}

#[test]
fn pair_order_by_index_out_of_range() {
    let mut s = engine_with_funds();
    assert!(matches!(s.pair_order_by_index(X, Y, 0), Err(DexError::IndexOutOfRange)));
    let _ = s.make_order(O, X, Y, 1, 1, OrderType::SELL).unwrap();
    assert_eq!(s.pair_order_by_index(X, Y, 0).unwrap().counter, 0);
    assert!(matches!(s.pair_order_by_index(X, Y, 1), Err(DexError::IndexOutOfRange)));
}

#[test]
fn timestamps_follow_the_counter_clock() {
    let mut s = engine_with_funds();
    let a = s.make_order(O, X, Y, 1, 1, OrderType::SELL).unwrap();
    let b = s.make_order(O, X, Y, 1, 1, OrderType::BUY).unwrap();
    assert_eq!(s.order_for(a).unwrap().timestamp, 0);
    assert_eq!(s.order_for(b).unwrap().timestamp, 1);
}
