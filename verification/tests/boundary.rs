use subcosdex::boundary::{reduce_id, tag_order, Id};
use subcosdex::engine::Subcosdex;
use subcosdex::types::{DexError, OrderType};

#[test]
fn only_u32_identifiers_reduce() {
    assert_eq!(reduce_id(&Id::U32(7)), Ok(7));
    assert_eq!(reduce_id(&Id::U8(7)), Err(DexError::UnsupportedIdentifier));
    assert_eq!(reduce_id(&Id::U16(7)), Err(DexError::UnsupportedIdentifier));
    assert_eq!(reduce_id(&Id::U64(7)), Err(DexError::UnsupportedIdentifier));
    assert_eq!(reduce_id(&Id::U128(7)), Err(DexError::UnsupportedIdentifier));
    assert_eq!(reduce_id(&Id::Bytes(vec![7])), Err(DexError::UnsupportedIdentifier));
}

#[test]
fn tagging_preserves_every_field() {
    let mut s = Subcosdex::new();
    assert_eq!(s.deposit(1, 10, 10), Ok(10));
    let id = s.make_order(1, 10, 20, 10, 5, OrderType::BUY).unwrap();
    let w = s.order_for(id).unwrap();
    let o = tag_order(&w);
    assert_eq!(o.counter, w.counter);
    assert_eq!(o.address, w.address);
    assert!(matches!(o.pair.0, Id::U32(v) if v == 10));
    assert!(matches!(o.pair.1, Id::U32(v) if v == 20));
    assert_eq!(o.timestamp, w.timestamp);
    assert_eq!(o.order_type, w.order_type);
    assert_eq!(o.amount_offered, 10);
    assert_eq!(o.amount_requested, 5);
}

#[test]
fn reduced_identifier_drives_the_engine() {
    let mut s = Subcosdex::new();
    let asset = reduce_id(&Id::U32(10)).unwrap();
    assert_eq!(s.deposit(1, asset, 3), Ok(3));
    assert_eq!(s.balance_of(1, 10), 3);
}
