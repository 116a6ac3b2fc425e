//! Tests of the scalar types and the id generators.

use orderbooklib::{create_id_from_bytes, create_order_id, Side, TradingPair};

#[test]
fn types_test_side_enum() {
    assert!(matches!(Side::Ask, Side::Ask));
    assert!(matches!(Side::Bid, Side::Bid));
}

#[test]
fn side_test_side_enum() {
    assert!(matches!(Side::Ask, Side::Ask));
    assert!(matches!(Side::Bid, Side::Bid));
}

#[test]
fn test_side_opposite() {
    assert_eq!(Side::Ask.opposite(), Side::Bid);
    assert_eq!(Side::Bid.opposite(), Side::Ask);
}

#[test]
fn types_test_create_order_id() {
    let id1 = create_order_id();
    let id2 = create_order_id();
    assert_ne!(id1, id2);
}

#[test]
fn mod_test_create_order_id() {
    let id1 = create_order_id();
    let id2 = create_order_id();
    assert_ne!(id1, id2);
}

#[test]
fn test_create_id_from_bytes() {
    let id1 = create_id_from_bytes("hello".as_bytes());
    let id2 = create_id_from_bytes("hello".as_bytes());
    let id3 = create_id_from_bytes("world".as_bytes());
    assert_eq!(id1, id2);
    assert_ne!(id1, id3);
}

#[test]
fn test_id_from_bytes_matches_named_uuid() {
    // the DNS-namespaced name-based id of "rust-lang.org", as the UUID
    // standard fixes it.
    let id = create_id_from_bytes("rust-lang.org".as_bytes());
    let expect = uuid::Uuid::new_v5(&uuid::Uuid::NAMESPACE_DNS, "rust-lang.org".as_bytes());
    assert_eq!(id, expect.as_u128());
    assert_eq!(
        expect.hyphenated().to_string(),
        "c66bbb60-d62e-5f17-a399-3a0bd237c503"
    );
}

#[test]
fn test_trading_pair_new() {
    let pair = TradingPair::new("BTC".to_string(), "USD".to_string());
    assert_eq!(pair.base, "BTC");
    assert_eq!(pair.quote, "USD");
}
