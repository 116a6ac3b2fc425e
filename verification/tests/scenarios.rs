//! End-to-end scenarios on a fresh book: crossing, priority, sweeps,
//! fill-or-kill, system-level merging and cancellation.

use orderbooklib::{OrderRequest, OrderStatus, OrderType, Side};
use orderbooklib::OrderBook;

fn limit(side: Side, qty: u64, price: u64) -> OrderRequest {
    OrderRequest::new(side, qty, OrderType::limit(price))
}

#[test]
fn test_scenario_basic_cross() {
    let mut book = OrderBook::new();
    book.add_order(limit(Side::Ask, 100, 10));
    let (result, executions) = book.add_order(limit(Side::Bid, 50, 10));
    assert_eq!(result.status, OrderStatus::Filled);
    assert_eq!(executions.len(), 1);
    assert_eq!(executions[0].qty, 50);
    assert_eq!(executions[0].price, 10);
    assert_eq!(book.best_ask(), Some(10));
    assert_eq!(book.get_volume_at_price(&Side::Ask, &10), Some(50));
    assert_eq!(book.best_bid(), None);
}

#[test]
fn test_scenario_price_time_priority() {
    let mut book = OrderBook::new();
    let (first, _) = book.add_order(limit(Side::Ask, 100, 10));
    let (second, _) = book.add_order(limit(Side::Ask, 100, 10));
    book.add_order(limit(Side::Ask, 100, 11));
    let (_, executions) = book.add_order(limit(Side::Bid, 150, 10));
    assert_eq!(executions.len(), 2);
    assert_eq!(executions[0].qty, 100);
    assert_eq!(executions[0].price, 10);
    assert_eq!(executions[0].maker_order_id, first.get_id());
    assert_eq!(executions[1].qty, 50);
    assert_eq!(executions[1].price, 10);
    assert_eq!(executions[1].maker_order_id, second.get_id());
    assert_eq!(book.best_ask(), Some(10));
    assert_eq!(book.get_volume_at_price(&Side::Ask, &10), Some(50));
}

#[test]
fn test_scenario_market_sweep() {
    let mut book = OrderBook::new();
    book.add_order(limit(Side::Ask, 50, 10));
    book.add_order(limit(Side::Ask, 100, 11));
    let (result, executions) = book.add_order(OrderRequest::new(Side::Bid, 200, OrderType::Market));
    assert_eq!(executions.len(), 2);
    assert_eq!(executions[0].qty, 50);
    assert_eq!(executions[0].price, 10);
    assert_eq!(executions[1].qty, 100);
    assert_eq!(executions[1].price, 11);
    assert_eq!(result.status, OrderStatus::PartiallyFilled);
    assert_eq!(result.remaining_qty, 50);
    assert_eq!(book.best_bid(), None);
}

#[test]
fn test_scenario_fok_reject() {
    let mut book = OrderBook::new();
    book.add_order(limit(Side::Ask, 50, 10));
    book.add_order(limit(Side::Ask, 50, 10));
    let (result, executions) = book.add_order(OrderRequest::new(Side::Bid, 101, OrderType::fok(10)));
    assert_eq!(result.status, OrderStatus::Cancelled);
    assert!(executions.is_empty());
    assert_eq!(book.best_ask(), Some(10));
    assert_eq!(book.get_volume_at_price(&Side::Ask, &10), Some(100));
}

#[test]
fn test_scenario_fok_accept() {
    let mut book = OrderBook::new();
    book.add_order(limit(Side::Ask, 50, 10));
    book.add_order(limit(Side::Ask, 50, 10));
    let (result, executions) = book.add_order(OrderRequest::new(Side::Bid, 100, OrderType::fok(10)));
    assert_eq!(result.status, OrderStatus::Filled);
    assert_eq!(executions.len(), 2);
    assert_eq!(executions[0].qty, 50);
    assert_eq!(executions[1].qty, 50);
    assert_eq!(book.best_ask(), None);
}

#[test]
fn test_scenario_system_level_merge_and_cross() {
    let mut book = OrderBook::new();
    let first = OrderRequest::new(Side::Ask, 100, OrderType::system_level(10));
    let first_id = first.id();
    book.add_order(first);
    let second = OrderRequest::new(Side::Ask, 50, OrderType::system_level(10));
    assert_eq!(second.id(), first_id);
    book.add_order(second);
    assert_eq!(book.best_ask(), Some(10));
    assert_eq!(book.get_order(first_id).unwrap().remaining_qty, 150);
    assert_eq!(book.get_order_count(), 1);

    let taker = OrderRequest::new(Side::Bid, 200, OrderType::system_level(10));
    let (result, executions) = book.add_order(taker);
    assert_eq!(result.status, OrderStatus::PartiallyFilled);
    assert_eq!(result.remaining_qty, 50);
    assert_eq!(executions.len(), 1);
    assert_eq!(executions[0].qty, 150);
    assert_eq!(book.best_ask(), None);
    assert_eq!(book.best_bid(), Some(10));
    assert_eq!(book.get_volume_at_price(&Side::Bid, &10), Some(50));
}

#[test]
fn test_scenario_partial_cancel_then_delete() {
    let mut book = OrderBook::new();
    let (result, _) = book.add_order(limit(Side::Bid, 100, 10));
    let id = result.get_id();

    let partial = book.cancel_order(id, 40).unwrap();
    assert_eq!(partial.status, OrderStatus::Open);
    assert_eq!(partial.remaining_qty, 60);
    assert_eq!(book.get_volume_at_price(&Side::Bid, &10), Some(60));

    let full = book.cancel_order(id, 100).unwrap();
    assert_eq!(full.status, OrderStatus::Cancelled);
    assert_eq!(book.best_bid(), None);

    assert!(book.cancel_order(id, 1).is_none());
}

#[test]
fn test_scenario_market_on_empty_book() {
    let mut book = OrderBook::new();
    let (result, executions) = book.add_order(OrderRequest::new(Side::Bid, 25, OrderType::Market));
    assert_eq!(result.status, OrderStatus::Cancelled);
    assert_eq!(result.remaining_qty, 25);
    assert!(executions.is_empty());
    assert!(book.is_empty());
}

#[test]
fn test_scenario_ioc_no_liquidity_in_range() {
    let mut book = OrderBook::new();
    book.add_order(limit(Side::Ask, 100, 12));
    let (result, executions) = book.add_order(OrderRequest::new(Side::Bid, 50, OrderType::ioc(10)));
    assert_eq!(result.status, OrderStatus::Cancelled);
    assert!(executions.is_empty());
    assert_eq!(book.best_ask(), Some(12));
    assert_eq!(book.best_bid(), None);
}

#[test]
fn test_scenario_spread() {
    let mut book = OrderBook::new();
    assert_eq!(book.spread(), None);
    book.add_order(limit(Side::Ask, 10, 15));
    assert_eq!(book.spread(), None);
    book.add_order(limit(Side::Bid, 10, 11));
    assert_eq!(book.spread(), Some(4));
    assert_eq!(book.best_prices(), (Some(11), Some(15)));
}

#[test]
fn test_scenario_limit_zero_price_never_rests() {
    let mut book = OrderBook::new();
    let (result, executions) = book.add_order(limit(Side::Bid, 50, 0));
    assert_eq!(result.status, OrderStatus::Open);
    assert!(executions.is_empty());
    assert!(book.is_empty());
    assert_eq!(book.get_order_count(), 0);
}

#[test]
fn test_scenario_order_count_matches_book() {
    let mut book = OrderBook::new();
    book.add_order(limit(Side::Ask, 100, 10));
    book.add_order(limit(Side::Ask, 50, 10));
    book.add_order(limit(Side::Bid, 75, 9));
    assert_eq!(book.get_order_count(), 3);
    assert_eq!(
        book.asks.get_order_count() + book.bids.get_order_count(),
        book.get_order_count()
    );
    // a crossing order consumes one maker entirely and rests nothing, so
    // one live order is gone: the locator follows.
    book.add_order(limit(Side::Bid, 100, 10));
    assert_eq!(book.get_order_count(), 2);
    assert_eq!(
        book.asks.get_order_count() + book.bids.get_order_count(),
        book.get_order_count()
    );
}

#[test]
fn test_scenario_price_digits_id_stability() {
    // ids of system-level orders are derived from the decimal digits of the
    // price, so distinct prices get distinct stable ids.
    let a1 = OrderRequest::new(Side::Ask, 1, OrderType::system_level(42));
    let a2 = OrderRequest::new(Side::Bid, 9, OrderType::system_level(42));
    let b = OrderRequest::new(Side::Ask, 1, OrderType::system_level(43));
    assert_eq!(a1.id(), a2.id());
    assert_ne!(a1.id(), b.id());
    assert_eq!(
        a1.id(),
        orderbooklib::create_id_from_bytes("42".as_bytes())
    );
}
