//! Tests of the half-book and the order book: resting, matching,
//! cancellation and the read-only queries.

use orderbooklib::{HalfBook, OrderBook, OrderRequest, OrderStatus, OrderType, Side, TradeOrder};

#[test]
fn test_half_book_add_order() {
    let mut book = HalfBook::new(Side::Ask);
    let order = TradeOrder::new(100);
    book.add_order(10, order);
    assert_eq!(book.best_price(), Some(10));
}

#[test]
fn test_half_book_remove_order() {
    let mut book = HalfBook::new(Side::Ask);
    let order = TradeOrder::new(100);
    let order_id = order.id;
    book.add_order(10, order);
    assert!(book.remove_order(&10, order_id).is_some());
    assert!(book.best_price().is_none());
}

#[test]
fn test_order_book_add_order() {
    let mut book = OrderBook::default();
    let order = OrderRequest::new(Side::Ask, 100, OrderType::limit(10));
    let (result, executions) = book.add_order(order);
    assert_eq!(result.status, OrderStatus::Open);
    assert!(executions.is_empty());
    assert_eq!(book.best_ask(), Some(10));
}

#[test]
fn test_order_book_add_system_order() {
    let mut book = OrderBook::default();
    let order1 = OrderRequest::new(Side::Ask, 100, OrderType::system_level(10));
    let id1 = order1.id();
    let (result, executions) = book.add_order(order1);
    assert_eq!(result.status, OrderStatus::Open);
    assert!(executions.is_empty());
    assert_eq!(book.best_ask(), Some(10));
    // Test adding a second order at the same price level to test merging
    let order2 = OrderRequest::new(Side::Ask, 50, OrderType::system_level(10));
    let id2 = order2.id();
    assert_eq!(id1, id2);
    let (result, executions) = book.add_order(order2);
    assert_eq!(result.status, OrderStatus::Open);
    assert!(executions.is_empty());
    assert_eq!(book.best_ask(), Some(10));

    let order1 = book.get_order(id1).unwrap();
    assert_eq!(order1.remaining_qty, 150);
    let order3 = OrderRequest::new(Side::Bid, 200, OrderType::system_level(10));
    let (result, executions) = book.add_order(order3);
    assert_eq!(result.status, OrderStatus::PartiallyFilled);
    assert!(!executions.is_empty());
    assert_eq!(book.best_ask(), None);
    assert_eq!(book.best_bid(), Some(10));
}

#[test]
fn test_order_book_match_orders() {
    let mut book = OrderBook::default();
    let ask_order = OrderRequest::new(Side::Ask, 100, OrderType::limit(10));
    book.add_order(ask_order);
    let bid_order = OrderRequest::new(Side::Bid, 50, OrderType::limit(10));
    let (result, executions) = book.add_order(bid_order);
    assert_eq!(result.status, OrderStatus::Filled);
    assert_eq!(executions.len(), 1);
    assert_eq!(executions[0].qty, 50);
}

#[test]
fn test_order_book_market_order() {
    let mut book = OrderBook::default();
    let ask_order = OrderRequest::new(Side::Ask, 100, OrderType::limit(10));
    book.add_order(ask_order);
    let market_order = OrderRequest::new(Side::Bid, 50, OrderType::Market);
    let (result, executions) = book.add_order(market_order);
    assert_eq!(result.status, OrderStatus::Filled);
    assert_eq!(executions.len(), 1);
    assert_eq!(executions[0].qty, 50);
    assert_eq!(executions[0].price, 10);
}

// Helper function to create a limit order request
fn limit_order(side: Side, qty: u64, price: u64) -> OrderRequest {
    OrderRequest::new(side, qty, OrderType::limit(price))
}

#[test]
fn test_empty_order_book() {
    let book = OrderBook::default();
    assert_eq!(book.best_bid(), None);
    assert_eq!(book.best_ask(), None);
    assert_eq!(book.spread(), None);
}

#[test]
fn test_add_and_remove_orders() {
    let mut book = OrderBook::default();

    // Add a bid order
    let (bid_result, _) = book.add_order(limit_order(Side::Bid, 100, 10));
    assert_eq!(book.best_bid(), Some(10));

    // Add an ask order
    let (ask_result, _) = book.add_order(limit_order(Side::Ask, 100, 11));
    assert_eq!(book.best_ask(), Some(11));

    // Remove the bid order
    book.delete_order(bid_result.get_id());
    assert_eq!(book.best_bid(), None);

    // Remove the ask order
    book.delete_order(ask_result.get_id());
    assert_eq!(book.best_ask(), None);
}

#[test]
fn test_order_matching() {
    let mut book = OrderBook::default();

    // Add some initial orders
    book.add_order(limit_order(Side::Ask, 100, 10));
    book.add_order(limit_order(Side::Ask, 100, 11));
    book.add_order(limit_order(Side::Bid, 100, 9));

    // Add a matching bid order
    let (result, executions) = book.add_order(limit_order(Side::Bid, 150, 10));

    assert_eq!(result.status, OrderStatus::PartiallyFilled);
    assert_eq!(executions.len(), 1);
    assert_eq!(executions[0].qty, 100);
    assert_eq!(executions[0].price, 10);
    assert_eq!(book.best_ask(), Some(11));
    assert_eq!(book.best_bid(), Some(10));
}

#[test]
fn test_market_order() {
    let mut book = OrderBook::default();

    // Add some limit orders
    book.add_order(limit_order(Side::Ask, 50, 10));
    book.add_order(limit_order(Side::Ask, 100, 11));

    // Add a market buy order
    let (result, executions) = book.add_order(OrderRequest::new(Side::Bid, 200, OrderType::Market));

    assert_eq!(result.status, OrderStatus::PartiallyFilled);
    assert_eq!(executions.len(), 2);
    assert_eq!(executions[0].qty, 50);
    assert_eq!(executions[0].price, 10);
    assert_eq!(executions[1].qty, 100);
    assert_eq!(executions[1].price, 11);
}

#[test]
fn test_ioc_order() {
    let mut book = OrderBook::default();

    // Add a limit sell order
    book.add_order(limit_order(Side::Ask, 100, 10));

    // Add an IOC buy order that partially fills
    let (result, executions) = book.add_order(OrderRequest::new(Side::Bid, 150, OrderType::ioc(10)));

    assert_eq!(result.status, OrderStatus::PartiallyFilled);
    assert_eq!(executions.len(), 1);
    assert_eq!(executions[0].qty, 100);
    assert_eq!(book.best_ask(), None);
    assert_eq!(book.best_bid(), None);
}

#[test]
fn test_fok_order() {
    let mut book = OrderBook::default();

    // Add some limit sell orders
    book.add_order(limit_order(Side::Ask, 50, 10));
    book.add_order(limit_order(Side::Ask, 50, 10));

    // Add a FOK buy order that fully fills
    let (result, executions) = book.add_order(OrderRequest::new(Side::Bid, 100, OrderType::fok(10)));

    assert_eq!(result.status, OrderStatus::Filled);
    assert_eq!(executions.len(), 2);
    assert_eq!(executions[0].qty, 50);
    assert_eq!(executions[1].qty, 50);
    assert_eq!(book.best_ask(), None);

    // Add a FOK buy order that doesn't fill
    let (result, executions) = book.add_order(OrderRequest::new(Side::Bid, 100, OrderType::fok(9)));

    assert_eq!(result.status, OrderStatus::Cancelled);
    assert!(executions.is_empty());
}

#[test]
fn test_price_levels() {
    let mut book = OrderBook::default();

    // Add multiple orders at the same price level
    book.add_order(limit_order(Side::Ask, 100, 10));
    book.add_order(limit_order(Side::Ask, 100, 10));
    book.add_order(limit_order(Side::Ask, 100, 11));

    assert_eq!(book.best_ask(), Some(10));

    // Match against the first price level
    let (_, executions) = book.add_order(limit_order(Side::Bid, 150, 10));

    assert_eq!(executions.len(), 2);
    assert_eq!(executions[0].qty, 100);
    assert_eq!(executions[1].qty, 50);
    assert_eq!(book.best_ask(), Some(10));

    // Match the remaining order at the first price level
    let (_, executions) = book.add_order(limit_order(Side::Bid, 100, 10));

    assert_eq!(executions.len(), 1);
    assert_eq!(executions[0].qty, 50);
    assert_eq!(book.best_ask(), Some(11));
}

#[test]
fn test_order_deletion() {
    let mut book = OrderBook::default();

    // Add some orders
    let (bid_result, _) = book.add_order(limit_order(Side::Bid, 100, 10));
    let (ask_result, _) = book.add_order(limit_order(Side::Ask, 100, 11));

    // Cancel the bid order
    let cancelled_bid = book.delete_order(bid_result.get_id()).unwrap();
    assert_eq!(cancelled_bid.status, OrderStatus::Cancelled);
    assert_eq!(book.best_bid(), None);

    // Try to cancel the same order again
    assert!(book.delete_order(bid_result.get_id()).is_none());

    // Cancel the ask order
    let cancelled_ask = book.delete_order(ask_result.get_id()).unwrap();
    assert_eq!(cancelled_ask.status, OrderStatus::Cancelled);
    assert_eq!(book.best_ask(), None);
}

#[test]
fn test_complex_matching_scenario() {
    let mut book = OrderBook::default();

    // Add initial orders
    book.add_order(limit_order(Side::Ask, 100, 10));
    book.add_order(limit_order(Side::Ask, 200, 11));
    book.add_order(limit_order(Side::Ask, 300, 12));
    book.add_order(limit_order(Side::Bid, 100, 8));
    book.add_order(limit_order(Side::Bid, 200, 7));

    // Add a large market buy order
    let (result, executions) = book.add_order(OrderRequest::new(Side::Bid, 650, OrderType::Market));

    assert_eq!(result.status, OrderStatus::PartiallyFilled);
    assert_eq!(executions.len(), 3);
    assert_eq!(executions[0].qty, 100);
    assert_eq!(executions[0].price, 10);
    assert_eq!(executions[1].qty, 200);
    assert_eq!(executions[1].price, 11);
    assert_eq!(executions[2].qty, 300);
    assert_eq!(executions[2].price, 12);

    let (result, executions) = book.add_order(OrderRequest::new(Side::Ask, 110, OrderType::Market));

    assert_eq!(result.status, OrderStatus::Filled);
    assert_eq!(executions.len(), 2);
    assert_eq!(executions[0].qty, 100);
    assert_eq!(executions[0].price, 8);
    assert_eq!(executions[1].qty, 10);
    assert_eq!(executions[1].price, 7);

    assert_eq!(book.get_depth(), (0, 1));
    assert_eq!(book.bids.get_available_quantity(7), 190);

    assert_eq!(book.best_ask(), None);
    assert_eq!(book.best_bid(), Some(7));
}

#[test]
fn test_half_book_get_levels() {
    let mut book = HalfBook::new(Side::Ask);
    assert_eq!(book.get_levels(), vec![]);
    book.add_order(10, TradeOrder::new(100));
    book.add_order(10, TradeOrder::new(50));
    book.add_order(11, TradeOrder::new(75));

    let levels = book.get_levels();
    assert_eq!(levels, vec![(10, 150), (11, 75)]);
}

#[test]
fn test_half_book_get_total_volume() {
    let mut book = HalfBook::new(Side::Bid);
    assert_eq!(book.get_total_volume(), 0);
    book.add_order(10, TradeOrder::new(100));
    book.add_order(11, TradeOrder::new(50));
    book.add_order(9, TradeOrder::new(75));

    assert_eq!(book.get_total_volume(), 225);
}

#[test]
fn test_half_book_get_orders_at_price() {
    let mut book = HalfBook::new(Side::Ask);
    let order1 = TradeOrder::new(100);
    let order2 = TradeOrder::new(50);
    book.add_order(10, order1.clone());
    book.add_order(10, order2.clone());

    let orders = book.get_orders_at_price(10).unwrap();
    assert_eq!(orders.len(), 2);
    assert_eq!(orders[0].remaining_qty, 100);
    assert_eq!(orders[1].remaining_qty, 50);
}

#[test]
fn test_order_book_get_order_book_state() {
    let mut book = OrderBook::default();
    let state = book.get_order_book_state();
    assert_eq!(state.asks, vec![]);
    assert_eq!(state.bids, vec![]);
    book.add_order(limit_order(Side::Ask, 100, 10));
    book.add_order(limit_order(Side::Ask, 50, 11));
    book.add_order(limit_order(Side::Bid, 75, 9));
    book.add_order(limit_order(Side::Bid, 25, 8));

    let state = book.get_order_book_state();
    assert_eq!(state.asks, vec![(11, 50), (10, 100)]);
    assert_eq!(state.bids, vec![(9, 75), (8, 25)]);
}

#[test]
fn test_order_book_get_orders_at_price() {
    let mut book = OrderBook::default();
    assert!(book.get_orders_at_price(Side::Ask, 10).is_none());
    book.add_order(limit_order(Side::Ask, 100, 10));
    book.add_order(limit_order(Side::Ask, 50, 10));

    let ask_orders = book.get_orders_at_price(Side::Ask, 10).unwrap();
    assert_eq!(ask_orders.len(), 2);
    assert_eq!(ask_orders[0].remaining_qty, 100);
    assert_eq!(ask_orders[1].remaining_qty, 50);

    assert!(book.get_orders_at_price(Side::Bid, 10).is_none());
}

#[test]
fn test_order_book_get_total_volume() {
    let mut book = OrderBook::default();
    assert_eq!(book.get_total_volume(), 0);
    book.add_order(limit_order(Side::Ask, 100, 10));
    book.add_order(limit_order(Side::Ask, 50, 11));
    book.add_order(limit_order(Side::Bid, 75, 9));
    book.add_order(limit_order(Side::Bid, 25, 8));

    assert_eq!(book.get_total_volume(), 250);
}

#[test]
fn test_order_book_depth_and_range() {
    let mut book = OrderBook::default();
    assert_eq!(book.get_depth(), (0, 0));
    assert_eq!(book.get_price_range(), None);

    book.add_order(limit_order(Side::Ask, 100, 10));
    book.add_order(limit_order(Side::Ask, 50, 15));
    book.add_order(limit_order(Side::Bid, 75, 8));
    book.add_order(limit_order(Side::Bid, 25, 5));

    assert_eq!(book.get_depth(), (2, 2));
    assert_eq!(book.get_price_range(), Some((5, 3)));
}

#[test]
fn test_half_book_match_order() {
    let mut book = HalfBook::new(Side::Ask);
    book.add_order(10, TradeOrder::new(100));
    book.add_order(10, TradeOrder::new(50));
    book.add_order(11, TradeOrder::new(75));

    let mut incoming_order = TradeOrder::new(125);
    let executions = book.match_order(&mut incoming_order, 10);

    assert_eq!(executions.len(), 2);
    assert_eq!(executions[0].qty, 100);
    assert_eq!(executions[1].qty, 25);
    assert_eq!(incoming_order.remaining_qty, 0);
    assert_eq!(book.get_total_qty(&10), Some(25));
    assert_eq!(book.get_total_qty(&11), Some(75));
}

#[test]
fn test_orderbook_get_order() {
    let mut book = OrderBook::default();
    let (result, _) = book.add_order(limit_order(Side::Ask, 100, 10));
    let order_id = result.get_id();

    assert!(book.get_order(order_id).is_some());
    assert_eq!(book.get_order(order_id).unwrap().remaining_qty, 100);
    assert!(book.get_order(uuid::Uuid::new_v4().as_u128()).is_none());
}

#[test]
fn test_orderbook_get_order_mut() {
    let mut book = OrderBook::default();
    let (result, _) = book.add_order(limit_order(Side::Ask, 100, 10));
    let order_id = result.get_id();

    if let Some(order) = book.get_order_mut(&order_id) {
        order.remaining_qty = 50;
    }

    assert_eq!(book.get_order(order_id).unwrap().remaining_qty, 50);
}

#[test]
fn test_orderbook_get_volume_at_price() {
    let mut book = OrderBook::default();
    book.add_order(limit_order(Side::Ask, 100, 10));
    book.add_order(limit_order(Side::Ask, 50, 10));
    book.add_order(limit_order(Side::Bid, 75, 9));

    assert_eq!(book.get_volume_at_price(&Side::Ask, &10), Some(150));
    assert_eq!(book.get_volume_at_price(&Side::Bid, &9), Some(75));
    assert_eq!(book.get_volume_at_price(&Side::Ask, &11), None);
}

#[test]
fn test_orderbook_get_order_count() {
    let mut book = OrderBook::default();
    book.add_order(limit_order(Side::Ask, 100, 10));
    book.add_order(limit_order(Side::Ask, 50, 11));
    book.add_order(limit_order(Side::Bid, 75, 9));

    assert_eq!(book.get_order_count(), 3);
}

#[test]
fn test_orderbook_is_empty() {
    let mut book = OrderBook::default();
    assert!(book.is_empty());

    book.add_order(limit_order(Side::Ask, 100, 10));
    assert!(!book.is_empty());
}

#[test]
fn test_orderbook_clear() {
    let mut book = OrderBook::default();
    book.add_order(limit_order(Side::Ask, 100, 10));
    book.add_order(limit_order(Side::Bid, 75, 9));

    assert!(!book.is_empty());
    book.clear();
    assert!(book.is_empty());
    assert_eq!(book.get_order_count(), 0);
}

#[test]
fn test_halfbook_is_empty() {
    let mut book = HalfBook::new(Side::Ask);
    assert!(book.is_empty());

    book.add_order(10, TradeOrder::new(100));
    assert!(!book.is_empty());
}

#[test]
fn test_halfbook_get_order() {
    let mut book = HalfBook::new(Side::Ask);
    let order = TradeOrder::new(100);
    let order_id = order.id;
    book.add_order(10, order);

    assert!(book.get_order(10, order_id).is_some());
    assert_eq!(book.get_order(10, order_id).unwrap().remaining_qty, 100);
    assert!(book.get_order(10, uuid::Uuid::new_v4().as_u128()).is_none());
}

#[test]
fn test_halfbook_get_order_mut() {
    let mut book = HalfBook::new(Side::Ask);
    let order = TradeOrder::new(100);
    let order_id = order.id;
    book.add_order(10, order);

    if let Some(order) = book.get_order_mut(&10, &order_id) {
        order.remaining_qty = 50;
    }

    assert_eq!(book.get_order(10, order_id).unwrap().remaining_qty, 50);
}

#[test]
fn test_halfbook_get_order_count() {
    let mut book = HalfBook::new(Side::Ask);
    assert_eq!(book.get_order_count(), 0);
    book.add_order(10, TradeOrder::new(100));
    book.add_order(10, TradeOrder::new(50));
    book.add_order(11, TradeOrder::new(75));

    assert_eq!(book.get_order_count(), 3);
}

#[test]
fn test_halfbook_clear() {
    let mut book = HalfBook::new(Side::Ask);
    assert!(book.is_empty());
    book.add_order(10, TradeOrder::new(100));
    book.add_order(11, TradeOrder::new(75));

    assert!(!book.is_empty());
    book.clear();
    assert!(book.is_empty());
    assert_eq!(book.get_order_count(), 0);
}

#[test]
fn test_order_cancellation() {
    let mut book = OrderBook::default();

    // Add some orders
    let (bid_result, _) = book.add_order(limit_order(Side::Bid, 100, 10));
    let (ask_result, _) = book.add_order(limit_order(Side::Ask, 100, 11));

    // Cancel the bid order
    let cancelled_bid = book.cancel_order(bid_result.get_id(), 50).unwrap();
    assert_eq!(cancelled_bid.status, OrderStatus::Open);
    assert_eq!(cancelled_bid.remaining_qty, 50);

    // Try to cancel the same order again
    let cancelled_bid = book.cancel_order(bid_result.get_id(), 50).unwrap();
    assert_eq!(cancelled_bid.status, OrderStatus::Cancelled);
    assert_eq!(cancelled_bid.remaining_qty, 0);

    // Cancel the ask order
    let cancelled_ask = book.cancel_order(ask_result.get_id(), 110).unwrap();
    assert_eq!(cancelled_ask.status, OrderStatus::Cancelled);
    assert_eq!(cancelled_ask.remaining_qty, 0);

    // Try to cancel the same order again
    book.cancel_order(ask_result.get_id(), 50);
    assert!(book.get_order(ask_result.get_id()).is_none());
}
