//! Tests of the order value types: creation, filling, requests and results.

use orderbooklib::{create_order_id, OrderRequest, OrderResult, OrderStatus, OrderType, Side,
    TradeOrder};

#[test]
fn test_trade_order_creation() {
    let order = TradeOrder::new(100);
    assert_eq!(order.remaining_qty, 100);
    assert_eq!(order.initial_qty, 100);
    assert!(order.fills.is_empty());
}

#[test]
fn test_trade_order_fill() {
    let mut order = TradeOrder::new(100);
    let mut fill_qty: u64 = 60;
    order.fill(&mut fill_qty, 10, create_order_id());
    assert_eq!(order.remaining_qty, 40);
    assert_eq!(order.fills.len(), 1);
    assert_eq!(fill_qty, 0);
}

#[test]
fn test_trade_order_fill_by_same_quantity() {
    let mut order1 = TradeOrder::new(100);
    let mut order2 = TradeOrder::new(100);
    let fill_qty = order1.filled_by(&mut order2, 10);
    assert_eq!(fill_qty, 100);
    assert_eq!(order1.remaining_qty, 0);
    assert_eq!(order2.remaining_qty, 0);
    assert_eq!(order1.fills.len(), 1);
    assert_eq!(order2.fills.len(), 1);
}

#[test]
fn test_trade_order_fill_by_larger_quantity() {
    let mut order1 = TradeOrder::new(50);
    let mut order2 = TradeOrder::new(100);
    let fill_qty = order1.filled_by(&mut order2, 10);
    assert_eq!(fill_qty, 50);
    assert_eq!(order1.remaining_qty, 0);
    assert_eq!(order2.remaining_qty, 50);
    assert_eq!(order1.fills.len(), 1);
    assert_eq!(order2.fills.len(), 1);
}

#[test]
fn test_trade_order_fill_by_many_smaller_quantities() {
    let mut order1 = TradeOrder::new(100);
    let mut order2 = TradeOrder::new(10);
    let mut order3 = TradeOrder::new(10);
    let mut order4 = TradeOrder::new(10);
    let fill_qty = order1.filled_by(&mut order2, 10);
    assert_eq!(fill_qty, 10);
    let fill_qty = order1.filled_by(&mut order3, 10);
    assert_eq!(fill_qty, 10);
    let fill_qty = order1.filled_by(&mut order4, 10);
    assert_eq!(fill_qty, 10);
    assert_eq!(order1.remaining_qty, 70);
    assert_eq!(order2.remaining_qty, 0);
    assert_eq!(order3.remaining_qty, 0);
    assert_eq!(order4.remaining_qty, 0);
    assert_eq!(order1.fills.len(), 3);
    assert_eq!(order2.fills.len(), 1);
    assert_eq!(order3.fills.len(), 1);
    assert_eq!(order4.fills.len(), 1);
}

#[test]
fn test_order_request() {
    let request = OrderRequest::new(Side::Ask, 100, OrderType::limit(10));
    assert_eq!(request.price(), Some(10));
    let request = OrderRequest::new(Side::Bid, 100, OrderType::Market);
    assert_eq!(request.price(), None);
}

#[test]
fn test_order_result() {
    let request = OrderRequest::new(Side::Ask, 100, OrderType::limit(10));
    let id = request.id;
    let trade_order = TradeOrder::from_request(request);
    let result = OrderResult::from_order(trade_order);
    assert_eq!(result.status, OrderStatus::Open);
    assert_eq!(result.remaining_qty, 100);
    assert_eq!(result.initial_qty, 100);
    assert_eq!(result.fills.len(), 0);
    assert_eq!(result.get_id(), id);
}

#[test]
fn test_trade_order_cancel_partial() {
    let mut order = TradeOrder::new(100);
    order.cancel(30);
    assert_eq!(order.remaining_qty, 70);
    order.cancel(200);
    assert_eq!(order.remaining_qty, 0);
    assert!(order.fills.is_empty());
}

#[test]
fn test_trade_order_merge() {
    let r1 = OrderRequest::new(Side::Ask, 100, OrderType::system_level(10));
    let r2 = OrderRequest::new(Side::Ask, 50, OrderType::system_level(10));
    let mut o1 = TradeOrder::from_request(r1);
    let o2 = TradeOrder::from_request(r2);
    assert!(o1.mergable(&o2));
    let back = o1.merge(o2);
    assert!(back.is_none());
    assert_eq!(o1.remaining_qty, 150);
    assert_eq!(o1.initial_qty, 150);
}

#[test]
fn test_trade_order_merge_refused() {
    let r1 = OrderRequest::new(Side::Ask, 100, OrderType::system_level(10));
    let r2 = OrderRequest::new(Side::Bid, 50, OrderType::system_level(10));
    let mut o1 = TradeOrder::from_request(r1);
    let o2 = TradeOrder::from_request(r2);
    assert!(!o1.mergable(&o2));
    let back = o1.merge(o2);
    assert!(back.is_some());
    assert_eq!(o1.remaining_qty, 100);
    assert_eq!(back.unwrap().remaining_qty, 50);
}

#[test]
fn test_avr_fill_price_ratio() {
    let mut book = orderbooklib::OrderBook::new();
    book.add_order(OrderRequest::new(Side::Ask, 50, OrderType::limit(10)));
    book.add_order(OrderRequest::new(Side::Ask, 100, OrderType::limit(11)));
    let (result, _) = book.add_order(OrderRequest::new(Side::Bid, 150, OrderType::limit(11)));
    assert_eq!(result.status, OrderStatus::Filled);
    // 50 at 10 and 100 at 11: notional 1600 over quantity 150.
    let (notional, qty) = result.avr_fill_price();
    assert_eq!(notional, 1600);
    assert_eq!(qty, 150);
}

#[test]
fn test_filled_quantity() {
    let mut order1 = TradeOrder::new(50);
    let mut order2 = TradeOrder::new(100);
    order1.filled_by(&mut order2, 10);
    assert_eq!(order1.filled_quantity(), 50);
    assert_eq!(order2.filled_quantity(), 50);
}
