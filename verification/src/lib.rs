//! A limit-order-book matching engine for a single trading instrument.
//!
//! The book accepts limit, market, immediate-or-cancel, fill-or-kill and
//! merge-on-insert ("system level") submissions, matches them against resting
//! liquidity in price-time priority, and reports executed trades. Prices and
//! quantities are integer ticks and lots; identifiers are 128-bit values.

pub mod book;
pub mod engine;
pub mod laws;
pub mod matching;
pub mod order_book;
pub mod orders;
pub mod price_levels;
pub mod types;

pub use book::{HalfBook, PriceLevel};
pub use engine::TradingPair;
pub use order_book::{OrderBook, OrderBookState};
pub use orders::{Fill, OrderRequest, OrderResult, OrderStatus, OrderType, TradeExecution,
    TradeOrder};
pub use types::{create_id_from_bytes, create_order_id, timestamp};
pub use types::{OrderId, Price, Quantity, Side, Timestamp};
