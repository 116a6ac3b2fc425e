//! Order value types: requests, resting orders, fills, executions and
//! results, together with the ghost models that contracts are stated over.
//!
//! Every executable type has a mathematical view that drops the opaque
//! wall-clock fields; the matching contracts are stated over those views, so
//! the behaviour of the engine is pinned down independently of the clock.

use vstd::prelude::*;

use crate::types::{create_id_from_bytes, create_order_id, id_from_bytes, price_digits,
    spec_digits, timestamp, OrderId, Price, Quantity, Side, Timestamp};

verus! {

/// Type of an order that can be placed.
#[derive(Debug, Copy, Clone, PartialEq, Eq, Structural)]
pub enum OrderType {
    /// Match at any price until filled or the opposite book is exhausted.
    Market,
    /// Match while the price is within the limit; the residual rests.
    Limit(Price),
    /// Immediate or cancel: match like a limit order, discard the residual.
    IOC(Price),
    /// Fill or kill: execute in full within the limit, or cancel entirely.
    FOK(Price),
    /// Like a limit order, but repeated submissions at one price merge into a
    /// single resting aggregate whose id is derived from the price.
    SystemLevel(Price),
}

impl OrderType {
    /// The price carried by the order type, if it has one.
    pub open spec fn spec_price(self) -> Option<Price> {
        match self {
            OrderType::Market => None,
            OrderType::Limit(price) => Some(price),
            OrderType::IOC(price) => Some(price),
            OrderType::FOK(price) => Some(price),
            OrderType::SystemLevel(price) => Some(price),
        }
    }

    /// Helper to create a limit order type.
    pub fn limit(price: Price) -> (r: Self)
        ensures
            r == OrderType::Limit(price),
    {
        OrderType::Limit(price)
    }

    /// Helper to create an immediate-or-cancel order type.
    pub fn ioc(price: Price) -> (r: Self)
        ensures
            r == OrderType::IOC(price),
    {
        OrderType::IOC(price)
    }

    /// Helper to create a fill-or-kill order type.
    pub fn fok(price: Price) -> (r: Self)
        ensures
            r == OrderType::FOK(price),
    {
        OrderType::FOK(price)
    }

    /// Helper to create a system-level order type.
    pub fn system_level(price: Price) -> (r: Self)
        ensures
            r == OrderType::SystemLevel(price),
    {
        OrderType::SystemLevel(price)
    }

    /// Generates an id for an order of this type: a fresh unique id for
    /// ordinary orders, and the stable price-derived id for a system-level
    /// order, so that repeated submissions at one price collide intentionally.
    pub fn generate_id(&self) -> (r: OrderId)
        ensures
            self matches OrderType::SystemLevel(p) ==> r == id_from_bytes(
                spec_digits(p as nat),
            ),
    {
        match self {
            OrderType::Market => create_order_id(),
            OrderType::Limit(_) => create_order_id(),
            OrderType::IOC(_) => create_order_id(),
            OrderType::FOK(_) => create_order_id(),
            OrderType::SystemLevel(p) => {
                let digits = price_digits(*p);
                create_id_from_bytes(digits.as_slice())
            },
        }
    }

    /// Returns the price of the order if it has one.
    pub fn price(&self) -> (r: Option<Price>)
        ensures
            r == self.spec_price(),
    {
        match self {
            OrderType::Limit(price) => Some(*price),
            OrderType::IOC(price) => Some(*price),
            OrderType::FOK(price) => Some(*price),
            OrderType::SystemLevel(price) => Some(*price),
            OrderType::Market => None,
        }
    }
}

/// Status of an order.
#[derive(Debug, Clone, Copy, PartialEq, Eq, Structural)]
pub enum OrderStatus {
    /// Resting in the book with no executions against it yet.
    Open,
    /// Fully executed.
    Filled,
    /// Some quantity executed, some remaining.
    PartiallyFilled,
    /// Rejected or explicitly cancelled.
    Cancelled,
}

/// The ghost view of a fill: the wall-clock stamp is dropped.
pub ghost struct FillModel {
    pub qty: Quantity,
    pub price: Price,
    pub order_id: OrderId,
}

/// A record of one execution against a single order.
#[derive(Debug, PartialEq, Clone, Copy)]
pub struct Fill {
    pub qty: Quantity,
    pub price: Price,
    pub timestamp: Timestamp,
    pub order_id: OrderId,
}

impl View for Fill {
    type V = FillModel;

    open spec fn view(&self) -> FillModel {
        FillModel { qty: self.qty, price: self.price, order_id: self.order_id }
    }
}

impl Fill {
    /// Records a fill of `qty` at `price` against counterparty `order_id`.
    pub fn new(qty: Quantity, price: Price, order_id: OrderId) -> (r: Self)
        ensures
            r@ == (FillModel { qty, price, order_id }),
    {
        Fill { qty, price, timestamp: timestamp(), order_id }
    }
}

/// The total quantity recorded by a sequence of fills.
pub open spec fn sum_fill_qty(fills: Seq<FillModel>) -> int
    decreases fills.len(),
{
    if fills.len() == 0 {
        0
    } else {
        sum_fill_qty(fills.drop_last()) + fills.last().qty
    }
}

/// The total notional (price times quantity) recorded by a sequence of
/// fills.
pub open spec fn sum_fill_notional(fills: Seq<FillModel>) -> int
    decreases fills.len(),
{
    if fills.len() == 0 {
        0
    } else {
        sum_fill_notional(fills.drop_last()) + fills.last().price * fills.last().qty
    }
}

/// One step of the prefix sums over a fill sequence.
pub proof fn lemma_fill_sums_take_step(fills: Seq<FillModel>, j: int)
    requires
        0 <= j < fills.len(),
    ensures
        sum_fill_qty(fills.take(j + 1)) == sum_fill_qty(fills.take(j)) + fills[j].qty,
        sum_fill_notional(fills.take(j + 1)) == sum_fill_notional(fills.take(j)) + fills[j].price
            * fills[j].qty,
{
    assert(fills.take(j + 1).drop_last() =~= fills.take(j));
    assert(fills.take(j + 1).last() == fills[j]);
}

/// A prefix of the fill sums never exceeds the whole, and both are
/// nonnegative.
pub proof fn lemma_fill_sums_prefix_le(fills: Seq<FillModel>, j: int)
    requires
        0 <= j <= fills.len(),
    ensures
        0 <= sum_fill_qty(fills.take(j)) <= sum_fill_qty(fills),
        0 <= sum_fill_notional(fills.take(j)) <= sum_fill_notional(fills),
    decreases fills.len() - j,
{
    if j == 0 {
        assert(fills.take(0) =~= Seq::<FillModel>::empty());
        lemma_fill_sums_prefix_le_from_zero(fills, 0);
    }
    if j == fills.len() {
        assert(fills.take(j) =~= fills);
        lemma_fill_sums_prefix_le_from_zero(fills, 0);
    } else {
        lemma_fill_sums_take_step(fills, j);
        lemma_fill_sums_prefix_le(fills, j + 1);
        lemma_fill_sums_prefix_le_from_zero(fills.take(j), 0);
    }
}

/// Both fill sums are nonnegative from any index on.
proof fn lemma_fill_sums_prefix_le_from_zero(fills: Seq<FillModel>, _j: int)
    ensures
        0 <= sum_fill_qty(fills),
        0 <= sum_fill_notional(fills),
    decreases fills.len(),
{
    if fills.len() > 0 {
        lemma_fill_sums_prefix_le_from_zero(fills.drop_last(), 0);
    }
}

/// The ghost view of an order: quantities, fills and identity, with the two
/// wall-clock stamps dropped.
pub ghost struct OrderModel {
    pub id: OrderId,
    pub side: Side,
    pub remaining_qty: Quantity,
    pub initial_qty: Quantity,
    pub fills: Seq<FillModel>,
    pub order_type: OrderType,
}

impl OrderModel {
    /// Quantity accounting of a single order: what remains never exceeds what
    /// was submitted, and the fills never record more than what has left the
    /// order (cancellation may remove quantity without a fill).
    pub open spec fn wf(self) -> bool {
        &&& self.remaining_qty <= self.initial_qty
        &&& 0 <= sum_fill_qty(self.fills) <= self.initial_qty - self.remaining_qty
    }

    /// The order after a fill of `qty` at `price` against `counterparty`.
    pub open spec fn after_fill(self, qty: Quantity, price: Price, counterparty: OrderId) -> OrderModel
        recommends
            qty <= self.remaining_qty,
    {
        OrderModel {
            remaining_qty: (self.remaining_qty - qty) as u64,
            fills: self.fills.push(FillModel { qty, price, order_id: counterparty }),
            ..self
        }
    }

    /// The order after another order is merged into it: quantities add and
    /// the fills of the other order are appended.
    pub open spec fn after_merge(self, other: OrderModel) -> OrderModel
        recommends
            self.initial_qty + other.initial_qty <= u64::MAX,
    {
        OrderModel {
            remaining_qty: (self.remaining_qty + other.remaining_qty) as u64,
            initial_qty: (self.initial_qty + other.initial_qty) as u64,
            fills: self.fills + other.fills,
            ..self
        }
    }
}

/// OrderRequest is a request to place an order.
#[derive(Debug, PartialEq, Clone, Copy, Eq, Structural)]
pub struct OrderRequest {
    pub id: OrderId,
    pub side: Side,
    pub qty: Quantity,
    pub order_type: OrderType,
}

impl OrderRequest {
    /// Builds a request with an id generated for the order type: fresh and
    /// unique for ordinary orders, derived from the price for system-level.
    pub fn new(side: Side, qty: Quantity, order_type: OrderType) -> (r: Self)
        ensures
            r.side == side,
            r.qty == qty,
            r.order_type == order_type,
            order_type matches OrderType::SystemLevel(p) ==> r.id == id_from_bytes(
                spec_digits(p as nat),
            ),
    {
        let id = order_type.generate_id();
        OrderRequest { id, side, qty, order_type }
    }

    /// Builds a request with a caller-supplied id.
    pub fn new_with_id(id: OrderId, side: Side, qty: Quantity, order_type: OrderType) -> (r: Self)
        ensures
            r == (OrderRequest { id, side, qty, order_type }),
    {
        OrderRequest { id, side, qty, order_type }
    }

    /// Builds a request whose id is derived from a caller-supplied byte
    /// string, for replaying market data that carries its own identifiers.
    pub fn new_with_other_id(id: &[u8], side: Side, qty: Quantity, order_type: OrderType) -> (r: Self)
        ensures
            r.side == side,
            r.qty == qty,
            r.order_type == order_type,
            r.id == id_from_bytes(id@),
    {
        OrderRequest { id: create_id_from_bytes(id), side, qty, order_type }
    }

    /// Returns the price of the request if its order type has one.
    pub fn price(&self) -> (r: Option<Price>)
        ensures
            r == self.order_type.spec_price(),
    {
        self.order_type.price()
    }

    /// Returns the id of the request.
    pub fn id(&self) -> (r: OrderId)
        ensures
            r == self.id,
    {
        self.id
    }
}

/// TradeOrder is an order that has been placed and is being tracked by the
/// order book.
#[derive(Debug)]
pub struct TradeOrder {
    pub id: OrderId,
    pub side: Side,
    pub remaining_qty: Quantity,
    pub initial_qty: Quantity,
    pub fills: Vec<Fill>,
    pub order_type: OrderType,
    pub creation_timestamp: Timestamp,
    pub last_modified_timestamp: Timestamp,
}

impl View for TradeOrder {
    type V = OrderModel;

    open spec fn view(&self) -> OrderModel {
        OrderModel {
            id: self.id,
            side: self.side,
            remaining_qty: self.remaining_qty,
            initial_qty: self.initial_qty,
            fills: self.fills@.map_values(|f: Fill| f@),
            order_type: self.order_type,
        }
    }
}

impl Clone for TradeOrder {
    /// Field-for-field copy; the view is unchanged.
    fn clone(&self) -> (r: Self)
        ensures
            r@ == self@,
            r.creation_timestamp == self.creation_timestamp,
            r.last_modified_timestamp == self.last_modified_timestamp,
    {
        let mut fills: Vec<Fill> = Vec::new();
        let mut i: usize = 0;
        while i < self.fills.len()
            invariant
                i <= self.fills.len(),
                fills@ == self.fills@.take(i as int),
            decreases self.fills.len() - i,
        {
            fills.push(self.fills[i]);
            assert(fills@ =~= self.fills@.take(i + 1 as int));
            i = i + 1;
        }
        assert(fills@ =~= self.fills@);
        let r = TradeOrder {
            id: self.id,
            side: self.side,
            remaining_qty: self.remaining_qty,
            initial_qty: self.initial_qty,
            fills,
            order_type: self.order_type,
            creation_timestamp: self.creation_timestamp,
            last_modified_timestamp: self.last_modified_timestamp,
        };
        assert(r@.fills =~= self@.fills);
        r
    }
}

impl TradeOrder {
    /// A fresh stand-alone ask market order of the given quantity, with a
    /// generated id and no fills; used mainly to seed half-book operations.
    pub fn new(qty: Quantity) -> (r: Self)
        ensures
            r.side == Side::Ask,
            r.remaining_qty == qty,
            r.initial_qty == qty,
            r.fills@.len() == 0,
            r.order_type == OrderType::Market,
            r@ == (OrderModel {
                id: r.id,
                side: Side::Ask,
                remaining_qty: qty,
                initial_qty: qty,
                fills: Seq::<FillModel>::empty(),
                order_type: OrderType::Market,
            }),
            r@.wf(),
            r.creation_timestamp == r.last_modified_timestamp,
    {
        let ts = timestamp();
        let r = TradeOrder {
            id: create_order_id(),
            side: Side::Ask,
            remaining_qty: qty,
            initial_qty: qty,
            fills: Vec::new(),
            order_type: OrderType::Market,
            creation_timestamp: ts,
            last_modified_timestamp: ts,
        };
        assert(r@.fills =~= Seq::<FillModel>::empty());
        r
    }

    /// Materializes the in-flight order for a request: full quantity
    /// remaining, no fills, and both clock stamps taken from one reading.
    pub fn from_request(order_request: OrderRequest) -> (r: Self)
        ensures
            r@ == request_order_model(order_request),
            r@.wf(),
            r.creation_timestamp == r.last_modified_timestamp,
    {
        let ts = timestamp();
        let r = TradeOrder {
            id: order_request.id,
            side: order_request.side,
            remaining_qty: order_request.qty,
            initial_qty: order_request.qty,
            fills: Vec::new(),
            order_type: order_request.order_type,
            creation_timestamp: ts,
            last_modified_timestamp: ts,
        };
        assert(r@.fills =~= Seq::<FillModel>::empty());
        r
    }

    /// Fills the order with as much of `*qty` as it can take at `price`,
    /// recording the counterparty id, and deducts that amount from `*qty`.
    pub fn fill(&mut self, qty: &mut Quantity, price: Price, order_id: OrderId)
        ensures
            ({
                let f = spec_min_q(*old(qty), old(self).remaining_qty);
                &&& final(self)@ == old(self)@.after_fill(f, price, order_id)
                &&& *final(qty) == *old(qty) - f
                &&& final(self).creation_timestamp == old(self).creation_timestamp
            }),
    {
        let fill_qty = if *qty < self.remaining_qty {
            *qty
        } else {
            self.remaining_qty
        };
        self.remaining_qty = self.remaining_qty - fill_qty;
        self.fills.push(Fill::new(fill_qty, price, order_id));
        *qty = *qty - fill_qty;
        self.last_modified_timestamp = timestamp();
        assert(self@.fills =~= old(self)@.fills.push(
            FillModel { qty: spec_min_q(*old(qty), old(self).remaining_qty), price, order_id },
        ));
    }

    /// Crosses this (resting) order with `other` (the incoming order): the
    /// lesser of the two remaining quantities is deducted from both and each
    /// side gains one fill record of exactly that quantity.
    pub fn filled_by(&mut self, other: &mut TradeOrder, price: Price) -> (fill_qty: Quantity)
        ensures
            fill_qty == spec_min_q(old(self).remaining_qty, old(other).remaining_qty),
            final(self)@ == old(self)@.after_fill(fill_qty, price, old(other).id),
            final(other)@ == old(other)@.after_fill(fill_qty, price, old(self).id),
            final(self).creation_timestamp == old(self).creation_timestamp,
            final(other).creation_timestamp == old(other).creation_timestamp,
    {
        let fill_qty = if other.remaining_qty < self.remaining_qty {
            other.remaining_qty
        } else {
            self.remaining_qty
        };
        self.remaining_qty = self.remaining_qty - fill_qty;
        other.remaining_qty = other.remaining_qty - fill_qty;
        self.fills.push(Fill::new(fill_qty, price, other.id));
        other.fills.push(Fill::new(fill_qty, price, self.id));
        self.last_modified_timestamp = timestamp();
        assert(self@.fills =~= old(self)@.fills.push(
            FillModel { qty: fill_qty, price, order_id: old(other).id },
        ));
        assert(other@.fills =~= old(other)@.fills.push(
            FillModel { qty: fill_qty, price, order_id: old(self).id },
        ));
        fill_qty
    }

    /// Returns the quantity that has left the order, by fill or cancellation.
    pub fn filled_quantity(&self) -> (r: Quantity)
        requires
            self.remaining_qty <= self.initial_qty,
        ensures
            r == self.initial_qty - self.remaining_qty,
    {
        self.initial_qty - self.remaining_qty
    }

    /// Cancels up to `qty` of the remaining quantity.
    pub fn cancel(&mut self, qty: Quantity)
        ensures
            final(self)@ == (OrderModel {
                remaining_qty: (old(self).remaining_qty - spec_min_q(
                    qty,
                    old(self).remaining_qty,
                )) as u64,
                ..old(self)@
            }),
            final(self).creation_timestamp == old(self).creation_timestamp,
            final(self).last_modified_timestamp == old(self).last_modified_timestamp,
    {
        let qty = if qty < self.remaining_qty {
            qty
        } else {
            self.remaining_qty
        };
        self.remaining_qty = self.remaining_qty - qty;
    }

    /// Whether `other` may be merged into this order: same side and same
    /// order type (including the price it carries).
    pub fn mergable(&self, other: &TradeOrder) -> (r: bool)
        ensures
            r == (self.side == other.side && self.order_type == other.order_type),
    {
        self.side == other.side && self.order_type == other.order_type
    }

    /// Merges `other` into this order when the two are mergable: quantities
    /// add and fills are appended. Refuses the merge otherwise and hands
    /// `other` back untouched.
    pub fn merge(&mut self, other: TradeOrder) -> (r: Option<TradeOrder>)
        requires
            (old(self).side == other.side && old(self).order_type == other.order_type)
                ==> old(self).initial_qty + other.initial_qty <= u64::MAX
                    && old(self).remaining_qty + other.remaining_qty <= u64::MAX,
        ensures
            if old(self).side == other.side && old(self).order_type == other.order_type {
                &&& r is None
                &&& final(self)@ == old(self)@.after_merge(other@)
                &&& final(self).creation_timestamp == old(self).creation_timestamp
            } else {
                &&& r == Some(other)
                &&& *final(self) == *old(self)
            },
    {
        let mut other = other;
        if !self.mergable(&other) {
            return Some(other);
        }
        let ghost other_fills = other.fills@;
        self.remaining_qty = self.remaining_qty + other.remaining_qty;
        self.initial_qty = self.initial_qty + other.initial_qty;
        self.fills.append(&mut other.fills);
        self.last_modified_timestamp = timestamp();
        assert(self@.fills =~= old(self)@.fills + other_fills.map_values(|f: Fill| f@));
        None
    }
}

/// The lesser of two quantities.
pub open spec fn spec_min_q(a: Quantity, b: Quantity) -> Quantity {
    if a < b {
        a
    } else {
        b
    }
}

/// The in-flight order that a request materializes into.
pub open spec fn request_order_model(req: OrderRequest) -> OrderModel {
    OrderModel {
        id: req.id,
        side: req.side,
        remaining_qty: req.qty,
        initial_qty: req.qty,
        fills: Seq::<FillModel>::empty(),
        order_type: req.order_type,
    }
}

/// The status an order reports after matching, by the table of order types:
/// no remaining quantity is Filled; otherwise an untouched Limit or
/// SystemLevel rests Open while Market, IOC and FOK are Cancelled; a partly
/// executed order is PartiallyFilled, except FOK which is always Cancelled.
pub open spec fn spec_status(t: OrderModel) -> OrderStatus {
    if t.remaining_qty == 0 {
        OrderStatus::Filled
    } else if t.fills.len() == 0 {
        match t.order_type {
            OrderType::Market => OrderStatus::Cancelled,
            OrderType::Limit(_) => OrderStatus::Open,
            OrderType::IOC(_) => OrderStatus::Cancelled,
            OrderType::FOK(_) => OrderStatus::Cancelled,
            OrderType::SystemLevel(_) => OrderStatus::Open,
        }
    } else {
        match t.order_type {
            OrderType::Market => OrderStatus::PartiallyFilled,
            OrderType::Limit(_) => OrderStatus::PartiallyFilled,
            OrderType::IOC(_) => OrderStatus::PartiallyFilled,
            OrderType::FOK(_) => OrderStatus::Cancelled,
            OrderType::SystemLevel(_) => OrderStatus::PartiallyFilled,
        }
    }
}

/// The ghost view of an order result.
pub ghost struct ResultModel {
    pub trade_id: OrderId,
    pub side: Side,
    pub order_type: OrderType,
    pub initial_qty: Quantity,
    pub remaining_qty: Quantity,
    pub fills: Seq<FillModel>,
    pub status: OrderStatus,
}

/// The result that reporting an order in state `t` produces.
pub open spec fn result_of_order(t: OrderModel) -> ResultModel {
    ResultModel {
        trade_id: t.id,
        side: t.side,
        order_type: t.order_type,
        initial_qty: t.initial_qty,
        remaining_qty: t.remaining_qty,
        fills: t.fills,
        status: spec_status(t),
    }
}

/// The result that a cancelled report of an order in state `t` produces.
pub open spec fn cancelled_result_of_order(t: OrderModel) -> ResultModel {
    ResultModel { status: OrderStatus::Cancelled, ..result_of_order(t) }
}

/// The result that rejecting a request outright produces.
pub open spec fn rejected_result(req: OrderRequest) -> ResultModel {
    ResultModel {
        trade_id: req.id,
        side: req.side,
        order_type: req.order_type,
        initial_qty: req.qty,
        remaining_qty: req.qty,
        fills: Seq::<FillModel>::empty(),
        status: OrderStatus::Cancelled,
    }
}

/// A snapshot of an order's state returned from book operations.
#[derive(Debug)]
pub struct OrderResult {
    pub trade_id: OrderId,
    pub side: Side,
    pub order_type: OrderType,
    pub initial_qty: Quantity,
    pub remaining_qty: Quantity,
    pub fills: Vec<Fill>,
    pub status: OrderStatus,
}

impl View for OrderResult {
    type V = ResultModel;

    open spec fn view(&self) -> ResultModel {
        ResultModel {
            trade_id: self.trade_id,
            side: self.side,
            order_type: self.order_type,
            initial_qty: self.initial_qty,
            remaining_qty: self.remaining_qty,
            fills: self.fills@.map_values(|f: Fill| f@),
            status: self.status,
        }
    }
}

impl OrderResult {
    /// The result reporting an order in its present state, with the status
    /// derived from its type, remaining quantity and fills.
    pub fn from_order(trade_order: TradeOrder) -> (r: Self)
        ensures
            r@ == result_of_order(trade_order@),
    {
        let status = if trade_order.remaining_qty == 0 {
            OrderStatus::Filled
        } else if trade_order.fills.is_empty() {
            match trade_order.order_type {
                OrderType::Market => OrderStatus::Cancelled,
                OrderType::Limit(_) => OrderStatus::Open,
                OrderType::IOC(_) => OrderStatus::Cancelled,
                OrderType::FOK(_) => OrderStatus::Cancelled,
                OrderType::SystemLevel(_) => OrderStatus::Open,
            }
        } else {
            match trade_order.order_type {
                OrderType::Market => OrderStatus::PartiallyFilled,
                OrderType::Limit(_) => OrderStatus::PartiallyFilled,
                OrderType::IOC(_) => OrderStatus::PartiallyFilled,
                OrderType::FOK(_) => OrderStatus::Cancelled,
                OrderType::SystemLevel(_) => OrderStatus::PartiallyFilled,
            }
        };
        OrderResult {
            trade_id: trade_order.id,
            side: trade_order.side,
            order_type: trade_order.order_type,
            initial_qty: trade_order.initial_qty,
            remaining_qty: trade_order.remaining_qty,
            fills: trade_order.fills,
            status,
        }
    }

    /// The result rejecting a request outright: nothing executed, status
    /// Cancelled.
    pub fn from_request(order_request: OrderRequest) -> (r: Self)
        ensures
            r@ == rejected_result(order_request),
    {
        let r = OrderResult {
            trade_id: order_request.id,
            side: order_request.side,
            order_type: order_request.order_type,
            initial_qty: order_request.qty,
            remaining_qty: order_request.qty,
            fills: Vec::new(),
            status: OrderStatus::Cancelled,
        };
        assert(r@.fills =~= Seq::<FillModel>::empty());
        r
    }

    /// The result reporting an order as explicitly cancelled.
    pub fn cancelled(trade_order: TradeOrder) -> (r: Self)
        ensures
            r@ == cancelled_result_of_order(trade_order@),
    {
        OrderResult {
            trade_id: trade_order.id,
            side: trade_order.side,
            order_type: trade_order.order_type,
            initial_qty: trade_order.initial_qty,
            remaining_qty: trade_order.remaining_qty,
            fills: trade_order.fills,
            status: OrderStatus::Cancelled,
        }
    }

    /// Returns the id of the order this result reports on.
    pub fn get_id(&self) -> (r: OrderId)
        ensures
            r == self.trade_id,
    {
        self.trade_id
    }

    /// The average fill price of the result, held exactly as a ratio: the
    /// total notional traded over the total quantity traded. The quotient of
    /// the two is the quantity-weighted average price; holding the pair
    /// avoids rounding it.
    pub fn avr_fill_price(&self) -> (r: (u128, u64))
        requires
            self@.fills.len() > 0,
            sum_fill_notional(self@.fills) <= u128::MAX,
            sum_fill_qty(self@.fills) <= u64::MAX,
        ensures
            r.0 as int == sum_fill_notional(self@.fills),
            r.1 as int == sum_fill_qty(self@.fills),
    {
        let ghost fm = self@.fills;
        let mut total: u128 = 0;
        let mut qty: u64 = 0;
        let mut j: usize = 0;
        while j < self.fills.len()
            invariant
                fm == self@.fills,
                j <= self.fills@.len(),
                fm.len() == self.fills@.len(),
                total as int == sum_fill_notional(fm.take(j as int)),
                qty as int == sum_fill_qty(fm.take(j as int)),
                sum_fill_notional(fm) <= u128::MAX,
                sum_fill_qty(fm) <= u64::MAX,
            decreases self.fills@.len() - j,
        {
            let f = self.fills[j];
            proof {
                assert(fm[j as int] == self.fills@[j as int]@);
                lemma_fill_sums_take_step(fm, j as int);
                lemma_fill_sums_prefix_le(fm, j + 1 as int);
                assert((f.price as u128) * (f.qty as u128) == fm[j as int].price * fm[
                    j as int].qty) by (nonlinear_arith)
                    requires
                        f.price == fm[j as int].price && f.qty == fm[j as int].qty,
                ;
            }
            total = total + (f.price as u128) * (f.qty as u128);
            qty = qty + f.qty;
            j = j + 1;
        }
        proof {
            assert(fm.take(j as int) =~= fm);
        }
        (total, qty)
    }
}

/// The ghost view of an execution record: the wall-clock stamp is dropped.
pub ghost struct ExecModel {
    pub qty: Quantity,
    pub price: Price,
    pub taker_order_id: OrderId,
    pub maker_order_id: OrderId,
    pub take_side: Side,
}

/// The public record of one trade between a taker and a maker.
#[derive(Debug, Clone)]
pub struct TradeExecution {
    pub qty: Quantity,
    pub price: Price,
    pub taker_order_id: OrderId,
    pub maker_order_id: OrderId,
    pub take_side: Side,
    pub timestamp: Timestamp,
}

impl View for TradeExecution {
    type V = ExecModel;

    open spec fn view(&self) -> ExecModel {
        ExecModel {
            qty: self.qty,
            price: self.price,
            taker_order_id: self.taker_order_id,
            maker_order_id: self.maker_order_id,
            take_side: self.take_side,
        }
    }
}

impl TradeExecution {
    /// Records a trade of `qty` at `price` between the taker and the maker.
    pub fn new(
        qty: Quantity,
        price: Price,
        taker_order: &TradeOrder,
        maker_order: &TradeOrder,
        taker_side: Side,
    ) -> (r: Self)
        ensures
            r@ == (ExecModel {
                qty,
                price,
                taker_order_id: taker_order.id,
                maker_order_id: maker_order.id,
                take_side: taker_side,
            }),
    {
        TradeExecution {
            price,
            qty,
            taker_order_id: taker_order.id,
            maker_order_id: maker_order.id,
            take_side: taker_side,
            timestamp: timestamp(),
        }
    }
}

} // verus!
