//! The order book: two half-books and the order locator, with the matching
//! algorithm that drives takers across the opposite side in price-time
//! priority.
//!
//! Every operation's contract states exactly what it does to the book's
//! model (`BookModel`): the submission path computes `spec_add_order`, and
//! the cancellation paths compute the corresponding model removals.

use std::collections::HashMap;

use vstd::prelude::*;

use crate::book::HalfBook;
use crate::matching::{available_qty, best_index, has_order_at, hb_match, hb_total_init,
    hb_total_qty, lemma_has_id_at_some_price, lemma_hb_match,
    lemma_hb_match_at_price, lemma_hb_totals, lemma_level_find,
    lemma_levels_add_has, lemma_levels_merge_has, lemma_levels_remove_order_has,
    lemma_update_order_has, level_find,
    level_ids, level_qty, level_wf, levels_add, levels_has_id, levels_merge_order,
    levels_remove_order, levels_removed_order, levels_wf, match_level, price_in_window, sweep,
    sw_prepend, window_limit, BookModel, LevelModel, SweepOut};
use crate::orders::{ExecModel, OrderModel, OrderRequest, OrderResult, OrderStatus,
    OrderType, ResultModel, TradeExecution, TradeOrder};
use crate::price_levels::{assoc_get, assoc_keys};
use crate::types::{OrderId, Price, Quantity, Side};

verus! {

broadcast use vstd::std_specs::hash::group_hash_axioms;

/// A snapshot of both sides' liquidity, deepest price first.
#[derive(Debug)]
pub struct OrderBookState {
    /// Ask prices and their total quantities, in decreasing price order.
    pub asks: Vec<(Price, Quantity)>,
    /// Bid prices and their total quantities, in decreasing price order.
    pub bids: Vec<(Price, Quantity)>,
}

/// The order book of one instrument: resting asks, resting bids, and the
/// locator that maps each live order's id to the side and price where it
/// rests.
#[derive(Debug)]
pub struct OrderBook {
    /// The resting sell liquidity.
    pub asks: HalfBook,
    /// The resting buy liquidity.
    pub bids: HalfBook,
    /// For fast order lookup and cancellation: id to (side, price).
    pub order_loc: HashMap<OrderId, (Side, Price)>,
}

impl View for OrderBook {
    type V = BookModel;

    open spec fn view(&self) -> BookModel {
        BookModel { asks: self.asks.levels(), bids: self.bids.levels(), loc: self.order_loc@ }
    }
}

impl Default for OrderBook {
    /// An empty book.
    fn default() -> (r: OrderBook)
        ensures
            r.wf(),
            r@.asks =~= Seq::<(u64, LevelModel)>::empty(),
            r@.bids =~= Seq::<(u64, LevelModel)>::empty(),
            r@.loc =~= Map::<OrderId, (Side, Price)>::empty(),
    {
        OrderBook::new()
    }
}

impl OrderBook {
    /// Well-formed: both halves are sound, tagged with their side, and the
    /// locator holds exactly the resting ids.
    pub open spec fn wf(self) -> bool {
        &&& self.asks.wf()
        &&& self.bids.wf()
        &&& self.asks.s == Side::Ask
        &&& self.bids.s == Side::Bid
        &&& self@.wf()
    }

    /// An empty book.
    pub fn new() -> (r: OrderBook)
        ensures
            r.wf(),
            r@.asks =~= Seq::<(u64, LevelModel)>::empty(),
            r@.bids =~= Seq::<(u64, LevelModel)>::empty(),
            r@.loc =~= Map::<OrderId, (Side, Price)>::empty(),
    {
        let r = OrderBook {
            asks: HalfBook::new(Side::Ask),
            bids: HalfBook::new(Side::Bid),
            order_loc: HashMap::with_capacity(10_000),
        };
        proof {
            assert(r@.wf());
        }
        r
    }

    /// The best (highest) bid price, if any bid rests.
    pub fn best_bid(&self) -> (r: Option<Price>)
        requires
            self.wf(),
        ensures
            r == self.bids.spec_best_price(),
    {
        self.bids.best_price()
    }

    /// The best (lowest) ask price, if any ask rests.
    pub fn best_ask(&self) -> (r: Option<Price>)
        requires
            self.wf(),
        ensures
            r == self.asks.spec_best_price(),
    {
        self.asks.best_price()
    }

    /// The best bid and ask prices.
    pub fn best_prices(&self) -> (r: (Option<Price>, Option<Price>))
        requires
            self.wf(),
        ensures
            r == (self.bids.spec_best_price(), self.asks.spec_best_price()),
    {
        (self.bids.best_price(), self.asks.best_price())
    }

    /// The spread: best ask minus best bid, defined exactly when both sides
    /// rest liquidity and the book is not crossed.
    pub fn spread(&self) -> (r: Option<Price>)
        requires
            self.wf(),
        ensures
            r == ({
                let a = self.asks.spec_best_price();
                let b = self.bids.spec_best_price();
                if a is Some && b is Some && a.unwrap() > b.unwrap() {
                    Some((a.unwrap() - b.unwrap()) as u64)
                } else {
                    None
                }
            }),
    {
        match (self.best_ask(), self.best_bid()) {
            (Some(ask), Some(bid)) => if ask > bid {
                Some(ask - bid)
            } else {
                None
            },
            _ => None,
        }
    }

    /// The number of occupied prices on each side: asks first.
    pub fn get_depth(&self) -> (r: (usize, usize))
        requires
            self.wf(),
        ensures
            r.0 == self@.asks.len(),
            r.1 == self@.bids.len(),
    {
        (self.asks.get_depth(), self.bids.get_depth())
    }

    /// The total quantity resting in the whole book.
    pub fn get_total_volume(&self) -> (r: Quantity)
        requires
            self.wf(),
        ensures
            r as int == hb_total_qty(self@.asks) + hb_total_qty(self@.bids),
    {
        proof {
            lemma_hb_totals(self@.asks);
            lemma_hb_totals(self@.bids);
        }
        self.asks.get_total_volume() + self.bids.get_total_volume()
    }

    /// The price span of each side: asks first; none when either side is
    /// empty.
    pub fn get_price_range(&self) -> (r: Option<(Price, Price)>)
        requires
            self.wf(),
        ensures
            match r {
                None => self@.asks.len() == 0 || self@.bids.len() == 0,
                Some(pr) => {
                    &&& self@.asks.len() > 0 && self@.bids.len() > 0
                    &&& pr.0 == self.asks.spec_prices().last() - self.asks.spec_prices()[0]
                    &&& pr.1 == self.bids.spec_prices().last() - self.bids.spec_prices()[0]
                },
            },
    {
        proof {
            crate::book::lemma_model_keys(self.asks.price_levels.data@);
            crate::book::lemma_model_keys(self.bids.price_levels.data@);
        }
        match (self.asks.get_price_range(), self.bids.get_price_range()) {
            (Some(a), Some(b)) => Some((a, b)),
            _ => None,
        }
    }

    /// The orders resting at `price` on `side`, in queue order, if the
    /// price is occupied there.
    pub fn get_orders_at_price(&self, side: Side, price: Price) -> (r: Option<Vec<&TradeOrder>>)
        requires
            self.wf(),
        ensures
            ({
                let levels = self@.side_levels(side);
                match r {
                    Some(v) => assoc_get(levels, price) is Some && ({
                        let lvl = assoc_get(levels, price).unwrap();
                        &&& v@.len() == lvl.len()
                        &&& forall|j: int| 0 <= j < lvl.len() ==> (#[trigger] v@[j])@ == lvl[j]
                    }),
                    None => assoc_get(levels, price) is None,
                }
            }),
    {
        match side {
            Side::Ask => self.asks.get_orders_at_price(price),
            Side::Bid => self.bids.get_orders_at_price(price),
        }
    }

    /// The total quantity resting at `price` on `side`, if the price is
    /// occupied there.
    pub fn get_volume_at_price(&self, side: &Side, price: &Price) -> (r: Option<Quantity>)
        requires
            self.wf(),
        ensures
            ({
                let levels = self@.side_levels(*side);
                match r {
                    Some(q) => assoc_get(levels, *price) is Some && q as int == level_qty(
                        assoc_get(levels, *price).unwrap(),
                    ),
                    None => assoc_get(levels, *price) is None,
                }
            }),
    {
        match side {
            Side::Ask => self.asks.get_total_qty(price),
            Side::Bid => self.bids.get_total_qty(price),
        }
    }

    /// The number of live orders in the book.
    pub fn get_order_count(&self) -> (r: usize)
        requires
            self.wf(),
        ensures
            r == self@.loc.len(),
    {
        self.order_loc.len()
    }

    /// Whether no liquidity rests on either side.
    pub fn is_empty(&self) -> (r: bool)
        requires
            self.wf(),
        ensures
            r == (self@.asks.len() == 0 && self@.bids.len() == 0),
    {
        self.asks.is_empty() && self.bids.is_empty()
    }

    /// Empties the book.
    pub fn clear(&mut self)
        requires
            old(self).wf(),
        ensures
            final(self).wf(),
            final(self)@.asks =~= Seq::<(u64, LevelModel)>::empty(),
            final(self)@.bids =~= Seq::<(u64, LevelModel)>::empty(),
            final(self)@.loc =~= Map::<OrderId, (Side, Price)>::empty(),
    {
        self.asks.clear();
        self.bids.clear();
        self.order_loc.clear();
        proof {
            assert(self@.wf());
        }
    }

    /// A snapshot of both sides, deepest price first: asks in decreasing
    /// price order and bids in decreasing price order.
    pub fn get_order_book_state(&self) -> (r: OrderBookState)
        requires
            self.wf(),
        ensures
            r.asks@.len() == self@.asks.len(),
            r.bids@.len() == self@.bids.len(),
            forall|x: int|
                0 <= x < r.asks@.len() ==> (#[trigger] r.asks@[x]).0
                    == self.asks.spec_prices().reverse()[x] && assoc_get(
                    self@.asks,
                    r.asks@[x].0,
                ) is Some && r.asks@[x].1 as int == level_qty(
                    assoc_get(self@.asks, r.asks@[x].0).unwrap(),
                ),
            forall|x: int|
                0 <= x < r.bids@.len() ==> (#[trigger] r.bids@[x]).0
                    == self.bids.spec_prices().reverse()[x] && assoc_get(
                    self@.bids,
                    r.bids@[x].0,
                ) is Some && r.bids@[x].1 as int == level_qty(
                    assoc_get(self@.bids, r.bids@[x].0).unwrap(),
                ),
    {
        let ask_levels = self.asks.get_levels();
        let mut asks_rev: Vec<(Price, Quantity)> = Vec::new();
        let mut i: usize = ask_levels.len();
        while i > 0
            invariant
                i <= ask_levels@.len(),
                asks_rev@.len() == ask_levels@.len() - i,
                forall|x: int|
                    0 <= x < asks_rev@.len() ==> #[trigger] asks_rev@[x] == ask_levels@[
                        ask_levels@.len() - 1 - x],
            decreases i,
        {
            asks_rev.push(ask_levels[i - 1]);
            i = i - 1;
        }
        proof {
            crate::book::lemma_model_keys(self.asks.price_levels.data@);
            assert forall|x: int| 0 <= x < asks_rev@.len() implies (#[trigger] asks_rev@[x]).0
                == self.asks.spec_prices().reverse()[x] by {
                assert(asks_rev@[x] == ask_levels@[ask_levels@.len() - 1 - x]);
            }
        }
        let bids = self.bids.get_levels();
        proof {
            crate::book::lemma_model_keys(self.bids.price_levels.data@);
        }
        OrderBookState { asks: asks_rev, bids }
    }

    /// The live order with `order_id`, if it is in the book.
    pub fn get_order(&self, order_id: OrderId) -> (r: Option<&TradeOrder>)
        requires
            self.wf(),
        ensures
            match r {
                Some(o) => {
                    &&& self@.loc.dom().contains(order_id)
                    &&& o@.id == order_id
                    &&& has_order_at(
                        self@.side_levels(self@.loc[order_id].0),
                        self@.loc[order_id].1,
                        order_id,
                    )
                    &&& ({
                        let lvl = assoc_get(
                            self@.side_levels(self@.loc[order_id].0),
                            self@.loc[order_id].1,
                        ).unwrap();
                        o@ == lvl[level_find(lvl, order_id)]
                    })
                },
                None => !self@.loc.dom().contains(order_id),
            },
    {
        let loc_entry = match self.order_loc.get(&order_id) {
            Some(pr) => Some(*pr),
            None => None,
        };
        match loc_entry {
            None => None,
            Some((side, price)) => {
                proof {
                    self.lemma_located_order_present(order_id, side, price);
                }
                let r = match side {
                    Side::Ask => self.asks.get_order(price, order_id),
                    Side::Bid => self.bids.get_order(price, order_id),
                };
                proof {
                    let levels = self@.side_levels(side);
                    let lvl = assoc_get(levels, price).unwrap();
                    lemma_level_find(lvl, order_id);
                    if r is None {
                        assert(false);
                    }
                }
                r
            },
        }
    }

    /// Mutable access to the live order with `order_id`, if it is in the
    /// book. The caller's writes land in place.
    pub fn get_order_mut(&mut self, order_id: &OrderId) -> (r: Option<&mut TradeOrder>)
        requires
            old(self).wf(),
        ensures
            match r {
                None => *final(self) == *old(self) && !old(self)@.loc.dom().contains(*order_id),
                Some(o) => ({
                    let (s, p) = old(self)@.loc[*order_id];
                    let lvl = assoc_get(old(self)@.side_levels(s), p).unwrap();
                    let j = level_find(lvl, *order_id);
                    &&& old(self)@.loc.dom().contains(*order_id)
                    &&& j != -1
                    &&& (*o)@ == lvl[j]
                    &&& final(self)@.loc == old(self)@.loc
                    &&& final(self)@.side_levels(s.spec_opposite()) == old(self)@.side_levels(
                        s.spec_opposite(),
                    )
                    &&& final(self)@.side_levels(s) == crate::price_levels::assoc_insert(
                        old(self)@.side_levels(s),
                        p,
                        lvl.update(j, final(o)@),
                    )
                }),
            },
    {
        let loc_entry = match self.order_loc.get(order_id) {
            Some(pr) => Some(*pr),
            None => None,
        };
        match loc_entry {
            None => None,
            Some((side, price)) => {
                proof {
                    self.lemma_located_order_present(*order_id, side, price);
                    let levels = self@.side_levels(side);
                    let lvl = assoc_get(levels, price).unwrap();
                    lemma_level_find(lvl, *order_id);
                }
                let r = match side {
                    Side::Ask => self.asks.get_order_mut(&price, order_id),
                    Side::Bid => self.bids.get_order_mut(&price, order_id),
                };
                proof {
                    if r is None {
                        assert(false);
                    }
                }
                r
            },
        }
    }

    /// Rests `order` at `price` on `side`: the locator gains the binding
    /// (the id must be fresh) and the order joins the back of its level.
    pub fn add_limit_order(&mut self, side: Side, price: Price, order: TradeOrder)
        requires
            old(self).wf(),
            order@.wf(),
            order.remaining_qty > 0,
            order.id == order@.id,
            !old(self)@.loc.dom().contains(order.id),
            hb_total_init(old(self)@.asks) + hb_total_init(old(self)@.bids) + order.initial_qty
                <= u64::MAX,
        ensures
            final(self).wf(),
            final(self)@.loc == old(self)@.loc.insert(order.id, (side, price)),
            final(self)@.side_levels(side) == levels_add(
                old(self)@.side_levels(side),
                price,
                order@,
            ),
            final(self)@.side_levels(side.spec_opposite()) == old(self)@.side_levels(
                side.spec_opposite(),
            ),
    {
        let ghost b0 = self@;
        let ghost om = order@;
        proof {
            // the id is not resting anywhere, by locator faithfulness.
            assert(!levels_has_id(b0.asks, order.id)) by {
                lemma_has_id_at_some_price(b0.asks, order.id);
                if levels_has_id(b0.asks, order.id) {
                    let p2 = choose|p2: u64| #[trigger] has_order_at(b0.asks, p2, order.id);
                }
            }
            assert(!levels_has_id(b0.bids, order.id)) by {
                lemma_has_id_at_some_price(b0.bids, order.id);
                if levels_has_id(b0.bids, order.id) {
                    let p2 = choose|p2: u64| #[trigger] has_order_at(b0.bids, p2, order.id);
                }
            }
            lemma_hb_totals(b0.asks);
            lemma_hb_totals(b0.bids);
            lemma_levels_add_has(b0.side_levels(side), price, om);
        }
        self.order_loc.insert(order.id, (side, price));
        match side {
            Side::Ask => self.asks.add_order(price, order),
            Side::Bid => self.bids.add_order(price, order),
        }
        proof {
            let bn = self@;
            assert(bn.loc == b0.loc.insert(om.id, (side, price)));
            assert(bn.side_levels(side) == levels_add(b0.side_levels(side), price, om));
            assert(bn.side_levels(side.spec_opposite()) == b0.side_levels(side.spec_opposite()));
            assert forall|q: u64, id2: OrderId|
                #[trigger] has_order_at(bn.side_levels(side), q, id2) <==> (has_order_at(
                    b0.side_levels(side),
                    q,
                    id2,
                ) || (q == price && id2 == om.id)) by {
                assert(has_order_at(levels_add(b0.side_levels(side), price, om), q, id2) <==> (
                has_order_at(b0.side_levels(side), q, id2) || (q == price && id2 == om.id)));
            }
            crate::matching::lemma_coherent_after_rest(b0, bn, side, price, om.id);
        }
    }

    /// Rests a system-level order: if an order with the same id is already
    /// live it is merged into (same side and order type required); otherwise
    /// the order rests like a limit order.
    pub fn add_system_order(&mut self, side: Side, price: Price, order: TradeOrder)
        requires
            old(self).wf(),
            order@.wf(),
            order.remaining_qty > 0,
            hb_total_init(old(self)@.asks) + hb_total_init(old(self)@.bids) + order.initial_qty
                <= u64::MAX,
            old(self)@.loc.dom().contains(order.id) ==> ({
                let (ms, mp) = old(self)@.loc[order.id];
                let om = levels_removed_order(
                    old(self)@.side_levels(ms),
                    mp,
                    order.id,
                ).unwrap();
                om.side == order.side && om.order_type == order.order_type
            }),
        ensures
            final(self).wf(),
            if old(self)@.loc.dom().contains(order.id) {
                ({
                    let (ms, mp) = old(self)@.loc[order.id];
                    &&& final(self)@.loc == old(self)@.loc
                    &&& final(self)@.side_levels(ms) == levels_merge_order(
                        old(self)@.side_levels(ms),
                        mp,
                        order.id,
                        order@,
                    )
                    &&& final(self)@.side_levels(ms.spec_opposite()) == old(self)@.side_levels(
                        ms.spec_opposite(),
                    )
                })
            } else {
                ({
                    &&& final(self)@.loc == old(self)@.loc.insert(order.id, (side, price))
                    &&& final(self)@.side_levels(side) == levels_add(
                        old(self)@.side_levels(side),
                        price,
                        order@,
                    )
                    &&& final(self)@.side_levels(side.spec_opposite()) == old(self)@.side_levels(
                        side.spec_opposite(),
                    )
                })
            },
    {
        let ghost b0 = self@;
        let ghost om = order@;
        let loc_entry = match self.order_loc.get(&order.id) {
            Some(pr) => Some(*pr),
            None => None,
        };
        match loc_entry {
            Some((ms, mp)) => {
                proof {
                    self.lemma_located_order_present(order.id, ms, mp);
                    lemma_hb_totals(b0.side_levels(ms.spec_opposite()));
                    lemma_levels_merge_has(b0.side_levels(ms), mp, order.id, om);
                }
                let merged = match ms {
                    Side::Ask => self.asks.merge_order(mp, order.id, order),
                    Side::Bid => self.bids.merge_order(mp, order.id, order),
                };
                proof {
                    assert(merged);
                    let bn = self@;
                    assert(bn.loc == b0.loc);
                    assert(bn.side_levels(ms) == levels_merge_order(
                        b0.side_levels(ms),
                        mp,
                        order.id,
                        om,
                    ));
                    assert(bn.side_levels(ms.spec_opposite()) == b0.side_levels(
                        ms.spec_opposite(),
                    ));
                    assert forall|q: u64, id2: OrderId|
                        #[trigger] has_order_at(bn.asks, q, id2) <==> has_order_at(
                            b0.asks,
                            q,
                            id2,
                        ) by {
                        if ms == Side::Ask {
                            assert(has_order_at(
                                levels_merge_order(b0.side_levels(ms), mp, order.id, om),
                                q,
                                id2,
                            ) <==> has_order_at(b0.side_levels(ms), q, id2));
                        }
                    }
                    assert forall|q: u64, id2: OrderId|
                        #[trigger] has_order_at(bn.bids, q, id2) <==> has_order_at(
                            b0.bids,
                            q,
                            id2,
                        ) by {
                        if ms == Side::Bid {
                            assert(has_order_at(
                                levels_merge_order(b0.side_levels(ms), mp, order.id, om),
                                q,
                                id2,
                            ) <==> has_order_at(b0.side_levels(ms), q, id2));
                        }
                    }
                    crate::matching::lemma_coherent_unchanged(b0, bn);
                    lemma_hb_totals(bn.side_levels(ms.spec_opposite()));
                }
            },
            None => {
                self.add_limit_order(side, price, order);
            },
        }
    }

    /// Removes the live order with `order_id` from the book entirely and
    /// reports it as cancelled.
    pub fn delete_order(&mut self, order_id: OrderId) -> (r: Option<OrderResult>)
        requires
            old(self).wf(),
        ensures
            final(self).wf(),
            match r {
                None => {
                    &&& !old(self)@.loc.dom().contains(order_id)
                    &&& final(self)@.asks == old(self)@.asks
                    &&& final(self)@.bids == old(self)@.bids
                    &&& final(self)@.loc == old(self)@.loc
                },
                Some(res) => ({
                    let (s, p) = old(self)@.loc[order_id];
                    let om = levels_removed_order(
                        old(self)@.side_levels(s),
                        p,
                        order_id,
                    ).unwrap();
                    &&& old(self)@.loc.dom().contains(order_id)
                    &&& res@ == crate::orders::cancelled_result_of_order(om)
                    &&& final(self)@.loc == old(self)@.loc.remove(order_id)
                    &&& final(self)@.side_levels(s) == levels_remove_order(
                        old(self)@.side_levels(s),
                        p,
                        order_id,
                    )
                    &&& final(self)@.side_levels(s.spec_opposite()) == old(self)@.side_levels(
                        s.spec_opposite(),
                    )
                }),
            },
    {
        let ghost b0 = self@;
        let loc_entry = self.order_loc.remove(&order_id);
        match loc_entry {
            None => {
                proof {
                    assert(self@.loc =~= b0.loc);
                    assert(self@.wf());
                }
                None
            },
            Some((side, price)) => {
                proof {
                    assert(old(self).wf());
                    assert(b0.loc.dom().contains(order_id));
                    assert(b0.loc[order_id] == (side, price));
                    assert(has_order_at(b0.side_levels(side), price, order_id));
                    let lvl = assoc_get(b0.side_levels(side), price).unwrap();
                    lemma_level_find(lvl, order_id);
                    lemma_levels_remove_order_has(b0.side_levels(side), price, order_id);
                }
                let removed_order = match side {
                    Side::Ask => self.asks.remove_order(&price, order_id),
                    Side::Bid => self.bids.remove_order(&price, order_id),
                };
                match removed_order {
                    None => {
                        proof {
                            assert(false);
                        }
                        None
                    },
                    Some(order) => {
                        proof {
                            let bn = self@;
                            let om = levels_removed_order(
                                b0.side_levels(side),
                                price,
                                order_id,
                            ).unwrap();
                            assert(om.id == order_id);
                            assert(order@ == om);
                            assert(bn.loc == b0.loc.remove(order_id));
                            assert(bn.side_levels(side) == levels_remove_order(
                                b0.side_levels(side),
                                price,
                                order_id,
                            ));
                            assert(bn.side_levels(side.spec_opposite()) == b0.side_levels(
                                side.spec_opposite(),
                            ));
                            assert forall|q: u64, id2: OrderId|
                                #[trigger] has_order_at(bn.side_levels(side), q, id2) <==> (
                            has_order_at(b0.side_levels(side), q, id2) && !(q == price && id2
                                == order_id)) by {
                                assert(has_order_at(
                                    levels_remove_order(b0.side_levels(side), price, order_id),
                                    q,
                                    id2,
                                ) <==> (has_order_at(b0.side_levels(side), q, id2) && !(q == price
                                    && id2 == order_id)));
                            }
                            crate::matching::lemma_coherent_after_remove(
                                b0,
                                bn,
                                side,
                                price,
                                order_id,
                            );
                            lemma_hb_totals(bn.side_levels(side.spec_opposite()));
                        }
                        Some(OrderResult::cancelled(order))
                    },
                }
            },
        }
    }

    /// Cancels up to `qty` of the live order with `order_id`: the order is
    /// deleted outright when nothing would remain, and shrinks in place
    /// otherwise.
    pub fn cancel_order(&mut self, order_id: OrderId, qty: Quantity) -> (r: Option<OrderResult>)
        requires
            old(self).wf(),
        ensures
            final(self).wf(),
            match r {
                None => {
                    &&& !old(self)@.loc.dom().contains(order_id)
                    &&& final(self)@.asks == old(self)@.asks
                    &&& final(self)@.bids == old(self)@.bids
                    &&& final(self)@.loc == old(self)@.loc
                },
                Some(res) => ({
                    let (s, p) = old(self)@.loc[order_id];
                    let om = levels_removed_order(
                        old(self)@.side_levels(s),
                        p,
                        order_id,
                    ).unwrap();
                    &&& old(self)@.loc.dom().contains(order_id)
                    &&& if qty >= om.remaining_qty {
                        // the whole order is cancelled and leaves the book.
                        &&& res@ == (ResultModel {
                            remaining_qty: 0,
                            ..crate::orders::cancelled_result_of_order(om)
                        })
                        &&& final(self)@.loc == old(self)@.loc.remove(order_id)
                        &&& final(self)@.side_levels(s) == levels_remove_order(
                            old(self)@.side_levels(s),
                            p,
                            order_id,
                        )
                        &&& final(self)@.side_levels(s.spec_opposite()) == old(
                            self,
                        )@.side_levels(s.spec_opposite())
                    } else {
                        // the order shrinks in place and stays open.
                        let om2 = OrderModel {
                            remaining_qty: (om.remaining_qty - qty) as u64,
                            ..om
                        };
                        &&& res@ == (ResultModel {
                            status: OrderStatus::Open,
                            ..crate::orders::result_of_order(om2)
                        })
                        &&& final(self)@.loc == old(self)@.loc
                        &&& final(self)@.side_levels(s) == crate::price_levels::assoc_insert(
                            old(self)@.side_levels(s),
                            p,
                            assoc_get(old(self)@.side_levels(s), p).unwrap().update(
                                level_find(
                                    assoc_get(old(self)@.side_levels(s), p).unwrap(),
                                    order_id,
                                ),
                                om2,
                            ),
                        )
                        &&& final(self)@.side_levels(s.spec_opposite()) == old(
                            self,
                        )@.side_levels(s.spec_opposite())
                    }
                }),
            },
    {
        let ghost b0 = self@;
        let loc_entry = match self.order_loc.get(&order_id) {
            Some(pr) => Some(*pr),
            None => None,
        };
        match loc_entry {
            None => None,
            Some((side, price)) => {
                proof {
                    self.lemma_located_order_present(order_id, side, price);
                }
                let remaining = match side {
                    Side::Ask => match self.asks.get_order(price, order_id) {
                        Some(o) => o.remaining_qty,
                        None => 0,
                    },
                    Side::Bid => match self.bids.get_order(price, order_id) {
                        Some(o) => o.remaining_qty,
                        None => 0,
                    },
                };
                let ghost om = levels_removed_order(
                    b0.side_levels(side),
                    price,
                    order_id,
                ).unwrap();
                proof {
                    assert(remaining == om.remaining_qty);
                }
                if qty >= remaining {
                    let mut res = match self.delete_order(order_id) {
                        Some(res) => res,
                        None => {
                            proof {
                                assert(false);
                            }
                            return None;
                        },
                    };
                    res.remaining_qty = 0;
                    Some(res)
                } else {
                    proof {
                        self.lemma_located_order_present(order_id, side, price);
                        let lvl = assoc_get(b0.side_levels(side), price).unwrap();
                        lemma_level_find(lvl, order_id);
                        assert(lvl[level_find(lvl, order_id)].id == order_id);
                        lemma_update_order_has(b0.side_levels(side), price, level_find(
                            lvl,
                            order_id,
                        ), OrderModel { remaining_qty: (om.remaining_qty - qty) as u64, ..om });
                    }
                    let reduced = match side {
                        Side::Ask => self.asks.reduce_order(price, order_id, qty),
                        Side::Bid => self.bids.reduce_order(price, order_id, qty),
                    };
                    match reduced {
                        None => {
                            proof {
                                assert(false);
                            }
                            None
                        },
                        Some(updated) => {
                            proof {
                                let bn = self@;
                                assert(bn.loc == b0.loc);
                                let lvl = assoc_get(b0.side_levels(side), price).unwrap();
                                let j = level_find(lvl, order_id);
                                let om2 = OrderModel {
                                    remaining_qty: (om.remaining_qty - qty) as u64,
                                    ..om
                                };
                                assert(bn.side_levels(side)
                                    == crate::price_levels::assoc_insert(
                                    b0.side_levels(side),
                                    price,
                                    lvl.update(j, om2),
                                ));
                                assert(bn.side_levels(side.spec_opposite()) == b0.side_levels(
                                    side.spec_opposite(),
                                ));
                                assert forall|q: u64, id2: OrderId|
                                    #[trigger] has_order_at(bn.asks, q, id2) <==> has_order_at(
                                        b0.asks,
                                        q,
                                        id2,
                                    ) by {
                                    if side == Side::Ask {
                                        assert(has_order_at(
                                            crate::price_levels::assoc_insert(
                                                b0.side_levels(side),
                                                price,
                                                lvl.update(j, om2),
                                            ),
                                            q,
                                            id2,
                                        ) <==> has_order_at(b0.side_levels(side), q, id2));
                                    }
                                }
                                assert forall|q: u64, id2: OrderId|
                                    #[trigger] has_order_at(bn.bids, q, id2) <==> has_order_at(
                                        b0.bids,
                                        q,
                                        id2,
                                    ) by {
                                    if side == Side::Bid {
                                        assert(has_order_at(
                                            crate::price_levels::assoc_insert(
                                                b0.side_levels(side),
                                                price,
                                                lvl.update(j, om2),
                                            ),
                                            q,
                                            id2,
                                        ) <==> has_order_at(b0.side_levels(side), q, id2));
                                    }
                                }
                                crate::matching::lemma_coherent_unchanged(b0, bn);
                                lemma_hb_totals(bn.side_levels(side.spec_opposite()));
                            }
                            let mut res = OrderResult::from_order(updated);
                            res.status = OrderStatus::Open;
                            Some(res)
                        },
                    }
                }
            },
        }
    }

    /// Submits a request to the book: computes exactly `spec_add_order`. A
    /// failed fill-or-kill pre-check rejects the submission with the book
    /// untouched; otherwise the taker sweeps the opposite side in price-time
    /// priority, fully filled makers leave the locator in the same step, and
    /// a limit or system-level residual rests.
    #[verifier::rlimit(100)]
    pub fn add_order(&mut self, order: OrderRequest) -> (r: (OrderResult, Vec<TradeExecution>))
        requires
            old(self).wf(),
            hb_total_init(old(self)@.asks) + hb_total_init(old(self)@.bids) + order.qty
                <= u64::MAX,
            crate::matching::add_order_rest_ok(old(self)@, order),
        ensures
            final(self).wf(),
            ({
                let out = crate::matching::spec_add_order(old(self)@, order);
                &&& final(self)@ == out.book
                &&& r.0@ == out.result
                &&& r.1@.map_values(|e: TradeExecution| e@) == out.execs
            }),
            (order.order_type matches OrderType::FOK(p) && available_qty(
                old(self)@.side_levels(order.side.spec_opposite()),
                order.side.spec_opposite(),
                p,
            ) < order.qty) ==> *final(self) == *old(self),
    {
        let ghost b0 = self@;
        let ghost oside = order.side.spec_opposite();
        let ghost opp0 = b0.side_levels(oside);
        let ghost w = window_limit(order.order_type);
        let ghost t0 = crate::orders::request_order_model(order);
        let ghost sw = sweep(opp0, t0, oside, w);

        // Fill-or-kill pre-check: reject outright unless the full quantity
        // is available within the limit.
        if let OrderType::FOK(limit_price) = order.order_type {
            let available = match order.side {
                Side::Ask => self.bids.get_available_quantity(limit_price),
                Side::Bid => self.asks.get_available_quantity(limit_price),
            };
            if available < order.qty {
                let executions: Vec<TradeExecution> = Vec::new();
                proof {
                    assert(executions@.map_values(|e: TradeExecution| e@)
                        =~= Seq::<ExecModel>::empty());
                }
                return (OrderResult::from_request(order), executions);
            }
        }

        let mut trade_order = TradeOrder::from_request(order);
        let ghost opp_priority = if oside == Side::Ask {
            assoc_keys(opp0)
        } else {
            assoc_keys(opp0).reverse()
        };

        // Snapshot the opposite prices within the taker's window, best first.
        let all_prices = match order.side {
            Side::Ask => self.bids.iter_prices(),
            Side::Bid => self.asks.iter_prices(),
        };
        proof {
            if order.side == Side::Ask {
                crate::book::lemma_model_keys(self.bids.price_levels.data@);
            } else {
                crate::book::lemma_model_keys(self.asks.price_levels.data@);
            }
            assert(all_prices@ == opp_priority);
        }
        let lim = order.order_type.price();
        proof {
            assert(lim == w);
        }
        let mut filtered: Vec<Price> = Vec::new();
        let mut i: usize = 0;
        while i < all_prices.len()
            invariant_except_break
                all_prices@ == opp_priority,
                i <= opp_priority.len(),
                filtered@ == opp_priority.take(i as int),
                forall|x: int|
                    0 <= x < i ==> price_in_window(w, oside, #[trigger] opp_priority[x]),
                lim == w,
                oside == order.side.spec_opposite(),
            ensures
                all_prices@ == opp_priority,
                filtered@.len() <= opp_priority.len(),
                filtered@ == opp_priority.take(filtered@.len() as int),
                forall|x: int|
                    0 <= x < filtered@.len() ==> price_in_window(
                        w,
                        oside,
                        #[trigger] opp_priority[x],
                    ),
                filtered@.len() < opp_priority.len() ==> !price_in_window(
                    w,
                    oside,
                    opp_priority[filtered@.len() as int],
                ),
            decreases all_prices@.len() - i,
        {
            let p = all_prices[i];
            let ok = match lim {
                None => true,
                Some(l) => match order.side {
                    Side::Bid => p <= l,
                    Side::Ask => p >= l,
                },
            };
            if !ok {
                proof {
                    assert(!price_in_window(w, oside, opp_priority[i as int]));
                }
                break ;
            }
            filtered.push(p);
            proof {
                assert(filtered@ =~= opp_priority.take(i + 1 as int));
            }
            i = i + 1;
        }

        // Sweep the opposite side, best price first, pruning the locator of
        // every fully filled maker in the same step as its level.
        let mut executions: Vec<TradeExecution> = Vec::new();
        let ghost mut removed_acc: Seq<OrderId> = Seq::<OrderId>::empty();
        let mut k: usize = 0;
        proof {
            assert(sweep(opp0, t0, oside, w) == sw_prepend(
                executions@.map_values(|e: TradeExecution| e@),
                removed_acc,
                sweep(self@.side_levels(oside), trade_order@, oside, w),
            )) by {
                assert(executions@.map_values(|e: TradeExecution| e@)
                    =~= Seq::<ExecModel>::empty());
                assert(Seq::<ExecModel>::empty() + sweep(opp0, t0, oside, w).execs =~= sweep(
                    opp0,
                    t0,
                    oside,
                    w,
                ).execs);
                assert(Seq::<OrderId>::empty() + sweep(opp0, t0, oside, w).removed =~= sweep(
                    opp0,
                    t0,
                    oside,
                    w,
                ).removed);
            }
            assert(opp0.skip(0) =~= opp0);
            assert(opp0.take(opp0.len() as int) =~= opp0);
            assert(b0.loc.remove_keys(removed_acc.to_set()) =~= b0.loc);
        }
        while k < filtered.len() && trade_order.remaining_qty > 0
            invariant
                self.wf(),
                oside == order.side.spec_opposite(),
                w == window_limit(order.order_type),
                opp0 == b0.side_levels(oside),
                t0 == crate::orders::request_order_model(order),
                opp_priority == (if oside == Side::Ask {
                    assoc_keys(opp0)
                } else {
                    assoc_keys(opp0).reverse()
                }),
                filtered@.len() <= opp_priority.len(),
                filtered@ == opp_priority.take(filtered@.len() as int),
                forall|x: int|
                    0 <= x < filtered@.len() ==> price_in_window(
                        w,
                        oside,
                        #[trigger] opp_priority[x],
                    ),
                filtered@.len() < opp_priority.len() ==> !price_in_window(
                    w,
                    oside,
                    opp_priority[filtered@.len() as int],
                ),
                k <= filtered@.len(),
                trade_order@.wf(),
                trade_order@.id == t0.id,
                trade_order@.side == t0.side,
                trade_order@.order_type == t0.order_type,
                trade_order@.initial_qty == t0.initial_qty,
                trade_order.remaining_qty > 0 ==> self@.side_levels(oside) == (
                if oside == Side::Ask {
                    opp0.skip(k as int)
                } else {
                    opp0.take(opp0.len() - k)
                }),
                sweep(opp0, t0, oside, w) == sw_prepend(
                    executions@.map_values(|e: TradeExecution| e@),
                    removed_acc,
                    sweep(self@.side_levels(oside), trade_order@, oside, w),
                ),
                self@.loc == b0.loc.remove_keys(removed_acc.to_set()),
                self@.side_levels(order.side) == b0.side_levels(order.side),
                hb_total_init(self@.asks) + hb_total_init(self@.bids) <= hb_total_init(b0.asks)
                    + hb_total_init(b0.bids),
            decreases filtered@.len() - k,
        {
            let p = filtered[k];
            let ghost pre = self@;
            let ghost t_pre = trade_order@;
            let ghost cur = pre.side_levels(oside);
            let ghost m = hb_match(cur, t_pre, p, oside);
            proof {
                // the snapshot price is the best in-window price of the rest.
                assert(opp_priority.len() == opp0.len());
                assert(k < opp0.len());
                assert(cur.len() > 0) by {
                    if oside == Side::Ask {
                        assert(cur == opp0.skip(k as int));
                    } else {
                        assert(cur == opp0.take(opp0.len() - k));
                    }
                }
                assert(filtered@[k as int] == opp_priority[k as int]);
                assert(cur[best_index(cur, oside)].0 == p) by {
                    if oside == Side::Ask {
                        assert(cur == opp0.skip(k as int));
                        assert(cur[0] == opp0[k as int]);
                        assert(assoc_keys(opp0)[k as int] == opp0[k as int].0);
                        assert(opp_priority[k as int] == assoc_keys(opp0)[k as int]);
                    } else {
                        let n = opp0.len();
                        assert(cur == opp0.take(n - k));
                        assert(cur.len() == n - k);
                        assert(cur[n - k - 1] == opp0[n - k - 1]);
                        assert(assoc_keys(opp0)[n - k - 1] == opp0[n - k - 1].0);
                        assert(opp_priority[k as int] == assoc_keys(opp0).reverse()[k as int]);
                        assert(assoc_keys(opp0).reverse()[k as int] == assoc_keys(opp0)[n - 1
                            - k]);
                    }
                }
                assert(price_in_window(w, oside, p)) by {
                    assert(filtered@[k as int] == opp_priority[k as int]);
                }
                crate::matching::lemma_sweep_step(cur, t_pre, oside, w);
                lemma_hb_match(cur, t_pre, p, oside);
                lemma_hb_match_at_price(cur, t_pre, p, oside);
                crate::matching::lemma_hb_match_execs(cur, t_pre, p, oside);
            }
            let mut execs_batch = match order.side {
                Side::Ask => self.bids.match_order(&mut trade_order, p),
                Side::Bid => self.asks.match_order(&mut trade_order, p),
            };
            proof {
                assert(self@.side_levels(oside) == m.levels);
                assert(trade_order@ == m.taker);
                assert(execs_batch@.map_values(|e: TradeExecution| e@) == m.execs);
                assert(self@.side_levels(order.side) == pre.side_levels(order.side));
                assert(self@.loc == pre.loc);
            }
            // Every maker that was fully filled leaves the locator in the
            // same step as it left its level.
            let mut x: usize = 0;
            while x < execs_batch.len()
                invariant
                    x <= execs_batch@.len(),
                    execs_batch@.map_values(|e: TradeExecution| e@) == m.execs,
                    m == hb_match(cur, t_pre, p, oside),
                    cur == pre.side_levels(oside),
                    oside == order.side.spec_opposite(),
                    self@.asks == (if oside == Side::Ask {
                        m.levels
                    } else {
                        pre.asks
                    }),
                    self@.bids == (if oside == Side::Bid {
                        m.levels
                    } else {
                        pre.bids
                    }),
                    self.asks.s == Side::Ask,
                    self.bids.s == Side::Bid,
                    self.asks.wf(),
                    self.bids.wf(),
                    levels_wf(cur),
                    t_pre.wf(),
                    m.removed.no_duplicates(),
                    forall|y: int|
                        0 <= y < m.execs.len() ==> (#[trigger] m.execs[y]).maker_order_id
                            == (if y < m.removed.len() {
                            m.removed[y]
                        } else {
                            m.execs[y].maker_order_id
                        }),
                    m.execs.len() == m.removed.len() || m.execs.len() == m.removed.len() + 1,
                    forall|id: OrderId|
                        #[trigger] has_order_at(m.levels, p, id) <==> (has_order_at(cur, p, id)
                            && !m.removed.contains(id)),
                    forall|id: OrderId|
                        m.removed.contains(id) ==> #[trigger] has_order_at(cur, p, id),
                    m.execs.len() == m.removed.len() + 1 ==> has_order_at(
                        m.levels,
                        p,
                        m.execs[m.execs.len() - 1].maker_order_id,
                    ),
                    self@.loc == pre.loc.remove_keys(
                        m.removed.take(crate::matching::min_int(x as int, m.removed.len() as int)).to_set(),
                    ),
                decreases execs_batch@.len() - x,
            {
                let mid = execs_batch[x].maker_order_id;
                proof {
                    assert(execs_batch@[x as int]@.maker_order_id == m.execs[x as int].maker_order_id);
                }
                let present = match order.side {
                    Side::Ask => match self.bids.get_order(p, mid) {
                        Some(_) => true,
                        None => false,
                    },
                    Side::Bid => match self.asks.get_order(p, mid) {
                        Some(_) => true,
                        None => false,
                    },
                };
                proof {
                    // presence in the level after the match is exactly
                    // membership of the model.
                    if present {
                        assert(has_order_at(m.levels, p, mid)) by {
                            let lvl = assoc_get(m.levels, p).unwrap();
                            lemma_level_find(lvl, mid);
                        }
                    } else {
                        assert(!has_order_at(m.levels, p, mid)) by {
                            if has_order_at(m.levels, p, mid) {
                                let lvl = assoc_get(m.levels, p).unwrap();
                                lemma_level_find(lvl, mid);
                            }
                        }
                    }
                }
                if !present {
                    proof {
                        assert((x as int) < m.removed.len()) by {
                            if (x as int) >= m.removed.len() {
                                assert(m.execs.len() == m.removed.len() + 1);
                                assert(x as int == m.execs.len() - 1);
                            }
                        }
                        assert(mid == m.removed[x as int]);
                    }
                    self.order_loc.remove(&mid);
                    proof {
                        let a = m.removed.take(crate::matching::min_int(x as int, m.removed.len() as int));
                        let b = m.removed.take(crate::matching::min_int(x + 1 as int, m.removed.len() as int));
                        assert(b =~= a.push(mid));
                        assert(b.to_set() =~= a.to_set().insert(mid)) by {
                            assert forall|q: OrderId| b.to_set().contains(q) implies
                                a.to_set().contains(q) || q == mid by {
                                assert(b.contains(q));
                                let y = choose|y: int| 0 <= y < b.len() && b[y] == q;
                                if y < a.len() {
                                    assert(a[y] == q);
                                    assert(a.contains(q));
                                }
                            }
                            assert forall|q: OrderId|
                                a.to_set().contains(q) || q == mid implies b.to_set().contains(
                                q,
                            ) by {
                                if a.to_set().contains(q) {
                                    assert(a.contains(q));
                                    let y = choose|y: int| 0 <= y < a.len() && a[y] == q;
                                    assert(b[y] == q);
                                    assert(b.contains(q));
                                } else {
                                    assert(b[b.len() - 1] == mid);
                                    assert(b.contains(mid));
                                }
                            }
                        }
                        assert(pre.loc.remove_keys(a.to_set()).remove(mid) =~= pre.loc.remove_keys(
                            b.to_set(),
                        ));
                    }
                } else {
                    proof {
                        assert((x as int) >= m.removed.len()) by {
                            if (x as int) < m.removed.len() {
                                assert(mid == m.removed[x as int]);
                                assert(m.removed.contains(mid));
                            }
                        }
                        let a = m.removed.take(crate::matching::min_int(x as int, m.removed.len() as int));
                        let b = m.removed.take(crate::matching::min_int(x + 1 as int, m.removed.len() as int));
                        assert(a =~= b);
                    }
                }
                x = x + 1;
            }
            proof {
                // all removed makers have left the locator.
                assert(m.removed.take(crate::matching::min_int(execs_batch@.len() as int, m.removed.len() as int))
                    =~= m.removed);
                assert(self@.loc == pre.loc.remove_keys(m.removed.to_set()));
            }
            let ghost execs_pre = executions@;
            executions.append(&mut execs_batch);
            proof {
                assert(executions@.map_values(|e: TradeExecution| e@) =~= execs_pre.map_values(
                    |e: TradeExecution| e@,
                ) + m.execs);
                // locator coherence after the step.
                crate::matching::lemma_coherent_after_match(pre, self@, oside, p, m.removed);
                lemma_hb_totals(self@.side_levels(order.side));
                // the sweep equation advances by one step.
                let old_removed = removed_acc;
                removed_acc = removed_acc + m.removed;
                assert(self@.loc =~= b0.loc.remove_keys(removed_acc.to_set())) by {
                    assert(removed_acc.to_set() =~= old_removed.to_set().union(
                        m.removed.to_set(),
                    )) by {
                        assert forall|id: OrderId| removed_acc.to_set().contains(id) implies
                            old_removed.to_set().contains(id) || m.removed.to_set().contains(
                            id,
                        ) by {
                            let y = choose|y: int|
                                0 <= y < removed_acc.len() && removed_acc[y] == id;
                            if y < old_removed.len() {
                                assert(old_removed[y] == id);
                            } else {
                                assert(m.removed[y - old_removed.len()] == id);
                            }
                        }
                        assert forall|id: OrderId|
                            old_removed.to_set().contains(id) || m.removed.to_set().contains(
                                id,
                            ) implies removed_acc.to_set().contains(id) by {
                            if old_removed.to_set().contains(id) {
                                let y = choose|y: int|
                                    0 <= y < old_removed.len() && old_removed[y] == id;
                                assert(removed_acc[y] == id);
                            } else {
                                let y = choose|y: int|
                                    0 <= y < m.removed.len() && m.removed[y] == id;
                                assert(removed_acc[old_removed.len() + y] == id);
                            }
                        }
                    }
                    assert(pre.loc.remove_keys(m.removed.to_set()) =~= b0.loc.remove_keys(
                        removed_acc.to_set(),
                    ));
                }
                let rest_now = sweep(self@.side_levels(oside), trade_order@, oside, w);
                assert(sweep(cur, t_pre, oside, w) == sw_prepend(m.execs, m.removed, rest_now));
                assert(sweep(opp0, t0, oside, w) == sw_prepend(
                    executions@.map_values(|e: TradeExecution| e@),
                    removed_acc,
                    rest_now,
                )) by {
                    assert(execs_pre.map_values(|e: TradeExecution| e@) + (m.execs
                        + rest_now.execs) =~= executions@.map_values(|e: TradeExecution| e@)
                        + rest_now.execs);
                    assert(old_removed + (m.removed + rest_now.removed) =~= removed_acc
                        + rest_now.removed);
                }
                // the shape of the remaining levels, while the taker lives.
                if trade_order.remaining_qty > 0 {
                    assert(m.levels.len() < cur.len()) by {
                        crate::price_levels::lemma_assoc_get_none(cur, p);
                        assert(assoc_keys(cur).contains(p)) by {
                            assert(assoc_keys(cur)[best_index(cur, oside)] == p);
                        }
                        let ki = crate::matching::sorted_key_index(cur, p);
                        crate::matching::lemma_sorted_get(cur, p);
                        let ml = match_level(
                            t_pre,
                            assoc_get(cur, p).unwrap(),
                            p,
                            oside.spec_opposite(),
                        );
                        crate::matching::lemma_match_level(
                            t_pre,
                            assoc_get(cur, p).unwrap(),
                            p,
                            oside.spec_opposite(),
                        );
                        if ml.level.len() > 0 {
                            assert(m.taker.remaining_qty == 0);
                        } else {
                            crate::price_levels::lemma_assoc_remove_at(cur, p, ki);
                        }
                    }
                    if oside == Side::Ask {
                        assert(m.levels =~= opp0.skip(k + 1 as int)) by {
                            assert(cur == opp0.skip(k as int));
                            assert(m.levels =~= cur.remove(0)) by {
                                crate::price_levels::lemma_assoc_get_none(cur, p);
                                let ki = crate::matching::sorted_key_index(cur, p);
                                assert(ki == 0) by {
                                    assert(cur[0].0 == p);
                                    if ki > 0 {
                                        assert(cur[0].0 < cur[ki].0);
                                    }
                                }
                                crate::price_levels::lemma_assoc_remove_at(cur, p, 0);
                            }
                            assert(cur.remove(0) =~= opp0.skip(k + 1 as int));
                        }
                    } else {
                        let n = opp0.len();
                        assert(m.levels =~= opp0.take(n - k - 1)) by {
                            assert(cur == opp0.take(n - k));
                            assert(m.levels =~= cur.remove(cur.len() - 1)) by {
                                assert(cur[cur.len() - 1].0 == p);
                                assert(assoc_keys(cur)[cur.len() - 1] == p);
                                assert(assoc_keys(cur).contains(p));
                                crate::price_levels::lemma_assoc_get_none(cur, p);
                                let ki = crate::matching::sorted_key_index(cur, p);
                                crate::matching::lemma_sorted_get(cur, p);
                                assert(ki == cur.len() - 1) by {
                                    if ki < cur.len() - 1 {
                                        assert(cur[ki].0 < cur[cur.len() - 1].0);
                                    }
                                }
                                let ml = match_level(
                                    t_pre,
                                    assoc_get(cur, p).unwrap(),
                                    p,
                                    oside.spec_opposite(),
                                );
                                assert(ml.level.len() == 0) by {
                                    if ml.level.len() > 0 {
                                        crate::price_levels::lemma_assoc_insert_at(
                                            cur,
                                            p,
                                            ml.level,
                                            ki,
                                        );
                                        assert(m.levels =~= cur.update(ki, (p, ml.level)));
                                    }
                                }
                                crate::price_levels::lemma_assoc_remove_at(cur, p, cur.len() - 1);
                            }
                            assert(cur.remove(cur.len() - 1) =~= opp0.take(n - k - 1));
                        }
                    }
                }
            }
            k = k + 1;
        }

        // The sweep is over: what stands is exactly the sweep's outcome.
        proof {
            let rest = sweep(self@.side_levels(oside), trade_order@, oside, w);
            assert(rest == SweepOut {
                levels: self@.side_levels(oside),
                taker: trade_order@,
                execs: Seq::<ExecModel>::empty(),
                removed: Seq::<OrderId>::empty(),
            }) by {
                if trade_order.remaining_qty > 0 {
                    let curl = self@.side_levels(oside);
                    if curl.len() > 0 {
                        assert(k == filtered@.len());
                        assert(opp_priority.len() == opp0.len());
                        assert(k < opp0.len()) by {
                            if oside == Side::Ask {
                                assert(curl == opp0.skip(k as int));
                            } else {
                                assert(curl == opp0.take(opp0.len() - k));
                            }
                        }
                        assert(curl[best_index(curl, oside)].0 == opp_priority[k as int]) by {
                            if oside == Side::Ask {
                                assert(curl == opp0.skip(k as int));
                                assert(curl[0] == opp0[k as int]);
                                assert(assoc_keys(opp0)[k as int] == opp0[k as int].0);
                                assert(opp_priority[k as int] == assoc_keys(opp0)[k as int]);
                            } else {
                                let n = opp0.len();
                                assert(curl == opp0.take(n - k));
                                assert(curl.len() == n - k);
                                assert(curl[n - k - 1] == opp0[n - k - 1]);
                                assert(assoc_keys(opp0)[n - k - 1] == opp0[n - k - 1].0);
                                assert(opp_priority[k as int] == assoc_keys(opp0).reverse()[
                                    k as int]);
                                assert(assoc_keys(opp0).reverse()[k as int] == assoc_keys(
                                    opp0,
                                )[n - 1 - k]);
                            }
                        }
                        assert(!price_in_window(w, oside, curl[best_index(curl, oside)].0));
                    }
                }
            }
            assert(sw == SweepOut {
                levels: self@.side_levels(oside),
                taker: trade_order@,
                execs: executions@.map_values(|e: TradeExecution| e@),
                removed: removed_acc,
            }) by {
                assert(executions@.map_values(|e: TradeExecution| e@) + rest.execs
                    =~= executions@.map_values(|e: TradeExecution| e@));
                assert(removed_acc + rest.removed =~= removed_acc);
            }
        }

        // Residual disposition: a limit or system-level residual rests.
        let ghost b1 = self@;
        match trade_order.order_type {
            OrderType::Limit(rest_price) => {
                if rest_price > 0 && trade_order.remaining_qty > 0 {
                    let resting = trade_order.clone();
                    proof {
                        lemma_hb_totals(b1.side_levels(oside));
                        lemma_hb_totals(b1.side_levels(order.side));
                    }
                    self.add_limit_order(order.side, rest_price, resting);
                }
            },
            OrderType::SystemLevel(rest_price) => {
                if rest_price > 0 && trade_order.remaining_qty > 0 {
                    let resting = trade_order.clone();
                    proof {
                        lemma_hb_totals(b1.side_levels(oside));
                        lemma_hb_totals(b1.side_levels(order.side));
                        if b1.loc.dom().contains(trade_order.id) {
                            self.lemma_located_order_present(
                                trade_order.id,
                                b1.loc[trade_order.id].0,
                                b1.loc[trade_order.id].1,
                            );
                        }
                    }
                    self.add_system_order(order.side, rest_price, resting);
                }
            },
            _ => {},
        }
        let result = OrderResult::from_order(trade_order);
        proof {
            let out = crate::matching::spec_add_order(b0, order);
            assert(self@ == out.book);
        }
        (result, executions)
    }

    /// Proof helper: a locator entry points at a resting order.
    proof fn lemma_located_order_present(self, order_id: OrderId, side: Side, price: Price)
        requires
            self.wf(),
            self@.loc.dom().contains(order_id),
            self@.loc[order_id] == (side, price),
        ensures
            has_order_at(self@.side_levels(side), price, order_id),
            assoc_get(self@.side_levels(side), price) is Some,
            level_find(assoc_get(self@.side_levels(side), price).unwrap(), order_id) != -1,
            levels_removed_order(self@.side_levels(side), price, order_id) is Some,
    {
        let levels = self@.side_levels(side);
        assert(has_order_at(levels, price, order_id));
        let lvl = assoc_get(levels, price).unwrap();
        lemma_level_find(lvl, order_id);
    }
}

} // verus!
