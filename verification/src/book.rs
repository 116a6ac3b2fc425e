//! The half-book: all resting liquidity on one side of the instrument, held
//! as a sparse map from price to a FIFO level of orders, beside the ordered
//! set of occupied prices.
//!
//! Every operation's contract states exactly what it does to the half-book's
//! model (see the matching module), so the matching algorithm above can be
//! proved against these contracts alone.

use vstd::prelude::*;

use crate::matching::{hb_match, lemma_available_bounds, lemma_hb_match, lemma_hb_totals,
    lemma_level_find, lemma_sum_levels_take_step, lemma_sum_levels_prefix_le,
    lemma_sum_orders_nonneg, lemma_sum_orders_prefix_le, lemma_sum_orders_take_step,
    lemma_sum_levels_nonneg, available_qty, best_index, level_find, level_ids, level_qty,
    level_wf, levels_add, levels_remove_order, levels_removed_order, levels_wf, hb_order_count,
    hb_total_init, hb_total_qty, match_level, LevelModel, LevelsModel,
    sum_orders, sum_levels};
use crate::orders::{ExecModel, OrderModel, TradeExecution, TradeOrder};
use crate::price_levels::{assoc_get, assoc_insert, assoc_keys, assoc_remove, assoc_sorted,
    lemma_assoc_get_none, lemma_assoc_insert_at, lemma_assoc_remove_at,
    SparseVec};
use crate::types::{OrderId, Price, Quantity, Side};

verus! {

/// An ordered queue of resting orders at a single price, oldest first.
pub type PriceLevel = Vec<TradeOrder>;

/// The model of a price level: its orders' models in queue order.
pub open spec fn level_model(l: PriceLevel) -> LevelModel {
    l@.map_values(|o: TradeOrder| o@)
}

/// The model of the pair store behind a half-book.
pub open spec fn levels_model_of(s: Seq<(u64, PriceLevel)>) -> LevelsModel {
    s.map_values(|pr: (u64, PriceLevel)| (pr.0, level_model(pr.1)))
}

/// `levels_model_of` commutes with binding a key.
pub proof fn lemma_model_insert(s: Seq<(u64, PriceLevel)>, k: u64, v: PriceLevel)
    ensures
        levels_model_of(assoc_insert(s, k, v)) =~= assoc_insert(
            levels_model_of(s),
            k,
            level_model(v),
        ),
    decreases s.len(),
{
    if s.len() > 0 {
        assert(levels_model_of(s.drop_first()) =~= levels_model_of(s).drop_first());
        if s[0].0 == k {
        } else if k < s[0].0 {
        } else {
            lemma_model_insert(s.drop_first(), k, v);
        }
    }
}

/// `levels_model_of` commutes with unbinding a key.
pub proof fn lemma_model_remove(s: Seq<(u64, PriceLevel)>, k: u64)
    ensures
        levels_model_of(assoc_remove(s, k)) =~= assoc_remove(levels_model_of(s), k),
    decreases s.len(),
{
    if s.len() > 0 {
        assert(levels_model_of(s.drop_first()) =~= levels_model_of(s).drop_first());
        if s[0].0 != k {
            lemma_model_remove(s.drop_first(), k);
        }
    }
}

/// `levels_model_of` commutes with lookup.
pub proof fn lemma_model_get(s: Seq<(u64, PriceLevel)>, k: u64)
    ensures
        assoc_get(levels_model_of(s), k) == match assoc_get(s, k) {
            Some(v) => Some(level_model(v)),
            None => None::<LevelModel>,
        },
    decreases s.len(),
{
    if s.len() > 0 {
        assert(levels_model_of(s.drop_first()) =~= levels_model_of(s).drop_first());
        if s[0].0 != k {
            lemma_model_get(s.drop_first(), k);
        }
    }
}

/// The keys of the model are the keys of the store.
pub proof fn lemma_model_keys(s: Seq<(u64, PriceLevel)>)
    ensures
        assoc_keys(levels_model_of(s)) =~= assoc_keys(s),
{
}

/// HalfBook owns all resting liquidity on one side: the occupied price set
/// in increasing order beside the level of resting orders at each price.
#[derive(Debug)]
pub struct HalfBook {
    /// The side whose liquidity this half-book rests.
    pub s: Side,
    /// The occupied prices, sorted increasing; always exactly the keys of
    /// `price_levels`.
    pub price_set: Vec<Price>,
    /// The resting orders, keyed by price.
    pub price_levels: SparseVec<PriceLevel>,
}

impl HalfBook {
    /// The model of this half-book's liquidity.
    pub open spec fn levels(self) -> LevelsModel {
        levels_model_of(self.price_levels.data@)
    }

    /// The occupied prices in increasing order.
    pub open spec fn spec_prices(self) -> Seq<u64> {
        self.price_set@
    }

    /// The best price of the side: the least occupied price for asks, the
    /// greatest for bids; none when the side is empty.
    pub open spec fn spec_best_price(self) -> Option<Price> {
        if self.levels().len() == 0 {
            None
        } else {
            Some(self.levels()[best_index(self.levels(), self.s)].0)
        }
    }

    /// Well-formed: the price set mirrors the keys of the level store, and
    /// the liquidity model is structurally sound.
    pub open spec fn wf(self) -> bool {
        &&& self.price_levels.wf()
        &&& self.price_set@ == assoc_keys(self.price_levels.data@)
        &&& levels_wf(self.levels())
    }

    /// An empty half-book for one side.
    pub fn new(s: Side) -> (r: HalfBook)
        ensures
            r.wf(),
            r.s == s,
            r.levels() =~= Seq::<(u64, LevelModel)>::empty(),
            r.spec_prices() =~= Seq::<u64>::empty(),
    {
        let r = HalfBook {
            s,
            price_set: Vec::new(),
            price_levels: SparseVec::with_capacity(10_000),
        };
        proof {
            assert(assoc_keys(r.price_levels.data@) =~= Seq::<u64>::empty());
        }
        r
    }

    /// Appends `order` to the level at `price`, creating the level if the
    /// price was unoccupied.
    pub fn add_order(&mut self, price: Price, order: TradeOrder)
        requires
            old(self).wf(),
            order@.wf(),
            order.remaining_qty > 0,
            hb_total_init(old(self).levels()) + order.initial_qty <= u64::MAX,
            !crate::matching::levels_has_id(old(self).levels(), order.id),
        ensures
            final(self).wf(),
            final(self).s == old(self).s,
            final(self).levels() == levels_add(old(self).levels(), price, order@),
            final(self).spec_prices() == assoc_keys(final(self).levels()),
            hb_total_init(final(self).levels()) == hb_total_init(old(self).levels())
                + order.initial_qty,
    {
        let ghost levels0 = self.levels();
        let ghost data0 = self.price_levels.data@;
        let ghost om = order@;
        proof {
            lemma_model_get(data0, price);
            lemma_model_remove(data0, price);
            lemma_model_keys(data0);
        }
        match self.price_levels.remove(&price) {
            Some(mut level) => {
                let ghost l0 = level@;
                let ghost lvl0m = level_model_of_seq(l0);
                let ghost data1 = self.price_levels.data@;
                level.push(order);
                proof {
                    assert(level@ =~= l0.push(order));
                    assert(level_model(level) =~= lvl0m.push(om));
                    assert(assoc_get(levels0, price) == Some(lvl0m)) by {
                        assert(assoc_get(data0, price) is Some);
                        let v0 = assoc_get(data0, price).unwrap();
                        assert(level_model(v0) =~= lvl0m);
                    }
                    assert(assoc_keys(levels0).contains(price)) by {
                        lemma_assoc_get_none(levels0, price);
                    }
                    assert forall|v: PriceLevel|
                        levels_model_of(assoc_insert(data1, price, v)) == assoc_insert(
                            levels_model_of(data1),
                            price,
                            level_model(v),
                        ) by {
                        lemma_model_insert(data1, price, v);
                    }
                }
                let ghost i = crate::matching::sorted_key_index(levels0, price);
                self.price_levels.insert(price, level);
                proof {
                    crate::matching::lemma_sorted_get(levels0, price);
                    assert(lvl0m == levels0[i].1);
                    lemma_assoc_remove_at(levels0, price, i);
                    assert(levels_model_of(data1) =~= levels0.remove(i));
                    lemma_assoc_insert_at_model(levels0.remove(i), price, lvl0m.push(om), i);
                    assert(self.levels() =~= levels0.remove(i).insert(
                        i,
                        (price, lvl0m.push(om)),
                    ));
                    assert(self.levels() =~= levels0.update(i, (price, lvl0m.push(om))));
                    assert(self.price_set@ == assoc_keys(self.price_levels.data@)) by {
                        lemma_model_keys(self.price_levels.data@);
                        assert(assoc_keys(self.levels()) =~= assoc_keys(levels0));
                    }
                    self.lemma_restore_wf_after_append(levels0, price, om, i);
                }
            },
            None => {
                proof {
                    lemma_assoc_get_none(data0, price);
                    lemma_model_keys(data0);
                    if assoc_keys(levels0).contains(price) {
                        let j = choose|j: int|
                            0 <= j < levels0.len() && assoc_keys(levels0)[j] == price;
                        assert(assoc_keys(data0)[j] == price);
                    }
                    crate::price_levels::lemma_assoc_remove_absent(data0, price);
                    assert(self.price_levels.data@ =~= data0);
                }
                let mut i: usize = 0;
                while i < self.price_set.len() && self.price_set[i] < price
                    invariant
                        i <= self.price_set@.len(),
                        forall|j: int| 0 <= j < i ==> self.price_set@[j] < price,
                        self.price_set@ == old(self).price_set@,
                        self.price_levels.data@ == data0,
                        self.s == old(self).s,
                    decreases self.price_set@.len() - i,
                {
                    i = i + 1;
                }
                proof {
                    assert(self.price_set@ == assoc_keys(levels0)) by {
                        lemma_model_keys(data0);
                    }
                    assert(forall|j: int|
                        0 <= j < i ==> #[trigger] levels0[j].0 == assoc_keys(levels0)[j]);
                    let ii = i as int;
                    assert(ii < levels0.len() ==> levels0[ii].0 == assoc_keys(levels0)[ii]);
                }
                let mut one: PriceLevel = Vec::new();
                one.push(order);
                let ghost data1 = self.price_levels.data@;
                proof {
                    assert(level_model(one) =~= seq![om]);
                    assert forall|v: PriceLevel|
                        levels_model_of(assoc_insert(data1, price, v)) == assoc_insert(
                            levels_model_of(data1),
                            price,
                            level_model(v),
                        ) by {
                        lemma_model_insert(data1, price, v);
                    }
                }
                self.price_set.insert(i, price);
                self.price_levels.insert(price, one);
                proof {
                    lemma_assoc_insert_at_model(levels0, price, seq![om], i as int);
                    assert(self.levels() =~= levels0.insert(i as int, (price, seq![om])));
                    assert(self.price_set@ == assoc_keys(self.price_levels.data@)) by {
                        lemma_model_keys(self.price_levels.data@);
                        assert(assoc_keys(self.levels()) =~= assoc_keys(levels0).insert(
                            i as int,
                            price,
                        ));
                        assert(self.price_set@ =~= assoc_keys(self.levels()));
                    }
                    self.lemma_restore_wf_after_new_level(levels0, price, om, i as int);
                }
            },
        }
    }

    /// The occupied prices in priority order: increasing for asks (cheapest
    /// liquidity first), decreasing for bids (dearest first).
    pub open spec fn priority_prices(self) -> Seq<u64> {
        match self.s {
            Side::Ask => self.price_set@,
            Side::Bid => self.price_set@.reverse(),
        }
    }

    /// The best price: the least occupied price for asks, the greatest for
    /// bids, and none exactly when the side is empty.
    pub fn best_price(&self) -> (r: Option<Price>)
        requires
            self.wf(),
        ensures
            r == self.spec_best_price(),
            match r {
                None => self.levels().len() == 0,
                Some(p) => {
                    &&& assoc_keys(self.levels()).contains(p)
                    &&& forall|q: u64|
                        assoc_keys(self.levels()).contains(q) ==> if self.s == Side::Ask {
                            p <= q
                        } else {
                            q <= p
                        }
                },
            },
    {
        proof {
            lemma_model_keys(self.price_levels.data@);
        }
        match self.s {
            Side::Ask => self.price_levels.min_index(),
            Side::Bid => self.price_levels.max_index(),
        }
    }

    /// Whether no liquidity rests on this side.
    pub fn is_empty(&self) -> (r: bool)
        requires
            self.wf(),
        ensures
            r == (self.levels().len() == 0),
    {
        self.price_set.is_empty()
    }

    /// The number of occupied prices.
    pub fn get_depth(&self) -> (r: usize)
        requires
            self.wf(),
        ensures
            r == self.levels().len(),
    {
        self.price_set.len()
    }

    /// The span between the greatest and the least occupied price, or none
    /// when the side is empty.
    pub fn get_price_range(&self) -> (r: Option<Price>)
        requires
            self.wf(),
        ensures
            match r {
                None => self.levels().len() == 0,
                Some(d) => self.levels().len() > 0 && d == self.spec_prices().last()
                    - self.spec_prices()[0],
            },
    {
        if self.price_set.is_empty() {
            return None;
        }
        let lo = self.price_set[0];
        let hi = self.price_set[self.price_set.len() - 1];
        proof {
            lemma_model_keys(self.price_levels.data@);
            if self.price_set@.len() > 1 {
                assert(self.price_levels.data@[0].0 < self.price_levels.data@[self.price_levels.data@.len() - 1].0);
            }
        }
        Some(hi - lo)
    }

    /// The level resting at `price`, if the price is occupied.
    pub fn get_price_level(&self, price: &Price) -> (r: Option<&PriceLevel>)
        requires
            self.wf(),
        ensures
            match r {
                Some(l) => assoc_get(self.levels(), *price) == Some(level_model(*l)),
                None => assoc_get(self.levels(), *price) is None,
            },
    {
        proof {
            lemma_model_get(self.price_levels.data@, *price);
        }
        self.price_levels.get(price)
    }

    /// The occupied prices in priority order: increasing for asks,
    /// decreasing for bids.
    pub fn iter_prices(&self) -> (r: Vec<Price>)
        requires
            self.wf(),
        ensures
            r@ == self.priority_prices(),
    {
        let mut out: Vec<Price> = Vec::new();
        let n = self.price_set.len();
        match self.s {
            Side::Ask => {
                let mut i: usize = 0;
                while i < n
                    invariant
                        n == self.price_set@.len(),
                        i <= n,
                        out@ == self.price_set@.take(i as int),
                    decreases n - i,
                {
                    out.push(self.price_set[i]);
                    proof {
                        assert(out@ =~= self.price_set@.take(i + 1 as int));
                    }
                    i = i + 1;
                }
                proof {
                    assert(out@ =~= self.price_set@);
                }
            },
            Side::Bid => {
                let mut i: usize = n;
                while i > 0
                    invariant
                        n == self.price_set@.len(),
                        i <= n,
                        out@ == self.price_set@.reverse().take(n - i),
                    decreases i,
                {
                    out.push(self.price_set[i - 1]);
                    proof {
                        assert(self.price_set@.reverse()[n - i] == self.price_set@[i - 1]);
                        assert(out@ =~= self.price_set@.reverse().take(n - i + 1));
                    }
                    i = i - 1;
                }
                proof {
                    assert(out@ =~= self.price_set@.reverse());
                }
            },
        }
        out
    }

    /// The total quantity resting at `price`, if the price is occupied.
    pub fn get_total_qty(&self, price: &Price) -> (r: Option<Quantity>)
        requires
            self.wf(),
        ensures
            match r {
                Some(q) => assoc_get(self.levels(), *price) is Some && q as int == level_qty(
                    assoc_get(self.levels(), *price).unwrap(),
                ),
                None => assoc_get(self.levels(), *price) is None,
            },
    {
        proof {
            lemma_model_get(self.price_levels.data@, *price);
        }
        match self.price_levels.get(price) {
            Some(level) => {
                proof {
                    lemma_assoc_get_none(self.levels(), *price);
                    let i = crate::matching::sorted_key_index(self.levels(), *price);
                    crate::matching::lemma_sorted_get(self.levels(), *price);
                    crate::matching::lemma_level_qty_le_total(self.levels(), i);
                    lemma_hb_totals(self.levels());
                }
                Some(level_total(level))
            },
            None => None,
        }
    }

    /// The liquidity available to a taker limited to `target_price`: the
    /// total resting quantity over all prices within the taker's window,
    /// best price first.
    pub fn get_available_quantity(&self, target_price: Price) -> (r: Quantity)
        requires
            self.wf(),
        ensures
            r as int == available_qty(self.levels(), self.s, target_price),
    {
        let ghost levels = self.levels();
        proof {
            lemma_available_bounds(levels, self.s, target_price);
            lemma_hb_totals(levels);
        }
        let pairs = self.price_levels.iter();
        let n = pairs.len();
        proof {
            assert(levels.len() == n);
        }
        let mut acc: u64 = 0;
        match self.s {
            Side::Ask => {
                proof {
                    assert(levels.skip(0) =~= levels);
                }
                let mut i: usize = 0;
                while i < n && pairs[i].0 <= target_price
                    invariant
                        self.wf(),
                        levels == self.levels(),
                        pairs@ == self.price_levels.data@,
                        n == levels.len(),
                        i <= n,
                        self.s == Side::Ask,
                        acc as int == available_qty(levels, self.s, target_price)
                            - available_qty(levels.skip(i as int), self.s, target_price),
                        available_qty(levels, self.s, target_price) <= u64::MAX,
                        0 <= available_qty(levels.skip(i as int), self.s, target_price)
                            <= available_qty(levels, self.s, target_price),
                    decreases n - i,
                {
                    let ghost rest = levels.skip(i as int);
                    proof {
                        assert(rest[0] == levels[i as int]);
                        assert(rest.remove(0) =~= levels.skip(i + 1 as int));
                        assert(available_qty(rest, self.s, target_price) == level_qty(rest[0].1)
                            + available_qty(rest.remove(0), self.s, target_price));
                        assert(forall|x: int|
                            0 <= x < rest.remove(0).len() ==> level_wf(
                                #[trigger] rest.remove(0)[x].1,
                            ));
                        lemma_available_bounds(rest.remove(0), self.s, target_price);
                        assert(level_qty(levels[i as int].1) <= u64::MAX) by {
                            crate::matching::lemma_level_qty_le_total(levels, i as int);
                            lemma_hb_totals(levels);
                        }
                        assert(level_model(pairs@[i as int].1) == levels[i as int].1);
                    }
                    let lt = level_total(&pairs[i].1);
                    acc = acc + lt;
                    i = i + 1;
                }
                proof {
                    let rest = levels.skip(i as int);
                    if i < n {
                        assert(rest[0] == levels[i as int]);
                        assert(available_qty(rest, self.s, target_price) == 0);
                    } else {
                        assert(rest =~= Seq::<(u64, LevelModel)>::empty());
                    }
                }
            },
            Side::Bid => {
                proof {
                    assert(levels.take(n as int) =~= levels);
                }
                let mut i: usize = n;
                while i > 0 && pairs[i - 1].0 >= target_price
                    invariant
                        self.wf(),
                        levels == self.levels(),
                        pairs@ == self.price_levels.data@,
                        n == levels.len(),
                        i <= n,
                        self.s == Side::Bid,
                        acc as int == available_qty(levels, self.s, target_price)
                            - available_qty(levels.take(i as int), self.s, target_price),
                        available_qty(levels, self.s, target_price) <= u64::MAX,
                        0 <= available_qty(levels.take(i as int), self.s, target_price)
                            <= available_qty(levels, self.s, target_price),
                    decreases i,
                {
                    let ghost rest = levels.take(i as int);
                    proof {
                        assert(rest[i - 1] == levels[i - 1]);
                        assert(rest.remove(i - 1) =~= levels.take(i - 1));
                        assert(available_qty(rest, self.s, target_price) == level_qty(
                            rest[i - 1].1,
                        ) + available_qty(rest.remove(i - 1), self.s, target_price));
                        assert(forall|x: int|
                            0 <= x < rest.remove(i - 1).len() ==> level_wf(
                                #[trigger] rest.remove(i - 1)[x].1,
                            ));
                        lemma_available_bounds(rest.remove(i - 1), self.s, target_price);
                        assert(level_qty(levels[i - 1].1) <= u64::MAX) by {
                            crate::matching::lemma_level_qty_le_total(levels, i - 1);
                            lemma_hb_totals(levels);
                        }
                        assert(level_model(pairs@[i - 1].1) == levels[i - 1].1);
                    }
                    let lt = level_total(&pairs[i - 1].1);
                    acc = acc + lt;
                    i = i - 1;
                }
                proof {
                    let rest = levels.take(i as int);
                    if i > 0 {
                        assert(rest[i - 1] == levels[i - 1]);
                        assert(available_qty(rest, self.s, target_price) == 0);
                    } else {
                        assert(rest =~= Seq::<(u64, LevelModel)>::empty());
                    }
                }
            },
        }
        acc
    }

    /// The total quantity resting on this side.
    pub fn get_total_volume(&self) -> (r: Quantity)
        requires
            self.wf(),
        ensures
            r as int == hb_total_qty(self.levels()),
    {
        let ghost levels = self.levels();
        proof {
            lemma_hb_totals(levels);
        }
        let pairs = self.price_levels.iter();
        let n = pairs.len();
        let mut acc: u64 = 0;
        let mut i: usize = 0;
        while i < n
            invariant
                self.wf(),
                levels == self.levels(),
                pairs@ == self.price_levels.data@,
                n == levels.len(),
                i <= n,
                acc as int == hb_total_qty(levels.take(i as int)),
                hb_total_qty(levels) <= u64::MAX,
            decreases n - i,
        {
            proof {
                lemma_sum_levels_take_step(levels, i as int, |l: LevelModel| level_qty(l));
                assert forall|x: int| 0 <= x < levels.len() implies level_qty(
                    #[trigger] levels[x].1,
                ) >= 0 by {
                    lemma_sum_orders_nonneg(levels[x].1, |o: OrderModel| o.remaining_qty as int);
                }
                lemma_sum_levels_prefix_le(levels, i + 1 as int, |l: LevelModel| level_qty(l));
                assert(level_qty(levels[i as int].1) <= u64::MAX) by {
                    crate::matching::lemma_level_qty_le_total(levels, i as int);
                }
                assert(level_model(pairs@[i as int].1) == levels[i as int].1);
            }
            let lt = level_total(&pairs[i].1);
            acc = acc + lt;
            i = i + 1;
        }
        proof {
            assert(levels.take(i as int) =~= levels);
        }
        acc
    }

    /// Each occupied price with its total resting quantity, in priority
    /// order.
    pub fn get_levels(&self) -> (r: Vec<(Price, Quantity)>)
        requires
            self.wf(),
        ensures
            r@.len() == self.levels().len(),
            forall|x: int|
                0 <= x < r@.len() ==> (#[trigger] r@[x]).0 == self.priority_prices()[x]
                    && assoc_get(self.levels(), r@[x].0) is Some && r@[x].1 as int == level_qty(
                    assoc_get(self.levels(), r@[x].0).unwrap(),
                ),
    {
        let prices = self.iter_prices();
        let mut out: Vec<(Price, Quantity)> = Vec::new();
        let mut i: usize = 0;
        while i < prices.len()
            invariant
                self.wf(),
                prices@ == self.priority_prices(),
                out@.len() == i,
                i <= prices@.len(),
                forall|x: int|
                    0 <= x < i ==> (#[trigger] out@[x]).0 == self.priority_prices()[x]
                        && assoc_get(self.levels(), out@[x].0) is Some && out@[x].1 as int
                        == level_qty(assoc_get(self.levels(), out@[x].0).unwrap()),
            decreases prices@.len() - i,
        {
            let p = prices[i];
            proof {
                lemma_model_keys(self.price_levels.data@);
                assert(assoc_keys(self.levels()).contains(p)) by {
                    if self.s == Side::Ask {
                        assert(self.price_set@[i as int] == p);
                    } else {
                        assert(self.price_set@[self.price_set@.len() - 1 - i] == p);
                    }
                }
                lemma_assoc_get_none(self.levels(), p);
            }
            let q = match self.get_total_qty(&p) {
                Some(q) => q,
                None => 0,
            };
            out.push((p, q));
            i = i + 1;
        }
        proof {
            assert(prices@.len() == self.levels().len()) by {
                lemma_model_keys(self.price_levels.data@);
            }
        }
        out
    }

    /// The number of orders resting on this side.
    pub fn get_order_count(&self) -> (r: usize)
        requires
            self.wf(),
            hb_order_count(self.levels()) <= usize::MAX,
        ensures
            r as int == hb_order_count(self.levels()),
    {
        let ghost levels = self.levels();
        let pairs = self.price_levels.iter();
        let n = pairs.len();
        let mut acc: usize = 0;
        let mut i: usize = 0;
        while i < n
            invariant
                self.wf(),
                levels == self.levels(),
                pairs@ == self.price_levels.data@,
                n == levels.len(),
                i <= n,
                acc as int == hb_order_count(levels.take(i as int)),
                hb_order_count(levels) <= usize::MAX,
            decreases n - i,
        {
            proof {
                lemma_sum_levels_take_step(levels, i as int, |l: LevelModel| l.len() as int);
                lemma_sum_levels_prefix_le(levels, i + 1 as int, |l: LevelModel| l.len() as int);
                assert(level_model(pairs@[i as int].1) == levels[i as int].1);
                assert(pairs@[i as int].1@.len() == levels[i as int].1.len());
            }
            acc = acc + pairs[i].1.len();
            i = i + 1;
        }
        proof {
            assert(levels.take(i as int) =~= levels);
        }
        acc
    }

    /// The orders resting at `price` in queue order, if the price is
    /// occupied.
    pub fn get_orders_at_price(&self, price: Price) -> (r: Option<Vec<&TradeOrder>>)
        requires
            self.wf(),
        ensures
            match r {
                Some(v) => assoc_get(self.levels(), price) is Some && ({
                    let lvl = assoc_get(self.levels(), price).unwrap();
                    &&& v@.len() == lvl.len()
                    &&& forall|j: int| 0 <= j < lvl.len() ==> (#[trigger] v@[j])@ == lvl[j]
                }),
                None => assoc_get(self.levels(), price) is None,
            },
    {
        proof {
            lemma_model_get(self.price_levels.data@, price);
        }
        match self.price_levels.get(&price) {
            None => None,
            Some(level) => {
                let ghost lvl = level_model(*level);
                let mut out: Vec<&TradeOrder> = Vec::new();
                let mut j: usize = 0;
                while j < level.len()
                    invariant
                        lvl == level_model(*level),
                        j <= level@.len(),
                        out@.len() == j,
                        forall|x: int| 0 <= x < j ==> (#[trigger] out@[x])@ == lvl[x],
                    decreases level@.len() - j,
                {
                    out.push(&level[j]);
                    j = j + 1;
                }
                Some(out)
            },
        }
    }

    /// The order with `order_id` resting at `price`, if it is there.
    pub fn get_order(&self, price: Price, order_id: OrderId) -> (r: Option<&TradeOrder>)
        requires
            self.wf(),
        ensures
            match r {
                Some(o) => assoc_get(self.levels(), price) is Some && ({
                    let lvl = assoc_get(self.levels(), price).unwrap();
                    &&& level_find(lvl, order_id) >= 0
                    &&& o@ == lvl[level_find(lvl, order_id)]
                }),
                None => match assoc_get(self.levels(), price) {
                    Some(lvl) => level_find(lvl, order_id) == -1,
                    None => true,
                },
            },
    {
        proof {
            lemma_model_get(self.price_levels.data@, price);
        }
        match self.price_levels.get(&price) {
            None => None,
            Some(level) => {
                let ghost lvl = level_model(*level);
                proof {
                    lemma_level_find(lvl, order_id);
                }
                let mut j: usize = 0;
                while j < level.len()
                    invariant
                        lvl == level_model(*level),
                        assoc_get(self.levels(), price) == Some(lvl),
                        j <= level@.len(),
                        forall|x: int| 0 <= x < j ==> lvl[x].id != order_id,
                        level_find(lvl, order_id) == -1 || 0 <= level_find(lvl, order_id)
                            < lvl.len(),
                    decreases level@.len() - j,
                {
                    if level[j].id == order_id {
                        proof {
                            lemma_level_find(lvl, order_id);
                            assert(lvl[j as int] == level@[j as int]@);
                            assert(lvl[j as int].id == order_id);
                            assert(level_ids(lvl)[j as int] == lvl[j as int].id);
                            assert(level_ids(lvl).contains(order_id));
                            let f = level_find(lvl, order_id);
                            assert(f != -1);
                            assert(lvl[f].id == order_id);
                            if f < j {
                                assert(lvl[f].id != order_id);
                            }
                            if f > j {
                                assert(lvl[j as int].id != order_id);
                            }
                            assert(f == j);
                        }
                        return Some(&level[j]);
                    }
                    proof {
                        assert(lvl[j as int] == level@[j as int]@);
                    }
                    j = j + 1;
                }
                proof {
                    lemma_level_find(lvl, order_id);
                    if level_find(lvl, order_id) != -1 {
                        let f = level_find(lvl, order_id);
                        assert(lvl[f].id != order_id);
                    }
                }
                None
            },
        }
    }

    /// Matches an incoming order against the level at `price`: resting
    /// orders are consumed from the front of the queue in time priority, a
    /// partially filled maker keeps its place at the front, and the level is
    /// pruned when it empties. Returns the executions in order.
    pub fn match_order(&mut self, incoming_order: &mut TradeOrder, price: Price) -> (executions:
        Vec<TradeExecution>)
        requires
            old(self).wf(),
            old(incoming_order)@.wf(),
        ensures
            ({
                let m = hb_match(old(self).levels(), old(incoming_order)@, price, old(self).s);
                &&& final(self).wf()
                &&& final(self).s == old(self).s
                &&& final(self).levels() == m.levels
                &&& final(incoming_order)@ == m.taker
                &&& executions@.map_values(|e: TradeExecution| e@) == m.execs
            }),
    {
        let ghost levels0 = self.levels();
        let ghost data0 = self.price_levels.data@;
        let ghost taker0 = incoming_order@;
        let take_side = self.s.opposite();
        let mut executions: Vec<TradeExecution> = Vec::new();
        proof {
            lemma_model_get(data0, price);
            lemma_model_remove(data0, price);
            lemma_hb_match(levels0, taker0, price, old(self).s);
        }
        match self.price_levels.remove(&price) {
            None => {
                proof {
                    lemma_assoc_get_none(data0, price);
                    crate::price_levels::lemma_assoc_remove_absent(data0, price);
                    assert(self.price_levels.data@ =~= data0);
                    assert(executions@.map_values(|e: TradeExecution| e@)
                        =~= Seq::<ExecModel>::empty());
                }
                executions
            },
            Some(mut level) => {
                let ghost lvl0m = level_model(level);
                let ghost data1 = self.price_levels.data@;
                let ghost ml_all = match_level(taker0, lvl0m, price, take_side);
                proof {
                    assert(assoc_get(levels0, price) == Some(lvl0m)) by {
                        let v0 = assoc_get(data0, price).unwrap();
                        assert(level_model(v0) =~= lvl0m);
                    }
                    assert(assoc_keys(levels0).contains(price)) by {
                        lemma_assoc_get_none(levels0, price);
                    }
                }
                while level.len() > 0 && incoming_order.remaining_qty > 0
                    invariant
                        ({
                            let rest = match_level(
                                incoming_order@,
                                level_model(level),
                                price,
                                take_side,
                            );
                            &&& ml_all.taker == rest.taker
                            &&& ml_all.level == rest.level
                            &&& ml_all.execs == executions@.map_values(|e: TradeExecution| e@)
                                + rest.execs
                        }),
                    decreases level@.len(), incoming_order.remaining_qty,
                {
                    let ghost l_pre = level_model(level);
                    let ghost t_pre = incoming_order@;
                    let ghost execs_pre = executions@;
                    let mut existing_order = level.remove(0);
                    let ghost maker = existing_order@;
                    proof {
                        assert(maker == l_pre[0]);
                        assert(level_model(level) =~= l_pre.drop_first());
                    }
                    let fill_qty = existing_order.filled_by(incoming_order, price);
                    let e = TradeExecution::new(
                        fill_qty,
                        price,
                        incoming_order,
                        &existing_order,
                        take_side,
                    );
                    executions.push(e);
                    proof {
                        assert(executions@.map_values(|x: TradeExecution| x@)
                            =~= execs_pre.map_values(|x: TradeExecution| x@).push(e@));
                    }
                    if existing_order.remaining_qty > 0 {
                        let ghost l_mid = level_model(level);
                        level.insert(0, existing_order);
                        proof {
                            assert(level_model(level) =~= l_pre.update(
                                0,
                                maker.after_fill(fill_qty, price, t_pre.id),
                            )) by {
                                assert(level@ =~= level@.subrange(1, level@.len() as int).insert(
                                    0,
                                    level@[0],
                                ));
                                assert(level_model(level)[0] == existing_order@);
                                assert(forall|x: int|
                                    1 <= x < level_model(level).len()
                                        ==> #[trigger] level_model(level)[x] == l_pre[x]);
                            }
                            assert(incoming_order.remaining_qty == 0);
                            let rest_new = match_level(
                                incoming_order@,
                                level_model(level),
                                price,
                                take_side,
                            );
                            assert(rest_new.execs =~= Seq::<ExecModel>::empty());
                            let rest_pre = match_level(t_pre, l_pre, price, take_side);
                            assert(rest_pre.execs =~= seq![e@]);
                            assert(ml_all.execs =~= executions@.map_values(
                                |x: TradeExecution| x@,
                            ) + rest_new.execs);
                        }
                    } else {
                        proof {
                            let rest_new = match_level(
                                incoming_order@,
                                level_model(level),
                                price,
                                take_side,
                            );
                            let rest_pre = match_level(t_pre, l_pre, price, take_side);
                            assert(rest_pre.execs =~= seq![e@] + rest_new.execs);
                            assert(ml_all.execs =~= executions@.map_values(
                                |x: TradeExecution| x@,
                            ) + rest_new.execs) by {
                                assert(execs_pre.map_values(|x: TradeExecution| x@) + (seq![e@]
                                    + rest_new.execs) =~= executions@.map_values(
                                    |x: TradeExecution| x@,
                                ) + rest_new.execs);
                            }
                        }
                    }
                }
                proof {
                    let rest = match_level(incoming_order@, level_model(level), price, take_side);
                    assert(rest.taker == incoming_order@ && rest.level == level_model(level)
                        && rest.execs =~= Seq::<ExecModel>::empty());
                    assert(ml_all.execs =~= executions@.map_values(|e: TradeExecution| e@));
                    assert(ml_all.taker == incoming_order@);
                    assert(ml_all.level == level_model(level));
                }
                let ghost i = crate::matching::sorted_key_index(levels0, price);
                if level.is_empty() {
                    proof {
                        lemma_assoc_remove_at(levels0, price, i);
                        assert(self.levels() =~= assoc_remove(levels0, price)) by {
                            lemma_model_remove(data0, price);
                        }
                        lemma_model_keys(data0);
                        lemma_model_keys(self.price_levels.data@);
                        assert(self.price_levels.data@ =~= assoc_remove(data0, price)) by {
                            assert(data1 == assoc_remove(data0, price));
                        }
                    }
                    let mut ps_i: usize = 0;
                    while ps_i < self.price_set.len() && self.price_set[ps_i] != price
                        invariant
                            ps_i <= self.price_set@.len(),
                            forall|x: int| 0 <= x < ps_i ==> self.price_set@[x] != price,
                            self.price_set@ == old(self).price_set@,
                            self.price_levels.data@ == data1,
                            self.s == old(self).s,
                        decreases self.price_set@.len() - ps_i,
                    {
                        ps_i = ps_i + 1;
                    }
                    proof {
                        lemma_model_keys(data0);
                        assert(self.price_set@[i] == price) by {
                            assert(assoc_keys(levels0)[i] == price);
                        }
                        assert(ps_i == i) by {
                            if ps_i < i {
                                assert(self.price_set@[ps_i as int] != price);
                            }
                            if (ps_i as int) > i {
                                assert(self.price_set@[i] != price);
                            }
                        }
                    }
                    self.price_set.remove(ps_i);
                    proof {
                        assert(self.price_set@ =~= assoc_keys(self.price_levels.data@)) by {
                            crate::price_levels::lemma_assoc_remove_at(data0, price, i);
                            assert(self.price_levels.data@ =~= data0.remove(i));
                            assert(assoc_keys(data0.remove(i)) =~= assoc_keys(data0).remove(i));
                        }
                    }
                } else {
                    proof {
                        assert forall|v: PriceLevel|
                            levels_model_of(assoc_insert(data1, price, v)) == assoc_insert(
                                levels_model_of(data1),
                                price,
                                level_model(v),
                            ) by {
                            lemma_model_insert(data1, price, v);
                        }
                    }
                    self.price_levels.insert(price, level);
                    proof {
                        lemma_assoc_remove_at(levels0, price, i);
                        assert(levels_model_of(data1) =~= levels0.remove(i));
                        lemma_assoc_insert_at_model(levels0.remove(i), price, ml_all.level, i);
                        lemma_assoc_insert_at_model(levels0, price, ml_all.level, i);
                        assert(self.levels() =~= levels0.remove(i).insert(
                            i,
                            (price, ml_all.level),
                        ));
                        assert(self.levels() =~= levels0.update(i, (price, ml_all.level)));
                        assert(self.levels() =~= assoc_insert(levels0, price, ml_all.level));
                        assert(self.price_set@ == assoc_keys(self.price_levels.data@)) by {
                            lemma_model_keys(self.price_levels.data@);
                            assert(assoc_keys(self.levels()) =~= assoc_keys(levels0));
                        }
                    }
                }
                executions
            },
        }
    }

    /// Removes the order with `order_id` from the level at `price` and
    /// returns it; the level is pruned when it empties.
    #[verifier::rlimit(100)]
    pub fn remove_order(&mut self, price: &Price, order_id: OrderId) -> (r: Option<TradeOrder>)
        requires
            old(self).wf(),
        ensures
            final(self).wf(),
            final(self).s == old(self).s,
            final(self).levels() == levels_remove_order(old(self).levels(), *price, order_id),
            match r {
                Some(o) => levels_removed_order(old(self).levels(), *price, order_id) == Some(o@),
                None => levels_removed_order(old(self).levels(), *price, order_id) is None,
            },
            hb_total_init(final(self).levels()) <= hb_total_init(old(self).levels()),
    {
        let ghost levels0 = self.levels();
        let ghost data0 = self.price_levels.data@;
        proof {
            lemma_model_get(data0, *price);
            lemma_model_remove(data0, *price);
            lemma_hb_totals(levels0);
        }
        match self.price_levels.remove(price) {
            None => {
                proof {
                    lemma_assoc_get_none(data0, *price);
                    crate::price_levels::lemma_assoc_remove_absent(data0, *price);
                    assert(self.price_levels.data@ =~= data0);
                }
                None
            },
            Some(mut level) => {
                let ghost lvl0m = level_model(level);
                let ghost data1 = self.price_levels.data@;
                proof {
                    assert(assoc_get(levels0, *price) == Some(lvl0m)) by {
                        let v0 = assoc_get(data0, *price).unwrap();
                        assert(level_model(v0) =~= lvl0m);
                    }
                    assert(assoc_keys(levels0).contains(*price)) by {
                        lemma_assoc_get_none(levels0, *price);
                    }
                }
                let ghost i = crate::matching::sorted_key_index(levels0, *price);
                proof {
                    crate::matching::lemma_sorted_get(levels0, *price);
                    assert(lvl0m == levels0[i].1);
                    lemma_level_find(lvl0m, order_id);
                }
                let mut j: usize = 0;
                let n = level.len();
                while j < n && level[j].id != order_id
                    invariant
                        n == level@.len(),
                        j <= n,
                        lvl0m == level_model(level),
                        forall|x: int| 0 <= x < j ==> lvl0m[x].id != order_id,
                    decreases n - j,
                {
                    proof {
                        assert(lvl0m[j as int] == level@[j as int]@);
                    }
                    j = j + 1;
                }
                if j == n {
                    // not found: put the level back untouched.
                    proof {
                        lemma_level_find(lvl0m, order_id);
                        assert(level_find(lvl0m, order_id) == -1) by {
                            if level_find(lvl0m, order_id) != -1 {
                                let f = level_find(lvl0m, order_id);
                                assert(lvl0m[f].id != order_id);
                            }
                        }
                        assert forall|v: PriceLevel|
                            levels_model_of(assoc_insert(data1, *price, v)) == assoc_insert(
                                levels_model_of(data1),
                                *price,
                                level_model(v),
                            ) by {
                            lemma_model_insert(data1, *price, v);
                        }
                    }
                    self.price_levels.insert(*price, level);
                    proof {
                        lemma_assoc_remove_at(levels0, *price, i);
                        assert(levels_model_of(data1) =~= levels0.remove(i));
                        lemma_assoc_insert_at_model(levels0.remove(i), *price, lvl0m, i);
                        assert(self.levels() =~= levels0.remove(i).insert(i, (*price, lvl0m)));
                        assert(self.levels() =~= levels0.update(i, (*price, lvl0m)));
                        assert(self.levels() =~= levels0);
                        assert(self.price_set@ == assoc_keys(self.price_levels.data@)) by {
                            lemma_model_keys(self.price_levels.data@);
                            assert(assoc_keys(self.levels()) =~= assoc_keys(levels0));
                        }
                    }
                    None
                } else {
                    proof {
                        assert(lvl0m[j as int] == level@[j as int]@);
                        assert(lvl0m[j as int].id == order_id);
                        lemma_level_find(lvl0m, order_id);
                        assert(level_ids(lvl0m)[j as int] == lvl0m[j as int].id);
                        assert(level_ids(lvl0m).contains(order_id));
                        let f = level_find(lvl0m, order_id);
                        assert(f != -1);
                        if f < j {
                            assert(lvl0m[f].id != order_id);
                        }
                        if f > j {
                            assert(lvl0m[j as int].id != order_id);
                        }
                        assert(f == j);
                    }
                    let removed_order = level.remove(j);
                    proof {
                        assert(level_model(level) =~= lvl0m.remove(j as int));
                        assert(removed_order@ == lvl0m[j as int]);
                    }
                    if level.is_empty() {
                        proof {
                            assert(lvl0m.remove(j as int).len() == 0);
                            lemma_assoc_remove_at(levels0, *price, i);
                            assert(self.levels() =~= assoc_remove(levels0, *price)) by {
                                lemma_model_remove(data0, *price);
                            }
                        }
                        let mut ps_i: usize = 0;
                        while ps_i < self.price_set.len() && self.price_set[ps_i] != *price
                            invariant
                                ps_i <= self.price_set@.len(),
                                forall|x: int| 0 <= x < ps_i ==> self.price_set@[x] != *price,
                                self.price_set@ == old(self).price_set@,
                                self.price_levels.data@ == data1,
                                self.s == old(self).s,
                            decreases self.price_set@.len() - ps_i,
                        {
                            ps_i = ps_i + 1;
                        }
                        proof {
                            lemma_model_keys(data0);
                            assert(self.price_set@[i] == *price) by {
                                assert(assoc_keys(levels0)[i] == *price);
                            }
                            assert(ps_i == i) by {
                                if ps_i < i {
                                    assert(self.price_set@[ps_i as int] != *price);
                                }
                                if (ps_i as int) > i {
                                    assert(self.price_set@[i] != *price);
                                }
                            }
                        }
                        self.price_set.remove(ps_i);
                        proof {
                            assert(self.price_set@ =~= assoc_keys(self.price_levels.data@)) by {
                                crate::price_levels::lemma_assoc_remove_at(data0, *price, i);
                                assert(self.price_levels.data@ =~= data0.remove(i));
                                assert(assoc_keys(data0.remove(i)) =~= assoc_keys(data0).remove(
                                    i,
                                ));
                            }
                            self.lemma_wf_after_level_removed(levels0, i);
                        }
                    } else {
                        proof {
                            assert forall|v: PriceLevel|
                                levels_model_of(assoc_insert(data1, *price, v)) == assoc_insert(
                                    levels_model_of(data1),
                                    *price,
                                    level_model(v),
                                ) by {
                                lemma_model_insert(data1, *price, v);
                            }
                        }
                        self.price_levels.insert(*price, level);
                        proof {
                            lemma_assoc_remove_at(levels0, *price, i);
                            assert(levels_model_of(data1) =~= levels0.remove(i));
                            lemma_assoc_insert_at_model(
                                levels0.remove(i),
                                *price,
                                lvl0m.remove(j as int),
                                i,
                            );
                            lemma_assoc_insert_at_model(levels0, *price, lvl0m.remove(j as int), i);
                            assert(self.levels() =~= levels0.remove(i).insert(
                                i,
                                (*price, lvl0m.remove(j as int)),
                            ));
                            assert(self.levels() =~= levels0.update(
                                i,
                                (*price, lvl0m.remove(j as int)),
                            ));
                            assert(self.levels() =~= assoc_insert(
                                levels0,
                                *price,
                                lvl0m.remove(j as int),
                            ));
                            assert(self.price_set@ == assoc_keys(self.price_levels.data@)) by {
                                lemma_model_keys(self.price_levels.data@);
                                assert(assoc_keys(self.levels()) =~= assoc_keys(levels0));
                            }
                            self.lemma_wf_after_order_removed(levels0, i, j as int);
                        }
                    }
                    Some(removed_order)
                }
            },
        }
    }

    /// Proof helper: removing a whole level keeps the book well-formed.
    proof fn lemma_wf_after_level_removed(self, levels0: LevelsModel, i: int)
        requires
            levels_wf(levels0),
            0 <= i < levels0.len(),
            self.levels() == levels0.remove(i),
            self.price_levels.wf(),
            self.price_set@ == assoc_keys(self.price_levels.data@),
        ensures
            self.wf(),
            hb_total_init(self.levels()) <= hb_total_init(levels0),
    {
        let out = self.levels();
        crate::matching::lemma_sum_levels_remove(
            levels0,
            i,
            |l: LevelModel| crate::matching::level_init_qty(l),
        );
        crate::matching::lemma_sum_levels_nonneg_init(levels0);
        assert forall|x: int| 0 <= x < out.len() implies level_wf(#[trigger] out[x].1) by {
            if x < i {
                assert(out[x] == levels0[x]);
            } else {
                assert(out[x] == levels0[x + 1]);
            }
        }
        assert(crate::matching::levels_distinct_ids(out)) by {
            assert forall|a1: int, b1: int, a2: int, b2: int|
                0 <= a1 < out.len() && 0 <= b1 < out[a1].1.len() && 0 <= a2 < out.len() && 0 <= b2
                    < out[a2].1.len() && (a1 != a2 || b1 != b2) implies #[trigger] out[a1].1[b1].id
                != #[trigger] out[a2].1[b2].id by {
                let oa1 = if a1 < i {
                    a1
                } else {
                    a1 + 1
                };
                let oa2 = if a2 < i {
                    a2
                } else {
                    a2 + 1
                };
                assert(out[a1].1[b1].id == levels0[oa1].1[b1].id);
                assert(out[a2].1[b2].id == levels0[oa2].1[b2].id);
            }
        }
    }

    /// Proof helper: removing one order of a level keeps the book
    /// well-formed.
    proof fn lemma_wf_after_order_removed(self, levels0: LevelsModel, i: int, j: int)
        requires
            levels_wf(levels0),
            0 <= i < levels0.len(),
            0 <= j < levels0[i].1.len(),
            levels0[i].1.len() > 1,
            self.levels() == levels0.update(i, (levels0[i].0, levels0[i].1.remove(j))),
            self.price_levels.wf(),
            self.price_set@ == assoc_keys(self.price_levels.data@),
        ensures
            self.wf(),
            hb_total_init(self.levels()) <= hb_total_init(levels0),
    {
        let out = self.levels();
        let lvl0 = levels0[i].1;
        let lvl2 = lvl0.remove(j);
        crate::matching::lemma_sum_levels_update(
            levels0,
            i,
            (levels0[i].0, lvl2),
            |l: LevelModel| crate::matching::level_init_qty(l),
        );
        crate::matching::lemma_sum_orders_remove(lvl0, j, |o: OrderModel| o.initial_qty as int);
        assert(lvl0[j].initial_qty >= 0);
        assert forall|x: int| 0 <= x < out.len() implies level_wf(#[trigger] out[x].1) by {
            if x == i {
                assert forall|b: int| 0 <= b < lvl2.len() implies (#[trigger] lvl2[b]).wf()
                    && lvl2[b].remaining_qty > 0 by {
                    if b < j {
                        assert(lvl2[b] == lvl0[b]);
                    } else {
                        assert(lvl2[b] == lvl0[b + 1]);
                    }
                }
            }
        }
        assert(crate::matching::levels_distinct_ids(out)) by {
            assert forall|a1: int, b1: int, a2: int, b2: int|
                0 <= a1 < out.len() && 0 <= b1 < out[a1].1.len() && 0 <= a2 < out.len() && 0 <= b2
                    < out[a2].1.len() && (a1 != a2 || b1 != b2) implies #[trigger] out[a1].1[b1].id
                != #[trigger] out[a2].1[b2].id by {
                let ob1 = if a1 == i && b1 >= j {
                    b1 + 1
                } else {
                    b1
                };
                let ob2 = if a2 == i && b2 >= j {
                    b2 + 1
                } else {
                    b2
                };
                assert(out[a1].1[b1].id == levels0[a1].1[ob1].id);
                assert(out[a2].1[b2].id == levels0[a2].1[ob2].id);
            }
        }
    }

    /// Mutable access to the order with `order_id` at `price`, if it is
    /// there. The caller's writes land in place; the level keeps its shape.
    pub fn get_order_mut(&mut self, price: &Price, order_id: &OrderId) -> (r: Option<
        &mut TradeOrder,
    >)
        requires
            old(self).wf(),
        ensures
            match r {
                None => {
                    &&& *final(self) == *old(self)
                    &&& match assoc_get(old(self).levels(), *price) {
                        Some(lvl) => level_find(lvl, *order_id) == -1,
                        None => true,
                    }
                },
                Some(o) => ({
                    let lvl = assoc_get(old(self).levels(), *price).unwrap();
                    let j = level_find(lvl, *order_id);
                    &&& assoc_get(old(self).levels(), *price) is Some
                    &&& j != -1
                    &&& (*o)@ == lvl[j]
                    &&& final(self).s == old(self).s
                    &&& final(self).price_set@ == old(self).price_set@
                    &&& final(self).price_levels.wf()
                    &&& final(self).levels() == assoc_insert(
                        old(self).levels(),
                        *price,
                        lvl.update(j, final(o)@),
                    )
                }),
            },
    {
        let ghost levels0 = self.levels();
        let ghost data0 = self.price_levels.data@;
        proof {
            lemma_model_get(data0, *price);
        }
        // First find the queue position without touching the store.
        let mut pos: usize = 0;
        let mut found: bool = false;
        match self.price_levels.get(price) {
            None => {
                return None;
            },
            Some(level) => {
                let ghost lvl = level_model(*level);
                proof {
                    assert(assoc_get(levels0, *price) == Some(lvl));
                    lemma_level_find(lvl, *order_id);
                }
                let n = level.len();
                while pos < n && level[pos].id != *order_id
                    invariant
                        n == level@.len(),
                        lvl == level_model(*level),
                        pos <= n,
                        forall|x: int| 0 <= x < pos ==> lvl[x].id != *order_id,
                    decreases n - pos,
                {
                    proof {
                        assert(lvl[pos as int] == level@[pos as int]@);
                    }
                    pos = pos + 1;
                }
                if pos == n {
                    proof {
                        lemma_level_find(lvl, *order_id);
                        assert(level_find(lvl, *order_id) == -1) by {
                            if level_find(lvl, *order_id) != -1 {
                                let f = level_find(lvl, *order_id);
                                assert(lvl[f].id != *order_id);
                            }
                        }
                    }
                    return None;
                }
                found = true;
                proof {
                    lemma_level_find(lvl, *order_id);
                    assert(lvl[pos as int] == level@[pos as int]@);
                    assert(lvl[pos as int].id == *order_id);
                    assert(level_ids(lvl)[pos as int] == lvl[pos as int].id);
                    assert(level_ids(lvl).contains(*order_id));
                    let f = level_find(lvl, *order_id);
                    assert(f != -1);
                    if f < pos {
                        assert(lvl[f].id != *order_id);
                    }
                    if f > pos {
                        assert(lvl[pos as int].id != *order_id);
                    }
                    assert(f == pos);
                }
            },
        }
        let ghost lvl = assoc_get(levels0, *price).unwrap();
        proof {
            assert(found);
            assert forall|v: PriceLevel|
                levels_model_of(assoc_insert(data0, *price, v)) == assoc_insert(
                    levels0,
                    *price,
                    level_model(v),
                ) by {
                lemma_model_insert(data0, *price, v);
            }
            assert forall|s2: Seq<TradeOrder>, t: TradeOrder|
                s2.len() == lvl.len() && 0 <= pos < lvl.len() && (forall|x: int|
                    0 <= x < s2.len() && x != pos ==> #[trigger] s2[x]@ == lvl[x]) && s2[
                    pos as int
                ] == t implies level_model_of_seq(s2) =~= lvl.update(pos as int, t@) by {}
        }
        let lvl_opt = self.price_levels.get_mut(price);
        match lvl_opt {
            Some(level) => {
                let ghost l0 = level@;
                proof {
                    assert(level_model(*level) == lvl);
                    assert(forall|x: int|
                        0 <= x < l0.len() ==> #[trigger] l0[x]@ == lvl[x]);
                    assert forall|t: TradeOrder, v: PriceLevel|
                        v@ == l0.update(pos as int, t) implies level_model(v) =~= lvl.update(
                        pos as int,
                        t@,
                    ) by {
                        let s2 = l0.update(pos as int, t);
                        assert(forall|x: int|
                            0 <= x < s2.len() && x != pos ==> #[trigger] s2[x]@ == lvl[x]);
                    }
                }
                let o = vstd::std_specs::vec::vec_index_mut(level, pos);
                Some(o)
            },
            None => {
                proof {
                    assert(false);
                }
                None
            },
        }
    }

    /// Reduces the remaining quantity of the order with `order_id` at
    /// `price` by `qty`, which must leave some quantity resting; returns a
    /// snapshot of the reduced order.
    pub fn reduce_order(&mut self, price: Price, order_id: OrderId, qty: Quantity) -> (r: Option<
        TradeOrder,
    >)
        requires
            old(self).wf(),
            match levels_removed_order(old(self).levels(), price, order_id) {
                Some(om) => qty < om.remaining_qty,
                None => true,
            },
        ensures
            final(self).wf(),
            final(self).s == old(self).s,
            final(self).spec_prices() == old(self).spec_prices(),
            hb_total_init(final(self).levels()) <= hb_total_init(old(self).levels()),
            match levels_removed_order(old(self).levels(), price, order_id) {
                None => final(self).levels() == old(self).levels() && r is None,
                Some(om) => ({
                    let lvl = assoc_get(old(self).levels(), price).unwrap();
                    let j = level_find(lvl, order_id);
                    let om2 = OrderModel {
                        remaining_qty: (om.remaining_qty - qty) as u64,
                        ..om
                    };
                    &&& r is Some
                    &&& r.unwrap()@ == om2
                    &&& final(self).levels() == assoc_insert(
                        old(self).levels(),
                        price,
                        lvl.update(j, om2),
                    )
                }),
            },
    {
        let ghost levels0 = self.levels();
        let ghost data0 = self.price_levels.data@;
        proof {
            lemma_model_get(data0, price);
            lemma_model_remove(data0, price);
        }
        match self.price_levels.remove(&price) {
            None => {
                proof {
                    lemma_assoc_get_none(data0, price);
                    crate::price_levels::lemma_assoc_remove_absent(data0, price);
                    assert(self.price_levels.data@ =~= data0);
                }
                None
            },
            Some(mut level) => {
                let ghost lvl0m = level_model(level);
                let ghost data1 = self.price_levels.data@;
                proof {
                    assert(assoc_get(levels0, price) == Some(lvl0m)) by {
                        let v0 = assoc_get(data0, price).unwrap();
                        assert(level_model(v0) =~= lvl0m);
                    }
                    assert(assoc_keys(levels0).contains(price)) by {
                        lemma_assoc_get_none(levels0, price);
                    }
                }
                let ghost i = crate::matching::sorted_key_index(levels0, price);
                proof {
                    crate::matching::lemma_sorted_get(levels0, price);
                    assert(lvl0m == levels0[i].1);
                    lemma_level_find(lvl0m, order_id);
                }
                let mut j: usize = 0;
                let n = level.len();
                while j < n && level[j].id != order_id
                    invariant
                        n == level@.len(),
                        j <= n,
                        lvl0m == level_model(level),
                        forall|x: int| 0 <= x < j ==> lvl0m[x].id != order_id,
                    decreases n - j,
                {
                    proof {
                        assert(lvl0m[j as int] == level@[j as int]@);
                    }
                    j = j + 1;
                }
                if j == n {
                    proof {
                        lemma_level_find(lvl0m, order_id);
                        assert(level_find(lvl0m, order_id) == -1) by {
                            if level_find(lvl0m, order_id) != -1 {
                                let f = level_find(lvl0m, order_id);
                                assert(lvl0m[f].id != order_id);
                            }
                        }
                        assert forall|v: PriceLevel|
                            levels_model_of(assoc_insert(data1, price, v)) == assoc_insert(
                                levels_model_of(data1),
                                price,
                                level_model(v),
                            ) by {
                            lemma_model_insert(data1, price, v);
                        }
                    }
                    self.price_levels.insert(price, level);
                    proof {
                        lemma_assoc_remove_at(levels0, price, i);
                        assert(levels_model_of(data1) =~= levels0.remove(i));
                        lemma_assoc_insert_at_model(levels0.remove(i), price, lvl0m, i);
                        assert(self.levels() =~= levels0.remove(i).insert(i, (price, lvl0m)));
                        assert(self.levels() =~= levels0.update(i, (price, lvl0m)));
                        assert(self.levels() =~= levels0);
                        assert(self.price_set@ == assoc_keys(self.price_levels.data@)) by {
                            lemma_model_keys(self.price_levels.data@);
                            assert(assoc_keys(self.levels()) =~= assoc_keys(levels0));
                        }
                    }
                    None
                } else {
                    proof {
                        assert(lvl0m[j as int] == level@[j as int]@);
                        assert(lvl0m[j as int].id == order_id);
                        lemma_level_find(lvl0m, order_id);
                        assert(level_ids(lvl0m)[j as int] == lvl0m[j as int].id);
                        assert(level_ids(lvl0m).contains(order_id));
                        let f = level_find(lvl0m, order_id);
                        assert(f != -1);
                        if f < j {
                            assert(lvl0m[f].id != order_id);
                        }
                        if f > j {
                            assert(lvl0m[j as int].id != order_id);
                        }
                        assert(f == j);
                    }
                    let ghost om = lvl0m[j as int];
                    let ghost l_exec = level@;
                    let mut ord = level.remove(j);
                    ord.cancel(qty);
                    let ghost om2 = OrderModel { remaining_qty: (om.remaining_qty - qty) as u64, ..om };
                    let ret = ord.clone();
                    level.insert(j, ord);
                    proof {
                        assert(ord@ == om2);
                        assert(ret@ == om2);
                        assert(level@ =~= l_exec.update(j as int, ord));
                        assert(level_model(level) =~= lvl0m.update(j as int, om2));
                        assert forall|v: PriceLevel|
                            levels_model_of(assoc_insert(data1, price, v)) == assoc_insert(
                                levels_model_of(data1),
                                price,
                                level_model(v),
                            ) by {
                            lemma_model_insert(data1, price, v);
                        }
                    }
                    self.price_levels.insert(price, level);
                    proof {
                        lemma_assoc_remove_at(levels0, price, i);
                        assert(levels_model_of(data1) =~= levels0.remove(i));
                        lemma_assoc_insert_at_model(
                            levels0.remove(i),
                            price,
                            lvl0m.update(j as int, om2),
                            i,
                        );
                        lemma_assoc_insert_at_model(levels0, price, lvl0m.update(j as int, om2), i);
                        assert(self.levels() =~= levels0.remove(i).insert(
                            i,
                            (price, lvl0m.update(j as int, om2)),
                        ));
                        assert(self.levels() =~= levels0.update(
                            i,
                            (price, lvl0m.update(j as int, om2)),
                        ));
                        assert(self.levels() =~= assoc_insert(
                            levels0,
                            price,
                            lvl0m.update(j as int, om2),
                        ));
                        crate::matching::lemma_wf_after_order_update(levels0, i, j as int, om2);
                        assert(self.price_set@ == assoc_keys(self.price_levels.data@)) by {
                            lemma_model_keys(self.price_levels.data@);
                            assert(assoc_keys(self.levels()) =~= assoc_keys(levels0));
                        }
                    }
                    Some(ret)
                }
            },
        }
    }

    /// Merges `order` into the resting order with `order_id` at `price`:
    /// quantities add and fills are appended. The resting order must be of
    /// the same side and order type.
    #[verifier::rlimit(100)]
    pub fn merge_order(&mut self, price: Price, order_id: OrderId, order: TradeOrder) -> (merged:
        bool)
        requires
            old(self).wf(),
            order@.wf(),
            match levels_removed_order(old(self).levels(), price, order_id) {
                Some(om) => om.side == order.side && om.order_type == order.order_type
                    && hb_total_init(old(self).levels()) + order.initial_qty <= u64::MAX,
                None => true,
            },
        ensures
            final(self).wf(),
            final(self).s == old(self).s,
            final(self).spec_prices() == old(self).spec_prices(),
            match levels_removed_order(old(self).levels(), price, order_id) {
                None => {
                    &&& !merged
                    &&& final(self).levels() == old(self).levels()
                    &&& hb_total_init(final(self).levels()) == hb_total_init(old(self).levels())
                },
                Some(om) => {
                    &&& merged
                    &&& final(self).levels() == crate::matching::levels_merge_order(
                        old(self).levels(),
                        price,
                        order_id,
                        order@,
                    )
                    &&& hb_total_init(final(self).levels()) == hb_total_init(old(self).levels())
                        + order.initial_qty
                },
            },
    {
        let ghost levels0 = self.levels();
        let ghost data0 = self.price_levels.data@;
        let ghost tm = order@;
        proof {
            lemma_model_get(data0, price);
            lemma_model_remove(data0, price);
        }
        match self.price_levels.remove(&price) {
            None => {
                proof {
                    lemma_assoc_get_none(data0, price);
                    crate::price_levels::lemma_assoc_remove_absent(data0, price);
                    assert(self.price_levels.data@ =~= data0);
                }
                false
            },
            Some(mut level) => {
                let ghost lvl0m = level_model(level);
                let ghost data1 = self.price_levels.data@;
                proof {
                    assert(assoc_get(levels0, price) == Some(lvl0m)) by {
                        let v0 = assoc_get(data0, price).unwrap();
                        assert(level_model(v0) =~= lvl0m);
                    }
                    assert(assoc_keys(levels0).contains(price)) by {
                        lemma_assoc_get_none(levels0, price);
                    }
                }
                let ghost i = crate::matching::sorted_key_index(levels0, price);
                proof {
                    crate::matching::lemma_sorted_get(levels0, price);
                    assert(lvl0m == levels0[i].1);
                    lemma_level_find(lvl0m, order_id);
                }
                let mut j: usize = 0;
                let n = level.len();
                while j < n && level[j].id != order_id
                    invariant
                        n == level@.len(),
                        j <= n,
                        lvl0m == level_model(level),
                        forall|x: int| 0 <= x < j ==> lvl0m[x].id != order_id,
                    decreases n - j,
                {
                    proof {
                        assert(lvl0m[j as int] == level@[j as int]@);
                    }
                    j = j + 1;
                }
                if j == n {
                    proof {
                        lemma_level_find(lvl0m, order_id);
                        assert(level_find(lvl0m, order_id) == -1) by {
                            if level_find(lvl0m, order_id) != -1 {
                                let f = level_find(lvl0m, order_id);
                                assert(lvl0m[f].id != order_id);
                            }
                        }
                        assert forall|v: PriceLevel|
                            levels_model_of(assoc_insert(data1, price, v)) == assoc_insert(
                                levels_model_of(data1),
                                price,
                                level_model(v),
                            ) by {
                            lemma_model_insert(data1, price, v);
                        }
                    }
                    self.price_levels.insert(price, level);
                    proof {
                        lemma_assoc_remove_at(levels0, price, i);
                        assert(levels_model_of(data1) =~= levels0.remove(i));
                        lemma_assoc_insert_at_model(levels0.remove(i), price, lvl0m, i);
                        assert(self.levels() =~= levels0.remove(i).insert(i, (price, lvl0m)));
                        assert(self.levels() =~= levels0.update(i, (price, lvl0m)));
                        assert(self.levels() =~= levels0);
                        assert(self.price_set@ == assoc_keys(self.price_levels.data@)) by {
                            lemma_model_keys(self.price_levels.data@);
                            assert(assoc_keys(self.levels()) =~= assoc_keys(levels0));
                        }
                    }
                    false
                } else {
                    proof {
                        assert(lvl0m[j as int] == level@[j as int]@);
                        assert(lvl0m[j as int].id == order_id);
                        lemma_level_find(lvl0m, order_id);
                        assert(level_ids(lvl0m)[j as int] == lvl0m[j as int].id);
                        assert(level_ids(lvl0m).contains(order_id));
                        let f = level_find(lvl0m, order_id);
                        assert(f != -1);
                        if f < j {
                            assert(lvl0m[f].id != order_id);
                        }
                        if f > j {
                            assert(lvl0m[j as int].id != order_id);
                        }
                        assert(f == j);
                    }
                    let ghost om = lvl0m[j as int];
                    let ghost l_exec = level@;
                    proof {
                        // the resting order's submitted quantity is bounded by
                        // the side's total, so the merged sums fit.
                        crate::matching::lemma_level_qty_le_total(levels0, i);
                        lemma_hb_totals(levels0);
                        crate::matching::lemma_sum_orders_remove(
                            lvl0m,
                            j as int,
                            |o: OrderModel| o.initial_qty as int,
                        );
                        lemma_sum_orders_nonneg(
                            lvl0m.remove(j as int),
                            |o: OrderModel| o.initial_qty as int,
                        );
                        crate::matching::lemma_sum_levels_remove(
                            levels0,
                            i,
                            |l: LevelModel| crate::matching::level_init_qty(l),
                        );
                        crate::matching::lemma_sum_levels_nonneg_init(levels0);
                        lemma_sum_levels_nonneg(
                            levels0.remove(i),
                            |l: LevelModel| crate::matching::level_init_qty(l),
                        );
                        assert(om.initial_qty <= hb_total_init(levels0));
                    }
                    let mut ord = level.remove(j);
                    let merged_back = ord.merge(order);
                    proof {
                        assert(merged_back is None);
                    }
                    let ghost om2 = om.after_merge(tm);
                    level.insert(j, ord);
                    proof {
                        assert(ord@ == om2);
                        assert(level@ =~= l_exec.update(j as int, ord));
                        assert(level_model(level) =~= lvl0m.update(j as int, om2));
                        assert forall|v: PriceLevel|
                            levels_model_of(assoc_insert(data1, price, v)) == assoc_insert(
                                levels_model_of(data1),
                                price,
                                level_model(v),
                            ) by {
                            lemma_model_insert(data1, price, v);
                        }
                    }
                    self.price_levels.insert(price, level);
                    proof {
                        lemma_assoc_remove_at(levels0, price, i);
                        assert(levels_model_of(data1) =~= levels0.remove(i));
                        lemma_assoc_insert_at_model(
                            levels0.remove(i),
                            price,
                            lvl0m.update(j as int, om2),
                            i,
                        );
                        lemma_assoc_insert_at_model(levels0, price, lvl0m.update(j as int, om2), i);
                        assert(self.levels() =~= levels0.remove(i).insert(
                            i,
                            (price, lvl0m.update(j as int, om2)),
                        ));
                        assert(self.levels() =~= levels0.update(
                            i,
                            (price, lvl0m.update(j as int, om2)),
                        ));
                        assert(self.levels() =~= assoc_insert(
                            levels0,
                            price,
                            lvl0m.update(j as int, om2),
                        ));
                        assert(om2.wf()) by {
                            crate::matching::lemma_sum_fills_concat(om.fills, tm.fills);
                        }
                        crate::matching::lemma_wf_after_order_update(levels0, i, j as int, om2);
                        assert(self.price_set@ == assoc_keys(self.price_levels.data@)) by {
                            lemma_model_keys(self.price_levels.data@);
                            assert(assoc_keys(self.levels()) =~= assoc_keys(levels0));
                        }
                    }
                    true
                }
            },
        }
    }

    /// Empties the half-book.
    pub fn clear(&mut self)
        ensures
            final(self).wf(),
            final(self).s == old(self).s,
            final(self).levels() =~= Seq::<(u64, LevelModel)>::empty(),
            final(self).spec_prices() =~= Seq::<u64>::empty(),
    {
        self.price_set.clear();
        self.price_levels = SparseVec::with_capacity(10_000);
        proof {
            assert(assoc_keys(self.price_levels.data@) =~= Seq::<u64>::empty());
        }
    }

    /// Proof helper for the append case of `add_order`.
    proof fn lemma_restore_wf_after_append(
        self,
        levels0: LevelsModel,
        price: u64,
        om: OrderModel,
        i: int,
    )
        requires
            levels_wf(levels0),
            om.wf(),
            om.remaining_qty > 0,
            hb_total_init(levels0) + om.initial_qty <= u64::MAX,
            !crate::matching::levels_has_id(levels0, om.id),
            0 <= i < levels0.len(),
            levels0[i].0 == price,
            self.levels() == levels0.update(i, (price, levels0[i].1.push(om))),
            self.price_levels.wf(),
            self.price_set@ == assoc_keys(self.price_levels.data@),
        ensures
            self.wf(),
            hb_total_init(self.levels()) == hb_total_init(levels0) + om.initial_qty,
            self.levels() == levels_add(levels0, price, om),
    {
        let lvl0 = levels0[i].1;
        let lvl1 = lvl0.push(om);
        let out = self.levels();
        crate::matching::lemma_sorted_get(levels0, price);
        assert(assoc_keys(levels0)[i] == price);
        assert(assoc_get(levels0, price) == Some(lvl0));
        lemma_assoc_insert_at_model(levels0, price, lvl1, i);
        assert(levels_add(levels0, price, om) == assoc_insert(levels0, price, lvl1));
        assert(out =~= assoc_insert(levels0, price, lvl1));
        // totals
        crate::matching::lemma_sum_levels_update(
            levels0,
            i,
            (price, lvl1),
            |l: LevelModel| crate::matching::level_init_qty(l),
        );
        crate::matching::lemma_sum_orders_push(lvl0, om, |o: OrderModel| o.initial_qty as int);
        // structure
        assert(assoc_sorted(out));
        assert forall|x: int| 0 <= x < out.len() implies level_wf(#[trigger] out[x].1) by {
            if x == i {
                assert(forall|j: int| 0 <= j < lvl0.len() ==> lvl1[j] == lvl0[j]);
                assert(lvl1.last() == om);
            }
        }
        assert(crate::matching::levels_distinct_ids(out)) by {
            assert forall|a1: int, b1: int, a2: int, b2: int|
                0 <= a1 < out.len() && 0 <= b1 < out[a1].1.len() && 0 <= a2 < out.len() && 0 <= b2
                    < out[a2].1.len() && (a1 != a2 || b1 != b2) implies #[trigger] out[a1].1[b1].id
                != #[trigger] out[a2].1[b2].id by {
                if a1 == i && b1 == lvl0.len() {
                    assert(out[a1].1[b1].id == om.id);
                    assert(levels0[a2].1[b2].id != om.id);
                } else if a2 == i && b2 == lvl0.len() {
                    assert(out[a2].1[b2].id == om.id);
                    assert(levels0[a1].1[b1].id != om.id);
                } else {
                    assert(out[a1].1[b1].id == levels0[a1].1[b1].id);
                    assert(out[a2].1[b2].id == levels0[a2].1[b2].id);
                }
            }
        }
    }

    /// Proof helper for the new-level case of `add_order`.
    proof fn lemma_restore_wf_after_new_level(
        self,
        levels0: LevelsModel,
        price: u64,
        om: OrderModel,
        i: int,
    )
        requires
            levels_wf(levels0),
            om.wf(),
            om.remaining_qty > 0,
            hb_total_init(levels0) + om.initial_qty <= u64::MAX,
            !crate::matching::levels_has_id(levels0, om.id),
            0 <= i <= levels0.len(),
            forall|j: int| 0 <= j < i ==> levels0[j].0 < price,
            i < levels0.len() ==> levels0[i].0 > price,
            !assoc_keys(levels0).contains(price),
            self.levels() == levels0.insert(i, (price, seq![om])),
            self.price_levels.wf(),
            self.price_set@ == assoc_keys(self.price_levels.data@),
        ensures
            self.wf(),
            hb_total_init(self.levels()) == hb_total_init(levels0) + om.initial_qty,
            self.levels() == levels_add(levels0, price, om),
    {
        let out = self.levels();
        crate::price_levels::lemma_assoc_get_none(levels0, price);
        lemma_assoc_insert_at_model(levels0, price, seq![om], i);
        assert(levels_add(levels0, price, om) == assoc_insert(levels0, price, seq![om]));
        assert(out =~= assoc_insert(levels0, price, seq![om]));
        crate::matching::lemma_sum_levels_insert(
            levels0,
            i,
            (price, seq![om]),
            |l: LevelModel| crate::matching::level_init_qty(l),
        );
        assert(crate::matching::level_init_qty(seq![om]) == om.initial_qty) by {
            assert(crate::matching::level_init_qty(Seq::<OrderModel>::empty()) == 0);
            assert(seq![om].drop_last() =~= Seq::<OrderModel>::empty());
            assert(seq![om].last() == om);
        }
        assert(assoc_sorted(out));
        assert forall|x: int| 0 <= x < out.len() implies level_wf(#[trigger] out[x].1) by {
            if x == i {
                assert(out[x].1 == seq![om]);
            } else if x < i {
                assert(out[x].1 == levels0[x].1);
            } else {
                assert(out[x].1 == levels0[x - 1].1);
            }
        }
        assert(crate::matching::levels_distinct_ids(out)) by {
            assert forall|a1: int, b1: int, a2: int, b2: int|
                0 <= a1 < out.len() && 0 <= b1 < out[a1].1.len() && 0 <= a2 < out.len() && 0 <= b2
                    < out[a2].1.len() && (a1 != a2 || b1 != b2) implies #[trigger] out[a1].1[b1].id
                != #[trigger] out[a2].1[b2].id by {
                if a1 == i {
                    assert(out[a1].1[b1].id == om.id);
                    if a2 != i {
                        let oa2 = if a2 < i {
                            a2
                        } else {
                            a2 - 1
                        };
                        assert(out[a2].1[b2].id == levels0[oa2].1[b2].id);
                    }
                } else if a2 == i {
                    assert(out[a2].1[b2].id == om.id);
                    let oa1 = if a1 < i {
                        a1
                    } else {
                        a1 - 1
                    };
                    assert(out[a1].1[b1].id == levels0[oa1].1[b1].id);
                } else {
                    let oa1 = if a1 < i {
                        a1
                    } else {
                        a1 - 1
                    };
                    let oa2 = if a2 < i {
                        a2
                    } else {
                        a2 - 1
                    };
                    assert(out[a1].1[b1].id == levels0[oa1].1[b1].id);
                    assert(out[a2].1[b2].id == levels0[oa2].1[b2].id);
                }
            }
        }
    }
}

/// The model of a sequence of orders.
pub open spec fn level_model_of_seq(s: Seq<TradeOrder>) -> LevelModel {
    s.map_values(|o: TradeOrder| o@)
}

/// The total remaining quantity of one level's queue.
fn level_total(level: &PriceLevel) -> (r: Quantity)
    requires
        level_qty(level_model(*level)) <= u64::MAX,
    ensures
        r as int == level_qty(level_model(*level)),
{
    let ghost lvl = level_model(*level);
    let mut acc: u64 = 0;
    let mut j: usize = 0;
    while j < level.len()
        invariant
            lvl == level_model(*level),
            j <= level@.len(),
            acc as int == level_qty(lvl.take(j as int)),
            level_qty(lvl) <= u64::MAX,
        decreases level@.len() - j,
    {
        proof {
            lemma_sum_orders_take_step(lvl, j as int, |o: OrderModel| o.remaining_qty as int);
            lemma_sum_orders_prefix_le(lvl, j + 1 as int, |o: OrderModel| o.remaining_qty as int);
            assert(lvl[j as int].remaining_qty == level@[j as int].remaining_qty);
        }
        acc = acc + level[j].remaining_qty;
        j = j + 1;
    }
    proof {
        assert(lvl.take(j as int) =~= lvl);
    }
    acc
}

/// `lemma_assoc_insert_at` specialised to the model store.
pub proof fn lemma_assoc_insert_at_model(levels: LevelsModel, k: u64, v: LevelModel, i: int)
    requires
        0 <= i <= levels.len(),
        forall|j: int| 0 <= j < i ==> levels[j].0 < k,
        i < levels.len() ==> levels[i].0 >= k,
    ensures
        i < levels.len() && levels[i].0 == k ==> assoc_insert(levels, k, v) =~= levels.update(
            i,
            (k, v),
        ),
        !(i < levels.len() && levels[i].0 == k) ==> assoc_insert(levels, k, v) =~= levels.insert(
            i,
            (k, v),
        ),
{
    lemma_assoc_insert_at(levels, k, v, i);
}

} // verus!
