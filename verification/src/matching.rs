//! The mathematical model of the book's liquidity and of the matching
//! algorithm.
//!
//! A half-book's liquidity is modelled as an association sequence of
//! `(price, level)` pairs in increasing price order, each level a sequence of
//! order models in time priority. The functions here define what resting,
//! removing and matching do to that model; the executable book's contracts
//! say that it computes exactly these functions.

use vstd::prelude::*;

use crate::orders::{spec_min_q, ExecModel, OrderModel};
use crate::price_levels::{assoc_get, assoc_insert, assoc_keys, assoc_remove, assoc_sorted};
use crate::types::{OrderId, Side};

verus! {

/// The model of one price level: order models in queue order, oldest first.
pub type LevelModel = Seq<OrderModel>;

/// The model of a half-book's liquidity: `(price, level)` pairs in
/// increasing price order.
pub type LevelsModel = Seq<(u64, LevelModel)>;

/// The ids of a level's orders, in queue order.
pub open spec fn level_ids(lvl: LevelModel) -> Seq<OrderId> {
    lvl.map_values(|o: OrderModel| o.id)
}

/// A level is well-formed when it is non-empty and every resting order keeps
/// sound quantity accounting with some quantity still to trade.
pub open spec fn level_wf(lvl: LevelModel) -> bool {
    &&& lvl.len() > 0
    &&& forall|j: int|
        0 <= j < lvl.len() ==> (#[trigger] lvl[j]).wf() && lvl[j].remaining_qty > 0
}

/// No order id occurs twice anywhere in the half-book.
pub open spec fn levels_distinct_ids(levels: LevelsModel) -> bool {
    forall|i1: int, j1: int, i2: int, j2: int|
        0 <= i1 < levels.len() && 0 <= j1 < levels[i1].1.len() && 0 <= i2 < levels.len() && 0 <= j2
            < levels[i2].1.len() && (i1 != i2 || j1 != j2)
            ==> #[trigger] levels[i1].1[j1].id != #[trigger] levels[i2].1[j2].id
}

/// Whether some resting order in the half-book carries `id`.
pub open spec fn levels_has_id(levels: LevelsModel, id: OrderId) -> bool {
    exists|i: int, j: int|
        0 <= i < levels.len() && 0 <= j < levels[i].1.len() && levels[i].1[j].id == id
}

/// The sum of a measure over the orders of a level.
pub open spec fn sum_orders(lvl: LevelModel, f: spec_fn(OrderModel) -> int) -> int
    decreases lvl.len(),
{
    if lvl.len() == 0 {
        0
    } else {
        sum_orders(lvl.drop_last(), f) + f(lvl.last())
    }
}

/// The sum of a measure over the levels of a half-book.
pub open spec fn sum_levels(levels: LevelsModel, g: spec_fn(LevelModel) -> int) -> int
    decreases levels.len(),
{
    if levels.len() == 0 {
        0
    } else {
        sum_levels(levels.drop_last(), g) + g(levels.last().1)
    }
}

/// The total remaining quantity of one level.
pub open spec fn level_qty(lvl: LevelModel) -> int {
    sum_orders(lvl, |o: OrderModel| o.remaining_qty as int)
}

/// The total submitted quantity of one level.
pub open spec fn level_init_qty(lvl: LevelModel) -> int {
    sum_orders(lvl, |o: OrderModel| o.initial_qty as int)
}

/// The total remaining quantity of a half-book.
pub open spec fn hb_total_qty(levels: LevelsModel) -> int {
    sum_levels(levels, |l: LevelModel| level_qty(l))
}

/// The total submitted quantity of a half-book.
pub open spec fn hb_total_init(levels: LevelsModel) -> int {
    sum_levels(levels, |l: LevelModel| level_init_qty(l))
}

/// The number of resting orders of a half-book.
pub open spec fn hb_order_count(levels: LevelsModel) -> int {
    sum_levels(levels, |l: LevelModel| l.len() as int)
}

/// The structural well-formedness of a half-book's liquidity: prices sorted
/// strictly, no empty level, sound orders, distinct ids, and a total
/// submitted quantity that fits the quantity type.
pub open spec fn levels_wf(levels: LevelsModel) -> bool {
    &&& assoc_sorted(levels)
    &&& forall|i: int| 0 <= i < levels.len() ==> level_wf(#[trigger] levels[i].1)
    &&& levels_distinct_ids(levels)
    &&& hb_total_init(levels) <= u64::MAX
}

/// A half-book's liquidity after resting `om` at `p`: appended to the level
/// at `p`, or a fresh level when the price was unoccupied.
pub open spec fn levels_add(levels: LevelsModel, p: u64, om: OrderModel) -> LevelsModel {
    match assoc_get(levels, p) {
        Some(lvl) => assoc_insert(levels, p, lvl.push(om)),
        None => assoc_insert(levels, p, seq![om]),
    }
}

/// The first queue position of `id` in a level, or -1 when absent.
pub open spec fn level_find(lvl: LevelModel, id: OrderId) -> int
    decreases lvl.len(),
{
    if lvl.len() == 0 {
        -1
    } else if lvl[0].id == id {
        0
    } else {
        let r = level_find(lvl.drop_first(), id);
        if r == -1 {
            -1
        } else {
            r + 1
        }
    }
}

/// The order that removing `id` at `p` takes out, if any.
pub open spec fn levels_removed_order(levels: LevelsModel, p: u64, id: OrderId) -> Option<
    OrderModel,
> {
    match assoc_get(levels, p) {
        None => None,
        Some(lvl) => {
            let j = level_find(lvl, id);
            if j == -1 {
                None
            } else {
                Some(lvl[j])
            }
        },
    }
}

/// A half-book's liquidity after removing order `id` at `p`: taken out of
/// its level, with the level pruned when it empties.
pub open spec fn levels_remove_order(levels: LevelsModel, p: u64, id: OrderId) -> LevelsModel {
    match assoc_get(levels, p) {
        None => levels,
        Some(lvl) => {
            let j = level_find(lvl, id);
            if j == -1 {
                levels
            } else {
                let lvl2 = lvl.remove(j);
                if lvl2.len() == 0 {
                    assoc_remove(levels, p)
                } else {
                    assoc_insert(levels, p, lvl2)
                }
            }
        },
    }
}

/// What `level_find` says about membership and first occurrence.
pub proof fn lemma_level_find(lvl: LevelModel, id: OrderId)
    ensures
        level_find(lvl, id) == -1 <==> !level_ids(lvl).contains(id),
        level_find(lvl, id) != -1 ==> {
            let j = level_find(lvl, id);
            &&& 0 <= j < lvl.len()
            &&& lvl[j].id == id
            &&& forall|j2: int| 0 <= j2 < j ==> lvl[j2].id != id
        },
    decreases lvl.len(),
{
    if lvl.len() > 0 {
        lemma_level_find(lvl.drop_first(), id);
        assert(level_ids(lvl.drop_first()) =~= level_ids(lvl).drop_first());
        assert(level_ids(lvl)[0] == lvl[0].id);
        if lvl[0].id != id {
            if level_ids(lvl).contains(id) {
                let j = choose|j: int| 0 <= j < lvl.len() && level_ids(lvl)[j] == id;
                assert(level_ids(lvl).drop_first()[j - 1] == id);
            }
            if level_ids(lvl).drop_first().contains(id) {
                let j = choose|j: int|
                    0 <= j < lvl.len() - 1 && level_ids(lvl).drop_first()[j] == id;
                assert(level_ids(lvl)[j + 1] == id);
            }
            let r = level_find(lvl.drop_first(), id);
            if r != -1 {
                assert(lvl.drop_first()[r] == lvl[r + 1]);
                assert forall|j2: int| 0 <= j2 < r + 1 implies lvl[j2].id != id by {
                    if j2 > 0 {
                        assert(lvl.drop_first()[j2 - 1] == lvl[j2]);
                    }
                }
            }
        }
    }
}

/// Sum of a measure after updating one order of a level.
pub proof fn lemma_sum_orders_update(lvl: LevelModel, j: int, o: OrderModel, f: spec_fn(OrderModel) -> int)
    requires
        0 <= j < lvl.len(),
    ensures
        sum_orders(lvl.update(j, o), f) == sum_orders(lvl, f) - f(lvl[j]) + f(o),
    decreases lvl.len(),
{
    if j == lvl.len() - 1 {
        assert(lvl.update(j, o).drop_last() =~= lvl.drop_last());
        assert(lvl.update(j, o).last() == o);
    } else {
        assert(lvl.update(j, o).drop_last() =~= lvl.drop_last().update(j, o));
        lemma_sum_orders_update(lvl.drop_last(), j, o, f);
    }
}

/// Sum of a measure after appending an order to a level.
pub proof fn lemma_sum_orders_push(lvl: LevelModel, o: OrderModel, f: spec_fn(OrderModel) -> int)
    ensures
        sum_orders(lvl.push(o), f) == sum_orders(lvl, f) + f(o),
{
    assert(lvl.push(o).drop_last() =~= lvl);
    assert(lvl.push(o).last() == o);
}

/// Sum of a measure after removing one order of a level.
pub proof fn lemma_sum_orders_remove(lvl: LevelModel, j: int, f: spec_fn(OrderModel) -> int)
    requires
        0 <= j < lvl.len(),
    ensures
        sum_orders(lvl.remove(j), f) == sum_orders(lvl, f) - f(lvl[j]),
    decreases lvl.len(),
{
    if j == lvl.len() - 1 {
        assert(lvl.remove(j) =~= lvl.drop_last());
    } else {
        assert(lvl.remove(j).drop_last() =~= lvl.drop_last().remove(j));
        assert(lvl.remove(j).last() == lvl.last());
        lemma_sum_orders_remove(lvl.drop_last(), j, f);
    }
}

/// A sum of a pointwise nonnegative measure is nonnegative.
pub proof fn lemma_sum_orders_nonneg(lvl: LevelModel, f: spec_fn(OrderModel) -> int)
    requires
        forall|j: int| 0 <= j < lvl.len() ==> f(#[trigger] lvl[j]) >= 0,
    ensures
        sum_orders(lvl, f) >= 0,
    decreases lvl.len(),
{
    if lvl.len() > 0 {
        lemma_sum_orders_nonneg(lvl.drop_last(), f);
    }
}

/// A pointwise bound between measures bounds the sums.
pub proof fn lemma_sum_orders_le(lvl: LevelModel, f: spec_fn(OrderModel) -> int, g: spec_fn(OrderModel) -> int)
    requires
        forall|j: int| 0 <= j < lvl.len() ==> f(#[trigger] lvl[j]) <= g(lvl[j]),
    ensures
        sum_orders(lvl, f) <= sum_orders(lvl, g),
    decreases lvl.len(),
{
    if lvl.len() > 0 {
        lemma_sum_orders_le(lvl.drop_last(), f, g);
    }
}

/// Sum of a measure after updating one level of a half-book.
pub proof fn lemma_sum_levels_update(levels: LevelsModel, i: int, pr: (u64, LevelModel), g: spec_fn(LevelModel) -> int)
    requires
        0 <= i < levels.len(),
    ensures
        sum_levels(levels.update(i, pr), g) == sum_levels(levels, g) - g(levels[i].1) + g(pr.1),
    decreases levels.len(),
{
    if i == levels.len() - 1 {
        assert(levels.update(i, pr).drop_last() =~= levels.drop_last());
        assert(levels.update(i, pr).last() == pr);
    } else {
        assert(levels.update(i, pr).drop_last() =~= levels.drop_last().update(i, pr));
        assert(levels.update(i, pr).last() == levels.last());
        lemma_sum_levels_update(levels.drop_last(), i, pr, g);
    }
}

/// Sum of a measure after inserting a level into a half-book.
pub proof fn lemma_sum_levels_insert(levels: LevelsModel, i: int, pr: (u64, LevelModel), g: spec_fn(LevelModel) -> int)
    requires
        0 <= i <= levels.len(),
    ensures
        sum_levels(levels.insert(i, pr), g) == sum_levels(levels, g) + g(pr.1),
    decreases levels.len(),
{
    if i == levels.len() {
        assert(levels.insert(i, pr).drop_last() =~= levels);
        assert(levels.insert(i, pr).last() == pr);
    } else {
        assert(levels.insert(i, pr).drop_last() =~= levels.drop_last().insert(i, pr));
        assert(levels.insert(i, pr).last() == levels.last());
        lemma_sum_levels_insert(levels.drop_last(), i, pr, g);
    }
}

/// Sum of a measure after removing one level of a half-book.
pub proof fn lemma_sum_levels_remove(levels: LevelsModel, i: int, g: spec_fn(LevelModel) -> int)
    requires
        0 <= i < levels.len(),
    ensures
        sum_levels(levels.remove(i), g) == sum_levels(levels, g) - g(levels[i].1),
    decreases levels.len(),
{
    if i == levels.len() - 1 {
        assert(levels.remove(i) =~= levels.drop_last());
    } else {
        assert(levels.remove(i).drop_last() =~= levels.drop_last().remove(i));
        assert(levels.remove(i).last() == levels.last());
        lemma_sum_levels_remove(levels.drop_last(), i, g);
    }
}

/// A sum of a pointwise nonnegative measure over levels is nonnegative.
pub proof fn lemma_sum_levels_nonneg(levels: LevelsModel, g: spec_fn(LevelModel) -> int)
    requires
        forall|i: int| 0 <= i < levels.len() ==> g(#[trigger] levels[i].1) >= 0,
    ensures
        sum_levels(levels, g) >= 0,
    decreases levels.len(),
{
    if levels.len() > 0 {
        lemma_sum_levels_nonneg(levels.drop_last(), g);
    }
}

/// A pointwise bound between level measures bounds the sums.
pub proof fn lemma_sum_levels_le(levels: LevelsModel, f: spec_fn(LevelModel) -> int, g: spec_fn(LevelModel) -> int)
    requires
        forall|i: int| 0 <= i < levels.len() ==> f(#[trigger] levels[i].1) <= g(levels[i].1),
    ensures
        sum_levels(levels, f) <= sum_levels(levels, g),
    decreases levels.len(),
{
    if levels.len() > 0 {
        lemma_sum_levels_le(levels.drop_last(), f, g);
    }
}

/// In a well-formed half-book the three totals are ordered: the order count
/// never exceeds the remaining quantity, which never exceeds the submitted
/// quantity.
pub proof fn lemma_hb_totals(levels: LevelsModel)
    requires
        forall|i: int| 0 <= i < levels.len() ==> level_wf(#[trigger] levels[i].1),
    ensures
        0 <= hb_order_count(levels) <= hb_total_qty(levels) <= hb_total_init(levels),
{
    assert forall|i: int| 0 <= i < levels.len() implies {
        &&& 0 <= levels[i].1.len() <= level_qty(#[trigger] levels[i].1) <= level_init_qty(
            levels[i].1,
        )
    } by {
        let lvl = levels[i].1;
        lemma_sum_orders_le(lvl, |o: OrderModel| 1, |o: OrderModel| o.remaining_qty as int);
        lemma_sum_orders_le(
            lvl,
            |o: OrderModel| o.remaining_qty as int,
            |o: OrderModel| o.initial_qty as int,
        );
        lemma_sum_orders_const_one(lvl);
    }
    lemma_sum_levels_nonneg(levels, |l: LevelModel| l.len() as int);
    lemma_sum_levels_le(levels, |l: LevelModel| l.len() as int, |l: LevelModel| level_qty(l));
    lemma_sum_levels_le(levels, |l: LevelModel| level_qty(l), |l: LevelModel| level_init_qty(l));
}

/// The sum of the constant measure one counts the orders.
pub proof fn lemma_sum_orders_const_one(lvl: LevelModel)
    ensures
        sum_orders(lvl, |o: OrderModel| 1) == lvl.len(),
    decreases lvl.len(),
{
    if lvl.len() > 0 {
        lemma_sum_orders_const_one(lvl.drop_last());
    }
}

/// The outcome of matching a taker against one price level.
pub ghost struct MatchLevelOut {
    /// The taker after the matches.
    pub taker: OrderModel,
    /// The level after the matches: exhausted makers are gone from the
    /// front; a partially filled maker keeps its place at the front.
    pub level: LevelModel,
    /// The executions, in the order they happened.
    pub execs: Seq<ExecModel>,
    /// The ids of the makers that were fully filled and left the level,
    /// oldest first.
    pub removed: Seq<OrderId>,
}

/// Matches a taker against one level, walking the queue from the front: each
/// step trades the lesser of the two remaining quantities; an exhausted
/// maker leaves the queue, a partially filled maker keeps its place at the
/// front, and matching stops when the taker is exhausted or the level empty.
pub open spec fn match_level(taker: OrderModel, lvl: LevelModel, price: u64, taker_side: Side) -> MatchLevelOut
    decreases lvl.len(),
{
    if taker.remaining_qty == 0 || lvl.len() == 0 {
        MatchLevelOut {
            taker,
            level: lvl,
            execs: Seq::<ExecModel>::empty(),
            removed: Seq::<OrderId>::empty(),
        }
    } else {
        let maker = lvl[0];
        let f = spec_min_q(maker.remaining_qty, taker.remaining_qty);
        let maker2 = maker.after_fill(f, price, taker.id);
        let taker2 = taker.after_fill(f, price, maker.id);
        let e = ExecModel {
            qty: f,
            price,
            taker_order_id: taker.id,
            maker_order_id: maker.id,
            take_side: taker_side,
        };
        if maker2.remaining_qty > 0 {
            MatchLevelOut {
                taker: taker2,
                level: lvl.update(0, maker2),
                execs: seq![e],
                removed: Seq::<OrderId>::empty(),
            }
        } else {
            let rest = match_level(taker2, lvl.drop_first(), price, taker_side);
            MatchLevelOut {
                taker: rest.taker,
                level: rest.level,
                execs: seq![e] + rest.execs,
                removed: seq![maker.id] + rest.removed,
            }
        }
    }
}

/// The total quantity traded by a sequence of executions.
pub open spec fn sum_execs_qty(execs: Seq<ExecModel>) -> int
    decreases execs.len(),
{
    if execs.len() == 0 {
        0
    } else {
        sum_execs_qty(execs.drop_last()) + execs.last().qty
    }
}

/// What one level match does, structurally: the fully filled makers leave
/// from the front of the queue, in order; a partially filled maker keeps its
/// identity and its place at the front; every execution names the taker, the
/// price, and the makers in queue order; and quantity is conserved, with the
/// executions recording exactly what the taker and the level lost.
pub proof fn lemma_match_level(taker: OrderModel, lvl: LevelModel, price: u64, ts: Side)
    requires
        taker.wf(),
        forall|j: int| 0 <= j < lvl.len() ==> (#[trigger] lvl[j]).wf() && lvl[j].remaining_qty > 0,
    ensures
        ({
            let ml = match_level(taker, lvl, price, ts);
            &&& ml.taker.wf()
            &&& ml.taker.id == taker.id
            &&& ml.taker.side == taker.side
            &&& ml.taker.order_type == taker.order_type
            &&& ml.taker.initial_qty == taker.initial_qty
            &&& ml.taker.remaining_qty <= taker.remaining_qty
            &&& 0 <= ml.removed.len() <= lvl.len()
            &&& ml.removed =~= level_ids(lvl).take(ml.removed.len() as int)
            &&& level_ids(ml.level) =~= level_ids(lvl).skip(ml.removed.len() as int)
            &&& forall|j: int|
                0 <= j < ml.level.len() ==> (#[trigger] ml.level[j]).wf()
                    && ml.level[j].remaining_qty > 0
            &&& level_qty(ml.level) == level_qty(lvl) - (taker.remaining_qty
                - ml.taker.remaining_qty)
            &&& level_init_qty(ml.level) <= level_init_qty(lvl)
            &&& sum_execs_qty(ml.execs) == taker.remaining_qty - ml.taker.remaining_qty
            &&& ml.execs.len() == ml.removed.len() || ml.execs.len() == ml.removed.len() + 1
            &&& ml.execs.len() <= lvl.len()
            &&& forall|x: int|
                0 <= x < ml.execs.len() ==> (#[trigger] ml.execs[x]).taker_order_id == taker.id
                    && ml.execs[x].maker_order_id == level_ids(lvl)[x] && ml.execs[x].price
                    == price && ml.execs[x].take_side == ts && ml.execs[x].qty > 0
            &&& ml.taker.remaining_qty > 0 ==> ml.level.len() == 0
            &&& ml.taker.fills == taker.fills + Seq::new(
                ml.execs.len(),
                |x: int|
                    crate::orders::FillModel {
                        qty: ml.execs[x].qty,
                        price,
                        order_id: ml.execs[x].maker_order_id,
                    },
            )
        }),
    decreases lvl.len(),
{
    let ml = match_level(taker, lvl, price, ts);
    if taker.remaining_qty == 0 || lvl.len() == 0 {
        assert(ml.removed =~= level_ids(lvl).take(0));
        assert(level_ids(ml.level) =~= level_ids(lvl).skip(0));
        assert(ml.taker.fills =~= taker.fills + Seq::new(
            0,
            |x: int| crate::orders::FillModel { qty: 0, price, order_id: 0 },
        ));
    } else {
        let maker = lvl[0];
        let f = spec_min_q(maker.remaining_qty, taker.remaining_qty);
        let maker2 = maker.after_fill(f, price, taker.id);
        let taker2 = taker.after_fill(f, price, maker.id);
        lemma_sum_fills_push(taker.fills, f, price, maker.id);
        lemma_sum_fills_push(maker.fills, f, price, taker.id);
        if maker2.remaining_qty > 0 {
            assert(taker2.remaining_qty == 0);
            lemma_sum_orders_update(
                lvl,
                0,
                maker2,
                |o: OrderModel| o.remaining_qty as int,
            );
            lemma_sum_orders_update(lvl, 0, maker2, |o: OrderModel| o.initial_qty as int);
            assert(ml.removed =~= level_ids(lvl).take(0));
            assert(level_ids(ml.level) =~= level_ids(lvl).skip(0));
            let e = ExecModel {
                qty: f,
                price,
                taker_order_id: taker.id,
                maker_order_id: maker.id,
                take_side: ts,
            };
            assert(sum_execs_qty(ml.execs) == f) by {
                assert(ml.execs =~= seq![e] + Seq::<ExecModel>::empty());
                lemma_sum_execs_prepend(e, Seq::<ExecModel>::empty());
            }
            assert(ml.taker.fills =~= taker.fills + Seq::new(
                1,
                |x: int| crate::orders::FillModel { qty: f, price, order_id: maker.id },
            ));
        } else {
            lemma_match_level(taker2, lvl.drop_first(), price, ts);
            let rest = match_level(taker2, lvl.drop_first(), price, ts);
            assert(lvl.drop_first() =~= lvl.remove(0));
            lemma_sum_orders_remove(lvl, 0, |o: OrderModel| o.remaining_qty as int);
            lemma_sum_orders_remove(lvl, 0, |o: OrderModel| o.initial_qty as int);
            assert(level_ids(lvl.drop_first()) =~= level_ids(lvl).drop_first());
            assert(ml.removed =~= level_ids(lvl).take(rest.removed.len() + 1 as int));
            assert(level_ids(ml.level) =~= level_ids(lvl).skip(rest.removed.len() + 1 as int));
            assert(sum_execs_qty(ml.execs) == taker.remaining_qty
                - ml.taker.remaining_qty) by {
                lemma_sum_execs_prepend(
                    ExecModel {
                        qty: f,
                        price,
                        taker_order_id: taker.id,
                        maker_order_id: maker.id,
                        take_side: ts,
                    },
                    rest.execs,
                );
            }
            assert forall|x: int| 0 <= x < ml.execs.len() implies (
                #[trigger] ml.execs[x]).taker_order_id == taker.id && ml.execs[x].maker_order_id
                == level_ids(lvl)[x] && ml.execs[x].price == price && ml.execs[x].take_side == ts
                && ml.execs[x].qty > 0 by {
                if x > 0 {
                    assert(ml.execs.len() == 1 + rest.execs.len());
                    assert(0 <= x - 1 < rest.execs.len());
                    assert(ml.execs[x] == rest.execs[x - 1]);
                    assert(lvl.drop_first()[x - 1] == lvl[x]);
                    assert(level_ids(lvl.drop_first())[x - 1] == lvl.drop_first()[x - 1].id);
                    assert(level_ids(lvl)[x] == lvl[x].id);
                }
            }
            assert(ml.taker.fills =~= taker.fills + Seq::new(
                ml.execs.len(),
                |x: int|
                    crate::orders::FillModel {
                        qty: ml.execs[x].qty,
                        price,
                        order_id: ml.execs[x].maker_order_id,
                    },
            ));
        }
    }
}

/// Prepending one execution adds its quantity to the total.
pub proof fn lemma_sum_execs_prepend(e: ExecModel, execs: Seq<ExecModel>)
    ensures
        sum_execs_qty(seq![e] + execs) == e.qty + sum_execs_qty(execs),
    decreases execs.len(),
{
    if execs.len() == 0 {
        assert(seq![e] + execs =~= seq![e]);
        assert(sum_execs_qty(seq![e]) == e.qty) by {
            assert(sum_execs_qty(Seq::<ExecModel>::empty()) == 0);
            assert(seq![e].drop_last() =~= Seq::<ExecModel>::empty());
            assert(seq![e].last() == e);
        }
    } else {
        assert((seq![e] + execs).drop_last() =~= seq![e] + execs.drop_last());
        lemma_sum_execs_prepend(e, execs.drop_last());
    }
}

/// Appending a fill adds its quantity to the fill total.
pub proof fn lemma_sum_fills_push(fills: Seq<crate::orders::FillModel>, qty: u64, price: u64, counterparty: OrderId)
    ensures
        crate::orders::sum_fill_qty(
            fills.push(crate::orders::FillModel { qty, price, order_id: counterparty }),
        ) == crate::orders::sum_fill_qty(fills) + qty,
{
    let f = crate::orders::FillModel { qty, price, order_id: counterparty };
    assert(fills.push(f).drop_last() =~= fills);
    assert(fills.push(f).last() == f);
}

/// The outcome of matching a taker against one price of a half-book.
pub ghost struct MatchOut {
    /// The half-book's liquidity after the matches, with the level pruned
    /// when it emptied.
    pub levels: LevelsModel,
    /// The taker after the matches.
    pub taker: OrderModel,
    /// The executions, in the order they happened.
    pub execs: Seq<ExecModel>,
    /// The ids of the makers that were fully filled and left the book.
    pub removed: Seq<OrderId>,
}

/// The index at which a sorted association sequence binds `k`: the witness
/// that the binding is first and unique.
pub proof fn sorted_key_index<V>(s: Seq<(u64, V)>, k: u64) -> (i: int)
    requires
        assoc_sorted(s),
        assoc_keys(s).contains(k),
    ensures
        0 <= i < s.len(),
        s[i].0 == k,
        forall|j: int| 0 <= j < i ==> s[j].0 < k,
        forall|j: int| i < j < s.len() ==> s[j].0 > k,
{
    let i = choose|i: int| 0 <= i < s.len() && assoc_keys(s)[i] == k;
    assert(s[i].0 == k);
    i
}

/// In a sorted association sequence, lookup finds the binding wherever it
/// stands.
pub proof fn lemma_sorted_get<V>(s: Seq<(u64, V)>, q: u64)
    requires
        assoc_sorted(s),
    ensures
        assoc_get(s, q) is Some <==> assoc_keys(s).contains(q),
        forall|i: int|
            0 <= i < s.len() && s[i].0 == q ==> assoc_get(s, q) == Some(s[i].1),
{
    crate::price_levels::lemma_assoc_get_none(s, q);
    assert forall|i: int| 0 <= i < s.len() && s[i].0 == q implies assoc_get(s, q) == Some(
        s[i].1,
    ) by {
        assert(forall|j: int| 0 <= j < i ==> s[j].0 < q);
        crate::price_levels::lemma_assoc_get_at(s, q, i);
    }
}

/// Matches a taker against the level at `price` of a half-book whose side is
/// `book_side`; an unoccupied price changes nothing.
pub open spec fn hb_match(levels: LevelsModel, taker: OrderModel, price: u64, book_side: Side) -> MatchOut {
    match assoc_get(levels, price) {
        None => MatchOut {
            levels,
            taker,
            execs: Seq::<ExecModel>::empty(),
            removed: Seq::<OrderId>::empty(),
        },
        Some(lvl) => {
            let ml = match_level(taker, lvl, price, book_side.spec_opposite());
            let levels2 = if ml.level.len() == 0 {
                assoc_remove(levels, price)
            } else {
                assoc_insert(levels, price, ml.level)
            };
            MatchOut { levels: levels2, taker: ml.taker, execs: ml.execs, removed: ml.removed }
        },
    }
}

/// After replacing the level at index `i` by a queue whose ids are the old
/// queue's minus its first `k` (the removed prefix), ids stay distinct and
/// exactly that prefix of ids is gone from the book.
#[verifier::rlimit(60)]
proof fn lemma_ids_after_update(levels: LevelsModel, i: int, l: LevelModel, k: int, removed: Seq<OrderId>)
    requires
        levels_distinct_ids(levels),
        0 <= i < levels.len(),
        0 <= k <= levels[i].1.len(),
        removed =~= level_ids(levels[i].1).take(k),
        level_ids(l) =~= level_ids(levels[i].1).skip(k),
        l.len() > 0,
    ensures
        ({
            let out = levels.update(i, (levels[i].0, l));
            &&& levels_distinct_ids(out)
            &&& forall|id: OrderId|
                #[trigger] levels_has_id(out, id) <==> levels_has_id(levels, id)
                    && !removed.contains(id)
        }),
{
    let out = levels.update(i, (levels[i].0, l));
    let lvl0 = levels[i].1;
    assert(forall|j: int| 0 <= j < lvl0.len() ==> #[trigger] level_ids(lvl0)[j] == lvl0[j].id);
    assert(forall|x: int| 0 <= x < k ==> #[trigger] removed[x] == lvl0[x].id);
    assert(level_ids(l).len() == l.len());
    assert(level_ids(lvl0).len() == lvl0.len());
    assert(level_ids(lvl0).skip(k).len() == lvl0.len() - k);
    assert(l.len() == lvl0.len() - k);
    assert forall|j: int| 0 <= j < l.len() implies #[trigger] l[j].id == lvl0[j + k].id by {
        assert(level_ids(l)[j] == l[j].id);
        assert(level_ids(l)[j] == level_ids(lvl0).skip(k)[j]);
        assert(level_ids(lvl0).skip(k)[j] == level_ids(lvl0).subrange(
            k,
            level_ids(lvl0).len() as int,
        )[j]);
        assert(level_ids(lvl0)[j + k] == lvl0[j + k].id);
    }
    assert forall|a1: int, b1: int, a2: int, b2: int|
        0 <= a1 < out.len() && 0 <= b1 < out[a1].1.len() && 0 <= a2 < out.len() && 0 <= b2
            < out[a2].1.len() && (a1 != a2 || b1 != b2) implies #[trigger] out[a1].1[b1].id
        != #[trigger] out[a2].1[b2].id by {
        let ob1 = if a1 == i { b1 + k } else { b1 };
        let ob2 = if a2 == i { b2 + k } else { b2 };
        assert(out[a1].1[b1].id == levels[a1].1[ob1].id);
        assert(out[a2].1[b2].id == levels[a2].1[ob2].id);
        assert(levels[a1].1[ob1].id != levels[a2].1[ob2].id);
    }
    assert forall|id: OrderId| #[trigger] levels_has_id(out, id) implies levels_has_id(levels, id)
        && !removed.contains(id) by {
        let (a, b) = choose|a: int, b: int|
            0 <= a < out.len() && 0 <= b < out[a].1.len() && out[a].1[b].id == id;
        let ob = if a == i { b + k } else { b };
        assert(out[a].1[b].id == levels[a].1[ob].id);
        assert(levels_has_id(levels, id));
        if removed.contains(id) {
            let x = choose|x: int| 0 <= x < k && removed[x] == id;
            assert(levels[i].1[x].id == id);
            assert(levels[a].1[ob].id == levels[i].1[x].id);
            assert(a == i && ob == x);
        }
    }
    assert forall|id: OrderId|
        levels_has_id(levels, id) && !removed.contains(id) implies #[trigger] levels_has_id(
        out,
        id,
    ) by {
        let (a, b) = choose|a: int, b: int|
            0 <= a < levels.len() && 0 <= b < levels[a].1.len() && levels[a].1[b].id == id;
        if a != i {
            assert(out[a] == levels[a]);
            assert(out[a].1[b].id == id);
        } else {
            if b < k {
                assert(removed[b] == lvl0[b].id);
            } else {
                assert(l[b - k].id == lvl0[b].id);
                assert(out[i].1[b - k].id == id);
            }
        }
    }
}

/// After deleting the level at index `i` outright, ids stay distinct and
/// exactly that level's ids are gone from the book.
#[verifier::rlimit(60)]
proof fn lemma_ids_after_remove(levels: LevelsModel, i: int, removed: Seq<OrderId>)
    requires
        levels_distinct_ids(levels),
        0 <= i < levels.len(),
        removed =~= level_ids(levels[i].1),
    ensures
        ({
            let out = levels.remove(i);
            &&& levels_distinct_ids(out)
            &&& forall|id: OrderId|
                #[trigger] levels_has_id(out, id) <==> levels_has_id(levels, id)
                    && !removed.contains(id)
        }),
{
    let out = levels.remove(i);
    let lvl0 = levels[i].1;
    let k = lvl0.len() as int;
    assert(forall|j: int| 0 <= j < k ==> #[trigger] level_ids(lvl0)[j] == lvl0[j].id);
    assert(forall|x: int| 0 <= x < k ==> #[trigger] removed[x] == lvl0[x].id);
    assert forall|a1: int, b1: int, a2: int, b2: int|
        0 <= a1 < out.len() && 0 <= b1 < out[a1].1.len() && 0 <= a2 < out.len() && 0 <= b2
            < out[a2].1.len() && (a1 != a2 || b1 != b2) implies #[trigger] out[a1].1[b1].id
        != #[trigger] out[a2].1[b2].id by {
        let oa1 = if a1 < i { a1 } else { a1 + 1 };
        let oa2 = if a2 < i { a2 } else { a2 + 1 };
        assert(out[a1].1[b1].id == levels[oa1].1[b1].id);
        assert(out[a2].1[b2].id == levels[oa2].1[b2].id);
        assert(levels[oa1].1[b1].id != levels[oa2].1[b2].id);
    }
    assert forall|id: OrderId| #[trigger] levels_has_id(out, id) implies levels_has_id(levels, id)
        && !removed.contains(id) by {
        let (a, b) = choose|a: int, b: int|
            0 <= a < out.len() && 0 <= b < out[a].1.len() && out[a].1[b].id == id;
        let oa = if a < i { a } else { a + 1 };
        assert(out[a].1[b].id == levels[oa].1[b].id);
        assert(levels_has_id(levels, id));
        if removed.contains(id) {
            let x = choose|x: int| 0 <= x < k && removed[x] == id;
            assert(levels[i].1[x].id == id);
            assert(levels[oa].1[b].id == levels[i].1[x].id);
            assert(oa == i && b == x);
        }
    }
    assert forall|id: OrderId|
        levels_has_id(levels, id) && !removed.contains(id) implies #[trigger] levels_has_id(
        out,
        id,
    ) by {
        let (a, b) = choose|a: int, b: int|
            0 <= a < levels.len() && 0 <= b < levels[a].1.len() && levels[a].1[b].id == id;
        if a != i {
            let a2 = if a < i { a } else { a - 1 };
            assert(out[a2] == levels[a]);
            assert(out[a2].1[b].id == id);
        } else {
            assert(removed[b] == lvl0[b].id);
        }
    }
}


/// Rebinding the level at index `i` leaves lookup at every other key as it
/// was; so does deleting it.
pub proof fn lemma_pointwise_get(levels: LevelsModel, i: int, newlvl: Option<LevelModel>)
    requires
        assoc_sorted(levels),
        0 <= i < levels.len(),
    ensures
        ({
            let out = match newlvl {
                Some(l) => levels.update(i, (levels[i].0, l)),
                None => levels.remove(i),
            };
            &&& assoc_sorted(out)
            &&& forall|q: u64|
                q != levels[i].0 ==> assoc_get(out, q) == assoc_get(levels, q)
        }),
{
    let out = match newlvl {
        Some(l) => levels.update(i, (levels[i].0, l)),
        None => levels.remove(i),
    };
    let price = levels[i].0;
    assert(assoc_sorted(out));
    assert forall|q: u64| q != price implies assoc_get(out, q) == assoc_get(levels, q) by {
        lemma_sorted_get(levels, q);
        lemma_sorted_get(out, q);
        crate::price_levels::lemma_assoc_get_none(levels, q);
        crate::price_levels::lemma_assoc_get_none(out, q);
        if assoc_keys(levels).contains(q) {
            let j = sorted_key_index(levels, q);
            assert(j != i);
            match newlvl {
                None => {
                    let j2 = if j < i {
                        j
                    } else {
                        j - 1
                    };
                    assert(out[j2] == levels[j]);
                },
                Some(_) => {
                    assert(out[j] == levels[j]);
                },
            }
        } else {
            if assoc_keys(out).contains(q) {
                let j2 = sorted_key_index(out, q);
                match newlvl {
                    None => {
                        let j = if j2 < i {
                            j2
                        } else {
                            j2 + 1
                        };
                        assert(levels[j].0 == q);
                        assert(assoc_keys(levels)[j] == q);
                    },
                    Some(_) => {
                        assert(levels[j2].0 == q);
                        assert(assoc_keys(levels)[j2] == q);
                    },
                }
            }
        }
    }
}

/// What one half-book match does: well-formedness is preserved, the taker
/// keeps its identity and only loses quantity, every other price's level is
/// untouched, totals shrink by exactly what was traded, and the ids of the
/// fully filled makers leave the book while every other resting id stays.
#[verifier::rlimit(60)]
pub proof fn lemma_hb_match(levels: LevelsModel, taker: OrderModel, price: u64, book_side: Side)
    requires
        levels_wf(levels),
        taker.wf(),
    ensures
        ({
            let out = hb_match(levels, taker, price, book_side);
            &&& levels_wf(out.levels)
            &&& out.taker.wf()
            &&& out.taker.id == taker.id
            &&& out.taker.side == taker.side
            &&& out.taker.order_type == taker.order_type
            &&& out.taker.initial_qty == taker.initial_qty
            &&& out.taker.remaining_qty <= taker.remaining_qty
            &&& hb_total_init(out.levels) <= hb_total_init(levels)
            &&& hb_total_qty(out.levels) == hb_total_qty(levels) - (taker.remaining_qty
                - out.taker.remaining_qty)
            &&& forall|q: u64| q != price ==> assoc_get(out.levels, q) == assoc_get(levels, q)
            &&& forall|id: OrderId|
                #[trigger] levels_has_id(out.levels, id) <==> levels_has_id(levels, id)
                    && !out.removed.contains(id)
            &&& forall|id: OrderId|
                out.removed.contains(id) ==> #[trigger] levels_has_id(levels, id)
            &&& out.removed.no_duplicates()
            &&& sum_execs_qty(out.execs) == taker.remaining_qty - out.taker.remaining_qty
            &&& forall|x: int|
                0 <= x < out.execs.len() ==> (#[trigger] out.execs[x]).taker_order_id == taker.id
                    && out.execs[x].price == price && out.execs[x].take_side
                    == book_side.spec_opposite() && out.execs[x].qty > 0 && levels_has_id(
                    levels,
                    out.execs[x].maker_order_id,
                )
        }),
{
    let out = hb_match(levels, taker, price, book_side);
    crate::price_levels::lemma_assoc_get_none(levels, price);
    if assoc_get(levels, price) is None {
        assert(forall|id: OrderId| #[trigger] levels_has_id(out.levels, id) <==> levels_has_id(
            levels,
            id,
        ) && !out.removed.contains(id));
        return ;
    }
    let i = sorted_key_index(levels, price);
    lemma_sorted_get(levels, price);
    let lvl0 = levels[i].1;
    assert(assoc_get(levels, price) == Some(lvl0));
    assert(level_wf(lvl0));
    let ml = match_level(taker, lvl0, price, book_side.spec_opposite());
    lemma_match_level(taker, lvl0, price, book_side.spec_opposite());
    let k = ml.removed.len() as int;

    // Ids of the level: distinct within the level, and tied to positions.
    assert forall|j1: int, j2: int| 0 <= j1 < j2 < lvl0.len() implies lvl0[j1].id
        != lvl0[j2].id by {
        assert(levels[i].1[j1].id != levels[i].1[j2].id);
    }
    assert(ml.removed =~= level_ids(lvl0).take(k));
    assert(level_ids(ml.level) =~= level_ids(lvl0).skip(k));
    assert forall|j: int| 0 <= j < lvl0.len() implies level_ids(lvl0)[j] == lvl0[j].id by {}
    assert(ml.removed.no_duplicates()) by {
        assert forall|x1: int, x2: int| 0 <= x1 < x2 < k implies ml.removed[x1]
            != ml.removed[x2] by {
            assert(ml.removed[x1] == lvl0[x1].id);
            assert(ml.removed[x2] == lvl0[x2].id);
        }
    }

    // The new store is an update or a removal at index i.
    let newlvl = if ml.level.len() == 0 {
        None
    } else {
        Some(ml.level)
    };
    if ml.level.len() == 0 {
        crate::price_levels::lemma_assoc_remove_at(levels, price, i);
        assert(out.levels =~= levels.remove(i));
    } else {
        crate::price_levels::lemma_assoc_insert_at(levels, price, ml.level, i);
        assert(out.levels =~= levels.update(i, (price, ml.level)));
    }
    lemma_pointwise_get(levels, i, newlvl);
    if ml.level.len() == 0 {
        assert(level_ids(ml.level).len() == 0);
        assert(k == lvl0.len());
        lemma_ids_after_remove(levels, i, ml.removed);
        assert(out.levels == levels.remove(i));
        assert forall|id: OrderId| #[trigger] levels_has_id(out.levels, id) <==> levels_has_id(
            levels,
            id,
        ) && !out.removed.contains(id) by {
            assert(levels_has_id(levels.remove(i), id) <==> levels_has_id(levels, id)
                && !ml.removed.contains(id));
        }
    } else {
        lemma_ids_after_update(levels, i, ml.level, k, ml.removed);
        assert(out.levels == levels.update(i, (levels[i].0, ml.level)));
        assert forall|id: OrderId| #[trigger] levels_has_id(out.levels, id) <==> levels_has_id(
            levels,
            id,
        ) && !out.removed.contains(id) by {
            assert(levels_has_id(levels.update(i, (levels[i].0, ml.level)), id)
                <==> levels_has_id(levels, id) && !ml.removed.contains(id));
        }
    }
    let n2 = out.levels.len();

    // Each level of the new store is well-formed.
    assert forall|i2: int| 0 <= i2 < n2 implies level_wf(#[trigger] out.levels[i2].1) by {
        if ml.level.len() > 0 && i2 == i {
        } else {
        }
    }

    // Totals.
    let g_init = |l: LevelModel| level_init_qty(l);
    let g_qty = |l: LevelModel| level_qty(l);
    if ml.level.len() == 0 {
        lemma_sum_levels_remove(levels, i, g_init);
        lemma_sum_levels_remove(levels, i, g_qty);
        lemma_sum_orders_nonneg(lvl0, |o: OrderModel| o.initial_qty as int);
    } else {
        lemma_sum_levels_update(levels, i, (price, ml.level), g_init);
        lemma_sum_levels_update(levels, i, (price, ml.level), g_qty);
    }
    lemma_sum_levels_nonneg_init(levels);
    lemma_sum_levels_nonneg_init(out.levels);

    assert forall|x: int| 0 <= x < out.execs.len() implies levels_has_id(
        levels,
        (#[trigger] out.execs[x]).maker_order_id,
    ) by {
        assert(out.execs[x].maker_order_id == level_ids(lvl0)[x]);
        assert(levels[i].1[x].id == level_ids(lvl0)[x]);
    }
}

/// Helper: the old level index that a new level index came from.
pub open spec fn map_back_level(i: int, new_level_len: int, a: int) -> int {
    if new_level_len == 0 {
        if a < i {
            a
        } else {
            a + 1
        }
    } else {
        a
    }
}

/// Helper: the old queue position that a new queue position came from.
pub open spec fn map_back_pos(i: int, new_level_len: int, k: int, a: int, b: int) -> int {
    if new_level_len > 0 && a == i {
        b + k
    } else {
        b
    }
}

/// The submitted-quantity total of a well-formed store is nonnegative.
pub proof fn lemma_sum_levels_nonneg_init(levels: LevelsModel)
    ensures
        forall|i: int| 0 <= i < levels.len() ==> level_init_qty(#[trigger] levels[i].1) >= 0,
{
    assert forall|i: int| 0 <= i < levels.len() implies level_init_qty(
        #[trigger] levels[i].1,
    ) >= 0 by {
        lemma_sum_orders_nonneg(levels[i].1, |o: OrderModel| o.initial_qty as int);
    }
}

/// Whether price `p` of a book whose side is `book_side` lies within the
/// taker's limit: any price for a market order; for a priced order, at most
/// the limit when taking from asks and at least the limit when taking from
/// bids.
pub open spec fn price_in_window(limit: Option<u64>, book_side: Side, p: u64) -> bool {
    match limit {
        None => true,
        Some(lim) => match book_side {
            Side::Ask => p <= lim,
            Side::Bid => p >= lim,
        },
    }
}

/// The limit that an order type puts on acceptable prices.
pub open spec fn window_limit(ot: crate::orders::OrderType) -> Option<u64> {
    match ot {
        crate::orders::OrderType::Market => None,
        crate::orders::OrderType::Limit(p) => Some(p),
        crate::orders::OrderType::IOC(p) => Some(p),
        crate::orders::OrderType::FOK(p) => Some(p),
        crate::orders::OrderType::SystemLevel(p) => Some(p),
    }
}

/// The index of the best price of a half-book: asks match from the lowest
/// price upward, bids from the highest downward.
pub open spec fn best_index(levels: LevelsModel, book_side: Side) -> int {
    if book_side == Side::Ask {
        0int
    } else {
        levels.len() - 1
    }
}

/// The outcome of sweeping a taker across a half-book.
pub ghost struct SweepOut {
    /// The half-book's liquidity after the sweep.
    pub levels: LevelsModel,
    /// The taker after the sweep.
    pub taker: OrderModel,
    /// The executions, in the order they happened.
    pub execs: Seq<ExecModel>,
    /// The ids of the makers that were fully filled and left the book.
    pub removed: Seq<OrderId>,
}

/// Sweeps a taker across a half-book in priority order: the best in-window
/// price is matched first, an emptied level is pruned, and the sweep goes on
/// until the taker is exhausted, the book is empty, or the best price falls
/// outside the window.
pub open spec fn sweep(levels: LevelsModel, taker: OrderModel, book_side: Side, limit: Option<u64>) -> SweepOut
    decreases levels.len(),
{
    if taker.remaining_qty == 0 || levels.len() == 0 {
        SweepOut {
            levels,
            taker,
            execs: Seq::<ExecModel>::empty(),
            removed: Seq::<OrderId>::empty(),
        }
    } else {
        let p = levels[best_index(levels, book_side)].0;
        if !price_in_window(limit, book_side, p) {
            SweepOut {
                levels,
                taker,
                execs: Seq::<ExecModel>::empty(),
                removed: Seq::<OrderId>::empty(),
            }
        } else {
            let m = hb_match(levels, taker, p, book_side);
            if m.levels.len() < levels.len() {
                let rec = sweep(m.levels, m.taker, book_side, limit);
                SweepOut {
                    levels: rec.levels,
                    taker: rec.taker,
                    execs: m.execs + rec.execs,
                    removed: m.removed + rec.removed,
                }
            } else {
                SweepOut { levels: m.levels, taker: m.taker, execs: m.execs, removed: m.removed }
            }
        }
    }
}

/// A sweep outcome with earlier executions and removals prepended.
pub open spec fn sw_prepend(execs: Seq<ExecModel>, removed: Seq<OrderId>, sw: SweepOut) -> SweepOut {
    SweepOut { levels: sw.levels, taker: sw.taker, execs: execs + sw.execs, removed: removed + sw.removed }
}

/// One step of the sweep: matching the best in-window price and then
/// sweeping the rest gives the whole sweep.
pub proof fn lemma_sweep_step(levels: LevelsModel, taker: OrderModel, book_side: Side, limit: Option<u64>)
    requires
        levels_wf(levels),
        taker.wf(),
        taker.remaining_qty > 0,
        levels.len() > 0,
        price_in_window(limit, book_side, levels[best_index(levels, book_side)].0),
    ensures
        ({
            let m = hb_match(levels, taker, levels[best_index(levels, book_side)].0, book_side);
            sweep(levels, taker, book_side, limit) == sw_prepend(
                m.execs,
                m.removed,
                sweep(m.levels, m.taker, book_side, limit),
            )
        }),
{
    let p = levels[best_index(levels, book_side)].0;
    let m = hb_match(levels, taker, p, book_side);
    let i = best_index(levels, book_side);
    assert(assoc_keys(levels)[i] == p);
    assert(assoc_keys(levels).contains(p));
    lemma_sorted_get(levels, p);
    let ki = sorted_key_index(levels, p);
    let lvl0 = assoc_get(levels, p).unwrap();
    assert(lvl0 == levels[ki].1);
    lemma_match_level(taker, lvl0, p, book_side.spec_opposite());
    let ml = match_level(taker, lvl0, p, book_side.spec_opposite());
    if m.levels.len() < levels.len() {
        // a level was pruned: the sweep recursed, matching the definition.
        assert(sweep(levels, taker, book_side, limit) == sw_prepend(
            m.execs,
            m.removed,
            sweep(m.levels, m.taker, book_side, limit),
        ));
    } else {
        // the level survived, so the taker is exhausted and the rest of the
        // sweep does nothing.
        assert(ml.level.len() > 0) by {
            if ml.level.len() == 0 {
                crate::price_levels::lemma_assoc_remove_at(levels, p, ki);
            }
        }
        assert(m.taker.remaining_qty == 0);
        let rest = sweep(m.levels, m.taker, book_side, limit);
        assert(rest.levels == m.levels && rest.taker == m.taker && rest.execs
            == Seq::<ExecModel>::empty() && rest.removed == Seq::<OrderId>::empty());
        assert(m.execs + rest.execs =~= m.execs);
        assert(m.removed + rest.removed =~= m.removed);
    }
}

/// The liquidity available to a taker limited to `target`: the total resting
/// quantity over the in-window prices, best first.
pub open spec fn available_qty(levels: LevelsModel, book_side: Side, target: u64) -> int
    decreases levels.len(),
{
    if levels.len() == 0 {
        0
    } else {
        let i = best_index(levels, book_side);
        if !price_in_window(Some(target), book_side, levels[i].0) {
            0
        } else {
            level_qty(levels[i].1) + available_qty(levels.remove(i), book_side, target)
        }
    }
}

/// The model of a whole order book: both half-books and the order locator
/// that maps each resting order's id to its side and price.
pub ghost struct BookModel {
    pub asks: LevelsModel,
    pub bids: LevelsModel,
    pub loc: Map<OrderId, (Side, u64)>,
}

/// Whether the level at `p` holds an order with `id`.
pub open spec fn has_order_at(levels: LevelsModel, p: u64, id: OrderId) -> bool {
    match assoc_get(levels, p) {
        Some(lvl) => level_ids(lvl).contains(id),
        None => false,
    }
}

impl BookModel {
    /// The liquidity resting on one side.
    pub open spec fn side_levels(self, s: Side) -> LevelsModel {
        match s {
            Side::Ask => self.asks,
            Side::Bid => self.bids,
        }
    }

    /// The book with the liquidity of side `s` replaced.
    pub open spec fn with_side(self, s: Side, l: LevelsModel) -> BookModel {
        match s {
            Side::Ask => BookModel { asks: l, ..self },
            Side::Bid => BookModel { bids: l, ..self },
        }
    }

    /// Well-formed: both halves are structurally sound, the combined
    /// submitted quantity fits the quantity type, and the locator holds
    /// exactly the resting ids, each mapped to the side and price where its
    /// order rests.
    pub open spec fn wf(self) -> bool {
        &&& levels_wf(self.asks)
        &&& levels_wf(self.bids)
        &&& hb_total_init(self.asks) + hb_total_init(self.bids) <= u64::MAX
        &&& loc_coherent(self)
    }
}

/// The locator is faithful: every entry points at a resting order, and
/// every resting order is located at its own side and price.
pub open spec fn loc_coherent(b: BookModel) -> bool {
    &&& forall|id: OrderId|
        #[trigger] b.loc.dom().contains(id) ==> has_order_at(
            b.side_levels(b.loc[id].0),
            b.loc[id].1,
            id,
        )
    &&& forall|id: OrderId, p: u64|
        #[trigger] has_order_at(b.asks, p, id) ==> b.loc.dom().contains(id) && b.loc[id] == (
        Side::Ask, p)
    &&& forall|id: OrderId, p: u64|
        #[trigger] has_order_at(b.bids, p, id) ==> b.loc.dom().contains(id) && b.loc[id] == (
        Side::Bid, p)
}

/// Coherence after an order with a fresh id rests at one price.
pub proof fn lemma_coherent_after_rest(b0: BookModel, bn: BookModel, side: Side, price: u64, id: OrderId)
    requires
        loc_coherent(b0),
        !b0.loc.dom().contains(id),
        bn.loc == b0.loc.insert(id, (side, price)),
        bn.side_levels(side.spec_opposite()) == b0.side_levels(side.spec_opposite()),
        forall|q: u64, id2: OrderId|
            #[trigger] has_order_at(bn.side_levels(side), q, id2) <==> (has_order_at(
                b0.side_levels(side),
                q,
                id2,
            ) || (q == price && id2 == id)),
    ensures
        loc_coherent(bn),
{
    assert forall|id2: OrderId| #[trigger] bn.loc.dom().contains(id2) implies has_order_at(
        bn.side_levels(bn.loc[id2].0),
        bn.loc[id2].1,
        id2,
    ) by {
        if id2 == id {
            assert(has_order_at(bn.side_levels(side), price, id));
        } else {
            assert(b0.loc.dom().contains(id2));
            assert(bn.loc[id2] == b0.loc[id2]);
            assert(has_order_at(b0.side_levels(b0.loc[id2].0), b0.loc[id2].1, id2));
            if b0.loc[id2].0 == side {
                assert(has_order_at(bn.side_levels(side), b0.loc[id2].1, id2));
            }
        }
    }
    assert forall|id2: OrderId, p: u64| #[trigger] has_order_at(bn.asks, p, id2) implies
        bn.loc.dom().contains(id2) && bn.loc[id2] == (Side::Ask, p) by {
        lemma_coherent_rest_dir2(b0, bn, side, price, id, Side::Ask, id2, p);
    }
    assert forall|id2: OrderId, p: u64| #[trigger] has_order_at(bn.bids, p, id2) implies
        bn.loc.dom().contains(id2) && bn.loc[id2] == (Side::Bid, p) by {
        lemma_coherent_rest_dir2(b0, bn, side, price, id, Side::Bid, id2, p);
    }
}

/// Helper for one side of `lemma_coherent_after_rest`.
proof fn lemma_coherent_rest_dir2(b0: BookModel, bn: BookModel, side: Side, price: u64, id: OrderId, qside: Side, id2: OrderId, p: u64)
    requires
        loc_coherent(b0),
        !b0.loc.dom().contains(id),
        bn.loc == b0.loc.insert(id, (side, price)),
        bn.side_levels(side.spec_opposite()) == b0.side_levels(side.spec_opposite()),
        forall|q: u64, id3: OrderId|
            #[trigger] has_order_at(bn.side_levels(side), q, id3) <==> (has_order_at(
                b0.side_levels(side),
                q,
                id3,
            ) || (q == price && id3 == id)),
        has_order_at(bn.side_levels(qside), p, id2),
    ensures
        bn.loc.dom().contains(id2) && bn.loc[id2] == (qside, p),
{
    if qside == side {
        if id2 == id && p == price {
        } else {
            assert(has_order_at(b0.side_levels(side), p, id2));
            if side == Side::Ask {
                assert(has_order_at(b0.asks, p, id2));
            } else {
                assert(has_order_at(b0.bids, p, id2));
            }
            assert(b0.loc.dom().contains(id2) && b0.loc[id2] == (qside, p));
            assert(id2 != id);
        }
    } else {
        assert(has_order_at(b0.side_levels(qside), p, id2));
        if qside == Side::Ask {
            assert(has_order_at(b0.asks, p, id2));
        } else {
            assert(has_order_at(b0.bids, p, id2));
        }
        assert(b0.loc.dom().contains(id2) && b0.loc[id2] == (qside, p));
        assert(id2 != id);
    }
}

/// Coherence when the locator and all memberships are unchanged.
pub proof fn lemma_coherent_unchanged(b0: BookModel, bn: BookModel)
    requires
        loc_coherent(b0),
        bn.loc == b0.loc,
        forall|q: u64, id: OrderId|
            #[trigger] has_order_at(bn.asks, q, id) <==> has_order_at(b0.asks, q, id),
        forall|q: u64, id: OrderId|
            #[trigger] has_order_at(bn.bids, q, id) <==> has_order_at(b0.bids, q, id),
    ensures
        loc_coherent(bn),
{
    assert forall|id: OrderId| #[trigger] bn.loc.dom().contains(id) implies has_order_at(
        bn.side_levels(bn.loc[id].0),
        bn.loc[id].1,
        id,
    ) by {
        assert(has_order_at(b0.side_levels(b0.loc[id].0), b0.loc[id].1, id));
        if b0.loc[id].0 == Side::Ask {
            assert(has_order_at(b0.asks, b0.loc[id].1, id));
            assert(has_order_at(bn.asks, b0.loc[id].1, id));
        } else {
            assert(has_order_at(b0.bids, b0.loc[id].1, id));
            assert(has_order_at(bn.bids, b0.loc[id].1, id));
        }
    }
    assert forall|id: OrderId, p: u64| #[trigger] has_order_at(bn.asks, p, id) implies
        bn.loc.dom().contains(id) && bn.loc[id] == (Side::Ask, p) by {
        assert(has_order_at(b0.asks, p, id));
    }
    assert forall|id: OrderId, p: u64| #[trigger] has_order_at(bn.bids, p, id) implies
        bn.loc.dom().contains(id) && bn.loc[id] == (Side::Bid, p) by {
        assert(has_order_at(b0.bids, p, id));
    }
}

/// Coherence after one located order leaves the book.
pub proof fn lemma_coherent_after_remove(b0: BookModel, bn: BookModel, side: Side, price: u64, id: OrderId)
    requires
        loc_coherent(b0),
        b0.loc.dom().contains(id),
        b0.loc[id] == (side, price),
        bn.loc == b0.loc.remove(id),
        bn.side_levels(side.spec_opposite()) == b0.side_levels(side.spec_opposite()),
        forall|q: u64, id2: OrderId|
            #[trigger] has_order_at(bn.side_levels(side), q, id2) <==> (has_order_at(
                b0.side_levels(side),
                q,
                id2,
            ) && !(q == price && id2 == id)),
    ensures
        loc_coherent(bn),
{
    assert forall|id2: OrderId| #[trigger] bn.loc.dom().contains(id2) implies has_order_at(
        bn.side_levels(bn.loc[id2].0),
        bn.loc[id2].1,
        id2,
    ) by {
        assert(id2 != id);
        assert(b0.loc.dom().contains(id2));
        assert(bn.loc[id2] == b0.loc[id2]);
        assert(has_order_at(b0.side_levels(b0.loc[id2].0), b0.loc[id2].1, id2));
        if b0.loc[id2].0 == side {
            assert(has_order_at(bn.side_levels(side), b0.loc[id2].1, id2));
        }
    }
    assert forall|id2: OrderId, p: u64| #[trigger] has_order_at(bn.asks, p, id2) implies
        bn.loc.dom().contains(id2) && bn.loc[id2] == (Side::Ask, p) by {
        lemma_coherent_remove_dir2(b0, bn, side, price, id, Side::Ask, id2, p);
    }
    assert forall|id2: OrderId, p: u64| #[trigger] has_order_at(bn.bids, p, id2) implies
        bn.loc.dom().contains(id2) && bn.loc[id2] == (Side::Bid, p) by {
        lemma_coherent_remove_dir2(b0, bn, side, price, id, Side::Bid, id2, p);
    }
}

/// Helper for one side of `lemma_coherent_after_remove`.
proof fn lemma_coherent_remove_dir2(b0: BookModel, bn: BookModel, side: Side, price: u64, id: OrderId, qside: Side, id2: OrderId, p: u64)
    requires
        loc_coherent(b0),
        b0.loc.dom().contains(id),
        b0.loc[id] == (side, price),
        bn.loc == b0.loc.remove(id),
        bn.side_levels(side.spec_opposite()) == b0.side_levels(side.spec_opposite()),
        forall|q: u64, id3: OrderId|
            #[trigger] has_order_at(bn.side_levels(side), q, id3) <==> (has_order_at(
                b0.side_levels(side),
                q,
                id3,
            ) && !(q == price && id3 == id)),
        has_order_at(bn.side_levels(qside), p, id2),
    ensures
        bn.loc.dom().contains(id2) && bn.loc[id2] == (qside, p),
{
    if qside == side {
        assert(has_order_at(b0.side_levels(side), p, id2) && !(p == price && id2 == id));
        if side == Side::Ask {
            assert(has_order_at(b0.asks, p, id2));
        } else {
            assert(has_order_at(b0.bids, p, id2));
        }
        assert(b0.loc[id2] == (qside, p));
        assert(id2 != id) by {
            if id2 == id {
                assert(b0.loc[id] == (side, price));
                assert(p == price);
            }
        }
    } else {
        assert(has_order_at(b0.side_levels(qside), p, id2));
        if qside == Side::Ask {
            assert(has_order_at(b0.asks, p, id2));
        } else {
            assert(has_order_at(b0.bids, p, id2));
        }
        assert(b0.loc[id2] == (qside, p));
        assert(id2 != id) by {
            if id2 == id {
                assert(b0.loc[id] == (side, price));
            }
        }
    }
}

/// Coherence after one match step on one side: the removed makers leave the
/// locator and everything else stays.
pub proof fn lemma_coherent_after_match(b0: BookModel, bn: BookModel, side: Side, price: u64, removed: Seq<OrderId>)
    requires
        loc_coherent(b0),
        bn.loc == b0.loc.remove_keys(removed.to_set()),
        bn.side_levels(side.spec_opposite()) == b0.side_levels(side.spec_opposite()),
        forall|id: OrderId|
            #[trigger] has_order_at(bn.side_levels(side), price, id) <==> (has_order_at(
                b0.side_levels(side),
                price,
                id,
            ) && !removed.contains(id)),
        forall|q: u64, id: OrderId|
            q != price ==> (#[trigger] has_order_at(bn.side_levels(side), q, id)
                <==> has_order_at(b0.side_levels(side), q, id)),
        forall|id: OrderId|
            removed.contains(id) ==> #[trigger] has_order_at(b0.side_levels(side), price, id),
    ensures
        loc_coherent(bn),
{
    assert forall|id2: OrderId| #[trigger] bn.loc.dom().contains(id2) implies has_order_at(
        bn.side_levels(bn.loc[id2].0),
        bn.loc[id2].1,
        id2,
    ) by {
        assert(b0.loc.dom().contains(id2));
        assert(!removed.contains(id2));
        assert(bn.loc[id2] == b0.loc[id2]);
        assert(has_order_at(b0.side_levels(b0.loc[id2].0), b0.loc[id2].1, id2));
        if b0.loc[id2].0 == side {
            if b0.loc[id2].1 == price {
                assert(has_order_at(bn.side_levels(side), price, id2));
            } else {
                assert(has_order_at(bn.side_levels(side), b0.loc[id2].1, id2));
            }
        }
    }
    assert forall|id2: OrderId, p: u64| #[trigger] has_order_at(bn.asks, p, id2) implies
        bn.loc.dom().contains(id2) && bn.loc[id2] == (Side::Ask, p) by {
        lemma_coherent_match_dir2(b0, bn, side, price, removed, Side::Ask, id2, p);
    }
    assert forall|id2: OrderId, p: u64| #[trigger] has_order_at(bn.bids, p, id2) implies
        bn.loc.dom().contains(id2) && bn.loc[id2] == (Side::Bid, p) by {
        lemma_coherent_match_dir2(b0, bn, side, price, removed, Side::Bid, id2, p);
    }
}

/// Helper for one side of `lemma_coherent_after_match`.
proof fn lemma_coherent_match_dir2(b0: BookModel, bn: BookModel, side: Side, price: u64, removed: Seq<OrderId>, qside: Side, id2: OrderId, p: u64)
    requires
        loc_coherent(b0),
        bn.loc == b0.loc.remove_keys(removed.to_set()),
        bn.side_levels(side.spec_opposite()) == b0.side_levels(side.spec_opposite()),
        forall|id: OrderId|
            #[trigger] has_order_at(bn.side_levels(side), price, id) <==> (has_order_at(
                b0.side_levels(side),
                price,
                id,
            ) && !removed.contains(id)),
        forall|q: u64, id: OrderId|
            q != price ==> (#[trigger] has_order_at(bn.side_levels(side), q, id)
                <==> has_order_at(b0.side_levels(side), q, id)),
        forall|id: OrderId|
            removed.contains(id) ==> #[trigger] has_order_at(b0.side_levels(side), price, id),
        has_order_at(bn.side_levels(qside), p, id2),
    ensures
        bn.loc.dom().contains(id2) && bn.loc[id2] == (qside, p),
{
    let in_old = if qside == side {
        if p == price {
            has_order_at(b0.side_levels(side), price, id2) && !removed.contains(id2)
        } else {
            has_order_at(b0.side_levels(side), p, id2)
        }
    } else {
        has_order_at(b0.side_levels(qside), p, id2)
    };
    assert(has_order_at(b0.side_levels(qside), p, id2));
    if qside == Side::Ask {
        assert(has_order_at(b0.asks, p, id2));
    } else {
        assert(has_order_at(b0.bids, p, id2));
    }
    assert(b0.loc.dom().contains(id2) && b0.loc[id2] == (qside, p));
    assert(!removed.contains(id2)) by {
        if removed.contains(id2) {
            assert(has_order_at(b0.side_levels(side), price, id2));
            if side == Side::Ask {
                assert(has_order_at(b0.asks, price, id2));
            } else {
                assert(has_order_at(b0.bids, price, id2));
            }
            assert(b0.loc[id2] == (side, price));
            // so (qside, p) == (side, price); but then id2 is not in the new
            // side level at price, contradicting membership there.
            assert(qside == side && p == price);
            assert(!has_order_at(bn.side_levels(side), price, id2));
        }
    }
    assert(bn.loc.dom().contains(id2));
    assert(bn.loc[id2] == b0.loc[id2]);
}

/// A half-book's liquidity after merging `t` into the resting order `id` at
/// `p`: quantities add and fills are appended; nothing changes when the
/// order is not there.
pub open spec fn levels_merge_order(levels: LevelsModel, p: u64, id: OrderId, t: OrderModel) -> LevelsModel {
    match assoc_get(levels, p) {
        None => levels,
        Some(lvl) => {
            let j = level_find(lvl, id);
            if j == -1 {
                levels
            } else {
                assoc_insert(levels, p, lvl.update(j, lvl[j].after_merge(t)))
            }
        },
    }
}

/// The outcome of submitting an order to the book.
pub ghost struct AddOut {
    /// The book after the submission.
    pub book: BookModel,
    /// The result reported to the submitter.
    pub result: crate::orders::ResultModel,
    /// The executions, in the order they happened.
    pub execs: Seq<ExecModel>,
}

/// What submitting a request does to the book. A fill-or-kill order whose
/// full quantity is not available within its limit is rejected outright and
/// the book is untouched. Otherwise the taker sweeps the opposite half in
/// priority order; the locator forgets every maker that was fully filled;
/// and a residual rests: appended to its price level for a limit order, and
/// for a system-level order merged into the resting order with the same id
/// when one is there. Market, immediate-or-cancel and fill-or-kill residuals
/// are discarded, as is a residual at a zero price.
pub open spec fn spec_add_order(b: BookModel, req: crate::orders::OrderRequest) -> AddOut {
    let oside = req.side.spec_opposite();
    let olev = b.side_levels(oside);
    if req.order_type matches crate::orders::OrderType::FOK(p) && available_qty(olev, oside, p)
        < req.qty {
        AddOut {
            book: b,
            result: crate::orders::rejected_result(req),
            execs: Seq::<ExecModel>::empty(),
        }
    } else {
        let t0 = crate::orders::request_order_model(req);
        let sw = sweep(olev, t0, oside, window_limit(req.order_type));
        let b1 = BookModel {
            loc: b.loc.remove_keys(sw.removed.to_set()),
            ..b.with_side(oside, sw.levels)
        };
        let t1 = sw.taker;
        let b2 = if t1.remaining_qty > 0 {
            match req.order_type {
                crate::orders::OrderType::Limit(p) => {
                    if p > 0 {
                        BookModel {
                            loc: b1.loc.insert(t1.id, (req.side, p)),
                            ..b1.with_side(req.side, levels_add(b1.side_levels(req.side), p, t1))
                        }
                    } else {
                        b1
                    }
                },
                crate::orders::OrderType::SystemLevel(p) => {
                    if p > 0 {
                        if b1.loc.dom().contains(t1.id) {
                            let (ms, mp) = b1.loc[t1.id];
                            b1.with_side(
                                ms,
                                levels_merge_order(b1.side_levels(ms), mp, t1.id, t1),
                            )
                        } else {
                            BookModel {
                                loc: b1.loc.insert(t1.id, (req.side, p)),
                                ..b1.with_side(
                                    req.side,
                                    levels_add(b1.side_levels(req.side), p, t1),
                                )
                            }
                        }
                    } else {
                        b1
                    }
                },
                _ => b1,
            }
        } else {
            b1
        };
        AddOut { book: b2, result: crate::orders::result_of_order(t1), execs: sw.execs }
    }
}

/// One step of a prefix sum over a level.
pub proof fn lemma_sum_orders_take_step(lvl: LevelModel, j: int, f: spec_fn(OrderModel) -> int)
    requires
        0 <= j < lvl.len(),
    ensures
        sum_orders(lvl.take(j + 1), f) == sum_orders(lvl.take(j), f) + f(lvl[j]),
{
    assert(lvl.take(j + 1).drop_last() =~= lvl.take(j));
    assert(lvl.take(j + 1).last() == lvl[j]);
}

/// A prefix of a pointwise nonnegative sum never exceeds the whole.
pub proof fn lemma_sum_orders_prefix_le(lvl: LevelModel, j: int, f: spec_fn(OrderModel) -> int)
    requires
        0 <= j <= lvl.len(),
        forall|x: int| 0 <= x < lvl.len() ==> f(#[trigger] lvl[x]) >= 0,
    ensures
        sum_orders(lvl.take(j), f) <= sum_orders(lvl, f),
    decreases lvl.len() - j,
{
    if j == lvl.len() {
        assert(lvl.take(j) =~= lvl);
    } else {
        lemma_sum_orders_take_step(lvl, j, f);
        lemma_sum_orders_prefix_le(lvl, j + 1, f);
    }
}

/// One step of a prefix sum over a half-book.
pub proof fn lemma_sum_levels_take_step(levels: LevelsModel, i: int, g: spec_fn(LevelModel) -> int)
    requires
        0 <= i < levels.len(),
    ensures
        sum_levels(levels.take(i + 1), g) == sum_levels(levels.take(i), g) + g(levels[i].1),
{
    assert(levels.take(i + 1).drop_last() =~= levels.take(i));
    assert(levels.take(i + 1).last() == levels[i]);
}

/// A prefix of a pointwise nonnegative sum over levels never exceeds the
/// whole.
pub proof fn lemma_sum_levels_prefix_le(levels: LevelsModel, i: int, g: spec_fn(LevelModel) -> int)
    requires
        0 <= i <= levels.len(),
        forall|x: int| 0 <= x < levels.len() ==> g(#[trigger] levels[x].1) >= 0,
    ensures
        sum_levels(levels.take(i), g) <= sum_levels(levels, g),
    decreases levels.len() - i,
{
    if i == levels.len() {
        assert(levels.take(i) =~= levels);
    } else {
        lemma_sum_levels_take_step(levels, i, g);
        lemma_sum_levels_prefix_le(levels, i + 1, g);
    }
}

/// The available quantity is nonnegative and bounded by the total resting
/// quantity.
pub proof fn lemma_available_bounds(levels: LevelsModel, book_side: Side, target: u64)
    requires
        forall|i: int| 0 <= i < levels.len() ==> level_wf(#[trigger] levels[i].1),
    ensures
        0 <= available_qty(levels, book_side, target) <= hb_total_qty(levels),
    decreases levels.len(),
{
    lemma_hb_totals(levels);
    if levels.len() > 0 {
        let i = best_index(levels, book_side);
        if price_in_window(Some(target), book_side, levels[i].0) {
            assert(forall|x: int|
                0 <= x < levels.remove(i).len() ==> level_wf(#[trigger] levels.remove(i)[x].1));
            lemma_available_bounds(levels.remove(i), book_side, target);
            lemma_sum_levels_remove(levels, i, |l: LevelModel| level_qty(l));
            lemma_hb_totals(levels.remove(i));
            assert(level_qty(levels[i].1) >= 0) by {
                lemma_sum_orders_nonneg(levels[i].1, |o: OrderModel| o.remaining_qty as int);
            }
        }
    }
}

/// One level's resting quantity is nonnegative and never exceeds the side's
/// total.
pub proof fn lemma_level_qty_le_total(levels: LevelsModel, i: int)
    requires
        0 <= i < levels.len(),
    ensures
        0 <= level_qty(levels[i].1) <= hb_total_qty(levels),
{
    lemma_sum_levels_remove(levels, i, |l: LevelModel| level_qty(l));
    lemma_sum_orders_nonneg(levels[i].1, |o: OrderModel| o.remaining_qty as int);
    assert forall|x: int| 0 <= x < levels.remove(i).len() implies level_qty(
        #[trigger] levels.remove(i)[x].1,
    ) >= 0 by {
        lemma_sum_orders_nonneg(levels.remove(i)[x].1, |o: OrderModel| o.remaining_qty as int);
    }
    lemma_sum_levels_nonneg(levels.remove(i), |l: LevelModel| level_qty(l));
}

/// Replacing one resting order by a well-formed order with the same id and
/// positive remaining quantity keeps the liquidity well-formed; the total
/// submitted quantity moves by the difference of the two orders'.
pub proof fn lemma_wf_after_order_update(levels: LevelsModel, i: int, j: int, om2: OrderModel)
    requires
        levels_wf(levels),
        0 <= i < levels.len(),
        0 <= j < levels[i].1.len(),
        om2.id == levels[i].1[j].id,
        om2.wf(),
        om2.remaining_qty > 0,
        hb_total_init(levels) - levels[i].1[j].initial_qty + om2.initial_qty <= u64::MAX,
    ensures
        ({
            let out = levels.update(i, (levels[i].0, levels[i].1.update(j, om2)));
            &&& levels_wf(out)
            &&& hb_total_init(out) == hb_total_init(levels) - levels[i].1[j].initial_qty
                + om2.initial_qty
        }),
{
    let lvl0 = levels[i].1;
    let lvl2 = lvl0.update(j, om2);
    let out = levels.update(i, (levels[i].0, lvl2));
    lemma_sum_levels_update(levels, i, (levels[i].0, lvl2), |l: LevelModel| level_init_qty(l));
    lemma_sum_orders_update(lvl0, j, om2, |o: OrderModel| o.initial_qty as int);
    assert(assoc_sorted(out));
    assert forall|x: int| 0 <= x < out.len() implies level_wf(#[trigger] out[x].1) by {
        if x == i {
            assert forall|b: int| 0 <= b < lvl2.len() implies (#[trigger] lvl2[b]).wf()
                && lvl2[b].remaining_qty > 0 by {
                if b != j {
                    assert(lvl2[b] == lvl0[b]);
                }
            }
        }
    }
    assert(levels_distinct_ids(out)) by {
        assert forall|a1: int, b1: int, a2: int, b2: int|
            0 <= a1 < out.len() && 0 <= b1 < out[a1].1.len() && 0 <= a2 < out.len() && 0 <= b2
                < out[a2].1.len() && (a1 != a2 || b1 != b2) implies #[trigger] out[a1].1[b1].id
            != #[trigger] out[a2].1[b2].id by {
            assert(out[a1].1[b1].id == levels[a1].1[b1].id);
            assert(out[a2].1[b2].id == levels[a2].1[b2].id);
        }
    }
}

/// Concatenating fill records adds their totals.
pub proof fn lemma_sum_fills_concat(a: Seq<crate::orders::FillModel>, b: Seq<crate::orders::FillModel>)
    ensures
        crate::orders::sum_fill_qty(a + b) == crate::orders::sum_fill_qty(a)
            + crate::orders::sum_fill_qty(b),
    decreases b.len(),
{
    if b.len() == 0 {
        assert(a + b =~= a);
    } else {
        assert((a + b).drop_last() =~= a + b.drop_last());
        assert((a + b).last() == b.last());
        lemma_sum_fills_concat(a, b.drop_last());
    }
}

/// The index of the binding of a price that some order rests at.
pub proof fn position_of_price(levels: LevelsModel, p: u64) -> (i: int)
    requires
        assoc_sorted(levels),
        assoc_get(levels, p) is Some,
    ensures
        0 <= i < levels.len(),
        levels[i].0 == p,
        assoc_get(levels, p) == Some(levels[i].1),
{
    crate::price_levels::lemma_assoc_get_none(levels, p);
    let i = sorted_key_index(levels, p);
    lemma_sorted_get(levels, p);
    i
}

/// An id rests somewhere exactly when it rests at some price.
pub proof fn lemma_has_id_at_some_price(levels: LevelsModel, id: OrderId)
    requires
        assoc_sorted(levels),
    ensures
        levels_has_id(levels, id) <==> exists|p: u64| #[trigger] has_order_at(levels, p, id),
{
    if levels_has_id(levels, id) {
        let (i, j) = choose|i: int, j: int|
            0 <= i < levels.len() && 0 <= j < levels[i].1.len() && levels[i].1[j].id == id;
        let p = levels[i].0;
        lemma_sorted_get(levels, p);
        assert(assoc_get(levels, p) == Some(levels[i].1));
        assert(level_ids(levels[i].1)[j] == id);
        assert(has_order_at(levels, p, id));
    }
    if exists|p: u64| #[trigger] has_order_at(levels, p, id) {
        let p = choose|p: u64| #[trigger] has_order_at(levels, p, id);
        let i = position_of_price(levels, p);
        let lvl = levels[i].1;
        let j = choose|j: int| 0 <= j < lvl.len() && level_ids(lvl)[j] == id;
        assert(levels[i].1[j].id == id);
    }
}

/// What one half-book match does to membership at each price: at the matched
/// price exactly the removed makers leave, and every other price's level is
/// untouched.
#[verifier::rlimit(100)]
pub proof fn lemma_hb_match_at_price(levels: LevelsModel, taker: OrderModel, price: u64, book_side: Side)
    requires
        levels_wf(levels),
        taker.wf(),
    ensures
        ({
            let out = hb_match(levels, taker, price, book_side);
            &&& forall|id: OrderId|
                #[trigger] has_order_at(out.levels, price, id) <==> has_order_at(
                    levels,
                    price,
                    id,
                ) && !out.removed.contains(id)
            &&& forall|id: OrderId|
                out.removed.contains(id) ==> #[trigger] has_order_at(levels, price, id)
            &&& forall|q: u64, id: OrderId|
                q != price ==> (#[trigger] has_order_at(out.levels, q, id) <==> has_order_at(
                    levels,
                    q,
                    id,
                ))
        }),
{
    let out = hb_match(levels, taker, price, book_side);
    lemma_hb_match(levels, taker, price, book_side);
    assert forall|q: u64, id: OrderId| q != price implies (#[trigger] has_order_at(
        out.levels,
        q,
        id,
    ) <==> has_order_at(levels, q, id)) by {
        assert(assoc_get(out.levels, q) == assoc_get(levels, q));
    }
    crate::price_levels::lemma_assoc_get_none(levels, price);
    if assoc_get(levels, price) is None {
        assert(forall|id: OrderId| !(#[trigger] has_order_at(levels, price, id)));
        assert(forall|id: OrderId| !(#[trigger] has_order_at(out.levels, price, id)));
        return ;
    }
    let i = sorted_key_index(levels, price);
    lemma_sorted_get(levels, price);
    let lvl0 = levels[i].1;
    let ml = match_level(taker, lvl0, price, book_side.spec_opposite());
    lemma_match_level(taker, lvl0, price, book_side.spec_opposite());
    let k = ml.removed.len() as int;
    assert(forall|j: int| 0 <= j < lvl0.len() ==> #[trigger] level_ids(lvl0)[j] == lvl0[j].id);
    assert(forall|x: int| 0 <= x < k ==> #[trigger] ml.removed[x] == level_ids(lvl0)[x]);
    assert forall|j1: int, j2: int| 0 <= j1 < j2 < lvl0.len() implies lvl0[j1].id
        != lvl0[j2].id by {
        assert(levels[i].1[j1].id != levels[i].1[j2].id);
    }
    if ml.level.len() == 0 {
        crate::price_levels::lemma_assoc_remove_at(levels, price, i);
        assert(out.levels =~= levels.remove(i));
        assert forall|id: OrderId| !(#[trigger] has_order_at(out.levels, price, id)) by {
            crate::price_levels::lemma_assoc_get_none(out.levels, price);
            if assoc_keys(out.levels).contains(id as u64) {
            }
            if assoc_keys(out.levels).contains(price) {
                let x = choose|x: int|
                    0 <= x < out.levels.len() && assoc_keys(out.levels)[x] == price;
                let ox = if x < i {
                    x
                } else {
                    x + 1
                };
                assert(levels[ox].0 == price);
                assert(ox != i ==> levels[ox].0 != levels[i].0);
            }
        }
        assert forall|id: OrderId| has_order_at(levels, price, id) implies ml.removed.contains(
            id,
        ) by {
            let j = choose|j: int| 0 <= j < lvl0.len() && level_ids(lvl0)[j] == id;
            assert(level_ids(ml.level).len() == lvl0.len() - k);
            assert(j < k);
            assert(ml.removed[j] == id);
        }
    } else {
        crate::price_levels::lemma_assoc_insert_at(levels, price, ml.level, i);
        assert(out.levels =~= levels.update(i, (price, ml.level)));
        assert(forall|x: int|
            0 <= x < out.levels.len() ==> (#[trigger] out.levels[x]).0 == levels[x].0);
        assert(assoc_sorted(out.levels));
        lemma_sorted_get(out.levels, price);
        assert(out.levels[i] == (price, ml.level));
        assert(out.levels[i].0 == price);
        assert(assoc_get(out.levels, price) == Some(out.levels[i].1));
        assert(assoc_get(out.levels, price) == Some(ml.level));
        assert(level_ids(ml.level) =~= level_ids(lvl0).skip(k));
        assert forall|id: OrderId| #[trigger] has_order_at(out.levels, price, id) implies
            has_order_at(levels, price, id) && !ml.removed.contains(id) by {
            let j = choose|j: int|
                0 <= j < ml.level.len() && level_ids(ml.level)[j] == id;
            assert(level_ids(lvl0)[j + k] == id);
            assert(has_order_at(levels, price, id));
            if ml.removed.contains(id) {
                let x = choose|x: int| 0 <= x < k && ml.removed[x] == id;
                assert(lvl0[x].id == id);
                assert(lvl0[j + k].id == id);
            }
        }
        assert forall|id: OrderId|
            has_order_at(levels, price, id) && !ml.removed.contains(id) implies #[trigger] has_order_at(out.levels, price, id) by {
            let j = choose|j: int| 0 <= j < lvl0.len() && level_ids(lvl0)[j] == id;
            if j < k {
                assert(ml.removed[j] == id);
            } else {
                assert(level_ids(ml.level).len() == lvl0.len() - k);
                assert(level_ids(ml.level)[j - k] == level_ids(lvl0)[j]);
            }
        }
        assert forall|id: OrderId| ml.removed.contains(id) implies #[trigger] has_order_at(
            levels,
            price,
            id,
        ) by {
            let x = choose|x: int| 0 <= x < k && ml.removed[x] == id;
            assert(level_ids(lvl0)[x] == id);
        }
    }
}

/// What resting an order does to membership at each price: the order's id
/// arrives at its price and nothing else moves.
pub proof fn lemma_levels_add_has(levels: LevelsModel, p: u64, om: OrderModel)
    requires
        assoc_sorted(levels),
    ensures
        ({
            let out = levels_add(levels, p, om);
            forall|q: u64, id: OrderId|
                #[trigger] has_order_at(out, q, id) <==> (has_order_at(levels, q, id) || (q == p
                    && id == om.id))
        }),
{
    let out = levels_add(levels, p, om);
    crate::price_levels::lemma_assoc_get_none(levels, p);
    if assoc_get(levels, p) is Some {
        let i = sorted_key_index(levels, p);
        lemma_sorted_get(levels, p);
        let lvl0 = levels[i].1;
        crate::price_levels::lemma_assoc_insert_at(levels, p, lvl0.push(om), i);
        assert(out =~= levels.update(i, (p, lvl0.push(om))));
        assert(forall|x: int| 0 <= x < out.len() ==> (#[trigger] out[x]).0 == levels[x].0);
        assert(assoc_sorted(out));
        lemma_sorted_get(out, p);
        assert(out[i] == (p, lvl0.push(om)));
        assert(out[i].0 == p);
        assert(assoc_get(out, p) == Some(out[i].1));
        assert(assoc_get(out, p) == Some(lvl0.push(om)));
        assert(level_ids(lvl0.push(om)) =~= level_ids(lvl0).push(om.id));
        assert forall|q: u64, id: OrderId| #[trigger] has_order_at(out, q, id) <==> (
        has_order_at(levels, q, id) || (q == p && id == om.id)) by {
            if q != p {
                lemma_pointwise_get(levels, i, Some(lvl0.push(om)));
                assert(assoc_get(out, q) == assoc_get(levels, q));
            } else {
                if has_order_at(out, p, id) {
                    let j = choose|j: int|
                        0 <= j < lvl0.push(om).len() && level_ids(lvl0.push(om))[j] == id;
                    if j < lvl0.len() {
                        assert(level_ids(lvl0)[j] == id);
                    }
                }
                if has_order_at(levels, p, id) {
                    let j = choose|j: int| 0 <= j < lvl0.len() && level_ids(lvl0)[j] == id;
                    assert(level_ids(lvl0.push(om))[j] == id);
                }
                assert(level_ids(lvl0.push(om))[lvl0.len() as int] == om.id);
            }
        }
    } else {
        assert(!assoc_keys(levels).contains(p));
        let i = insertion_point(levels, p);
        crate::price_levels::lemma_assoc_insert_at(levels, p, seq![om], i);
        assert(out =~= levels.insert(i, (p, seq![om])));
        assert(assoc_sorted(out)) by {
            assert forall|x: int, y: int| 0 <= x < y < out.len() implies out[x].0 < out[y].0 by {
                let ox = if x < i {
                    x
                } else {
                    x - 1
                };
                let oy = if y < i {
                    y
                } else {
                    y - 1
                };
                if x != i && y != i {
                    assert(out[x] == levels[ox]);
                    assert(out[y] == levels[oy]);
                }
            }
        }
        lemma_sorted_get(out, p);
        assert(out[i] == (p, seq![om]));
        assert(assoc_get(out, p) == Some(seq![om]));
        assert forall|q: u64, id: OrderId| #[trigger] has_order_at(out, q, id) <==> (
        has_order_at(levels, q, id) || (q == p && id == om.id)) by {
            if q == p {
                assert(!(#[trigger] has_order_at(levels, p, id)));
                assert(level_ids(seq![om]) =~= seq![om.id]);
                if has_order_at(out, p, id) {
                    let j = choose|j: int| 0 <= j < 1 && level_ids(seq![om])[j] == id;
                    assert(id == om.id);
                }
                assert(level_ids(seq![om])[0] == om.id);
            } else {
                lemma_sorted_get(levels, q);
                lemma_sorted_get(out, q);
                crate::price_levels::lemma_assoc_get_none(levels, q);
                crate::price_levels::lemma_assoc_get_none(out, q);
                if assoc_keys(levels).contains(q) {
                    let x = sorted_key_index(levels, q);
                    let x2 = if x < i {
                        x
                    } else {
                        x + 1
                    };
                    assert(out[x2] == levels[x]);
                    assert(assoc_get(out, q) == Some(levels[x].1));
                } else {
                    if assoc_keys(out).contains(q) {
                        let x2 = sorted_key_index(out, q);
                        let x = if x2 < i {
                            x2
                        } else {
                            x2 - 1
                        };
                        assert(x2 != i);
                        assert(out[x2] == levels[x]);
                        assert(assoc_keys(levels)[x] == q);
                    }
                }
            }
        }
    }
}

/// The index at which a missing key would be inserted into a sorted
/// association sequence.
pub proof fn insertion_point<V>(s: Seq<(u64, V)>, k: u64) -> (i: int)
    requires
        assoc_sorted(s),
        !assoc_keys(s).contains(k),
    ensures
        0 <= i <= s.len(),
        forall|j: int| 0 <= j < i ==> s[j].0 < k,
        i < s.len() ==> s[i].0 > k,
    decreases s.len(),
{
    if s.len() == 0 {
        0
    } else if s[0].0 > k {
        0
    } else {
        assert(assoc_keys(s)[0] == s[0].0);
        assert(s[0].0 != k);
        assert(forall|j: int|
            0 <= j < s.drop_first().len() ==> #[trigger] assoc_keys(s.drop_first())[j]
                == assoc_keys(s)[j + 1]);
        assert(!assoc_keys(s.drop_first()).contains(k)) by {
            if assoc_keys(s.drop_first()).contains(k) {
                let j = choose|j: int|
                    0 <= j < s.drop_first().len() && assoc_keys(s.drop_first())[j] == k;
                assert(assoc_keys(s)[j + 1] == k);
            }
        }
        let r = insertion_point(s.drop_first(), k);
        assert(forall|j: int| 0 <= j < s.drop_first().len() ==> s.drop_first()[j] == s[j + 1]);
        assert(s[0].0 < k);
        assert forall|j: int| 0 <= j < r + 1 implies s[j].0 < k by {
            if j > 0 {
                assert(s.drop_first()[j - 1] == s[j]);
            }
        }
        r + 1
    }
}

/// What merging into a resting order does to membership: nothing moves.
pub proof fn lemma_levels_merge_has(levels: LevelsModel, p: u64, id: OrderId, t: OrderModel)
    requires
        assoc_sorted(levels),
    ensures
        ({
            let out = levels_merge_order(levels, p, id, t);
            forall|q: u64, id2: OrderId|
                #[trigger] has_order_at(out, q, id2) <==> has_order_at(levels, q, id2)
        }),
{
    let out = levels_merge_order(levels, p, id, t);
    if assoc_get(levels, p) is Some {
        let lvl = assoc_get(levels, p).unwrap();
        let j = level_find(lvl, id);
        if j != -1 {
            lemma_level_find(lvl, id);
            let i = position_of_price(levels, p);
            let lvl2 = lvl.update(j, lvl[j].after_merge(t));
            crate::price_levels::lemma_assoc_insert_at(levels, p, lvl2, i);
            assert(out =~= levels.update(i, (p, lvl2)));
            assert(forall|x: int| 0 <= x < out.len() ==> (#[trigger] out[x]).0 == levels[x].0);
            assert(assoc_sorted(out));
            assert(level_ids(lvl2) =~= level_ids(lvl));
            assert forall|q: u64, id2: OrderId| #[trigger] has_order_at(out, q, id2) <==>
                has_order_at(levels, q, id2) by {
                if q != p {
                    lemma_pointwise_get(levels, i, Some(lvl2));
                    assert(assoc_get(out, q) == assoc_get(levels, q));
                } else {
                    lemma_sorted_get(out, p);
                    assert(out[i] == (p, lvl2));
                    assert(out[i].0 == p);
                    assert(assoc_get(out, p) == Some(out[i].1));
                    assert(assoc_get(out, p) == Some(lvl2));
                }
            }
        }
    }
}

/// What removing one resting order does to membership: exactly that id
/// leaves its price, and nothing else moves.
#[verifier::rlimit(100)]
pub proof fn lemma_levels_remove_order_has(levels: LevelsModel, p: u64, id: OrderId)
    requires
        levels_wf(levels),
    ensures
        ({
            let out = levels_remove_order(levels, p, id);
            match levels_removed_order(levels, p, id) {
                None => out == levels,
                Some(om) => {
                    &&& om.id == id
                    &&& forall|q: u64, id2: OrderId|
                        #[trigger] has_order_at(out, q, id2) <==> (has_order_at(levels, q, id2)
                            && !(q == p && id2 == id))
                },
            }
        }),
{
    let out = levels_remove_order(levels, p, id);
    if assoc_get(levels, p) is None {
        return ;
    }
    let lvl = assoc_get(levels, p).unwrap();
    lemma_level_find(lvl, id);
    let j = level_find(lvl, id);
    if j == -1 {
        return ;
    }
    let i = position_of_price(levels, p);
    assert(lvl == levels[i].1);
    assert(forall|x: int| 0 <= x < lvl.len() ==> #[trigger] level_ids(lvl)[x] == lvl[x].id);
    assert forall|x1: int, x2: int| 0 <= x1 < x2 < lvl.len() implies lvl[x1].id != lvl[x2].id by {
        assert(levels[i].1[x1].id != levels[i].1[x2].id);
    }
    let lvl2 = lvl.remove(j);
    assert forall|q: u64, id2: OrderId| q != p implies (#[trigger] has_order_at(out, q, id2)
        <==> has_order_at(levels, q, id2)) by {
        if lvl2.len() == 0 {
            crate::price_levels::lemma_assoc_remove_at(levels, p, i);
            assert(out =~= levels.remove(i));
            lemma_pointwise_get(levels, i, None);
            assert(assoc_get(levels.remove(i), q) == assoc_get(levels, q));
        } else {
            crate::price_levels::lemma_assoc_insert_at(levels, p, lvl2, i);
            assert(out =~= levels.update(i, (p, lvl2)));
            lemma_pointwise_get(levels, i, Some(lvl2));
            assert(assoc_get(levels.update(i, (p, lvl2)), q) == assoc_get(levels, q));
        }
    }
    assert forall|id2: OrderId| #[trigger] has_order_at(out, p, id2) <==> (has_order_at(
        levels,
        p,
        id2,
    ) && id2 != id) by {
        if lvl2.len() == 0 {
            crate::price_levels::lemma_assoc_remove_at(levels, p, i);
            assert(out =~= levels.remove(i));
            crate::price_levels::lemma_assoc_get_none(out, p);
            if assoc_keys(out).contains(p) {
                let x = choose|x: int| 0 <= x < out.len() && assoc_keys(out)[x] == p;
                let ox = if x < i {
                    x
                } else {
                    x + 1
                };
                assert(levels[ox].0 == p);
                assert(ox != i ==> levels[ox].0 != levels[i].0);
            }
            assert(!has_order_at(out, p, id2));
            if has_order_at(levels, p, id2) && id2 != id {
                let x = choose|x: int| 0 <= x < lvl.len() && level_ids(lvl)[x] == id2;
                assert(lvl.len() == 1);
                assert(x == j);
                assert(lvl[x].id == id2);
                assert(lvl[j].id == id);
            }
        } else {
            crate::price_levels::lemma_assoc_insert_at(levels, p, lvl2, i);
            assert(out =~= levels.update(i, (p, lvl2)));
            assert(forall|x: int|
                0 <= x < out.len() ==> (#[trigger] out[x]).0 == levels[x].0);
            assert(assoc_sorted(out));
            lemma_sorted_get(out, p);
            assert(out[i] == (p, lvl2));
            assert(out[i].0 == p);
            assert(assoc_get(out, p) == Some(out[i].1));
            assert(assoc_get(out, p) == Some(lvl2));
            assert(forall|x: int|
                0 <= x < lvl2.len() ==> #[trigger] level_ids(lvl2)[x] == lvl2[x].id);
            if has_order_at(out, p, id2) {
                let x = choose|x: int| 0 <= x < lvl2.len() && level_ids(lvl2)[x] == id2;
                let ox = if x < j {
                    x
                } else {
                    x + 1
                };
                assert(lvl2[x] == lvl[ox]);
                assert(level_ids(lvl)[ox] == id2);
                assert(ox != j);
                assert(id2 != id) by {
                    if id2 == id {
                        assert(lvl[ox].id == lvl[j].id);
                    }
                }
            }
            if has_order_at(levels, p, id2) && id2 != id {
                let x = choose|x: int| 0 <= x < lvl.len() && level_ids(lvl)[x] == id2;
                assert(x != j);
                let nx = if x < j {
                    x
                } else {
                    x - 1
                };
                assert(lvl2[nx] == lvl[x]);
                assert(level_ids(lvl2)[nx] == id2);
            }
        }
    }
}

/// Replacing one resting order by another with the same id moves no
/// membership at any price.
pub proof fn lemma_update_order_has(levels: LevelsModel, p: u64, j: int, om2: OrderModel)
    requires
        assoc_sorted(levels),
        assoc_get(levels, p) is Some,
        0 <= j < assoc_get(levels, p).unwrap().len(),
        om2.id == assoc_get(levels, p).unwrap()[j].id,
    ensures
        ({
            let lvl = assoc_get(levels, p).unwrap();
            let out = assoc_insert(levels, p, lvl.update(j, om2));
            forall|q: u64, id2: OrderId|
                #[trigger] has_order_at(out, q, id2) <==> has_order_at(levels, q, id2)
        }),
{
    let lvl = assoc_get(levels, p).unwrap();
    let lvl2 = lvl.update(j, om2);
    let out = assoc_insert(levels, p, lvl2);
    let i = position_of_price(levels, p);
    crate::price_levels::lemma_assoc_insert_at(levels, p, lvl2, i);
    assert(out =~= levels.update(i, (p, lvl2)));
    assert(forall|x: int| 0 <= x < out.len() ==> (#[trigger] out[x]).0 == levels[x].0);
    assert(assoc_sorted(out));
    assert(level_ids(lvl2) =~= level_ids(lvl));
    assert forall|q: u64, id2: OrderId| #[trigger] has_order_at(out, q, id2) <==> has_order_at(
        levels,
        q,
        id2,
    ) by {
        if q != p {
            lemma_pointwise_get(levels, i, Some(lvl2));
            assert(assoc_get(out, q) == assoc_get(levels, q));
        } else {
            lemma_sorted_get(out, p);
            assert(out[i] == (p, lvl2));
            assert(out[i].0 == p);
            assert(assoc_get(out, p) == Some(out[i].1));
            assert(assoc_get(out, p) == Some(lvl2));
        }
    }
}

/// Whether the residual of a submission can rest without conflict: a limit
/// residual's id must not be live once the sweep is over, and a system-level
/// residual may only merge into an order of the same side and order type.
/// Every other submission is unconstrained.
pub open spec fn add_order_rest_ok(b: BookModel, req: crate::orders::OrderRequest) -> bool {
    let oside = req.side.spec_opposite();
    let olev = b.side_levels(oside);
    if req.order_type matches crate::orders::OrderType::FOK(p) && available_qty(olev, oside, p)
        < req.qty {
        true
    } else {
        let t0 = crate::orders::request_order_model(req);
        let sw = sweep(olev, t0, oside, window_limit(req.order_type));
        let loc1 = b.loc.remove_keys(sw.removed.to_set());
        let t1 = sw.taker;
        if t1.remaining_qty > 0 {
            match req.order_type {
                crate::orders::OrderType::Limit(p) => p > 0 ==> !loc1.dom().contains(req.id),
                crate::orders::OrderType::SystemLevel(p) => (p > 0 && loc1.dom().contains(req.id))
                    ==> ({
                    let b1 = BookModel { loc: loc1, ..b.with_side(oside, sw.levels) };
                    let (ms, mp) = loc1[req.id];
                    match levels_removed_order(b1.side_levels(ms), mp, req.id) {
                        Some(om) => om.side == req.side && om.order_type == req.order_type,
                        None => true,
                    }
                }),
                _ => true,
            }
        } else {
            true
        }
    }
}

/// The lesser of two integers.
pub open spec fn min_int(a: int, b: int) -> int {
    if a < b {
        a
    } else {
        b
    }
}

/// How the executions of one match align with the removed makers: each
/// removed maker is the maker of the execution at its position, and when
/// there is one more execution than removals its maker is still resting.
#[verifier::rlimit(60)]
pub proof fn lemma_hb_match_execs(levels: LevelsModel, taker: OrderModel, price: u64, book_side: Side)
    requires
        levels_wf(levels),
        taker.wf(),
    ensures
        ({
            let out = hb_match(levels, taker, price, book_side);
            &&& out.execs.len() == out.removed.len() || out.execs.len() == out.removed.len() + 1
            &&& forall|y: int|
                0 <= y < out.removed.len() ==> (#[trigger] out.execs[y]).maker_order_id
                    == out.removed[y]
            &&& out.execs.len() == out.removed.len() + 1 ==> has_order_at(
                out.levels,
                price,
                out.execs[out.execs.len() - 1].maker_order_id,
            )
        }),
{
    let out = hb_match(levels, taker, price, book_side);
    crate::price_levels::lemma_assoc_get_none(levels, price);
    if assoc_get(levels, price) is None {
        return ;
    }
    let i = sorted_key_index(levels, price);
    lemma_sorted_get(levels, price);
    let lvl0 = levels[i].1;
    let ml = match_level(taker, lvl0, price, book_side.spec_opposite());
    lemma_match_level(taker, lvl0, price, book_side.spec_opposite());
    let k = ml.removed.len() as int;
    assert(forall|j: int| 0 <= j < lvl0.len() ==> #[trigger] level_ids(lvl0)[j] == lvl0[j].id);
    assert forall|y: int| 0 <= y < out.removed.len() implies (
    #[trigger] out.execs[y]).maker_order_id == out.removed[y] by {
        assert(ml.removed[y] == level_ids(lvl0).take(k)[y]);
        assert(ml.execs[y].maker_order_id == level_ids(lvl0)[y]);
    }
    if out.execs.len() == out.removed.len() + 1 {
        assert(ml.execs.len() <= lvl0.len());
        assert(ml.level.len() > 0) by {
            assert(level_ids(ml.level).len() == lvl0.len() - k);
        }
        crate::price_levels::lemma_assoc_insert_at(levels, price, ml.level, i);
        assert(out.levels =~= levels.update(i, (price, ml.level)));
        assert(forall|x: int|
            0 <= x < out.levels.len() ==> (#[trigger] out.levels[x]).0 == levels[x].0);
        assert(assoc_sorted(out.levels));
        lemma_sorted_get(out.levels, price);
        assert(out.levels[i] == (price, ml.level));
        assert(out.levels[i].0 == price);
        assert(assoc_get(out.levels, price) == Some(out.levels[i].1));
        assert(assoc_get(out.levels, price) == Some(ml.level));
        let last_maker = ml.execs[ml.execs.len() - 1].maker_order_id;
        assert(last_maker == level_ids(lvl0)[k]);
        assert(level_ids(ml.level) =~= level_ids(lvl0).skip(k));
        assert(level_ids(ml.level)[0] == level_ids(lvl0)[k]);
        assert(level_ids(ml.level).contains(last_maker));
    }
}

} // verus!










