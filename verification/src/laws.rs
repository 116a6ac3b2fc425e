//! The book's standing laws, stated and proved over the models that the
//! executable operations are specified against.

use vstd::prelude::*;
use vstd::seq_lib::lemma_no_dup_in_concat;

use crate::matching::{available_qty, has_order_at, hb_order_count, hb_total_init, level_find,
    level_ids, level_wf, levels_has_id, levels_removed_order, levels_wf,
    match_level, spec_add_order, sweep, BookModel, LevelModel, LevelsModel};
use crate::orders::{rejected_result, request_order_model, spec_min_q, OrderModel, OrderRequest,
    OrderStatus, OrderType};
use crate::price_levels::{assoc_get, assoc_keys, assoc_sorted};
use crate::types::{OrderId, Side};

verus! {

/// All ids resting in a half-book, by level in price order and in queue
/// order within each level.
pub open spec fn hb_all_ids(levels: LevelsModel) -> Seq<OrderId>
    decreases levels.len(),
{
    if levels.len() == 0 {
        Seq::<OrderId>::empty()
    } else {
        hb_all_ids(levels.drop_last()) + level_ids(levels.last().1)
    }
}

/// There are as many resting ids as resting orders.
pub proof fn lemma_hb_all_ids_len(levels: LevelsModel)
    ensures
        hb_all_ids(levels).len() == hb_order_count(levels),
    decreases levels.len(),
{
    if levels.len() > 0 {
        lemma_hb_all_ids_len(levels.drop_last());
        crate::matching::lemma_sum_levels_take_step(
            levels,
            levels.len() - 1,
            |l: LevelModel| l.len() as int,
        );
        assert(levels.take(levels.len() - 1) =~= levels.drop_last());
        assert(levels.take(levels.len() as int) =~= levels);
    }
}

/// An id stands in the flattened id list exactly when it rests in the book.
pub proof fn lemma_hb_all_ids_membership(levels: LevelsModel, id: OrderId)
    ensures
        hb_all_ids(levels).contains(id) <==> levels_has_id(levels, id),
    decreases levels.len(),
{
    if levels.len() > 0 {
        let front = levels.drop_last();
        lemma_hb_all_ids_membership(front, id);
        let lastids = level_ids(levels.last().1);
        if hb_all_ids(levels).contains(id) {
            let x = choose|x: int|
                0 <= x < hb_all_ids(levels).len() && hb_all_ids(levels)[x] == id;
            if x < hb_all_ids(front).len() {
                assert(hb_all_ids(front)[x] == id);
                assert(hb_all_ids(front).contains(id));
                let (i, j) = choose|i: int, j: int|
                    0 <= i < front.len() && 0 <= j < front[i].1.len() && front[i].1[j].id == id;
                assert(levels[i].1[j].id == id);
            } else {
                let j = x - hb_all_ids(front).len();
                assert(lastids[j] == id);
                assert(levels[levels.len() - 1].1[j].id == id);
            }
        }
        if levels_has_id(levels, id) {
            let (i, j) = choose|i: int, j: int|
                0 <= i < levels.len() && 0 <= j < levels[i].1.len() && levels[i].1[j].id == id;
            if i < levels.len() - 1 {
                assert(front[i].1[j].id == id);
                assert(levels_has_id(front, id));
                let x = choose|x: int|
                    0 <= x < hb_all_ids(front).len() && hb_all_ids(front)[x] == id;
                assert(hb_all_ids(levels)[x] == id);
            } else {
                assert(lastids[j] == id);
                assert(hb_all_ids(levels)[hb_all_ids(front).len() + j] == id);
            }
        }
    }
}

/// In a well-formed half-book no id rests twice.
pub proof fn lemma_hb_all_ids_no_dup(levels: LevelsModel)
    requires
        crate::matching::levels_distinct_ids(levels),
    ensures
        hb_all_ids(levels).no_duplicates(),
    decreases levels.len(),
{
    if levels.len() > 0 {
        let front = levels.drop_last();
        let lastids = level_ids(levels.last().1);
        lemma_hb_all_ids_no_dup(front);
        assert(lastids.no_duplicates()) by {
            assert forall|a: int, b: int| 0 <= a < b < lastids.len() implies lastids[a]
                != lastids[b] by {
                assert(levels[levels.len() - 1].1[a].id != levels[levels.len() - 1].1[b].id);
            }
        }
        assert forall|x: int, y: int|
            0 <= x < hb_all_ids(front).len() && 0 <= y < lastids.len() implies hb_all_ids(
            front,
        )[x] != lastids[y] by {
            assert(hb_all_ids(front).contains(hb_all_ids(front)[x]));
            lemma_hb_all_ids_membership(front, hb_all_ids(front)[x]);
            let (i, j) = choose|i: int, j: int|
                0 <= i < front.len() && 0 <= j < front[i].1.len() && front[i].1[j].id
                    == hb_all_ids(front)[x];
            assert(levels[i].1[j].id == hb_all_ids(front)[x]);
            assert(levels[levels.len() - 1].1[y].id == lastids[y]);
        }
        lemma_no_dup_in_concat(hb_all_ids(front), lastids);
    }
}

/// The book's order count is consistent: the locator has exactly one entry
/// per resting order, so its size is the sum of the two halves' order
/// counts.
pub proof fn lemma_order_count_consistent(b: BookModel)
    requires
        b.wf(),
    ensures
        b.loc.len() == hb_order_count(b.asks) + hb_order_count(b.bids),
{
    let ids = hb_all_ids(b.asks) + hb_all_ids(b.bids);
    lemma_hb_all_ids_len(b.asks);
    lemma_hb_all_ids_len(b.bids);
    lemma_hb_all_ids_no_dup(b.asks);
    lemma_hb_all_ids_no_dup(b.bids);
    crate::matching::lemma_hb_totals(b.asks);
    crate::matching::lemma_hb_totals(b.bids);
    assert forall|x: int, y: int|
        0 <= x < hb_all_ids(b.asks).len() && 0 <= y < hb_all_ids(b.bids).len() implies hb_all_ids(
        b.asks,
    )[x] != hb_all_ids(b.bids)[y] by {
        let xa = hb_all_ids(b.asks)[x];
        let yb = hb_all_ids(b.bids)[y];
        if xa == yb {
            assert(hb_all_ids(b.asks).contains(xa));
            assert(hb_all_ids(b.bids).contains(yb));
            lemma_hb_all_ids_membership(b.asks, xa);
            lemma_hb_all_ids_membership(b.bids, yb);
            crate::matching::lemma_has_id_at_some_price(b.asks, xa);
            crate::matching::lemma_has_id_at_some_price(b.bids, yb);
            let pa = choose|p: u64| #[trigger] has_order_at(b.asks, p, xa);
            let pb = choose|p: u64| #[trigger] has_order_at(b.bids, p, yb);
            assert(b.loc[xa] == (Side::Ask, pa));
            assert(b.loc[yb] == (Side::Bid, pb));
        }
    }
    lemma_no_dup_in_concat(hb_all_ids(b.asks), hb_all_ids(b.bids));
    assert(b.loc.dom() =~= ids.to_set()) by {
        assert forall|id: OrderId| b.loc.dom().contains(id) implies ids.to_set().contains(id) by {
            assert(has_order_at(b.side_levels(b.loc[id].0), b.loc[id].1, id));
            if b.loc[id].0 == Side::Ask {
                crate::matching::lemma_has_id_at_some_price(b.asks, id);
                lemma_hb_all_ids_membership(b.asks, id);
                let x = choose|x: int|
                    0 <= x < hb_all_ids(b.asks).len() && hb_all_ids(b.asks)[x] == id;
                assert(ids[x] == id);
            } else {
                crate::matching::lemma_has_id_at_some_price(b.bids, id);
                lemma_hb_all_ids_membership(b.bids, id);
                let x = choose|x: int|
                    0 <= x < hb_all_ids(b.bids).len() && hb_all_ids(b.bids)[x] == id;
                assert(ids[hb_all_ids(b.asks).len() + x] == id);
            }
        }
        assert forall|id: OrderId| ids.to_set().contains(id) implies b.loc.dom().contains(id) by {
            let x = choose|x: int| 0 <= x < ids.len() && ids[x] == id;
            if x < hb_all_ids(b.asks).len() {
                assert(hb_all_ids(b.asks)[x] == id);
                assert(hb_all_ids(b.asks).contains(id));
                lemma_hb_all_ids_membership(b.asks, id);
                crate::matching::lemma_has_id_at_some_price(b.asks, id);
                let p = choose|p: u64| #[trigger] has_order_at(b.asks, p, id);
            } else {
                assert(hb_all_ids(b.bids)[x - hb_all_ids(b.asks).len()] == id);
                assert(hb_all_ids(b.bids).contains(id));
                lemma_hb_all_ids_membership(b.bids, id);
                crate::matching::lemma_has_id_at_some_price(b.bids, id);
                let p = choose|p: u64| #[trigger] has_order_at(b.bids, p, id);
            }
        }
    }
    ids.unique_seq_to_set();
}

/// The locator is a faithful index: every entry points at a resting order
/// with that id at that side and price, and every resting order has exactly
/// that locator entry.
pub proof fn lemma_locator_faithful(b: BookModel)
    requires
        b.wf(),
    ensures
        forall|id: OrderId|
            #[trigger] b.loc.dom().contains(id) ==> has_order_at(
                b.side_levels(b.loc[id].0),
                b.loc[id].1,
                id,
            ),
        forall|id: OrderId, p: u64|
            #[trigger] has_order_at(b.asks, p, id) ==> b.loc.dom().contains(id) && b.loc[id] == (
            Side::Ask, p),
        forall|id: OrderId, p: u64|
            #[trigger] has_order_at(b.bids, p, id) ==> b.loc.dom().contains(id) && b.loc[id] == (
            Side::Bid, p),
{
}

/// The best price is the extremum of the occupied prices: the least ask and
/// the greatest bid, each absent exactly when its side is empty.
pub proof fn lemma_best_price_extremal(levels: LevelsModel, side: Side)
    requires
        levels_wf(levels),
    ensures
        levels.len() > 0 ==> ({
            let best = levels[crate::matching::best_index(levels, side)].0;
            &&& assoc_keys(levels).contains(best)
            &&& forall|q: u64|
                assoc_keys(levels).contains(q) ==> (if side == Side::Ask {
                    best <= q
                } else {
                    q <= best
                })
        }),
{
    if levels.len() > 0 {
        let best = levels[crate::matching::best_index(levels, side)].0;
        assert(assoc_keys(levels)[crate::matching::best_index(levels, side)] == best);
        assert forall|q: u64| assoc_keys(levels).contains(q) implies (if side == Side::Ask {
            best <= q
        } else {
            q <= best
        }) by {
            let j = choose|j: int| 0 <= j < levels.len() && assoc_keys(levels)[j] == q;
            assert(levels[j].0 == q);
        }
    }
}

/// Quantity conservation of one match: the fill is the lesser of the two
/// remaining quantities, both sides lose exactly that much, and each side
/// gains one fill record of that quantity against the other's id.
pub proof fn lemma_fill_conservation(taker: OrderModel, maker: OrderModel, price: u64)
    ensures
        ({
            let f = spec_min_q(maker.remaining_qty, taker.remaining_qty);
            let taker2 = taker.after_fill(f, price, maker.id);
            let maker2 = maker.after_fill(f, price, taker.id);
            &&& (taker.remaining_qty - taker2.remaining_qty) + (maker.remaining_qty
                - maker2.remaining_qty) == 2 * f
            &&& taker2.fills == taker.fills.push(
                crate::orders::FillModel { qty: f, price, order_id: maker.id },
            )
            &&& maker2.fills == maker.fills.push(
                crate::orders::FillModel { qty: f, price, order_id: taker.id },
            )
        }),
{
}

/// Price-time priority: when a match against one level produces any
/// execution for a later order of the queue, every earlier order of the
/// queue was fully consumed and left the level.
pub proof fn lemma_price_time_priority(taker: OrderModel, lvl: LevelModel, price: u64, ts: Side, i: int, j: int)
    requires
        taker.wf(),
        forall|x: int| 0 <= x < lvl.len() ==> (#[trigger] lvl[x]).wf() && lvl[x].remaining_qty > 0,
        forall|x: int, y: int| 0 <= x < y < lvl.len() ==> lvl[x].id != lvl[y].id,
        0 <= i < j < lvl.len(),
        exists|x: int|
            0 <= x < match_level(taker, lvl, price, ts).execs.len() && match_level(
                taker,
                lvl,
                price,
                ts,
            ).execs[x].maker_order_id == lvl[j].id,
    ensures
        match_level(taker, lvl, price, ts).removed.contains(lvl[i].id),
{
    let ml = match_level(taker, lvl, price, ts);
    crate::matching::lemma_match_level(taker, lvl, price, ts);
    let x = choose|x: int|
        0 <= x < ml.execs.len() && ml.execs[x].maker_order_id == lvl[j].id;
    assert(ml.execs[x].maker_order_id == level_ids(lvl)[x]);
    assert(level_ids(lvl)[x] == lvl[x].id);
    assert(x == j) by {
        if x < j {
            assert(lvl[x].id != lvl[j].id);
        }
        if x > j {
            assert(lvl[j].id != lvl[x].id);
        }
    }
    assert(ml.execs.len() > j);
    assert(ml.removed.len() >= j);
    assert(ml.removed[i] == level_ids(lvl).take(ml.removed.len() as int)[i]);
    assert(ml.removed[i] == lvl[i].id);
}

/// Empty-level pruning: a well-formed half-book has no empty level, and its
/// occupied-price set is exactly the key set of its sparse level store.
pub proof fn lemma_empty_level_pruning(hb: crate::book::HalfBook)
    requires
        hb.wf(),
    ensures
        forall|i: int| 0 <= i < hb.levels().len() ==> (#[trigger] hb.levels()[i]).1.len() > 0,
        hb.spec_prices() == assoc_keys(hb.levels()),
{
    crate::book::lemma_model_keys(hb.price_levels.data@);
    assert(hb.spec_prices() =~= assoc_keys(hb.levels()));
}

/// Fill-or-kill atomicity at the model: a rejected fill-or-kill submission
/// leaves the book exactly as it was and reports a cancellation with no
/// executions.
pub proof fn lemma_fok_atomicity(b: BookModel, req: OrderRequest)
    requires
        req.order_type matches OrderType::FOK(p) && available_qty(
            b.side_levels(req.side.spec_opposite()),
            req.side.spec_opposite(),
            p,
        ) < req.qty,
    ensures
        spec_add_order(b, req).book == b,
        spec_add_order(b, req).result == rejected_result(req),
        spec_add_order(b, req).result.status == OrderStatus::Cancelled,
        spec_add_order(b, req).execs == Seq::<crate::orders::ExecModel>::empty(),
{
}

/// System-level merging: two successive system-level submissions on the
/// same side at one price, under one stable id and with nothing on the
/// opposite side to match, leave a single resting order carrying the sum of
/// the two quantities under that id.
#[verifier::rlimit(100)]
pub proof fn lemma_system_level_merge(b0: BookModel, side: Side, p: u64, q1: u64, q2: u64, id: OrderId)
    requires
        b0.wf(),
        p > 0,
        q1 > 0,
        q2 > 0,
        b0.side_levels(side.spec_opposite()).len() == 0,
        !b0.loc.dom().contains(id),
        hb_total_init(b0.asks) + hb_total_init(b0.bids) + q1 + q2 <= u64::MAX,
    ensures
        ({
            let req1 = OrderRequest { id, side, qty: q1, order_type: OrderType::SystemLevel(p) };
            let req2 = OrderRequest { id, side, qty: q2, order_type: OrderType::SystemLevel(p) };
            let b1 = spec_add_order(b0, req1).book;
            let b2 = spec_add_order(b1, req2).book;
            &&& b1.loc == b0.loc.insert(id, (side, p))
            &&& b2.loc == b1.loc
            &&& has_order_at(b2.side_levels(side), p, id)
            &&& ({
                let om = levels_removed_order(b2.side_levels(side), p, id).unwrap();
                om.remaining_qty == q1 + q2 && om.initial_qty == q1 + q2 && om.id == id
            })
        }),
{
    let req1 = OrderRequest { id, side, qty: q1, order_type: OrderType::SystemLevel(p) };
    let req2 = OrderRequest { id, side, qty: q2, order_type: OrderType::SystemLevel(p) };
    let oside = side.spec_opposite();
    let olev0 = b0.side_levels(oside);
    let t1 = request_order_model(req1);
    let sw1 = sweep(olev0, t1, oside, crate::matching::window_limit(req1.order_type));
    assert(sw1.levels == olev0 && sw1.taker == t1 && sw1.removed == Seq::<OrderId>::empty());
    assert(b0.loc.remove_keys(sw1.removed.to_set()) =~= b0.loc);
    let lv0 = b0.side_levels(side);
    let lv1 = crate::matching::levels_add(lv0, p, t1);
    let b1 = spec_add_order(b0, req1).book;
    assert(b1.loc == b0.loc.insert(id, (side, p)));
    assert(b1.side_levels(side) == lv1);
    assert(b1.side_levels(oside) == olev0);
    crate::matching::lemma_levels_add_has(lv0, p, t1);
    assert(has_order_at(lv1, p, id));

    // the freshly rested order is found whole at its price.
    assert(assoc_sorted(lv0));
    crate::price_levels::lemma_assoc_get_none(lv0, p);
    let om1 = levels_removed_order(lv1, p, id).unwrap();
    assert(om1 == t1 && levels_removed_order(lv1, p, id) is Some) by {
        lemma_rested_order_found(b0, lv0, p, t1);
    }

    // second submission: nothing matches, the residual merges.
    let t2 = request_order_model(req2);
    let sw2 = sweep(olev0, t2, oside, crate::matching::window_limit(req2.order_type));
    assert(sw2.levels == olev0 && sw2.taker == t2 && sw2.removed == Seq::<OrderId>::empty());
    assert(b1.loc.remove_keys(sw2.removed.to_set()) =~= b1.loc);
    assert(b1.loc.dom().contains(id));
    assert(b1.loc[id] == (side, p));
    let b2 = spec_add_order(b1, req2).book;
    assert(b2.loc == b1.loc);
    assert(b2.side_levels(side) == crate::matching::levels_merge_order(lv1, p, id, t2));
    let lvl = assoc_get(lv1, p).unwrap();
    let jj = level_find(lvl, id);
    crate::matching::lemma_level_find(lvl, id);
    assert(jj != -1);
    assert(lvl[jj] == t1) by {
        lemma_rested_order_found(b0, lv0, p, t1);
    }
    let merged = t1.after_merge(t2);
    crate::matching::lemma_hb_totals(b0.asks);
    crate::matching::lemma_hb_totals(b0.bids);
    assert(q1 + q2 <= u64::MAX);
    assert(merged.remaining_qty == q1 + q2 && merged.initial_qty == q1 + q2 && merged.id == id);
    let lvl2 = lvl.update(jj, merged);
    let lv2 = crate::price_levels::assoc_insert(lv1, p, lvl2);
    assert(b2.side_levels(side) == lv2);
    // the merged order is found at its price in the final book.
    assert(levels_wf(lv1)) by {
        lemma_rested_levels_wf(b0, lv0, p, t1);
    }
    crate::matching::lemma_update_order_has(lv1, p, jj, merged);
    assert(has_order_at(lv2, p, id));
    let i1 = crate::matching::position_of_price(lv1, p);
    crate::price_levels::lemma_assoc_insert_at(lv1, p, lvl2, i1);
    assert(lv2 =~= lv1.update(i1, (p, lvl2)));
    assert(forall|x: int| 0 <= x < lv2.len() ==> (#[trigger] lv2[x]).0 == lv1[x].0);
    assert(assoc_sorted(lv2));
    crate::matching::lemma_sorted_get(lv2, p);
    assert(lv2[i1] == (p, lvl2));
    assert(lv2[i1].0 == p);
    assert(assoc_get(lv2, p) == Some(lv2[i1].1));
    assert(assoc_get(lv2, p) == Some(lvl2));
    crate::matching::lemma_level_find(lvl2, id);
    let j2 = level_find(lvl2, id);
    assert(j2 != -1);
    assert(lvl2[j2].id == id);
    assert(j2 == jj) by {
        assert(forall|x: int| 0 <= x < lvl.len() ==> #[trigger] level_ids(lvl)[x] == lvl[x].id);
        if j2 != jj {
            assert(lvl2[j2] == lvl[j2]);
            assert(lvl[j2].id == id);
            assert(lvl[jj].id == id);
            // two distinct queue places with one id contradict distinctness.
            let ii = crate::matching::position_of_price(lv1, p);
            assert(lv1[ii].1 == lvl);
            assert(lv1[ii].1[j2].id != lv1[ii].1[jj].id);
        }
    }
    assert(levels_removed_order(lv2, p, id) == Some(merged));
}

/// Helper: after resting a fresh order, it is the one found by id at its
/// price, and the side stays well-formed.
proof fn lemma_rested_order_found(b0: BookModel, lv0: LevelsModel, p: u64, t: OrderModel)
    requires
        b0.wf(),
        lv0 == b0.side_levels(t.side),
        t.remaining_qty > 0,
        t.wf(),
        !b0.loc.dom().contains(t.id),
        hb_total_init(lv0) + t.initial_qty <= u64::MAX,
    ensures
        ({
            let lv1 = crate::matching::levels_add(lv0, p, t);
            &&& levels_removed_order(lv1, p, t.id) == Some(t)
            &&& assoc_get(lv1, p) is Some
            &&& ({
                let lvl = assoc_get(lv1, p).unwrap();
                let j = level_find(lvl, t.id);
                j != -1 && lvl[j] == t
            })
        }),
{
    let lv1 = crate::matching::levels_add(lv0, p, t);
    assert(!levels_has_id(lv0, t.id)) by {
        crate::matching::lemma_has_id_at_some_price(lv0, t.id);
        if levels_has_id(lv0, t.id) {
            let q = choose|q: u64| #[trigger] has_order_at(lv0, q, t.id);
            if t.side == Side::Ask {
                assert(has_order_at(b0.asks, q, t.id));
            } else {
                assert(has_order_at(b0.bids, q, t.id));
            }
        }
    }
    crate::price_levels::lemma_assoc_get_none(lv0, p);
    if assoc_get(lv0, p) is Some {
        let i = crate::matching::position_of_price(lv0, p);
        let lvl0 = lv0[i].1;
        let lvl1 = lvl0.push(t);
        crate::price_levels::lemma_assoc_insert_at(lv0, p, lvl1, i);
        assert(lv1 =~= lv0.update(i, (p, lvl1)));
        assert(forall|x: int| 0 <= x < lv1.len() ==> (#[trigger] lv1[x]).0 == lv0[x].0);
        assert(assoc_sorted(lv1));
        crate::matching::lemma_sorted_get(lv1, p);
        assert(lv1[i] == (p, lvl1));
        assert(lv1[i].0 == p);
        assert(assoc_get(lv1, p) == Some(lv1[i].1));
        assert(assoc_get(lv1, p) == Some(lvl1));
        crate::matching::lemma_level_find(lvl1, t.id);
        let j = level_find(lvl1, t.id);
        assert(forall|x: int| 0 <= x < lvl1.len() ==> #[trigger] level_ids(lvl1)[x] == lvl1[x].id);
        assert(lvl1[lvl0.len() as int].id == t.id);
        assert(level_ids(lvl1)[lvl0.len() as int] == lvl1[lvl0.len() as int].id);
        assert(level_ids(lvl1).contains(t.id));
        assert(j != -1);
        assert(j == lvl0.len()) by {
            if j < lvl0.len() {
                assert(lvl1[j] == lvl0[j]);
                assert(lvl0[j].id == t.id);
                assert(level_ids(lvl0)[j] == t.id);
                assert(has_order_at(lv0, p, t.id));
                crate::matching::lemma_has_id_at_some_price(lv0, t.id);
                assert(levels_has_id(lv0, t.id));
            }
        }
        assert(lvl1[j] == t);
    } else {
        assert(!assoc_keys(lv0).contains(p));
        let i = crate::matching::insertion_point(lv0, p);
        crate::price_levels::lemma_assoc_insert_at(lv0, p, seq![t], i);
        assert(lv1 =~= lv0.insert(i, (p, seq![t])));
        assert(assoc_sorted(lv1)) by {
            assert forall|x: int, y: int| 0 <= x < y < lv1.len() implies lv1[x].0 < lv1[y].0 by {
                let ox = if x < i {
                    x
                } else {
                    x - 1
                };
                let oy = if y < i {
                    y
                } else {
                    y - 1
                };
                if x != i && y != i {
                    assert(lv1[x] == lv0[ox]);
                    assert(lv1[y] == lv0[oy]);
                }
            }
        }
        crate::matching::lemma_sorted_get(lv1, p);
        assert(lv1[i] == (p, seq![t]));
        assert(lv1[i].0 == p);
        assert(assoc_get(lv1, p) == Some(lv1[i].1));
        assert(assoc_get(lv1, p) == Some(seq![t]));
        assert(level_find(seq![t], t.id) == 0);
    }
}

/// Helper: resting a fresh order keeps the side's liquidity well-formed.
proof fn lemma_rested_levels_wf(b0: BookModel, lv0: LevelsModel, p: u64, t: OrderModel)
    requires
        b0.wf(),
        lv0 == b0.side_levels(t.side),
        t.remaining_qty > 0,
        t.wf(),
        !b0.loc.dom().contains(t.id),
        hb_total_init(lv0) + t.initial_qty <= u64::MAX,
    ensures
        levels_wf(crate::matching::levels_add(lv0, p, t)),
{
    let lv1 = crate::matching::levels_add(lv0, p, t);
    assert(!levels_has_id(lv0, t.id)) by {
        crate::matching::lemma_has_id_at_some_price(lv0, t.id);
        if levels_has_id(lv0, t.id) {
            let q = choose|q: u64| #[trigger] has_order_at(lv0, q, t.id);
            if t.side == Side::Ask {
                assert(has_order_at(b0.asks, q, t.id));
            } else {
                assert(has_order_at(b0.bids, q, t.id));
            }
        }
    }
    lemma_levels_add_wf(lv0, p, t);
}

/// Resting a fresh well-formed order keeps a half-book's liquidity
/// well-formed.
pub proof fn lemma_levels_add_wf(lv0: LevelsModel, p: u64, t: OrderModel)
    requires
        levels_wf(lv0),
        t.wf(),
        t.remaining_qty > 0,
        !levels_has_id(lv0, t.id),
        hb_total_init(lv0) + t.initial_qty <= u64::MAX,
    ensures
        levels_wf(crate::matching::levels_add(lv0, p, t)),
        hb_total_init(crate::matching::levels_add(lv0, p, t)) == hb_total_init(lv0)
            + t.initial_qty,
{
    let lv1 = crate::matching::levels_add(lv0, p, t);
    crate::price_levels::lemma_assoc_get_none(lv0, p);
    if assoc_get(lv0, p) is Some {
        let i = crate::matching::position_of_price(lv0, p);
        let lvl0 = lv0[i].1;
        crate::price_levels::lemma_assoc_insert_at(lv0, p, lvl0.push(t), i);
        assert(lv1 =~= lv0.update(i, (p, lvl0.push(t))));
        lemma_add_update_wf(lv0, p, t, i);
    } else {
        assert(!assoc_keys(lv0).contains(p));
        let i = crate::matching::insertion_point(lv0, p);
        crate::price_levels::lemma_assoc_insert_at(lv0, p, seq![t], i);
        assert(lv1 =~= lv0.insert(i, (p, seq![t])));
        lemma_add_insert_wf(lv0, p, t, i);
    }
}

/// The update case of `lemma_levels_add_wf`.
proof fn lemma_add_update_wf(lv0: LevelsModel, p: u64, t: OrderModel, i: int)
    requires
        levels_wf(lv0),
        t.wf(),
        t.remaining_qty > 0,
        !levels_has_id(lv0, t.id),
        hb_total_init(lv0) + t.initial_qty <= u64::MAX,
        0 <= i < lv0.len(),
        lv0[i].0 == p,
        crate::matching::levels_add(lv0, p, t) == lv0.update(i, (p, lv0[i].1.push(t))),
    ensures
        levels_wf(crate::matching::levels_add(lv0, p, t)),
        hb_total_init(crate::matching::levels_add(lv0, p, t)) == hb_total_init(lv0)
            + t.initial_qty,
{
    let lvl0 = lv0[i].1;
    let out = lv0.update(i, (p, lvl0.push(t)));
    crate::matching::lemma_sum_levels_update(
        lv0,
        i,
        (p, lvl0.push(t)),
        |l: LevelModel| crate::matching::level_init_qty(l),
    );
    crate::matching::lemma_sum_orders_push(lvl0, t, |o: OrderModel| o.initial_qty as int);
    assert(assoc_sorted(out));
    assert forall|x: int| 0 <= x < out.len() implies level_wf(#[trigger] out[x].1) by {
        if x == i {
            assert(forall|b: int| 0 <= b < lvl0.len() ==> lvl0.push(t)[b] == lvl0[b]);
            assert(lvl0.push(t).last() == t);
        }
    }
    assert(crate::matching::levels_distinct_ids(out)) by {
        assert forall|a1: int, b1: int, a2: int, b2: int|
            0 <= a1 < out.len() && 0 <= b1 < out[a1].1.len() && 0 <= a2 < out.len() && 0 <= b2
                < out[a2].1.len() && (a1 != a2 || b1 != b2) implies #[trigger] out[a1].1[b1].id
            != #[trigger] out[a2].1[b2].id by {
            if a1 == i && b1 == lvl0.len() {
                assert(out[a1].1[b1].id == t.id);
                assert(lv0[a2].1[b2].id != t.id);
            } else if a2 == i && b2 == lvl0.len() {
                assert(out[a2].1[b2].id == t.id);
                assert(lv0[a1].1[b1].id != t.id);
            } else {
                assert(out[a1].1[b1].id == lv0[a1].1[b1].id);
                assert(out[a2].1[b2].id == lv0[a2].1[b2].id);
            }
        }
    }
}

/// The insert case of `lemma_levels_add_wf`.
proof fn lemma_add_insert_wf(lv0: LevelsModel, p: u64, t: OrderModel, i: int)
    requires
        levels_wf(lv0),
        t.wf(),
        t.remaining_qty > 0,
        !levels_has_id(lv0, t.id),
        hb_total_init(lv0) + t.initial_qty <= u64::MAX,
        0 <= i <= lv0.len(),
        forall|j: int| 0 <= j < i ==> lv0[j].0 < p,
        i < lv0.len() ==> lv0[i].0 > p,
        crate::matching::levels_add(lv0, p, t) == lv0.insert(i, (p, seq![t])),
    ensures
        levels_wf(crate::matching::levels_add(lv0, p, t)),
        hb_total_init(crate::matching::levels_add(lv0, p, t)) == hb_total_init(lv0)
            + t.initial_qty,
{
    let out = lv0.insert(i, (p, seq![t]));
    crate::matching::lemma_sum_levels_insert(
        lv0,
        i,
        (p, seq![t]),
        |l: LevelModel| crate::matching::level_init_qty(l),
    );
    assert(crate::matching::level_init_qty(seq![t]) == t.initial_qty) by {
        assert(crate::matching::level_init_qty(Seq::<OrderModel>::empty()) == 0);
        assert(seq![t].drop_last() =~= Seq::<OrderModel>::empty());
        assert(seq![t].last() == t);
    }
    assert(assoc_sorted(out));
    assert forall|x: int| 0 <= x < out.len() implies level_wf(#[trigger] out[x].1) by {
        if x == i {
            assert(out[x].1 == seq![t]);
        } else if x < i {
            assert(out[x].1 == lv0[x].1);
        } else {
            assert(out[x].1 == lv0[x - 1].1);
        }
    }
    assert(crate::matching::levels_distinct_ids(out)) by {
        assert forall|a1: int, b1: int, a2: int, b2: int|
            0 <= a1 < out.len() && 0 <= b1 < out[a1].1.len() && 0 <= a2 < out.len() && 0 <= b2
                < out[a2].1.len() && (a1 != a2 || b1 != b2) implies #[trigger] out[a1].1[b1].id
            != #[trigger] out[a2].1[b2].id by {
            if a1 == i {
                assert(out[a1].1[b1].id == t.id);
                if a2 != i {
                    let oa2 = if a2 < i {
                        a2
                    } else {
                        a2 - 1
                    };
                    assert(out[a2].1[b2].id == lv0[oa2].1[b2].id);
                }
            } else if a2 == i {
                assert(out[a2].1[b2].id == t.id);
                let oa1 = if a1 < i {
                    a1
                } else {
                    a1 - 1
                };
                assert(out[a1].1[b1].id == lv0[oa1].1[b1].id);
            } else {
                let oa1 = if a1 < i {
                    a1
                } else {
                    a1 - 1
                };
                let oa2 = if a2 < i {
                    a2
                } else {
                    a2 - 1
                };
                assert(out[a1].1[b1].id == lv0[oa1].1[b1].id);
                assert(out[a2].1[b2].id == lv0[oa2].1[b2].id);
            }
        }
    }
}

} // verus!
