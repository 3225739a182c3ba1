use vstd::prelude::*;

use crate::apply::{apply_spec, dequeue_id, fresh_new_order, rest, set_live, unrest};
use crate::book::{better, insert_index, level_index, side_add, side_remove, side_sorted, LevelModel};
use crate::invariants::{lemma_insert_index_props, lemma_level_index_props};
use crate::liquidity::marketable;
use crate::matching::{can_trade, finish_aggressor, has_counterparty, match_step, reduce_front};
use crate::state::{level_ok, opposite, side_levels, side_wf, wf, with_side, EngineModel};
use crate::types::{EventView, Side, TimeInForce};

verus! {

/// The book is not crossed: when both sides hold orders, the best bid is
/// below the best ask, so no two resting orders could trade with each other.
pub open spec fn uncrossed(m: EngineModel) -> bool {
    m.bids.len() > 0 && m.asks.len() > 0 ==> m.bids[0].price < m.asks[0].price
}

/// The best price of `new` (if any) is that of `old` or of the level after it.
pub open spec fn front_kept_or_next(old: Seq<LevelModel>, new: Seq<LevelModel>) -> bool {
    new.len() > 0 ==> old.len() > 0 && (new[0].price == old[0].price || (old.len() > 1
        && new[0].price == old[1].price))
}

proof fn lemma_front_remove(levels: Seq<LevelModel>, p: i64, id: u64, q: u64)
    ensures
        front_kept_or_next(levels, side_remove(levels, p, id, q)),
{
    lemma_level_index_props(levels, p);
    let i = level_index(levels, p);
    let r = side_remove(levels, p, id, q);
    if r.len() > 0 && i < levels.len() && r.len() < levels.len() && i == 0 {
        assert(r[0] == levels[1]);
    }
}

proof fn lemma_front_reduce(opp: Seq<LevelModel>, qty: int, pop: bool)
    requires
        opp.len() > 0,
    ensures
        front_kept_or_next(opp, reduce_front(opp, qty, pop)),
{
    let r = reduce_front(opp, qty, pop);
    if r.len() > 0 && r.len() < opp.len() {
        assert(r[0] == opp[1]);
    }
}

/// The best price of a side after an addition at `p` is `p` or the old best.
proof fn lemma_front_add(side: Side, levels: Seq<LevelModel>, p: i64, id: u64, q: u64)
    ensures
        side_add(side, levels, p, id, q).len() > 0,
        side_add(side, levels, p, id, q)[0].price == p || (levels.len() > 0 && side_add(
            side,
            levels,
            p,
            id,
            q,
        )[0].price == levels[0].price),
{
    lemma_insert_index_props(side, levels, p);
    let i = insert_index(side, levels, p);
    let r = side_add(side, levels, p, id, q);
    if i > 0 {
        assert(r[0] == levels[0]);
    }
}

/// Taking orders out of one (sorted) side cannot cross the book.
proof fn lemma_uncrossed_shrink(m: EngineModel, side: Side, new: Seq<LevelModel>)
    requires
        uncrossed(m),
        side_sorted(side, side_levels(m, side)),
        front_kept_or_next(side_levels(m, side), new),
    ensures
        uncrossed(with_side(m, side, new)),
{
    let old = side_levels(m, side);
    if new.len() > 0 && old.len() > 1 {
        assert(better(side, old[0].price, old[1].price));
    }
}

/// Resting an order at a price that does not cross the other side keeps the
/// book uncrossed.
proof fn lemma_uncrossed_rest(m: EngineModel, side: Side, p: i64, id: u64, q: u64)
    requires
        uncrossed(m),
        !marketable(m, side, p),
    ensures
        uncrossed(rest(m, side, p, id, q)),
{
    lemma_front_add(side, side_levels(m, side), p, id, q);
}

/// Taking a known order out of its level keeps the book uncrossed.
proof fn lemma_uncrossed_unrest(m: EngineModel, id: u64)
    requires
        wf(m),
        uncrossed(m),
        m.live.contains_key(id),
    ensures
        uncrossed(unrest(m, id)),
{
    let lo = m.live[id];
    if let Some(p) = lo.order.price {
        let side = lo.order.side;
        assert(side_wf(side, side_levels(m, side), m.live));
        lemma_front_remove(side_levels(m, side), p, id, lo.remaining_quantity);
        lemma_uncrossed_shrink(
            m,
            side,
            side_remove(side_levels(m, side), p, id, lo.remaining_quantity),
        );
    }
}

/// Input events never cross the book: an order rests only at a price that
/// does not cross the other side.
pub proof fn lemma_apply_uncrossed(m: EngineModel, e: EventView)
    requires
        wf(m),
        uncrossed(m),
        fresh_new_order(m, e),
    ensures
        uncrossed(apply_spec(m, e).0),
{
    match e {
        EventView::NewOrder(o) => {
            if o.quantity > 0 {
                if let Some(lp) = o.price {
                    if !marketable(m, o.side, lp) {
                        let lo = crate::state::LiveOrder {
                            order: o,
                            remaining_quantity: o.quantity,
                            is_active: true,
                        };
                        lemma_uncrossed_rest(set_live(m, o.order_id, lo), o.side, lp, o.order_id, o.quantity);
                    }
                }
            }
        },
        EventView::CancelOrder { order_id } => {
            if m.live.contains_key(order_id) {
                crate::invariants::lemma_wf_queue_remove(m, order_id);
                lemma_uncrossed_unrest(dequeue_id(m, order_id), order_id);
            }
        },
        EventView::ModifyOrder { order_id, new_quantity, new_price } => {
            if m.live.contains_key(order_id) {
                lemma_uncrossed_unrest(m, order_id);
                let lo = m.live[order_id];
                let lo2 = crate::state::LiveOrder {
                    remaining_quantity: new_quantity,
                    order: crate::types::Order { price: new_price, ..lo.order },
                    ..lo
                };
                let m1 = set_live(dequeue_id(unrest(m, order_id), order_id), order_id, lo2);
                if let Some(p) = new_price {
                    if !marketable(m1, lo.order.side, p) {
                        lemma_uncrossed_rest(m1, lo.order.side, p, order_id, new_quantity);
                    }
                }
            }
        },
        _ => {},
    }
}

/// A matching step only takes from the best level of the other side.
pub proof fn lemma_step_uncrossed(m: EngineModel, id: u64)
    requires
        wf(m),
        uncrossed(m),
        can_trade(m, id),
        has_counterparty(m, id),
    ensures
        uncrossed(match_step(m, id).0),
{
    let a = m.live[id];
    let os = opposite(a.order.side);
    let opp = side_levels(m, os);
    let pid = opp[0].ids[0];
    assert(side_wf(os, opp, m.live));
    let r = match_step(m, id).0;
    let base = if !m.live.contains_key(pid) || !m.live[pid].is_active
        || m.live[pid].remaining_quantity == 0 {
        EngineModel { live: m.live.remove(pid), ..m }
    } else {
        EngineModel { live: r.live, next_trade: r.next_trade, next_sequence: r.next_sequence, ..m }
    };
    let qty: int = if !m.live.contains_key(pid) || !m.live[pid].is_active
        || m.live[pid].remaining_quantity == 0 {
        0
    } else {
        crate::matching::min_qty(a.remaining_quantity, m.live[pid].remaining_quantity) as int
    };
    let pop = !m.live.contains_key(pid) || !m.live[pid].is_active
        || m.live[pid].remaining_quantity == 0 || m.live[pid].remaining_quantity - qty == 0;
    assert(r == with_side(base, os, reduce_front(opp, qty, pop)));
    lemma_front_reduce(opp, qty, pop);
    lemma_uncrossed_shrink(base, os, reduce_front(opp, qty, pop));
}

/// Settling an aggressor that has no acceptable counterparty left never
/// crosses the book: a good-till-canceled remainder rests below the best
/// ask (bid) or above the best bid (ask).
pub proof fn lemma_finish_uncrossed(m: EngineModel, id: u64)
    requires
        wf(m),
        uncrossed(m),
        !(can_trade(m, id) && has_counterparty(m, id)),
    ensures
        uncrossed(finish_aggressor(m, id).0),
{
    if can_trade(m, id) {
        let a = m.live[id];
        if let Some(lp) = a.order.price {
            if a.order.time_in_force == TimeInForce::GTC {
                let os = opposite(a.order.side);
                let opp = side_levels(m, os);
                assert(side_wf(os, opp, m.live));
                if opp.len() > 0 {
                    assert(level_ok(opp[0], os, m.live));
                }
                lemma_uncrossed_rest(m, a.order.side, lp, id, a.remaining_quantity);
            }
        }
    }
}

} // verus!
