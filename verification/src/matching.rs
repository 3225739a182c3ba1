use vstd::prelude::*;

use crate::apply::{deactivated, rejected, rest, set_live};
use crate::book::{levels_view, LevelModel, PriceLevel};
use crate::crossing::{lemma_finish_uncrossed, lemma_step_uncrossed, uncrossed};
use crate::resting::{lemma_finish_quantity, lemma_step_quantity, resting_have_quantity};
use crate::invariants::{lemma_wf_book_add, lemma_wf_level_bounded, lemma_wf_set_live};
use crate::types::{events_view, Event};
use std::collections::VecDeque;
use crate::liquidity::within_limit;
use crate::book::better;
use crate::invariants::{lemma_not_on_side, lemma_side_contains_intro, lemma_side_member_level, lemma_side_wf_frame};
use crate::state::{
    in_book, lemma_sum_agree, lemma_sum_drop_first, level_ok, opposite, resting_at, side_contains,
    side_levels, side_wf, wf, with_side, EngineModel, EngineState, LiveOrder,
};
use crate::types::{EventView, Side, TimeInForce, Trade};

verus! {

/// The counter after `x`, wrapping to zero after the largest value.
pub open spec fn next_id(x: u64) -> u64 {
    if x == u64::MAX {
        0
    } else {
        (x + 1) as u64
    }
}

/// Number of resting entries on one side.
pub open spec fn side_count(levels: Seq<LevelModel>) -> nat
    decreases levels.len(),
{
    if levels.len() == 0 {
        0
    } else {
        levels[0].ids.len() + side_count(levels.drop_first())
    }
}

/// Number of resting entries in the book.
pub open spec fn book_count(m: EngineModel) -> nat {
    side_count(m.bids) + side_count(m.asks)
}

/// Order `id` is known, active and has quantity left.
pub open spec fn can_trade(m: EngineModel, id: u64) -> bool {
    &&& m.live.contains_key(id)
    &&& m.live[id].is_active
    &&& m.live[id].remaining_quantity > 0
}

/// The best level of the other side exists, is acceptable to the aggressor
/// `id` (market orders accept any price), and has an order at its front.
pub open spec fn has_counterparty(m: EngineModel, id: u64) -> bool {
    let a = m.live[id];
    let opp = side_levels(m, opposite(a.order.side));
    &&& opp.len() > 0
    &&& (a.order.price is None || within_limit(a.order.side, opp[0].price, a.order.price->0))
    &&& opp[0].ids.len() > 0
}

/// The best level after `qty` is taken from it, and, when `pop`, its front
/// order leaves; an emptied level disappears.
pub open spec fn reduce_front(opp: Seq<LevelModel>, qty: int, pop: bool) -> Seq<LevelModel> {
    let lvl = opp[0];
    let nl = LevelModel {
        price: lvl.price,
        ids: if pop {
            lvl.ids.drop_first()
        } else {
            lvl.ids
        },
        total: (lvl.total - qty) as u128,
    };
    if nl.ids.len() == 0 {
        opp.drop_first()
    } else {
        opp.update(0, nl)
    }
}

/// The smaller of two quantities.
pub open spec fn min_qty(a: u64, b: u64) -> u64 {
    if a <= b {
        a
    } else {
        b
    }
}

/// One matching step of aggressor `id` against the order at the front of the
/// best level of the other side. A front order that is unknown, inactive or
/// has nothing left is dropped from the level without a trade. Otherwise
/// they trade the smaller of their remaining quantities at the resting
/// order's price; the trade, then the aggressor's fill event, then the
/// resting order's fill event are emitted; a filled resting order leaves the
/// level and the record of orders.
pub open spec fn match_step(m: EngineModel, id: u64) -> (EngineModel, Seq<EventView>) {
    let a = m.live[id];
    let side = a.order.side;
    let os = opposite(side);
    let opp = side_levels(m, os);
    let lvl = opp[0];
    let pid = lvl.ids[0];
    if !m.live.contains_key(pid) || !m.live[pid].is_active || m.live[pid].remaining_quantity == 0 {
        (with_side(EngineModel { live: m.live.remove(pid), ..m }, os, reduce_front(opp, 0, true)),
        Seq::empty())
    } else {
        let p = m.live[pid];
        let qty = min_qty(a.remaining_quantity, p.remaining_quantity);
        let trade = Trade {
            trade_id: m.next_trade,
            buy_order_id: if side == Side::Bid {
                id
            } else {
                pid
            },
            sell_order_id: if side == Side::Ask {
                id
            } else {
                pid
            },
            price: lvl.price,
            quantity: qty,
            sequence: m.next_sequence,
        };
        let a2 = LiveOrder { remaining_quantity: (a.remaining_quantity - qty) as u64, ..a };
        let p2 = LiveOrder { remaining_quantity: (p.remaining_quantity - qty) as u64, ..p };
        let pfilled = p2.remaining_quantity == 0;
        let live2 = (if pfilled {
            m.live.remove(pid)
        } else {
            m.live.insert(pid, p2)
        }).insert(id, a2);
        let ev_a = if a2.remaining_quantity == 0 {
            EventView::OrderFilled { order_id: id }
        } else {
            EventView::OrderPartiallyFilled {
                order_id: id,
                filled_quantity: qty,
                remaining_quantity: a2.remaining_quantity,
            }
        };
        let ev_p = if pfilled {
            EventView::OrderFilled { order_id: pid }
        } else {
            EventView::OrderPartiallyFilled {
                order_id: pid,
                filled_quantity: qty,
                remaining_quantity: p2.remaining_quantity,
            }
        };
        let m2 = EngineModel {
            live: live2,
            next_trade: next_id(m.next_trade),
            next_sequence: next_id(m.next_sequence),
            ..m
        };
        (with_side(m2, os, reduce_front(opp, qty as int, pfilled)), seq![
            EventView::Trade(trade),
            ev_a,
            ev_p,
        ])
    }
}

/// Decreases at every matching step.
pub open spec fn run_measure(m: EngineModel, id: u64) -> nat {
    book_count(m) + if can_trade(m, id) {
        1nat
    } else {
        0nat
    }
}

pub proof fn lemma_side_count_update0(opp: Seq<LevelModel>, nl: LevelModel)
    requires
        opp.len() > 0,
    ensures
        side_count(opp.update(0, nl)) == side_count(opp) - opp[0].ids.len() + nl.ids.len(),
{
    assert(opp.update(0, nl).drop_first() =~= opp.drop_first());
}

pub proof fn lemma_book_count_with_side(m: EngineModel, s: Side, levels: Seq<LevelModel>)
    ensures
        book_count(with_side(m, s, levels)) == book_count(m) - side_count(side_levels(m, s))
            + side_count(levels),
{
}

/// Every matching step makes progress: a resting entry leaves the book, or
/// the aggressor has nothing left.
pub proof fn lemma_step_measure(m: EngineModel, id: u64)
    requires
        can_trade(m, id),
        has_counterparty(m, id),
    ensures
        run_measure(match_step(m, id).0, id) < run_measure(m, id),
{
    let a = m.live[id];
    let os = opposite(a.order.side);
    let opp = side_levels(m, os);
    let lvl = opp[0];
    let pid = lvl.ids[0];
    let r = match_step(m, id).0;
    if !m.live.contains_key(pid) || !m.live[pid].is_active || m.live[pid].remaining_quantity == 0 {
        let nopp = reduce_front(opp, 0, true);
        if lvl.ids.len() > 1 {
            lemma_side_count_update0(opp, nopp[0]);
        }
        lemma_book_count_with_side(EngineModel { live: m.live.remove(pid), ..m }, os, nopp);
    } else {
        let p = m.live[pid];
        let qty = min_qty(a.remaining_quantity, p.remaining_quantity);
        let pfilled = p.remaining_quantity - qty == 0;
        let nopp = reduce_front(opp, qty as int, pfilled);
        if nopp.len() == opp.len() {
            lemma_side_count_update0(opp, nopp[0]);
        }
        lemma_book_count_with_side(
            EngineModel {
                live: r.live,
                next_trade: next_id(m.next_trade),
                next_sequence: next_id(m.next_sequence),
                ..m
            },
            os,
            nopp,
        );
        if !pfilled {
            assert(r.live[id].remaining_quantity == 0);
        }
    }
}

/// The matching loop of aggressor `id`: steps while it can trade and the
/// best level of the other side is acceptable.
pub open spec fn run_aggressor(m: EngineModel, id: u64) -> (EngineModel, Seq<EventView>)
    decreases run_measure(m, id),
{
    if can_trade(m, id) && has_counterparty(m, id) {
        let r1 = match_step(m, id);
        proof {
            lemma_step_measure(m, id);
        }
        let r2 = run_aggressor(r1.0, id);
        (r2.0, r1.1 + r2.1)
    } else {
        (m, Seq::empty())
    }
}

/// What happens to an aggressor that still has quantity after matching: a
/// market order is canceled; a limit order rests (GTC), is canceled (IOC) or
/// is rejected (FOK).
pub open spec fn finish_aggressor(m: EngineModel, id: u64) -> (EngineModel, Seq<EventView>) {
    if can_trade(m, id) {
        let a = m.live[id];
        match a.order.price {
            None => (set_live(m, id, deactivated(a)), seq![EventView::OrderCanceled { order_id: id }]),
            Some(lp) => match a.order.time_in_force {
                TimeInForce::GTC => (rest(m, a.order.side, lp, id, a.remaining_quantity), Seq::empty()),
                TimeInForce::IOC => (
                    set_live(m, id, deactivated(a)),
                    seq![EventView::OrderCanceled { order_id: id }],
                ),
                TimeInForce::FOK => (
                    set_live(m, id, deactivated(a)),
                    seq![rejected(id, "FOK: remaining quantity after matching (BUG)"@)],
                ),
            },
        }
    } else {
        (m, Seq::empty())
    }
}

/// Matching and then finishing one aggressor taken from the queue; an
/// unknown id is skipped.
pub open spec fn process_aggressor(m: EngineModel, id: u64) -> (EngineModel, Seq<EventView>) {
    if !m.live.contains_key(id) {
        (m, Seq::empty())
    } else {
        let r1 = run_aggressor(m, id);
        let r2 = finish_aggressor(r1.0, id);
        (r2.0, r1.1 + r2.1)
    }
}

/// Processing the aggressors `q` in order (first come, first served); while
/// one is processed, the queue holds those after it.
pub open spec fn drain(m: EngineModel, q: Seq<u64>) -> (EngineModel, Seq<EventView>)
    decreases q.len(),
{
    if q.len() == 0 {
        (m, Seq::empty())
    } else {
        let m0 = EngineModel { queue: q.drop_first(), ..m };
        let r1 = process_aggressor(m0, q[0]);
        let r2 = drain(r1.0, q.drop_first());
        (r2.0, r1.1 + r2.1)
    }
}

/// The effect of matching: every queued aggressor, in order.
pub open spec fn match_spec(m: EngineModel) -> (EngineModel, Seq<EventView>) {
    drain(m, m.queue)
}


/// The levels after the best one form a well-formed side, and the front
/// order of the best level is not among them.
pub proof fn lemma_side_wf_tail(side: Side, levels: Seq<LevelModel>, live: Map<u64, LiveOrder>)
    requires
        side_wf(side, levels, live),
        levels.len() > 0,
    ensures
        side_wf(side, levels.drop_first(), live),
        forall|x: u64| #[trigger] side_contains(levels.drop_first(), x) ==> side_contains(levels, x),
        forall|x: u64|
            #[trigger] side_contains(levels.drop_first(), x) ==> !levels[0].ids.contains(x),
{
    let t = levels.drop_first();
    assert forall|a: int, b: int| 0 <= a < b < t.len() implies better(
        side,
        #[trigger] t[a].price,
        #[trigger] t[b].price,
    ) by {
        assert(t[a] == levels[a + 1] && t[b] == levels[b + 1]);
    }
    assert forall|j: int| 0 <= j < t.len() implies level_ok(#[trigger] t[j], side, live) by {
        assert(t[j] == levels[j + 1]);
    }
    assert forall|x: u64| #[trigger] side_contains(t, x) implies side_contains(levels, x)
        && !levels[0].ids.contains(x) by {
        let j = choose|j: int| 0 <= j < t.len() && #[trigger] t[j].ids.contains(x);
        assert(t[j] == levels[j + 1]);
        assert(levels[j + 1].ids.contains(x));
        if levels[0].ids.contains(x) {
            lemma_side_member_level(side, levels, live, x, 0);
            lemma_side_member_level(side, levels, live, x, j + 1);
            assert(better(side, levels[0].price, levels[j + 1].price));
        }
    }
}

/// Taking quantity from the best level (and, when `pop`, its front order)
/// keeps a side well-formed, given the records change accordingly.
pub proof fn lemma_reduce_front_wf(
    os: Side,
    opp: Seq<LevelModel>,
    live: Map<u64, LiveOrder>,
    live2: Map<u64, LiveOrder>,
    qty: u64,
    pop: bool,
)
    requires
        side_wf(os, opp, live),
        opp.len() > 0,
        forall|x: u64|
            #[trigger] side_contains(opp, x) && x != opp[0].ids[0] ==> live2.contains_key(x)
                && live2[x] == live[x],
        pop ==> live[opp[0].ids[0]].remaining_quantity == qty,
        !pop ==> live2.contains_key(opp[0].ids[0]) && qty <= live[opp[0].ids[0]].remaining_quantity
            && live2[opp[0].ids[0]] == (LiveOrder {
            remaining_quantity: (live[opp[0].ids[0]].remaining_quantity - qty) as u64,
            ..live[opp[0].ids[0]]
        }),
    ensures
        side_wf(os, reduce_front(opp, qty as int, pop), live2),
        forall|x: u64|
            #[trigger] side_contains(reduce_front(opp, qty as int, pop), x) ==> side_contains(opp, x),
        pop ==> !side_contains(reduce_front(opp, qty as int, pop), opp[0].ids[0]),
{
    let lvl = opp[0];
    let ids = lvl.ids;
    let pid = ids[0];
    let rest = ids.drop_first();
    assert(level_ok(lvl, os, live));
    lemma_side_contains_intro(opp, 0, 0);
    lemma_side_wf_tail(os, opp, live);
    let t = opp.drop_first();
    // the records of the later levels do not change
    assert forall|x: u64| #[trigger] side_contains(t, x) implies live2.contains_key(x) && live2[x]
        == live[x] by {
        assert(side_contains(opp, x));
        assert(x != pid) by {
            assert(ids.contains(pid)) by {
                assert(ids[0] == pid);
            }
        }
    }
    lemma_side_wf_frame(os, t, live, live2);
    // the rest of the best level
    assert forall|k: int| 0 <= k < rest.len() implies live[#[trigger] rest[k]].remaining_quantity
        == live2[rest[k]].remaining_quantity && rest[k] != pid && live2.contains_key(rest[k])
        && live2[rest[k]] == live[rest[k]] by {
        assert(rest[k] == ids[k + 1]);
        lemma_side_contains_intro(opp, 0, k + 1);
    }
    lemma_sum_agree(rest, live, live2);
    lemma_sum_drop_first(ids, live);
    let nl = LevelModel {
        price: lvl.price,
        ids: if pop {
            rest
        } else {
            ids
        },
        total: (lvl.total - qty) as u128,
    };
    let r = reduce_front(opp, qty as int, pop);
    if nl.ids.len() > 0 {
        assert(level_ok(nl, os, live2)) by {
            if pop {
                assert(crate::state::level_sum(rest, live2) == lvl.total - qty);
                assert forall|a: int, b: int|
                    0 <= a < rest.len() && 0 <= b < rest.len() && a != b implies rest[a]
                    != rest[b] by {
                    assert(rest[a] == ids[a + 1] && rest[b] == ids[b + 1]);
                }
                assert forall|k: int| 0 <= k < rest.len() implies resting_at(
                    live2,
                    #[trigger] rest[k],
                    os,
                    nl.price,
                ) by {
                    assert(rest[k] == ids[k + 1]);
                    assert(resting_at(live, ids[k + 1], os, lvl.price));
                }
            } else {
                lemma_sum_drop_first(ids, live2);
                assert forall|k: int| 0 <= k < ids.len() implies resting_at(
                    live2,
                    #[trigger] ids[k],
                    os,
                    nl.price,
                ) by {
                    assert(resting_at(live, ids[k], os, lvl.price));
                    if k > 0 {
                        assert(rest[k - 1] == ids[k]);
                    }
                }
            }
        }
        assert(r == opp.update(0, nl));
        assert forall|a: int, b: int| 0 <= a < b < r.len() implies better(
            os,
            #[trigger] r[a].price,
            #[trigger] r[b].price,
        ) by {
            assert(r[a].price == opp[a].price && r[b].price == opp[b].price);
        }
        assert forall|j: int| 0 <= j < r.len() implies level_ok(#[trigger] r[j], os, live2) by {
            if j > 0 {
                assert(r[j] == t[j - 1]);
            }
        }
        assert forall|x: u64| #[trigger] side_contains(r, x) implies side_contains(opp, x) && (pop
            ==> x != pid) by {
            let j = choose|j: int| 0 <= j < r.len() && #[trigger] r[j].ids.contains(x);
            if j > 0 {
                assert(r[j] == t[j - 1]);
                assert(side_contains(t, x));
            } else {
                let k = choose|k: int| 0 <= k < nl.ids.len() && nl.ids[k] == x;
                if pop {
                    assert(rest[k] == ids[k + 1]);
                    lemma_side_contains_intro(opp, 0, k + 1);
                } else {
                    lemma_side_contains_intro(opp, 0, k);
                }
            }
        }
    } else {
        assert(r == t);
        assert forall|x: u64| #[trigger] side_contains(r, x) implies side_contains(opp, x) && (pop
            ==> x != pid) by {
            assert(side_contains(t, x));
            if x == pid {
                assert(ids[0] == pid);
            }
        }
    }
}

/// A matching step keeps the engine well-formed; the aggressor stays known,
/// active, with the same order, and still does not rest; the queue is untouched.
pub proof fn lemma_step_wf(m: EngineModel, id: u64)
    requires
        wf(m),
        !in_book(m, id),
        can_trade(m, id),
        has_counterparty(m, id),
    ensures
        ({
            let r = match_step(m, id).0;
            &&& wf(r)
            &&& !in_book(r, id)
            &&& r.live.contains_key(id)
            &&& r.live[id].order == m.live[id].order
            &&& r.live[id].is_active
            &&& r.queue == m.queue
            &&& forall|x: u64| #[trigger] in_book(r, x) ==> in_book(m, x)
        }),
{
    let a = m.live[id];
    let side = a.order.side;
    let os = opposite(side);
    let opp = side_levels(m, os);
    let lvl = opp[0];
    let pid = lvl.ids[0];
    assert(side_wf(os, opp, m.live));
    assert(level_ok(lvl, os, m.live));
    assert(resting_at(m.live, lvl.ids[0], os, lvl.price));
    lemma_side_contains_intro(opp, 0, 0);
    assert(pid != id) by {
        if pid == id {
            assert(side_contains(side_levels(m, os), id));
        }
    }
    let own = side_levels(m, side);
    assert(side_wf(side, own, m.live));
    lemma_not_on_side(side, own, m.live, pid);
    let r = match_step(m, id).0;
    let live2 = r.live;
    if m.live[pid].remaining_quantity == 0 {
        assert(live2 == m.live.remove(pid));
        lemma_reduce_front_wf(os, opp, m.live, live2, 0, true);
    } else {
        let p = m.live[pid];
        let qty = min_qty(a.remaining_quantity, p.remaining_quantity);
        let pfilled = p.remaining_quantity - qty == 0;
        lemma_reduce_front_wf(os, opp, m.live, live2, qty, pfilled);
    }
    assert forall|x: u64| #[trigger] side_contains(own, x) implies live2.contains_key(x) && live2[x]
        == m.live[x] by {
        assert(x != id) by {
            if x == id {
                assert(in_book(m, id));
            }
        }
    }
    lemma_side_wf_frame(side, own, m.live, live2);
    assert(side_levels(r, side) == own);
    assert(side_wf(Side::Bid, r.bids, r.live));
    assert(side_wf(Side::Ask, r.asks, r.live));
    assert forall|x: u64| #[trigger] in_book(r, x) implies in_book(m, x) by {
        if side_contains(side_levels(r, os), x) {
            assert(side_contains(opp, x));
        }
    }
    assert forall|k: int| 0 <= k < r.queue.len() implies r.live.contains_key(#[trigger] r.queue[k])
        && !in_book(r, r.queue[k]) by {
        assert(m.live.contains_key(m.queue[k]));
        assert(!in_book(m, m.queue[k]));
        assert(m.queue[k] != pid) by {
            if m.queue[k] == pid {
                assert(side_contains(opp, pid));
            }
        }
    }
}


pub proof fn lemma_events_view_concat(a: Seq<Event>, b: Seq<Event>)
    ensures
        events_view(a + b) == events_view(a) + events_view(b),
{
    assert(events_view(a + b) =~= events_view(a) + events_view(b));
}

/// The next counter value (wrapping).
fn next_counter(x: u64) -> (r: u64)
    ensures
        r == next_id(x),
{
    if x == u64::MAX {
        0
    } else {
        x + 1
    }
}

/// Takes `qty` from the best level, popping its front order when `pop`; an
/// emptied level is removed.
fn reduce_front_level(levels: &mut Vec<PriceLevel>, qty: u64, pop: bool)
    requires
        old(levels)@.len() > 0,
        old(levels)@[0].total_quantity >= qty,
        pop ==> old(levels)@[0].order_ids@.len() > 0,
    ensures
        levels_view(final(levels)@) == reduce_front(levels_view(old(levels)@), qty as int, pop),
{
    let ghost lv = levels_view(levels@);
    let mut lvl = PriceLevel { price: 0, order_ids: VecDeque::new(), total_quantity: 0 };
    levels.set_and_swap(0, &mut lvl);
    lvl.total_quantity = lvl.total_quantity - qty as u128;
    if pop {
        lvl.order_ids.pop_front();
        assert(lvl.order_ids@ =~= lv[0].ids.drop_first());
    }
    if lvl.order_ids.len() == 0 {
        levels.remove(0);
        assert(levels_view(levels@) =~= reduce_front(lv, qty as int, pop));
    } else {
        levels.set(0, lvl);
        assert(levels_view(levels@) =~= reduce_front(lv, qty as int, pop));
    }
}

/// Drops the front order of the best level, whose total is set to
/// `recomputed` (the total of the orders left); an emptied level is removed.
fn drop_front_order(levels: &mut Vec<PriceLevel>, recomputed: u128)
    requires
        old(levels)@.len() > 0,
        old(levels)@[0].order_ids@.len() > 0,
        recomputed == old(levels)@[0].total_quantity,
    ensures
        levels_view(final(levels)@) == reduce_front(levels_view(old(levels)@), 0, true),
{
    let ghost lv = levels_view(levels@);
    let mut lvl = PriceLevel { price: 0, order_ids: VecDeque::new(), total_quantity: 0 };
    levels.set_and_swap(0, &mut lvl);
    lvl.order_ids.pop_front();
    assert(lvl.order_ids@ =~= lv[0].ids.drop_first());
    lvl.total_quantity = recomputed;
    if lvl.order_ids.len() == 0 {
        levels.remove(0);
        assert(levels_view(levels@) =~= reduce_front(lv, 0, true));
    } else {
        levels.set(0, lvl);
        assert(levels_view(levels@) =~= reduce_front(lv, 0, true));
    }
}

impl EngineState {
    /// Drops a stale front entry (an order with nothing left, or unknown)
    /// from the best level of `book_side`, recomputing the level's total from
    /// the records of the orders left in it.
    fn drop_stale_front(&mut self, book_side: Side, Ghost(ref_live): Ghost<Map<u64, LiveOrder>>)
        requires
            side_levels(old(self)@, book_side).len() > 0,
            side_wf(book_side, side_levels(old(self)@, book_side), ref_live),
            ref_live.contains_key(side_levels(old(self)@, book_side)[0].ids[0]),
            ref_live[side_levels(old(self)@, book_side)[0].ids[0]].remaining_quantity == 0,
            old(self)@.live == ref_live.remove(side_levels(old(self)@, book_side)[0].ids[0]),
        ensures
            final(self)@ == with_side(
                old(self)@,
                book_side,
                reduce_front(side_levels(old(self)@, book_side), 0, true),
            ),
    {
        let ghost m = self@;
        let ghost opp = side_levels(m, book_side);
        let ghost pid = opp[0].ids[0];
        let levels = match book_side {
            Side::Bid => &self.order_book.bids,
            Side::Ask => &self.order_book.asks,
        };
        assert(levels_view(levels@) == opp);
        let ids = &levels[0].order_ids;
        proof {
            assert(side_wf(book_side, opp, ref_live));
            assert(level_ok(opp[0], book_side, ref_live));
            let rest = opp[0].ids.drop_first();
            assert(ids@.subrange(1, ids@.len() as int) =~= rest);
            assert forall|k: int| 0 <= k < rest.len() implies ref_live[#[trigger] rest[k]].remaining_quantity
                == m.live[rest[k]].remaining_quantity && m.live.contains_key(rest[k]) && m.live[rest[k]].is_active by {
                assert(rest[k] == opp[0].ids[k + 1]);
                assert(crate::state::resting_at(ref_live, opp[0].ids[k + 1], book_side, opp[0].price));
            }
            lemma_sum_agree(rest, ref_live, m.live);
            lemma_sum_drop_first(opp[0].ids, ref_live);
            assert forall|k: int| 1 <= k < ids@.len() implies m.live.contains_key(#[trigger] ids@[k])
                && m.live[ids@[k]].is_active by {
                assert(ids@[k] == rest[k - 1]);
            }
        }
        let recomputed = self.active_total(ids, 1);
        match book_side {
            Side::Bid => drop_front_order(&mut self.order_book.bids, recomputed),
            Side::Ask => drop_front_order(&mut self.order_book.asks, recomputed),
        }
    }

    /// The record of a known order.
    fn get_live(&self, order_id: u64) -> (r: LiveOrder)
        requires
            self@.live.contains_key(order_id),
        ensures
            r == self@.live[order_id],
    {
        *self.live_orders.get(&order_id).unwrap()
    }

    /// Takes `qty` from the best level of `book_side`, popping its front order when `pop`.
    fn reduce_best_level(&mut self, book_side: Side, qty: u64, pop: bool)
        requires
            side_levels(old(self)@, book_side).len() > 0,
            side_levels(old(self)@, book_side)[0].total >= qty,
            pop ==> side_levels(old(self)@, book_side)[0].ids.len() > 0,
        ensures
            final(self)@ == with_side(
                old(self)@,
                book_side,
                reduce_front(side_levels(old(self)@, book_side), qty as int, pop),
            ),
    {
        match book_side {
            Side::Bid => reduce_front_level(&mut self.order_book.bids, qty, pop),
            Side::Ask => reduce_front_level(&mut self.order_book.asks, qty, pop),
        }
    }

    /// One matching step of the aggressor against the front order of the
    /// best opposite level.
    fn match_step_exec(
        &mut self,
        active_id: u64,
        active_side: Side,
        passive_price: i64,
        passive_id: u64,
    ) -> (out: Vec<Event>)
        requires
            wf(old(self)@),
            !in_book(old(self)@, active_id),
            can_trade(old(self)@, active_id),
            has_counterparty(old(self)@, active_id),
            active_side == old(self)@.live[active_id].order.side,
            passive_price == side_levels(old(self)@, opposite(active_side))[0].price,
            passive_id == side_levels(old(self)@, opposite(active_side))[0].ids[0],
        ensures
            (final(self)@, events_view(out@)) == match_step(old(self)@, active_id),
    {
        let ghost m = self@;
        let ghost opp = side_levels(m, opposite(active_side));
        proof {
            assert(side_wf(opposite(active_side), opp, m.live));
            assert(level_ok(opp[0], opposite(active_side), m.live));
            lemma_sum_drop_first(opp[0].ids, m.live);
            lemma_side_contains_intro(opp, 0, 0);
            assert(passive_id != active_id) by {
                if passive_id == active_id {
                    assert(side_contains(side_levels(m, opposite(active_side)), active_id));
                }
            }
        }
        let passive_side = match active_side {
            Side::Bid => Side::Ask,
            Side::Ask => Side::Bid,
        };
        let active = self.get_live(active_id);
        let removed = self.live_orders.remove(&passive_id);
        let passive = match removed {
            None => {
                self.drop_stale_front(passive_side, Ghost(m.live));
                assert(self@.live =~= m.live.remove(passive_id));
                let out: Vec<Event> = Vec::new();
                assert(events_view(out@) =~= match_step(m, active_id).1);
                return out;
            },
            Some(p) => p,
        };
        if !passive.is_active || passive.remaining_quantity == 0 {
            self.drop_stale_front(passive_side, Ghost(m.live));
            assert(self@.live =~= m.live.remove(passive_id));
            let out: Vec<Event> = Vec::new();
            assert(events_view(out@) =~= match_step(m, active_id).1);
            return out;
        }
        let qty = if active.remaining_quantity <= passive.remaining_quantity {
            active.remaining_quantity
        } else {
            passive.remaining_quantity
        };
        let buy_order_id = match active_side {
            Side::Bid => active_id,
            Side::Ask => passive_id,
        };
        let sell_order_id = match active_side {
            Side::Ask => active_id,
            Side::Bid => passive_id,
        };
        let trade = Trade {
            trade_id: self.next_trade,
            buy_order_id,
            sell_order_id,
            price: passive_price,
            quantity: qty,
            sequence: self.next_sequence,
        };
        self.next_trade = next_counter(self.next_trade);
        self.next_sequence = next_counter(self.next_sequence);
        let mut out: Vec<Event> = Vec::new();
        out.push(Event::Trade(trade));
        let new_active = LiveOrder {
            remaining_quantity: active.remaining_quantity - qty,
            ..active
        };
        self.live_orders.insert(active_id, new_active);
        if new_active.remaining_quantity == 0 {
            out.push(Event::OrderFilled { order_id: active_id });
        } else {
            out.push(
                Event::OrderPartiallyFilled {
                    order_id: active_id,
                    filled_quantity: qty,
                    remaining_quantity: new_active.remaining_quantity,
                },
            );
        }
        let passive_remaining = passive.remaining_quantity - qty;
        let passive_filled = passive_remaining == 0;
        if passive_filled {
            out.push(Event::OrderFilled { order_id: passive_id });
        } else {
            out.push(
                Event::OrderPartiallyFilled {
                    order_id: passive_id,
                    filled_quantity: qty,
                    remaining_quantity: passive_remaining,
                },
            );
        }
        self.reduce_best_level(passive_side, qty, passive_filled);
        if !passive_filled {
            self.live_orders.insert(
                passive_id,
                LiveOrder { remaining_quantity: passive_remaining, ..passive },
            );
        }
        proof {
            let p2 = LiveOrder { remaining_quantity: passive_remaining, ..passive };
            if passive_filled {
                assert(self@.live =~= m.live.remove(passive_id).insert(active_id, new_active));
            } else {
                assert(self@.live =~= m.live.insert(passive_id, p2).insert(active_id, new_active));
            }
        }
        assert(events_view(out@) =~= match_step(m, active_id).1);
        out
    }
}


impl EngineState {
    /// Matches aggressor `active_id` until it is done or no acceptable
    /// resting order is left.
    fn match_aggressor(&mut self, active_id: u64, active_side: Side, active_price_opt: Option<
        i64,
    >) -> (out: Vec<Event>)
        requires
            wf(old(self)@),
            !in_book(old(self)@, active_id),
            old(self)@.live.contains_key(active_id),
            old(self)@.live[active_id].order.side == active_side,
            old(self)@.live[active_id].order.price == active_price_opt,
        ensures
            (final(self)@, events_view(out@)) == run_aggressor(old(self)@, active_id),
            wf(final(self)@),
            !in_book(final(self)@, active_id),
            final(self)@.live.contains_key(active_id),
            final(self)@.live[active_id].order == old(self)@.live[active_id].order,
            final(self)@.queue == old(self)@.queue,
            !(can_trade(final(self)@, active_id) && has_counterparty(final(self)@, active_id)),
            uncrossed(old(self)@) ==> uncrossed(final(self)@),
            resting_have_quantity(old(self)@) ==> resting_have_quantity(final(self)@),
    {
        let ghost target = run_aggressor(self@, active_id);
        let ghost u0 = uncrossed(self@);
        let ghost h0 = resting_have_quantity(self@);
        let ghost q0 = self@.queue;
        let ghost o0 = self@.live[active_id].order;
        let mut out: Vec<Event> = Vec::new();
        assert(events_view(out@) + target.1 =~= target.1);
        loop
            invariant
                wf(self@),
                !in_book(self@, active_id),
                self@.live.contains_key(active_id),
                self@.live[active_id].order == o0,
                o0.side == active_side,
                o0.price == active_price_opt,
                self@.queue == q0,
                run_aggressor(self@, active_id).0 == target.0,
                events_view(out@) + run_aggressor(self@, active_id).1 == target.1,
                u0 ==> uncrossed(self@),
                h0 ==> resting_have_quantity(self@),
            ensures
                wf(self@),
                !in_book(self@, active_id),
                self@.live.contains_key(active_id),
                self@.live[active_id].order == o0,
                self@.queue == q0,
                self@ == target.0,
                events_view(out@) == target.1,
                !(can_trade(self@, active_id) && has_counterparty(self@, active_id)),
                u0 ==> uncrossed(self@),
                h0 ==> resting_have_quantity(self@),
            decreases run_measure(self@, active_id),
        {
            let active = self.get_live(active_id);
            if !active.is_active || active.remaining_quantity == 0 {
                assert(events_view(out@) + Seq::<EventView>::empty() =~= events_view(out@));
                break ;
            }
            let levels = match active_side {
                Side::Bid => &self.order_book.asks,
                Side::Ask => &self.order_book.bids,
            };
            assert(levels_view(levels@) == side_levels(self@, opposite(active_side)));
            if levels.len() == 0 {
                assert(events_view(out@) + Seq::<EventView>::empty() =~= events_view(out@));
                break ;
            }
            let best_price = levels[0].price;
            let acceptable = match active_price_opt {
                None => true,
                Some(limit_price) => match active_side {
                    Side::Bid => best_price <= limit_price,
                    Side::Ask => best_price >= limit_price,
                },
            };
            if !acceptable || levels[0].order_ids.len() == 0 {
                assert(events_view(out@) + Seq::<EventView>::empty() =~= events_view(out@));
                break ;
            }
            let passive_id = levels[0].order_ids[0];
            let ghost before = self@;
            proof {
                lemma_step_wf(before, active_id);
                lemma_step_measure(before, active_id);
                if u0 {
                    lemma_step_uncrossed(before, active_id);
                }
                if h0 {
                    lemma_step_quantity(before, active_id);
                }
            }
            let mut evs = self.match_step_exec(active_id, active_side, best_price, passive_id);
            proof {
                lemma_events_view_concat(out@, evs@);
                assert(events_view(out@) + events_view(evs@) + run_aggressor(self@, active_id).1
                    =~= events_view(out@) + (events_view(evs@) + run_aggressor(self@, active_id).1));
            }
            out.append(&mut evs);
        }
        out
    }

    /// Settles an aggressor after matching: a remaining market order is
    /// canceled; a remaining limit order rests (GTC), is canceled (IOC) or is
    /// rejected (FOK).
    fn finish_aggressor_exec(&mut self, active_id: u64) -> (out: Vec<Event>)
        requires
            wf(old(self)@),
            !in_book(old(self)@, active_id),
            !old(self)@.queue.contains(active_id),
            old(self)@.live.contains_key(active_id),
        ensures
            (final(self)@, events_view(out@)) == finish_aggressor(old(self)@, active_id),
            wf(final(self)@),
            final(self)@.queue == old(self)@.queue,
            uncrossed(old(self)@) && !(can_trade(old(self)@, active_id) && has_counterparty(
                old(self)@,
                active_id,
            )) ==> uncrossed(final(self)@),
            resting_have_quantity(old(self)@) ==> resting_have_quantity(final(self)@),
    {
        let ghost m = self@;
        proof {
            if uncrossed(m) && !(can_trade(m, active_id) && has_counterparty(m, active_id)) {
                lemma_finish_uncrossed(m, active_id);
            }
            if resting_have_quantity(m) {
                lemma_finish_quantity(m, active_id);
            }
        }
        let mut out: Vec<Event> = Vec::new();
        let active = self.get_live(active_id);
        if active.is_active && active.remaining_quantity != 0 {
            match active.order.price {
                None => {
                    proof {
                        lemma_wf_set_live(m, active_id, deactivated(active));
                    }
                    self.deactivate(active_id);
                    out.push(Event::OrderCanceled { order_id: active_id });
                },
                Some(limit_price) => match active.order.time_in_force {
                    TimeInForce::GTC => {
                        let side = active.order.side;
                        let remaining = active.remaining_quantity;
                        proof {
                            lemma_wf_level_bounded(m, side, limit_price);
                        }
                        self.add_resting_to_book(side, limit_price, active_id, remaining);
                        proof {
                            lemma_wf_book_add(m, side, limit_price, active_id, remaining);
                        }
                    },
                    TimeInForce::IOC => {
                        proof {
                            lemma_wf_set_live(m, active_id, deactivated(active));
                        }
                        self.deactivate(active_id);
                        out.push(Event::OrderCanceled { order_id: active_id });
                    },
                    TimeInForce::FOK => {
                        proof {
                            lemma_wf_set_live(m, active_id, deactivated(active));
                        }
                        self.deactivate(active_id);
                        out.push(
                            Event::OrderRejected {
                                order_id: active_id,
                                reason: "FOK: remaining quantity after matching (BUG)".to_string(),
                            },
                        );
                    },
                },
            }
        }
        assert(events_view(out@) =~= finish_aggressor(m, active_id).1);
        out
    }

    /// Matching driven only by aggressor orders (market or marketable limit),
    /// taken from the queue first come, first served. Resting orders never
    /// trade with each other: with no aggressor there are no trades.
    pub fn match_order(&mut self) -> (out: Vec<Event>)
        requires
            wf(old(self)@),
        ensures
            wf(final(self)@),
            (final(self)@, events_view(out@)) == match_spec(old(self)@),
            final(self)@.queue.len() == 0,
            uncrossed(old(self)@) ==> uncrossed(final(self)@),
            resting_have_quantity(old(self)@) ==> resting_have_quantity(final(self)@),
    {
        let ghost target = match_spec(self@);
        let ghost u0 = uncrossed(self@);
        let ghost h0 = resting_have_quantity(self@);
        let mut out: Vec<Event> = Vec::new();
        assert(events_view(out@) + target.1 =~= target.1);
        loop
            invariant
                wf(self@),
                drain(self@, self@.queue).0 == target.0,
                events_view(out@) + drain(self@, self@.queue).1 == target.1,
                u0 ==> uncrossed(self@),
                h0 ==> resting_have_quantity(self@),
            ensures
                wf(self@),
                self@ == target.0,
                events_view(out@) == target.1,
                self@.queue.len() == 0,
                u0 ==> uncrossed(self@),
                h0 ==> resting_have_quantity(self@),
            decreases self@.queue.len(),
        {
            let ghost m = self@;
            let ghost q = self@.queue;
            let next = self.active_order.pop_front();
            match next {
                None => {
                    assert(events_view(out@) + Seq::<EventView>::empty() =~= events_view(out@));
                    break ;
                },
                Some(active_id) => {
                    let ghost m0 = self@;
                    proof {
                        assert(m0.queue =~= q.drop_first());
                        assert(m0 == EngineModel { queue: q.drop_first(), ..m });
                        assert(q[0] == active_id);
                        assert(m.live.contains_key(q[0]) && !in_book(m, q[0]));
                        assert(!m0.queue.contains(active_id)) by {
                            if m0.queue.contains(active_id) {
                                let k = choose|k: int|
                                    0 <= k < m0.queue.len() && m0.queue[k] == active_id;
                                assert(q[k + 1] == q[0]);
                            }
                        }
                        assert forall|k: int| 0 <= k < m0.queue.len() implies m0.live.contains_key(
                            #[trigger] m0.queue[k],
                        ) && !in_book(m0, m0.queue[k]) by {
                            assert(m0.queue[k] == q[k + 1]);
                        }
                        assert(wf(m0));
                        if h0 {
                            assert forall|x: u64| #[trigger] in_book(m0, x) implies m0.live[x].remaining_quantity
                                > 0 by {
                                assert(in_book(m, x));
                            }
                        }
                    }
                    if !self.live_orders.contains_key(&active_id) {
                        assert(events_view(out@) + drain(self@, self@.queue).1 =~= target.1);
                        continue;
                    }
                    let active = self.get_live(active_id);
                    let mut evs = self.match_aggressor(
                        active_id,
                        active.order.side,
                        active.order.price,
                    );
                    let ghost m1 = self@;
                    let mut evs2 = self.finish_aggressor_exec(active_id);
                    proof {
                        lemma_events_view_concat(out@, evs@);
                        lemma_events_view_concat(out@ + evs@, evs2@);
                        lemma_events_view_concat(evs@, evs2@);
                        let r1 = process_aggressor(m0, active_id);
                        assert(r1.0 == self@);
                        assert(r1.1 == events_view(evs@) + events_view(evs2@));
                        assert(events_view(out@) + events_view(evs@) + events_view(evs2@)
                            + drain(self@, self@.queue).1 =~= events_view(out@) + (r1.1 + drain(
                            self@,
                            self@.queue,
                        ).1));
                    }
                    out.append(&mut evs);
                    out.append(&mut evs2);
                },
            }
        }
        out
    }
}


/// Matching one aggressor keeps the engine well-formed, leaves the aggressor
/// known, active, with the same order and not resting, leaves the queue as
/// it was, and ends when the aggressor cannot trade or has no acceptable
/// counterparty.
pub proof fn lemma_run_props(m: EngineModel, id: u64)
    requires
        wf(m),
        !in_book(m, id),
        m.live.contains_key(id),
        m.live[id].is_active,
    ensures
        ({
            let r = run_aggressor(m, id).0;
            &&& wf(r)
            &&& !in_book(r, id)
            &&& r.live.contains_key(id)
            &&& r.live[id].order == m.live[id].order
            &&& r.live[id].is_active
            &&& r.queue == m.queue
            &&& !(can_trade(r, id) && has_counterparty(r, id))
        }),
    decreases run_measure(m, id),
{
    if can_trade(m, id) && has_counterparty(m, id) {
        lemma_step_wf(m, id);
        lemma_step_measure(m, id);
        lemma_run_props(match_step(m, id).0, id);
    }
}

} // verus!
