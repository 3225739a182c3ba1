use vstd::prelude::*;

use crate::apply::{apply_spec, deactivated, enqueue, rejected, rest, set_live};
use crate::book::{
    add_fits, better, insert_index, side_add, side_remove, side_sorted, without_id, LevelModel,
};
use crate::engine::process_spec;
use crate::invariants::{lemma_wf_queue_push, lemma_wf_set_live};
use crate::liquidity::{marketable, reachable_liquidity, sufficient_liquidity, within_limit};
use crate::matching::{
    can_trade, drain, finish_aggressor, has_counterparty, lemma_run_props, lemma_step_measure,
    lemma_step_wf, match_spec, match_step, min_qty, next_id, process_aggressor, reduce_front,
    run_aggressor, run_measure,
};
use crate::state::{
    in_book, lemma_sum_drop_first, level_ok, level_sum, opposite, side_contains, side_levels,
    side_wf, wf, with_side, EngineModel, LiveOrder,
};
use crate::types::{EventView, Order, Side, TimeInForce, Trade};

verus! {

/// Reachable liquidity of the best level updated, or removed when emptied.
proof fn lemma_reachable_reduce(opp: Seq<LevelModel>, side: Side, limit: i64, qty: int, pop: bool)
    requires
        opp.len() > 0,
        within_limit(side, opp[0].price, limit),
        0 <= qty <= opp[0].total,
        (if pop {
            opp[0].ids.drop_first()
        } else {
            opp[0].ids
        }).len() == 0 ==> opp[0].total == qty,
    ensures
        reachable_liquidity(reduce_front(opp, qty, pop), side, limit) + qty == reachable_liquidity(
            opp,
            side,
            limit,
        ),
{
    let r = reduce_front(opp, qty, pop);
    if r.len() == opp.len() {
        assert(r.drop_first() =~= opp.drop_first());
    }
}

/// While the liquidity within the limit covers what the aggressor still
/// needs, matching runs until the aggressor is completely filled.
proof fn lemma_run_fills(m: EngineModel, id: u64, limit: i64)
    requires
        wf(m),
        !in_book(m, id),
        m.live.contains_key(id),
        m.live[id].is_active,
        m.live[id].order.price == Some(limit),
        m.live[id].remaining_quantity <= reachable_liquidity(
            side_levels(m, opposite(m.live[id].order.side)),
            m.live[id].order.side,
            limit,
        ),
    ensures
        run_aggressor(m, id).0.live[id].remaining_quantity == 0,
    decreases run_measure(m, id),
{
    let a = m.live[id];
    let side = a.order.side;
    let os = opposite(side);
    let opp = side_levels(m, os);
    if can_trade(m, id) && has_counterparty(m, id) {
        lemma_step_wf(m, id);
        lemma_step_measure(m, id);
        let r = match_step(m, id).0;
        let lvl = opp[0];
        let pid = lvl.ids[0];
        assert(side_wf(os, opp, m.live));
        assert(level_ok(lvl, os, m.live));
        lemma_sum_drop_first(lvl.ids, m.live);
        if lvl.ids.len() == 1 {
            assert(lvl.ids.drop_first().len() == 0);
            assert(level_sum(lvl.ids.drop_first(), m.live) == 0);
        }
        assert(side_levels(r, os) == reduce_front(
            opp,
            if m.live[pid].remaining_quantity == 0 {
                0
            } else {
                min_qty(a.remaining_quantity, m.live[pid].remaining_quantity) as int
            },
            m.live[pid].remaining_quantity == 0 || m.live[pid].remaining_quantity - min_qty(
                a.remaining_quantity,
                m.live[pid].remaining_quantity,
            ) == 0,
        ));
        if m.live[pid].remaining_quantity == 0 {
            lemma_reachable_reduce(opp, side, limit, 0, true);
        } else {
            let qty = min_qty(a.remaining_quantity, m.live[pid].remaining_quantity);
            lemma_reachable_reduce(opp, side, limit, qty as int, m.live[pid].remaining_quantity - qty == 0);
        }
        lemma_run_fills(r, id, limit);
    } else if can_trade(m, id) {
        assert(side_wf(os, opp, m.live));
        if opp.len() > 0 {
            assert(level_ok(opp[0], os, m.live));
        }
    }
}

/// The engine's state between two events: well-formed, with no aggressor waiting.
pub open spec fn idle(m: EngineModel) -> bool {
    wf(m) && m.queue.len() == 0
}

/// The order `o` arrives at an idle engine where no order with its id rests.
pub open spec fn arrives(m: EngineModel, o: Order) -> bool {
    idle(m) && !in_book(m, o.order_id) && o.quantity > 0
}

/// Processing one queued aggressor from an otherwise empty queue.
proof fn lemma_single_drain(m: EngineModel, id: u64)
    requires
        m.queue == seq![id],
    ensures
        match_spec(m) == process_aggressor(EngineModel { queue: Seq::empty(), ..m }, id),
{
    let m0 = EngineModel { queue: m.queue.drop_first(), ..m };
    assert(m.queue.drop_first() =~= Seq::<u64>::empty());
    let r1 = process_aggressor(m0, id);
    assert(drain(r1.0, m.queue.drop_first()) == (r1.0, Seq::<EventView>::empty()));
    assert(r1.1 + Seq::<EventView>::empty() =~= r1.1);
}

/// A new order recorded and queued as an aggressor on an idle engine is
/// matched alone: the result is its matching run followed by its settlement.
proof fn lemma_new_aggressor(m: EngineModel, o: Order)
    requires
        arrives(m, o),
    ensures
        ({
            let lo = LiveOrder { order: o, remaining_quantity: o.quantity, is_active: true };
            let m1 = set_live(m, o.order_id, lo);
            let r = run_aggressor(m1, o.order_id);
            &&& match_spec(enqueue(m1, o.order_id)) == (
                finish_aggressor(r.0, o.order_id).0,
                r.1 + finish_aggressor(r.0, o.order_id).1,
            )
            &&& wf(m1)
            &&& !in_book(m1, o.order_id)
        }),
{
    let id = o.order_id;
    let lo = LiveOrder { order: o, remaining_quantity: o.quantity, is_active: true };
    let m1 = set_live(m, id, lo);
    lemma_wf_set_live(m, id, lo);
    let mq = enqueue(m1, id);
    assert(mq.queue =~= seq![id]);
    lemma_single_drain(mq, id);
    assert(m.queue =~= Seq::<u64>::empty());
    assert(EngineModel { queue: Seq::empty(), ..mq } == m1);
}

/// No event among `evs` is a rejection.
pub open spec fn no_rejection(evs: Seq<EventView>) -> bool {
    forall|k: int| 0 <= k < evs.len() ==> !(#[trigger] evs[k] is OrderRejected)
}

/// A matching run trades and reports fills; it never rejects.
proof fn lemma_run_no_rejection(m: EngineModel, id: u64)
    requires
        wf(m),
        !in_book(m, id),
        m.live.contains_key(id),
        m.live[id].is_active,
    ensures
        no_rejection(run_aggressor(m, id).1),
    decreases run_measure(m, id),
{
    if can_trade(m, id) && has_counterparty(m, id) {
        lemma_step_wf(m, id);
        lemma_step_measure(m, id);
        let s = match_step(m, id);
        lemma_run_no_rejection(s.0, id);
        let tail = run_aggressor(s.0, id).1;
        assert forall|k: int| 0 <= k < (s.1 + tail).len() implies !(#[trigger] (s.1 + tail)[k] is OrderRejected) by {
            if k < s.1.len() {
                assert((s.1 + tail)[k] == s.1[k]);
            } else {
                assert((s.1 + tail)[k] == tail[k - s.1.len()]);
            }
        }
    }
}

/// Fill-or-kill: a fill-or-kill limit order either executes its full
/// quantity at once (it is accepted, gets a fill event, no rejection follows,
/// and it does not rest), or is rejected with a single rejection event and no
/// trade, leaving the book as it was. It never partially fills and never rests.
pub proof fn law_fill_or_kill(m: EngineModel, o: Order)
    requires
        arrives(m, o),
        o.price is Some,
        o.time_in_force == TimeInForce::FOK,
    ensures
        ({
            let r = process_spec(m, EventView::NewOrder(o));
            let lp = o.price->0;
            &&& !in_book(r.0, o.order_id)
            &&& r.0.live[o.order_id].remaining_quantity == 0
            &&& if sufficient_liquidity(m, o.side, lp, o.quantity) {
                &&& r.1[0] == EventView::OrderAccepted { order_id: o.order_id }
                &&& r.1.contains(EventView::OrderFilled { order_id: o.order_id })
                &&& no_rejection(r.1)
            } else {
                &&& r.1.len() == 1
                &&& r.1[0] is OrderRejected
                &&& r.0.bids == m.bids
                &&& r.0.asks == m.asks
                &&& r.0.live == m.live.insert(
                    o.order_id,
                    deactivated(LiveOrder { order: o, remaining_quantity: o.quantity, is_active: true }),
                )
            }
        }),
{
    let id = o.order_id;
    let lp = o.price->0;
    let lo = LiveOrder { order: o, remaining_quantity: o.quantity, is_active: true };
    let m1 = set_live(m, id, lo);
    lemma_new_aggressor(m, o);
    if sufficient_liquidity(m, o.side, lp, o.quantity) {
        assert(apply_spec(m, EventView::NewOrder(o)).0 == enqueue(m1, id));
        assert(side_levels(m1, opposite(o.side)) == side_levels(m, opposite(o.side)));
        lemma_run_fills(m1, id, lp);
        lemma_run_props(m1, id);
        lemma_run_fill_event(m1, id);
        lemma_run_no_rejection(m1, id);
        let run = run_aggressor(m1, id);
        assert(finish_aggressor(run.0, id) == (run.0, Seq::<EventView>::empty()));
        let acc = seq![EventView::OrderAccepted { order_id: id }];
        let out = process_spec(m, EventView::NewOrder(o)).1;
        assert(out == acc + (run.1 + Seq::<EventView>::empty()));
        assert(out == acc + run.1);
        let k = choose|k: int| 0 <= k < run.1.len() && run.1[k] == EventView::OrderFilled { order_id: id };
        assert(out[1 + k] == run.1[k]);
        assert forall|j: int| 0 <= j < out.len() implies !(#[trigger] out[j] is OrderRejected) by {
            if j >= 1 {
                assert(out[j] == run.1[j - 1]);
            }
        }
    } else {
        let killed = set_live(m, id, deactivated(lo));
        lemma_wf_set_live(m, id, deactivated(lo));
        assert(apply_spec(m, EventView::NewOrder(o)).0 == killed);
        assert(match_spec(killed) == (killed, Seq::<EventView>::empty()));
        assert(apply_spec(m, EventView::NewOrder(o)).1 + Seq::<EventView>::empty()
            =~= apply_spec(m, EventView::NewOrder(o)).1);
    }
}


/// An order added to a side rests there.
proof fn lemma_side_add_contains(side: Side, levels: Seq<LevelModel>, p: i64, id: u64, q: u64)
    ensures
        crate::state::side_contains(side_add(side, levels, p, id, q), id),
{
    crate::invariants::lemma_insert_index_props(side, levels, p);
    let i = crate::book::insert_index(side, levels, p);
    let r = side_add(side, levels, p, id, q);
    if i < levels.len() && levels[i].price == p {
        assert(r[i].ids[levels[i].ids.len() as int] == id);
        assert(r[i].ids.contains(id));
    } else {
        assert(r[i].ids[0] == id);
        assert(r[i].ids.contains(id));
    }
}

/// Market and immediate-or-cancel orders never rest: whatever does not
/// execute at once is canceled, so nothing of the order is left.
pub proof fn law_immediate_or_cancel(m: EngineModel, o: Order)
    requires
        arrives(m, o),
        o.price is None || o.time_in_force == TimeInForce::IOC,
    ensures
        ({
            let r = process_spec(m, EventView::NewOrder(o));
            &&& !in_book(r.0, o.order_id)
            &&& r.0.live[o.order_id].remaining_quantity == 0
        }),
{
    let id = o.order_id;
    let lo = LiveOrder { order: o, remaining_quantity: o.quantity, is_active: true };
    let m1 = set_live(m, id, lo);
    lemma_new_aggressor(m, o);
    let a = apply_spec(m, EventView::NewOrder(o)).0;
    if a == enqueue(m1, id) {
        lemma_run_props(m1, id);
    } else {
        let killed = set_live(m, id, deactivated(lo));
        assert(a == killed);
        lemma_wf_set_live(m, id, deactivated(lo));
        assert(match_spec(killed) == (killed, Seq::<EventView>::empty()));
    }
}

/// Good-till-canceled orders: whatever does not execute at once rests in
/// the book, on the order's side, at its limit price. What the order keeps
/// is its quantity less what it traded, and it rests exactly when that is
/// not zero, whatever the other side holds.
pub proof fn law_good_till_canceled(m: EngineModel, o: Order)
    requires
        arrives(m, o),
        o.price is Some,
        o.time_in_force == TimeInForce::GTC,
    ensures
        ({
            let r = process_spec(m, EventView::NewOrder(o));
            &&& r.0.live.contains_key(o.order_id)
            &&& r.0.live[o.order_id].remaining_quantity + traded_quantity(r.1) == o.quantity
            &&& r.0.live[o.order_id].is_active
            &&& r.0.live[o.order_id].order == o
            &&& (r.0.live[o.order_id].remaining_quantity > 0 <==> crate::state::side_contains(
                side_levels(r.0, o.side),
                o.order_id,
            ))
            &&& r.0.live[o.order_id].remaining_quantity == 0 ==> !in_book(r.0, o.order_id)
            &&& {
                ||| r.0.live[o.order_id].remaining_quantity == 0
                ||| {
                    &&& crate::state::side_contains(side_levels(r.0, o.side), o.order_id)
                    &&& r.0.live[o.order_id].is_active
                    &&& r.0.live[o.order_id].order == o
                }
            }
        }),
{
    let id = o.order_id;
    let lp = o.price->0;
    let lo = LiveOrder { order: o, remaining_quantity: o.quantity, is_active: true };
    let m1 = set_live(m, id, lo);
    lemma_new_aggressor(m, o);
    let a = apply_spec(m, EventView::NewOrder(o));
    let out = process_spec(m, EventView::NewOrder(o)).1;
    lemma_traded_one(EventView::OrderAccepted { order_id: id });
    assert(a.1 == seq![EventView::OrderAccepted { order_id: id }]);
    if marketable(m, o.side, lp) {
        lemma_run_props(m1, id);
        law_matching_conserves_quantity(m1, id);
        let run = run_aggressor(m1, id);
        let r = run.0;
        let fin = finish_aggressor(r, id);
        assert(out == a.1 + (run.1 + fin.1));
        lemma_traded_concat(run.1, fin.1);
        lemma_traded_concat(a.1, run.1 + fin.1);
        if can_trade(r, id) {
            assert(fin.1 =~= Seq::<EventView>::empty());
            assert(traded_quantity(fin.1) == 0);
            lemma_side_add_contains(o.side, side_levels(r, o.side), lp, id, r.live[id].remaining_quantity);
        } else {
            assert(fin == (r, Seq::<EventView>::empty()));
            assert(traded_quantity(fin.1) == 0);
            assert(!in_book(r, id));
        }
    } else {
        let ar = rest(m1, o.side, lp, id, o.quantity);
        lemma_side_add_contains(o.side, side_levels(m1, o.side), lp, id, o.quantity);
        assert(match_spec(ar) == (ar, Seq::<EventView>::empty()));
        assert(out =~= a.1);
    }
}

proof fn lemma_traded_one(e: EventView)
    ensures
        traded_quantity(seq![e]) == (match e {
            EventView::Trade(t) => t.quantity as nat,
            _ => 0nat,
        }),
{
    reveal_with_fuel(traded_quantity, 2);
    assert(seq![e].drop_last() =~= Seq::<EventView>::empty());
    assert(seq![e].last() == e);
}

/// No resting-versus-resting matching: with no aggressor waiting, matching
/// changes nothing and produces no event (in particular no trade).
pub proof fn law_no_aggressor_no_trade(m: EngineModel)
    requires
        m.queue.len() == 0,
    ensures
        match_spec(m) == (m, Seq::<EventView>::empty()),
{
}

/// Deterministic execution: the same state and the same input give the same
/// state and the same output.
pub proof fn law_deterministic(m1: EngineModel, m2: EngineModel, e: EventView)
    requires
        m1 == m2,
    ensures
        process_spec(m1, e) == process_spec(m2, e),
{
}

/// Price-time priority and conservation in every matching step: the
/// aggressor meets the oldest order at the best price of the other side,
/// a price it accepts; a trade is for the smaller of the two remaining
/// quantities, at the resting price, takes exactly that quantity from both
/// orders, and advances the trade id and sequence by one. A step without
/// a trade only drops a resting entry with nothing left.
pub proof fn law_price_time_priority(m: EngineModel, id: u64)
    requires
        wf(m),
        !in_book(m, id),
        can_trade(m, id),
        has_counterparty(m, id),
    ensures
        ({
            let a = m.live[id];
            let side = a.order.side;
            let opp = side_levels(m, opposite(side));
            let pid = opp[0].ids[0];
            let r = match_step(m, id);
            &&& forall|j: int| 1 <= j < opp.len() ==> better(opposite(side), opp[0].price, #[trigger] opp[j].price)
            &&& a.order.price is Some ==> within_limit(side, opp[0].price, a.order.price->0)
            &&& m.live.contains_key(pid)
            &&& m.live[pid].order.side == opposite(side)
            &&& if m.live[pid].remaining_quantity == 0 {
                &&& r.1.len() == 0
                &&& r.0.live[id] == a
            } else {
                let qty = min_qty(a.remaining_quantity, m.live[pid].remaining_quantity);
                &&& r.1.len() == 3
                &&& r.1[0] == EventView::Trade(Trade {
                    trade_id: m.next_trade,
                    buy_order_id: if side == Side::Bid { id } else { pid },
                    sell_order_id: if side == Side::Ask { id } else { pid },
                    price: opp[0].price,
                    quantity: qty,
                    sequence: m.next_sequence,
                })
                &&& qty > 0
                &&& r.0.live[id].remaining_quantity + qty == a.remaining_quantity
                &&& r.0.live.contains_key(pid) ==> r.0.live[pid].remaining_quantity + qty
                    == m.live[pid].remaining_quantity
                &&& !r.0.live.contains_key(pid) ==> qty == m.live[pid].remaining_quantity
                &&& r.0.next_trade == next_id(m.next_trade)
                &&& r.0.next_sequence == next_id(m.next_sequence)
            }
        }),
{
    let a = m.live[id];
    let side = a.order.side;
    let os = opposite(side);
    let opp = side_levels(m, os);
    assert(side_wf(os, opp, m.live));
    assert(level_ok(opp[0], os, m.live));
    assert(crate::state::resting_at(m.live, opp[0].ids[0], os, opp[0].price));
    lemma_step_wf(m, id);
    crate::invariants::lemma_side_contains_intro(opp, 0, 0);
    assert(opp[0].ids[0] != id) by {
        if opp[0].ids[0] == id {
            assert(in_book(m, id)) by {
                assert(crate::state::side_contains(side_levels(m, os), id));
            }
        }
    }
}

/// Canceling a live order with quantity left takes it out of the book and
/// the aggressor queue and leaves it inactive with nothing left; every other
/// order keeps its record and its place in or out of the book, and the side
/// the order does not belong to is untouched. A cancel of an unknown or
/// finished order is rejected and changes nothing.
pub proof fn law_cancel(m: EngineModel, id: u64)
    requires
        wf(m),
    ensures
        ({
            let r = apply_spec(m, EventView::CancelOrder { order_id: id });
            if m.live.contains_key(id) && m.live[id].is_active && m.live[id].remaining_quantity > 0 {
                &&& r.1 == seq![EventView::OrderCanceled { order_id: id }]
                &&& !in_book(r.0, id)
                &&& !r.0.queue.contains(id)
                &&& r.0.live[id] == deactivated(m.live[id])
                &&& forall|x: u64| x != id ==> (#[trigger] in_book(r.0, x) <==> in_book(m, x))
                &&& forall|x: u64| x != id ==> #[trigger] r.0.live.contains_key(x) == m.live.contains_key(x)
                    && r.0.live[x] == m.live[x]
                &&& side_levels(r.0, opposite(m.live[id].order.side)) == side_levels(
                    m,
                    opposite(m.live[id].order.side),
                )
                &&& r.0.next_trade == m.next_trade
                &&& r.0.next_sequence == m.next_sequence
            } else {
                &&& r.0 == m
                &&& r.1.len() == 1
                &&& r.1[0] is OrderRejected
            }
        }),
{
    if m.live.contains_key(id) && m.live[id].is_active && m.live[id].remaining_quantity > 0 {
        crate::invariants::lemma_wf_queue_remove(m, id);
        let m1 = crate::apply::dequeue_id(m, id);
        if m.live[id].order.price is Some {
            crate::invariants::lemma_wf_book_remove(m1, id);
        } else {
            if in_book(m1, id) {
                crate::invariants::lemma_in_book_own_side(m1, id);
            }
        }
        lemma_unrest_keeps_others(m1, id);
        let mu = crate::apply::unrest(m1, id);
        let r = apply_spec(m, EventView::CancelOrder { order_id: id }).0;
        assert(r == set_live(mu, id, deactivated(m.live[id])));
        assert forall|x: u64| x != id implies (#[trigger] in_book(r, x) <==> in_book(m, x)) by {
            assert(in_book(r, x) == in_book(mu, x));
            assert(in_book(mu, x) == in_book(m1, x));
            assert(in_book(m1, x) == in_book(m, x));
        }
        assert forall|x: u64| x != id implies #[trigger] r.live.contains_key(x) == m.live.contains_key(x)
            && r.live[x] == m.live[x] by {
            assert(mu.live == m.live);
        }
    }
}

/// Taking a known order out of its level leaves every other order where it
/// was, and the other side untouched.
proof fn lemma_unrest_keeps_others(m: EngineModel, id: u64)
    requires
        wf(m),
        m.live.contains_key(id),
    ensures
        forall|x: u64| x != id ==> (#[trigger] in_book(crate::apply::unrest(m, id), x) <==> in_book(m, x)),
        side_levels(crate::apply::unrest(m, id), opposite(m.live[id].order.side)) == side_levels(
            m,
            opposite(m.live[id].order.side),
        ),
        crate::apply::unrest(m, id).live == m.live,
{
    let lo = m.live[id];
    let side = lo.order.side;
    if let Some(p) = lo.order.price {
        let levels = side_levels(m, side);
        assert(side_wf(side, levels, m.live));
        crate::invariants::lemma_side_remove_wf(side, levels, m.live, p, id);
        let r = crate::apply::unrest(m, id);
        assert(side_levels(r, side) == side_remove(levels, p, id, lo.remaining_quantity));
        assert(side_levels(r, opposite(side)) == side_levels(m, opposite(side)));
        assert forall|x: u64| x != id implies (#[trigger] in_book(r, x) <==> in_book(m, x)) by {
            if side == Side::Bid {
                assert(side_contains(r.bids, x) <==> side_contains(m.bids, x));
            } else {
                assert(side_contains(r.asks, x) <==> side_contains(m.asks, x));
            }
        }
    }
}


/// An aggressor whose matching run takes it from having quantity left to
/// having none gets an explicit fill event in that run.
proof fn lemma_run_fill_event(m: EngineModel, id: u64)
    requires
        wf(m),
        !in_book(m, id),
        can_trade(m, id),
    ensures
        !can_trade(run_aggressor(m, id).0, id) ==> run_aggressor(m, id).1.contains(
            EventView::OrderFilled { order_id: id },
        ),
    decreases run_measure(m, id),
{
    if can_trade(m, id) && has_counterparty(m, id) {
        lemma_step_wf(m, id);
        lemma_step_measure(m, id);
        let s = match_step(m, id);
        let rest_run = run_aggressor(s.0, id);
        let whole = s.1 + rest_run.1;
        if can_trade(s.0, id) {
            lemma_run_fill_event(s.0, id);
            if !can_trade(rest_run.0, id) {
                let k = choose|k: int|
                    0 <= k < rest_run.1.len() && rest_run.1[k] == EventView::OrderFilled {
                        order_id: id,
                    };
                assert(whole[s.1.len() + k] == rest_run.1[k]);
            }
        } else {
            assert(s.1.len() == 3);
            assert(s.1[1] == EventView::OrderFilled { order_id: id });
            assert(whole[1] == s.1[1]);
        }
    }
}

/// A fill, cancel or reject event for order `id`.
pub open spec fn terminal_for(e: EventView, id: u64) -> bool {
    match e {
        EventView::OrderFilled { order_id } => order_id == id,
        EventView::OrderCanceled { order_id } => order_id == id,
        EventView::OrderRejected { order_id, .. } => order_id == id,
        _ => false,
    }
}

/// Every new order ends explicitly: unless it rests in the book, the output
/// holds a fill, cancel or reject event for it.
pub proof fn law_explicit_terminal_event(m: EngineModel, o: Order)
    requires
        idle(m),
        !in_book(m, o.order_id),
    ensures
        ({
            let r = process_spec(m, EventView::NewOrder(o));
            let id = o.order_id;
            crate::state::side_contains(side_levels(r.0, o.side), id) || exists|k: int|
                0 <= k < r.1.len() && terminal_for(#[trigger] r.1[k], id)
        }),
{
    let id = o.order_id;
    let a = apply_spec(m, EventView::NewOrder(o));
    let r = process_spec(m, EventView::NewOrder(o));
    if o.quantity == 0 {
        assert(match_spec(a.0) == (a.0, Seq::<EventView>::empty()));
        assert(r.1[0] == a.1[0]);
    } else {
        let lo = LiveOrder { order: o, remaining_quantity: o.quantity, is_active: true };
        let m1 = set_live(m, id, lo);
        lemma_new_aggressor(m, o);
        if a.0 == enqueue(m1, id) {
            lemma_run_props(m1, id);
            lemma_run_fill_event(m1, id);
            let run = run_aggressor(m1, id);
            let fin = finish_aggressor(run.0, id);
            assert(r.1 == a.1 + (run.1 + fin.1));
            if can_trade(run.0, id) {
                let ra = run.0.live[id];
                if ra.order.price is None || ra.order.time_in_force != TimeInForce::GTC {
                    assert(fin.1.len() == 1);
                    let k = (a.1.len() + run.1.len()) as int;
                    assert(r.1[k] == fin.1[0]);
                } else {
                    lemma_side_add_contains(o.side, side_levels(run.0, o.side), o.price->0, id,
                        ra.remaining_quantity);
                }
            } else {
                let k = choose|k: int|
                    0 <= k < run.1.len() && run.1[k] == EventView::OrderFilled { order_id: id };
                assert(r.1[a.1.len() + k] == run.1[k]);
            }
        } else if a.0 == rest(m1, o.side, o.price->0, id, o.quantity) && a.1 == seq![
            EventView::OrderAccepted { order_id: id },
        ] && o.price is Some && !marketable(m, o.side, o.price->0) && o.time_in_force
            == TimeInForce::GTC {
            lemma_side_add_contains(o.side, side_levels(m1, o.side), o.price->0, id, o.quantity);
            assert(match_spec(a.0) == (a.0, Seq::<EventView>::empty()));
        } else {
            let killed = set_live(m, id, deactivated(lo));
            assert(a.0 == killed);
            assert(match_spec(killed) == (killed, Seq::<EventView>::empty()));
            assert(r.1[0] == a.1[0]);
        }
    }
}


/// Market orders are always aggressive and take the liquidity available:
/// when processing ends, the market order has been filled (there is a fill
/// event for it) or the other side of the book is empty.
pub proof fn law_market_order_takes_liquidity(m: EngineModel, o: Order)
    requires
        arrives(m, o),
        o.price is None,
    ensures
        ({
            let r = process_spec(m, EventView::NewOrder(o));
            ||| side_levels(r.0, opposite(o.side)).len() == 0
            ||| r.1.contains(EventView::OrderFilled { order_id: o.order_id })
        }),
{
    let id = o.order_id;
    let lo = LiveOrder { order: o, remaining_quantity: o.quantity, is_active: true };
    let m1 = set_live(m, id, lo);
    lemma_new_aggressor(m, o);
    lemma_run_props(m1, id);
    lemma_run_fill_event(m1, id);
    let a = apply_spec(m, EventView::NewOrder(o));
    let run = run_aggressor(m1, id);
    let fin = finish_aggressor(run.0, id);
    let r = process_spec(m, EventView::NewOrder(o));
    assert(r.1 == a.1 + (run.1 + fin.1));
    if can_trade(run.0, id) {
        let os = opposite(o.side);
        let opp = side_levels(run.0, os);
        assert(side_wf(os, opp, run.0.live));
        if opp.len() > 0 {
            assert(level_ok(opp[0], os, run.0.live));
        }
    } else {
        let k = choose|k: int| 0 <= k < run.1.len() && run.1[k] == EventView::OrderFilled { order_id: id };
        assert(r.1[a.1.len() + k] == run.1[k]);
    }
}


/// Total quantity of the trades among `evs`.
pub open spec fn traded_quantity(evs: Seq<EventView>) -> nat
    decreases evs.len(),
{
    if evs.len() == 0 {
        0
    } else {
        traded_quantity(evs.drop_last()) + match evs.last() {
            EventView::Trade(t) => t.quantity as nat,
            _ => 0nat,
        }
    }
}

proof fn lemma_traded_concat(a: Seq<EventView>, b: Seq<EventView>)
    ensures
        traded_quantity(a + b) == traded_quantity(a) + traded_quantity(b),
    decreases b.len(),
{
    if b.len() == 0 {
        assert(a + b =~= a);
    } else {
        lemma_traded_concat(a, b.drop_last());
        assert((a + b).drop_last() =~= a + b.drop_last());
        assert((a + b).last() == b.last());
    }
}

/// Quantity is conserved while an aggressor matches: what it trades is
/// exactly what its remaining quantity goes down by.
pub proof fn law_matching_conserves_quantity(m: EngineModel, id: u64)
    requires
        wf(m),
        !in_book(m, id),
        m.live.contains_key(id),
        m.live[id].is_active,
    ensures
        traded_quantity(run_aggressor(m, id).1) + run_aggressor(m, id).0.live[id].remaining_quantity
            == m.live[id].remaining_quantity,
    decreases run_measure(m, id),
{
    if can_trade(m, id) && has_counterparty(m, id) {
        lemma_step_wf(m, id);
        lemma_step_measure(m, id);
        let s = match_step(m, id);
        law_matching_conserves_quantity(s.0, id);
        lemma_traded_concat(s.1, run_aggressor(s.0, id).1);
        law_price_time_priority(m, id);
        if s.1.len() == 3 {
            let e = s.1;
            let e1 = e.drop_last();
            let e2 = e1.drop_last();
            let e3 = e2.drop_last();
            assert(e3.len() == 0);
            assert(e2.last() == e[0]);
            assert(e1.last() == e[1]);
            assert(e.last() == e[2]);
            assert(traded_quantity(e3) == 0);
            assert(traded_quantity(e2) == traded_quantity(e3) + match e[0] {
                EventView::Trade(t) => t.quantity as nat,
                _ => 0nat,
            });
            assert(traded_quantity(e1) == traded_quantity(e2));
            assert(traded_quantity(e) == traded_quantity(e1));
        } else {
            assert(s.1 =~= Seq::<EventView>::empty());
        }
    }
}


/// Every trade among `evs` has order `id` on one side.
pub open spec fn trades_involve(evs: Seq<EventView>, id: u64) -> bool {
    forall|k: int|
        0 <= k < evs.len() ==> match #[trigger] evs[k] {
            EventView::Trade(t) => t.buy_order_id == id || t.sell_order_id == id,
            _ => true,
        }
}

/// The order an input event is about (zero for output events, which
/// change nothing).
pub open spec fn input_order_id(e: EventView) -> u64 {
    match e {
        EventView::NewOrder(o) => o.order_id,
        EventView::CancelOrder { order_id } => order_id,
        EventView::ModifyOrder { order_id, .. } => order_id,
        _ => 0,
    }
}

proof fn lemma_trades_involve_concat(a: Seq<EventView>, b: Seq<EventView>, id: u64)
    requires
        trades_involve(a, id),
        trades_involve(b, id),
    ensures
        trades_involve(a + b, id),
{
    assert forall|k: int| 0 <= k < (a + b).len() implies match #[trigger] (a + b)[k] {
        EventView::Trade(t) => t.buy_order_id == id || t.sell_order_id == id,
        _ => true,
    } by {
        if k < a.len() {
            assert((a + b)[k] == a[k]);
        } else {
            assert((a + b)[k] == b[k - a.len()]);
        }
    }
}

/// Every trade of an aggressor's matching run is a trade of that aggressor.
proof fn lemma_run_trades_involve(m: EngineModel, id: u64)
    requires
        wf(m),
        !in_book(m, id),
        m.live.contains_key(id),
        m.live[id].is_active,
    ensures
        trades_involve(run_aggressor(m, id).1, id),
    decreases run_measure(m, id),
{
    if can_trade(m, id) && has_counterparty(m, id) {
        lemma_step_wf(m, id);
        lemma_step_measure(m, id);
        let s = match_step(m, id);
        lemma_run_trades_involve(s.0, id);
        law_price_time_priority(m, id);
        assert(trades_involve(s.1, id)) by {
            if s.1.len() == 3 {
                assert forall|k: int| 0 <= k < s.1.len() implies match #[trigger] s.1[k] {
                    EventView::Trade(t) => t.buy_order_id == id || t.sell_order_id == id,
                    _ => true,
                } by {
                    if k == 0 {
                        if m.live[id].order.side == Side::Ask {
                            assert(m.live[id].order.side != Side::Bid);
                        }
                    }
                }
            }
        }
        lemma_trades_involve_concat(s.1, run_aggressor(s.0, id).1, id);
    }
}

/// Settling an aggressor never trades.
proof fn lemma_finish_no_trade(m: EngineModel, id: u64)
    ensures
        trades_involve(finish_aggressor(m, id).1, id),
{
}

/// An idle engine whose queue holds at most `id` trades only with `id`.
proof fn lemma_match_single(m: EngineModel, id: u64)
    requires
        wf(m),
        m.queue.len() == 0 || (m.queue == seq![id] && !in_book(m, id) && m.live.contains_key(id)
            && m.live[id].is_active),
    ensures
        trades_involve(match_spec(m).1, id),
{
    if m.queue.len() > 0 {
        lemma_single_drain(m, id);
        let m0 = EngineModel { queue: Seq::empty(), ..m };
        assert(wf(m0));
        lemma_run_props(m0, id);
        lemma_run_trades_involve(m0, id);
        let run = run_aggressor(m0, id);
        lemma_finish_no_trade(run.0, id);
        lemma_trades_involve_concat(run.1, finish_aggressor(run.0, id).1, id);
    }
}

/// Aggressor-driven matching only: processing an input event on an idle
/// engine produces trades only for the order that event is about (and none
/// at all for a cancel).
pub proof fn law_trades_come_from_the_incoming_order(m: EngineModel, e: EventView)
    requires
        idle(m),
        crate::apply::fresh_new_order(m, e),
    ensures
        trades_involve(process_spec(m, e).1, input_order_id(e)),
{
    let id = input_order_id(e);
    let a = apply_spec(m, e);
    assert(trades_involve(a.1, id));
    assert(m.queue =~= Seq::<u64>::empty());
    match e {
        EventView::NewOrder(o) => {
            if o.quantity > 0 {
                lemma_new_aggressor(m, o);
                let lo = LiveOrder { order: o, remaining_quantity: o.quantity, is_active: true };
                let m1 = set_live(m, id, lo);
                if a.0 == enqueue(m1, id) {
                    lemma_wf_queue_push(m1, id);
                    assert(a.0.queue =~= seq![id]);
                    lemma_match_single(a.0, id);
                } else if a.0 == set_live(m, id, deactivated(lo)) {
                    lemma_wf_set_live(m, id, deactivated(lo));
                    lemma_match_single(a.0, id);
                } else {
                    assert(a.0.queue.len() == 0);
                    assert(match_spec(a.0) == (a.0, Seq::<EventView>::empty()));
                }
            } else {
                lemma_match_single(a.0, id);
            }
        },
        EventView::CancelOrder { order_id } => {
            crate::invariants::lemma_without_id_empty(m.queue, id);
            assert(a.0.queue.len() == 0);
            assert(match_spec(a.0) == (a.0, Seq::<EventView>::empty()));
        },
        EventView::ModifyOrder { order_id, new_quantity, new_price } => {
            if m.live.contains_key(id) && m.live[id].is_active && m.live[id].remaining_quantity != 0 {
                let lo = m.live[id];
                let mu = crate::apply::unrest(m, id);
                if lo.order.price is Some {
                    crate::invariants::lemma_wf_book_remove(m, id);
                } else if in_book(m, id) {
                    crate::invariants::lemma_in_book_own_side(m, id);
                }
                assert(wf(mu) && !in_book(mu, id));
                crate::invariants::lemma_wf_queue_remove(mu, id);
                let md = crate::apply::dequeue_id(mu, id);
                crate::invariants::lemma_without_id_empty(mu.queue, id);
                let lo2 = LiveOrder {
                    remaining_quantity: new_quantity,
                    order: Order { price: new_price, ..lo.order },
                    ..lo
                };
                lemma_wf_set_live(md, id, lo2);
                let m3 = set_live(md, id, lo2);
                if a.0 == enqueue(m3, id) {
                    lemma_wf_queue_push(m3, id);
                    assert(a.0.queue =~= seq![id]);
                    lemma_match_single(a.0, id);
                } else {
                    assert(a.0.queue.len() == 0);
                    assert(match_spec(a.0) == (a.0, Seq::<EventView>::empty()));
                }
            } else {
                lemma_match_single(a.0, id);
            }
        },
        _ => {
            lemma_match_single(a.0, id);
        },
    }
    lemma_trades_involve_concat(a.1, match_spec(a.0).1, id);
}


/// Adding an order to a side and then removing it again, at the same price
/// and with the same quantity, gives back the side as it was, provided the
/// order was not in the level at that price before.
pub proof fn law_add_then_remove_restores(side: Side, levels: Seq<LevelModel>, p: i64, id: u64, q: u64)
    requires
        side_sorted(side, levels),
        forall|i: int| 0 <= i < levels.len() ==> (#[trigger] levels[i]).ids.len() > 0,
        forall|i: int| 0 <= i < levels.len() && (#[trigger] levels[i]).price == p ==> !levels[i].ids.contains(id),
        add_fits(side, levels, p, q),
    ensures
        side_remove(side_add(side, levels, p, id, q), p, id, q) == levels,
{
    crate::invariants::lemma_insert_index_props(side, levels, p);
    let i = insert_index(side, levels, p);
    let added = side_add(side, levels, p, id, q);
    assert forall|j: int| 0 <= j < i implies (#[trigger] added[j].price) != p by {
        assert(added[j] == levels[j]);
        assert(better(side, levels[j].price, p));
    }
    crate::book::lemma_level_index_char(added, p, i);
    if i < levels.len() && levels[i].price == p {
        let l = levels[i];
        assert(!l.ids.contains(id));
        crate::state::lemma_without_id(l.ids, id);
        assert(without_id(l.ids.push(id), id) == l.ids) by {
            reveal(Seq::filter);
            assert(l.ids.push(id).drop_last() =~= l.ids);
        }
        assert(added[i].ids == l.ids.push(id));
        assert(side_remove(added, p, id, q) =~= levels.update(i, l));
        assert(levels.update(i, l) =~= levels);
    } else {
        assert(added[i].ids == seq![id]);
        assert(without_id(seq![id], id).len() == 0) by {
            crate::state::lemma_without_id(seq![id], id);
            if without_id(seq![id], id).len() > 0 {
                assert(without_id(seq![id], id).contains(without_id(seq![id], id)[0]));
            }
        }
        assert(side_remove(added, p, id, q) =~= levels);
    }
}


/// The same round trip on the engine: resting an order and then taking it out
/// of its level again leaves the engine as it was (the other side, the
/// orders and the aggressor queue are never touched).
pub proof fn law_rest_then_remove_restores(m: EngineModel, side: Side, p: i64, id: u64, q: u64)
    requires
        side_sorted(side, side_levels(m, side)),
        forall|i: int|
            0 <= i < side_levels(m, side).len() ==> (#[trigger] side_levels(m, side)[i]).ids.len() > 0,
        forall|i: int|
            0 <= i < side_levels(m, side).len() && (#[trigger] side_levels(m, side)[i]).price == p
                ==> !side_levels(m, side)[i].ids.contains(id),
        add_fits(side, side_levels(m, side), p, q),
    ensures
        ({
            let m1 = with_side(m, side, side_add(side, side_levels(m, side), p, id, q));
            with_side(m1, side, side_remove(side_levels(m1, side), p, id, q)) == m
        }),
{
    law_add_then_remove_restores(side, side_levels(m, side), p, id, q);
}


/// Number of trades among `evs`.
pub open spec fn trade_count(evs: Seq<EventView>) -> nat
    decreases evs.len(),
{
    if evs.len() == 0 {
        0
    } else {
        trade_count(evs.drop_last()) + if evs.last() is Trade {
            1nat
        } else {
            0nat
        }
    }
}

/// Number of orders resting in `levels`.
pub open spec fn order_count(levels: Seq<LevelModel>) -> nat
    decreases levels.len(),
{
    if levels.len() == 0 {
        0
    } else {
        levels[0].ids.len() + order_count(levels.drop_first())
    }
}

proof fn lemma_trade_count_concat(a: Seq<EventView>, b: Seq<EventView>)
    ensures
        trade_count(a + b) == trade_count(a) + trade_count(b),
    decreases b.len(),
{
    if b.len() == 0 {
        assert(a + b =~= a);
    } else {
        lemma_trade_count_concat(a, b.drop_last());
        assert((a + b).drop_last() =~= a + b.drop_last());
        assert((a + b).last() == b.last());
    }
}

proof fn lemma_trade_count_one(e: EventView)
    ensures
        trade_count(seq![e]) == (if e is Trade {
            1nat
        } else {
            0nat
        }),
{
    reveal_with_fuel(trade_count, 2);
    assert(seq![e].drop_last() =~= Seq::<EventView>::empty());
    assert(seq![e].last() == e);
}

/// Taking from the best level removes one order when the front order leaves.
proof fn lemma_order_count_reduce(opp: Seq<LevelModel>, qty: int, pop: bool)
    requires
        opp.len() > 0,
        opp[0].ids.len() > 0,
    ensures
        order_count(reduce_front(opp, qty, pop)) + (if pop {
            1int
        } else {
            0int
        }) == order_count(opp),
{
    let r = reduce_front(opp, qty, pop);
    if r.len() == opp.len() {
        assert(r.drop_first() =~= opp.drop_first());
    }
}

/// An aggressor's matching run trades at most once per order resting on the
/// other side when it starts: every trade but the last one uses up the
/// resting order it meets.
proof fn lemma_run_trade_bound(m: EngineModel, id: u64)
    requires
        wf(m),
        !in_book(m, id),
        m.live.contains_key(id),
        m.live[id].is_active,
    ensures
        trade_count(run_aggressor(m, id).1) <= order_count(
            side_levels(m, opposite(m.live[id].order.side)),
        ),
    decreases run_measure(m, id),
{
    let a = m.live[id];
    let os = opposite(a.order.side);
    let opp = side_levels(m, os);
    if can_trade(m, id) && has_counterparty(m, id) {
        lemma_step_wf(m, id);
        lemma_step_measure(m, id);
        let s = match_step(m, id);
        lemma_run_trade_bound(s.0, id);
        let tail = run_aggressor(s.0, id).1;
        lemma_trade_count_concat(s.1, tail);
        let pid = opp[0].ids[0];
        assert(side_levels(s.0, os) == reduce_front(
            opp,
            if !m.live.contains_key(pid) || !m.live[pid].is_active
                || m.live[pid].remaining_quantity == 0 {
                0
            } else {
                min_qty(a.remaining_quantity, m.live[pid].remaining_quantity) as int
            },
            !m.live.contains_key(pid) || !m.live[pid].is_active || m.live[pid].remaining_quantity
                == 0 || m.live[pid].remaining_quantity - min_qty(
                a.remaining_quantity,
                m.live[pid].remaining_quantity,
            ) == 0,
        ));
        if !m.live.contains_key(pid) || !m.live[pid].is_active || m.live[pid].remaining_quantity
            == 0 {
            lemma_order_count_reduce(opp, 0, true);
            assert(s.1 =~= Seq::<EventView>::empty());
            assert(trade_count(s.1) == 0);
        } else {
            let qty = min_qty(a.remaining_quantity, m.live[pid].remaining_quantity);
            let pop = m.live[pid].remaining_quantity - qty == 0;
            lemma_order_count_reduce(opp, qty as int, pop);
            assert(s.1.len() == 3);
            assert(trade_count(s.1) == 1) by {
                assert(s.1 =~= seq![s.1[0]] + seq![s.1[1]] + seq![s.1[2]]);
                lemma_trade_count_one(s.1[0]);
                lemma_trade_count_one(s.1[1]);
                lemma_trade_count_one(s.1[2]);
                lemma_trade_count_concat(seq![s.1[0]], seq![s.1[1]]);
                lemma_trade_count_concat(seq![s.1[0]] + seq![s.1[1]], seq![s.1[2]]);
            }
            if !pop {
                assert(s.0.live[id].remaining_quantity == 0);
                assert(tail =~= Seq::<EventView>::empty());
            }
        }
    }
}

/// Trading is bounded by the book: an incoming order makes at most one trade
/// per order resting on the other side when it arrives.
pub proof fn law_trades_bounded_by_resting_orders(m: EngineModel, o: Order)
    requires
        arrives(m, o),
    ensures
        trade_count(process_spec(m, EventView::NewOrder(o)).1) <= order_count(
            side_levels(m, opposite(o.side)),
        ),
{
    let id = o.order_id;
    let lo = LiveOrder { order: o, remaining_quantity: o.quantity, is_active: true };
    let m1 = set_live(m, id, lo);
    lemma_new_aggressor(m, o);
    let a = apply_spec(m, EventView::NewOrder(o));
    assert(trade_count(a.1) == 0) by {
        assert(a.1 =~= seq![a.1[0]]);
        lemma_trade_count_one(a.1[0]);
    }
    lemma_trade_count_concat(a.1, match_spec(a.0).1);
    if a.0 == enqueue(m1, id) {
        lemma_run_trade_bound(m1, id);
        let run = run_aggressor(m1, id);
        let fin = finish_aggressor(run.0, id);
        lemma_trade_count_concat(run.1, fin.1);
        assert(trade_count(fin.1) == 0) by {
            if fin.1.len() == 1 {
                assert(fin.1 =~= seq![fin.1[0]]);
                lemma_trade_count_one(fin.1[0]);
            }
        }
        assert(side_levels(m1, opposite(o.side)) == side_levels(m, opposite(o.side)));
    } else {
        if a.0 == rest(m1, o.side, o.price->0, id, o.quantity) {
            assert(match_spec(a.0) == (a.0, Seq::<EventView>::empty()));
        } else {
            let killed = set_live(m, id, deactivated(lo));
            assert(a.0 == killed);
            assert(match_spec(killed) == (killed, Seq::<EventView>::empty()));
        }
    }
}


/// Modifying a live order with quantity left accepts it and gives its record
/// the new quantity and the new price (side, id and time-in-force stay, the
/// order stays active); it then either waits in the aggressor queue or rests
/// in the book on its side. Every other record is unchanged. A modify of an
/// unknown or finished order is rejected and changes nothing.
pub proof fn law_modify(m: EngineModel, id: u64, new_quantity: u64, new_price: Option<i64>)
    requires
        wf(m),
    ensures
        ({
            let r = apply_spec(m, EventView::ModifyOrder { order_id: id, new_quantity, new_price });
            if m.live.contains_key(id) && m.live[id].is_active && m.live[id].remaining_quantity > 0 {
                &&& r.1 == seq![EventView::OrderAccepted { order_id: id }]
                &&& r.0.live.contains_key(id)
                &&& r.0.live[id].remaining_quantity == new_quantity
                &&& r.0.live[id].order.price == new_price
                &&& r.0.live[id].order.side == m.live[id].order.side
                &&& r.0.live[id].order.order_id == m.live[id].order.order_id
                &&& r.0.live[id].order.time_in_force == m.live[id].order.time_in_force
                &&& r.0.live[id].is_active
                &&& forall|x: u64| x != id ==> #[trigger] r.0.live.contains_key(x) == m.live.contains_key(x)
                    && r.0.live[x] == m.live[x]
                &&& (r.0.queue.contains(id) && !in_book(r.0, id)) || (!r.0.queue.contains(id)
                    && side_contains(side_levels(r.0, m.live[id].order.side), id) && new_price is Some)
            } else {
                &&& r.0 == m
                &&& r.1.len() == 1
                &&& r.1[0] is OrderRejected
            }
        }),
{
    if m.live.contains_key(id) && m.live[id].is_active && m.live[id].remaining_quantity > 0 {
        let lo = m.live[id];
        let lo2 = LiveOrder {
            remaining_quantity: new_quantity,
            order: Order { price: new_price, ..lo.order },
            ..lo
        };
        lemma_unrest_keeps_others(m, id);
        if lo.order.price is Some {
            crate::invariants::lemma_wf_book_remove(m, id);
        } else if in_book(m, id) {
            crate::invariants::lemma_in_book_own_side(m, id);
        }
        let mu = crate::apply::unrest(m, id);
        crate::invariants::lemma_wf_queue_remove(mu, id);
        let md = crate::apply::dequeue_id(mu, id);
        let m1 = set_live(md, id, lo2);
        assert(!in_book(m1, id));
        assert(!m1.queue.contains(id));
        let r = apply_spec(m, EventView::ModifyOrder { order_id: id, new_quantity, new_price }).0;
        if r == enqueue(m1, id) {
            assert(r.queue[r.queue.len() - 1] == id);
            assert(r.queue.contains(id));
        } else {
            let pp = new_price->0;
            assert(r == rest(m1, lo.order.side, pp, id, new_quantity));
            lemma_side_add_contains(lo.order.side, side_levels(m1, lo.order.side), pp, id, new_quantity);
        }
        assert forall|x: u64| x != id implies #[trigger] r.live.contains_key(x) == m.live.contains_key(x)
            && r.live[x] == m.live[x] by {
            assert(mu.live == m.live);
        }
    }
}


/// Sum of the totals of `levels`.
pub open spec fn levels_total(levels: Seq<LevelModel>) -> nat
    decreases levels.len(),
{
    if levels.len() == 0 {
        0
    } else {
        levels[0].total as nat + levels_total(levels.drop_first())
    }
}

proof fn lemma_reachable_prefix(levels: Seq<LevelModel>, side: Side, limit: i64, k: int)
    requires
        0 <= k <= levels.len(),
        forall|j: int| 0 <= j < k ==> within_limit(side, #[trigger] levels[j].price, limit),
        k < levels.len() ==> !within_limit(side, levels[k].price, limit),
    ensures
        reachable_liquidity(levels, side, limit) == levels_total(levels.take(k)),
    decreases k,
{
    if k == 0 {
        assert(levels.take(0) =~= Seq::<LevelModel>::empty());
    } else {
        let rest = levels.drop_first();
        assert forall|j: int| 0 <= j < k - 1 implies within_limit(side, #[trigger] rest[j].price, limit) by {
            assert(rest[j] == levels[j + 1]);
        }
        if k < levels.len() {
            assert(rest[k - 1] == levels[k]);
        }
        lemma_reachable_prefix(rest, side, limit, k - 1);
        assert(levels.take(k).drop_first() =~= rest.take(k - 1));
        assert(levels.take(k)[0] == levels[0]);
    }
}

/// Fill-or-kill liquidity, for a buy as for a sell: when the first `k`
/// levels of the other side, best first, are exactly those at prices the
/// order accepts, there is enough liquidity exactly when there is at least
/// one such level and their totals add up to at least what is needed.
pub proof fn law_sufficient_liquidity(m: EngineModel, side: Side, limit: i64, needed: u64, k: int)
    requires
        0 <= k <= side_levels(m, opposite(side)).len(),
        forall|j: int|
            0 <= j < k ==> within_limit(side, #[trigger] side_levels(m, opposite(side))[j].price, limit),
        k < side_levels(m, opposite(side)).len() ==> !within_limit(
            side,
            side_levels(m, opposite(side))[k].price,
            limit,
        ),
    ensures
        sufficient_liquidity(m, side, limit, needed) <==> (k > 0 && needed <= levels_total(
            side_levels(m, opposite(side)).take(k),
        )),
{
    lemma_reachable_prefix(side_levels(m, opposite(side)), side, limit, k);
}


/// A full-depth snapshot of a well-formed book whose resting orders all have
/// quantity left shows every level completely: all its orders, front first,
/// each with the remaining quantity of its record, and the level's total.
pub proof fn law_l3_shows_the_book(m: EngineModel, side: Side, i: int)
    requires
        wf(m),
        crate::resting::resting_have_quantity(m),
        0 <= i < side_levels(m, side).len(),
    ensures
        ({
            let l = side_levels(m, side)[i];
            let os = crate::market_data::l3_orders(l.ids, m.live);
            &&& os.len() == l.ids.len()
            &&& forall|k: int|
                0 <= k < l.ids.len() ==> #[trigger] os[k] == (crate::types::L3Order {
                    order_id: l.ids[k],
                    remaining_quantity: m.live[l.ids[k]].remaining_quantity,
                })
            &&& crate::market_data::l3_total(os) == l.total
        }),
{
    let levels = side_levels(m, side);
    let l = levels[i];
    assert(side_wf(side, levels, m.live));
    assert(level_ok(l, side, m.live));
    assert forall|k: int| 0 <= k < l.ids.len() implies m.live.contains_key(#[trigger] l.ids[k])
        && m.live[l.ids[k]].is_active && m.live[l.ids[k]].remaining_quantity > 0 by {
        assert(crate::state::resting_at(m.live, l.ids[k], side, l.price));
        crate::invariants::lemma_side_contains_intro(levels, i, k);
        assert(in_book(m, l.ids[k]));
    }
    crate::market_data::law_l3_full_level(l.ids, m.live);
}

} // verus!
