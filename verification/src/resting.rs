use vstd::prelude::*;

use crate::apply::{apply_spec, dequeue_id, fresh_new_order, rest, set_live, unrest};
use crate::book::{insert_index, side_add, LevelModel};
use crate::invariants::{
    lemma_in_book_own_side, lemma_insert_index_props, lemma_wf_book_remove, lemma_wf_queue_remove,
};
use crate::matching::{can_trade, finish_aggressor, has_counterparty, lemma_step_wf, match_step};
use crate::state::{in_book, opposite, side_contains, side_levels, wf, EngineModel};
use crate::types::{EventView, Side, TimeInForce};

verus! {

/// Every order resting in the book still has quantity left to trade.
pub open spec fn resting_have_quantity(m: EngineModel) -> bool {
    forall|x: u64| #[trigger] in_book(m, x) ==> m.live[x].remaining_quantity > 0
}

/// A modify that sets an order's quantity to zero (the one input that can
/// leave an order resting with nothing left).
pub open spec fn modifies_to_zero(e: EventView) -> bool {
    match e {
        EventView::ModifyOrder { new_quantity, .. } => new_quantity == 0,
        _ => false,
    }
}

/// The orders of a side after an addition are those it had and the one added.
proof fn lemma_side_add_members(side: Side, levels: Seq<LevelModel>, p: i64, id: u64, q: u64)
    ensures
        forall|x: u64|
            #[trigger] side_contains(side_add(side, levels, p, id, q), x) ==> side_contains(levels, x)
                || x == id,
{
    lemma_insert_index_props(side, levels, p);
    let i = insert_index(side, levels, p);
    let r = side_add(side, levels, p, id, q);
    assert forall|x: u64| #[trigger] side_contains(r, x) implies side_contains(levels, x) || x == id by {
        let j = choose|j: int| 0 <= j < r.len() && #[trigger] r[j].ids.contains(x);
        if i < levels.len() && levels[i].price == p {
            if j == i {
                let k = choose|k: int| 0 <= k < r[i].ids.len() && r[i].ids[k] == x;
                if k < levels[i].ids.len() {
                    assert(levels[i].ids[k] == x);
                    assert(levels[i].ids.contains(x));
                }
            } else {
                assert(r[j] == levels[j]);
            }
        } else {
            if j < i {
                assert(r[j] == levels[j]);
            } else if j > i {
                assert(r[j] == levels[j - 1]);
            } else {
                assert(r[i].ids == seq![id]);
            }
        }
    }
}

/// Resting order `id` adds only `id` to the book and leaves the records alone.
proof fn lemma_rest_members(m: EngineModel, side: Side, p: i64, id: u64, q: u64)
    ensures
        rest(m, side, p, id, q).live == m.live,
        forall|x: u64| #[trigger] in_book(rest(m, side, p, id, q), x) ==> in_book(m, x) || x == id,
{
    lemma_side_add_members(side, side_levels(m, side), p, id, q);
    let r = rest(m, side, p, id, q);
    assert(side_levels(r, opposite(side)) == side_levels(m, opposite(side)));
    assert forall|x: u64| #[trigger] in_book(r, x) implies in_book(m, x) || x == id by {
        if side_contains(side_levels(r, side), x) {
            assert(side_contains(side_levels(m, side), x) || x == id);
        }
    }
}

/// Taking a known order of a well-formed engine out of the book (and the
/// queue) removes only that order from the book.
proof fn lemma_unrest_members(m: EngineModel, id: u64)
    requires
        wf(m),
        m.live.contains_key(id),
    ensures
        unrest(m, id).live == m.live,
        !in_book(unrest(m, id), id),
        forall|x: u64| #[trigger] in_book(unrest(m, id), x) ==> in_book(m, x),
{
    if m.live[id].order.price is Some {
        lemma_wf_book_remove(m, id);
    } else if in_book(m, id) {
        lemma_in_book_own_side(m, id);
    }
}

/// Input events keep every resting order with quantity left, except a
/// modify to a zero quantity.
pub proof fn lemma_apply_quantity(m: EngineModel, e: EventView)
    requires
        wf(m),
        fresh_new_order(m, e),
        resting_have_quantity(m),
        !modifies_to_zero(e),
    ensures
        resting_have_quantity(apply_spec(m, e).0),
{
    let r = apply_spec(m, e).0;
    match e {
        EventView::NewOrder(o) => {
            let id = o.order_id;
            if o.quantity > 0 {
                let lo = crate::state::LiveOrder {
                    order: o,
                    remaining_quantity: o.quantity,
                    is_active: true,
                };
                let m1 = set_live(m, id, lo);
                if let Some(lp) = o.price {
                    lemma_rest_members(m1, o.side, lp, id, o.quantity);
                }
                assert forall|x: u64| #[trigger] in_book(r, x) implies r.live[x].remaining_quantity
                    > 0 by {
                    if x != id {
                        assert(in_book(m1, x) || in_book(m, x));
                        assert(in_book(m, x));
                    }
                }
            }
        },
        EventView::CancelOrder { order_id } => {
            if m.live.contains_key(order_id) && m.live[order_id].is_active
                && m.live[order_id].remaining_quantity > 0 {
                lemma_wf_queue_remove(m, order_id);
                let md = dequeue_id(m, order_id);
                lemma_unrest_members(md, order_id);
                let mu = unrest(md, order_id);
                assert forall|x: u64| #[trigger] in_book(r, x) implies r.live[x].remaining_quantity
                    > 0 by {
                    assert(in_book(mu, x));
                    assert(in_book(md, x));
                    assert(in_book(m, x));
                }
            }
        },
        EventView::ModifyOrder { order_id, new_quantity, new_price } => {
            let id = order_id;
            if m.live.contains_key(id) && m.live[id].is_active && m.live[id].remaining_quantity > 0 {
                lemma_unrest_members(m, id);
                let lo = m.live[id];
                let lo2 = crate::state::LiveOrder {
                    remaining_quantity: new_quantity,
                    order: crate::types::Order { price: new_price, ..lo.order },
                    ..lo
                };
                let mu = unrest(m, id);
                let m1 = set_live(dequeue_id(mu, id), id, lo2);
                if let Some(p) = new_price {
                    lemma_rest_members(m1, lo.order.side, p, id, new_quantity);
                }
                assert forall|x: u64| #[trigger] in_book(r, x) implies r.live[x].remaining_quantity
                    > 0 by {
                    if x != id {
                        assert(in_book(m1, x));
                        assert(in_book(mu, x));
                        assert(in_book(m, x));
                    }
                }
            }
        },
        _ => {},
    }
}

/// A matching step keeps every resting order with quantity left: a resting
/// order that is used up leaves the book.
pub proof fn lemma_step_quantity(m: EngineModel, id: u64)
    requires
        wf(m),
        !in_book(m, id),
        can_trade(m, id),
        has_counterparty(m, id),
        resting_have_quantity(m),
    ensures
        resting_have_quantity(match_step(m, id).0),
{
    lemma_step_wf(m, id);
    let r = match_step(m, id).0;
    let opp = side_levels(m, opposite(m.live[id].order.side));
    let pid = opp[0].ids[0];
    assert forall|x: u64| #[trigger] in_book(r, x) implies r.live[x].remaining_quantity > 0 by {
        assert(in_book(m, x));
        lemma_in_book_own_side(r, x);
        if x != pid {
            assert(x != id);
            assert(r.live[x] == m.live[x]);
        }
    }
}

/// Settling an aggressor keeps every resting order with quantity left: a
/// good-till-canceled remainder rests only when it has quantity.
pub proof fn lemma_finish_quantity(m: EngineModel, id: u64)
    requires
        !in_book(m, id),
        resting_have_quantity(m),
    ensures
        resting_have_quantity(finish_aggressor(m, id).0),
{
    let r = finish_aggressor(m, id).0;
    if can_trade(m, id) {
        let a = m.live[id];
        if let Some(lp) = a.order.price {
            if a.order.time_in_force == TimeInForce::GTC {
                lemma_rest_members(m, a.order.side, lp, id, a.remaining_quantity);
            }
        }
        assert forall|x: u64| #[trigger] in_book(r, x) implies r.live[x].remaining_quantity > 0 by {
            if x != id {
                assert(in_book(m, x));
            }
        }
    }
}

} // verus!
