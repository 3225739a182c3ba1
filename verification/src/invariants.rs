use vstd::prelude::*;

use crate::book::{
    add_fits, better, insert_index, level_index, side_add, side_remove, side_sorted, without_id,
    LevelModel,
};
use crate::book_ops::level_total_bounded;
use crate::state::{
    in_book, with_side, lemma_sum_agree, lemma_sum_bound, lemma_sum_push, lemma_sum_without, lemma_without_id,
    level_ok, level_sum, resting_at, side_contains, side_levels, side_wf, wf, EngineModel,
    LiveOrder,
};
use crate::types::Side;

verus! {

pub proof fn lemma_insert_index_props(side: Side, levels: Seq<LevelModel>, p: i64)
    ensures
        0 <= insert_index(side, levels, p) <= levels.len(),
        forall|j: int|
            0 <= j < insert_index(side, levels, p) ==> better(side, #[trigger] levels[j].price, p),
        insert_index(side, levels, p) < levels.len() ==> !better(
            side,
            levels[insert_index(side, levels, p)].price,
            p,
        ),
    decreases levels.len(),
{
    if levels.len() > 0 && better(side, levels[0].price, p) {
        let rest = levels.drop_first();
        lemma_insert_index_props(side, rest, p);
        let i = insert_index(side, levels, p);
        assert forall|j: int| 0 <= j < i implies better(side, #[trigger] levels[j].price, p) by {
            if j > 0 {
                assert(levels[j] == rest[j - 1]);
            }
        }
        if i < levels.len() {
            assert(levels[i] == rest[i - 1]);
        }
    }
}

pub proof fn lemma_level_index_props(levels: Seq<LevelModel>, p: i64)
    ensures
        0 <= level_index(levels, p) <= levels.len(),
        level_index(levels, p) < levels.len() ==> levels[level_index(levels, p)].price == p,
        forall|j: int| 0 <= j < level_index(levels, p) ==> (#[trigger] levels[j].price) != p,
    decreases levels.len(),
{
    if levels.len() > 0 && levels[0].price != p {
        let rest = levels.drop_first();
        lemma_level_index_props(rest, p);
        let i = level_index(levels, p);
        assert forall|j: int| 0 <= j < i implies (#[trigger] levels[j].price) != p by {
            if j > 0 {
                assert(levels[j] == rest[j - 1]);
            }
        }
        if i < levels.len() {
            assert(levels[i] == rest[i - 1]);
        }
    }
}

pub proof fn lemma_side_contains_intro(levels: Seq<LevelModel>, i: int, k: int)
    requires
        0 <= i < levels.len(),
        0 <= k < levels[i].ids.len(),
    ensures
        side_contains(levels, levels[i].ids[k]),
{
    assert(levels[i].ids.contains(levels[i].ids[k]));
}

/// An order in a well-formed side rests there at its own price.
pub proof fn lemma_side_member(side: Side, levels: Seq<LevelModel>, live: Map<u64, LiveOrder>, id: u64)
    requires
        side_wf(side, levels, live),
        side_contains(levels, id),
    ensures
        live.contains_key(id),
        live[id].is_active,
        live[id].order.side == side,
        exists|i: int|
            0 <= i < levels.len() && #[trigger] levels[i].ids.contains(id) && Some(levels[i].price)
                == live[id].order.price,
{
    let i = choose|i: int| 0 <= i < levels.len() && #[trigger] levels[i].ids.contains(id);
    assert(level_ok(levels[i], side, live));
    let k = choose|k: int| 0 <= k < levels[i].ids.len() && levels[i].ids[k] == id;
    assert(resting_at(live, levels[i].ids[k], side, levels[i].price));
}

/// An order can only be in the level at its own price.
pub proof fn lemma_side_member_level(
    side: Side,
    levels: Seq<LevelModel>,
    live: Map<u64, LiveOrder>,
    id: u64,
    i: int,
)
    requires
        side_wf(side, levels, live),
        0 <= i < levels.len(),
        levels[i].ids.contains(id),
    ensures
        resting_at(live, id, side, levels[i].price),
{
    assert(level_ok(levels[i], side, live));
    let k = choose|k: int| 0 <= k < levels[i].ids.len() && levels[i].ids[k] == id;
    assert(resting_at(live, levels[i].ids[k], side, levels[i].price));
}

/// A side stays well-formed when the records of its orders do not change.
pub proof fn lemma_side_wf_frame(
    side: Side,
    levels: Seq<LevelModel>,
    live: Map<u64, LiveOrder>,
    live2: Map<u64, LiveOrder>,
)
    requires
        side_wf(side, levels, live),
        forall|id: u64|
            #[trigger] side_contains(levels, id) ==> live2.contains_key(id) && live2[id] == live[id],
    ensures
        side_wf(side, levels, live2),
{
    assert forall|i: int| 0 <= i < levels.len() implies level_ok(#[trigger] levels[i], side, live2) by {
        let l = levels[i];
        assert(level_ok(l, side, live));
        assert forall|k: int| 0 <= k < l.ids.len() implies live[#[trigger] l.ids[k]].remaining_quantity
            == live2[l.ids[k]].remaining_quantity by {
            lemma_side_contains_intro(levels, i, k);
        }
        lemma_sum_agree(l.ids, live, live2);
        assert forall|k: int| 0 <= k < l.ids.len() implies resting_at(
            live2,
            #[trigger] l.ids[k],
            side,
            l.price,
        ) by {
            lemma_side_contains_intro(levels, i, k);
            assert(resting_at(live, l.ids[k], side, l.price));
        }
    }
}

/// Adding an order that rests at `p` keeps a side well-formed.
pub proof fn lemma_side_add_wf(
    side: Side,
    levels: Seq<LevelModel>,
    live: Map<u64, LiveOrder>,
    p: i64,
    id: u64,
    q: u64,
)
    requires
        side_wf(side, levels, live),
        resting_at(live, id, side, p),
        live[id].remaining_quantity == q,
        !side_contains(levels, id),
        add_fits(side, levels, p, q),
    ensures
        side_wf(side, side_add(side, levels, p, id, q), live),
        forall|x: u64|
            #[trigger] side_contains(side_add(side, levels, p, id, q), x) <==> (side_contains(
                levels,
                x,
            ) || x == id),
{
    lemma_insert_index_props(side, levels, p);
    let i = insert_index(side, levels, p);
    let r = side_add(side, levels, p, id, q);
    if i < levels.len() && levels[i].price == p {
        let l = levels[i];
        let nl = LevelModel { price: p, ids: l.ids.push(id), total: (l.total + q) as u128 };
        assert(r == levels.update(i, nl));
        assert(level_ok(l, side, live));
        assert(!l.ids.contains(id)) by {
            if l.ids.contains(id) {
                let k = choose|k: int| 0 <= k < l.ids.len() && l.ids[k] == id;
                lemma_side_contains_intro(levels, i, k);
            }
        }
        lemma_sum_push(l.ids, id, live);
        assert(level_ok(nl, side, live)) by {
            assert forall|k: int| 0 <= k < nl.ids.len() implies resting_at(
                live,
                #[trigger] nl.ids[k],
                side,
                nl.price,
            ) by {
                if k < l.ids.len() {
                    assert(nl.ids[k] == l.ids[k]);
                }
            }
            assert forall|a: int, b: int|
                0 <= a < nl.ids.len() && 0 <= b < nl.ids.len() && a != b implies nl.ids[a]
                != nl.ids[b] by {
                if a < l.ids.len() && b < l.ids.len() {
                } else if a < l.ids.len() {
                    assert(l.ids.contains(nl.ids[a]));
                } else {
                    assert(l.ids.contains(nl.ids[b]));
                }
            }
        }
        assert(side_wf(side, r, live)) by {
            assert forall|a: int, b: int| 0 <= a < b < r.len() implies better(
                side,
                #[trigger] r[a].price,
                #[trigger] r[b].price,
            ) by {
                assert(r[a].price == levels[a].price && r[b].price == levels[b].price);
            }
            assert forall|j: int| 0 <= j < r.len() implies level_ok(#[trigger] r[j], side, live) by {
                if j != i {
                    assert(r[j] == levels[j]);
                }
            }
        }
        assert forall|x: u64| #[trigger] side_contains(r, x) <==> (side_contains(levels, x) || x
            == id) by {
            if side_contains(r, x) {
                let j = choose|j: int| 0 <= j < r.len() && #[trigger] r[j].ids.contains(x);
                if j != i {
                    assert(r[j] == levels[j]);
                } else if x != id {
                    let k = choose|k: int| 0 <= k < nl.ids.len() && nl.ids[k] == x;
                    assert(k < l.ids.len());
                    assert(l.ids[k] == x);
                    assert(levels[i].ids.contains(x));
                }
            }
            if side_contains(levels, x) {
                let j = choose|j: int| 0 <= j < levels.len() && #[trigger] levels[j].ids.contains(x);
                if j != i {
                    assert(r[j] == levels[j]);
                } else {
                    let k = choose|k: int| 0 <= k < l.ids.len() && l.ids[k] == x;
                    assert(nl.ids[k] == x);
                    assert(r[i].ids.contains(x));
                }
            }
            if x == id {
                assert(nl.ids[l.ids.len() as int] == id);
                assert(r[i].ids.contains(x));
            }
        }
    } else {
        let nl = LevelModel { price: p, ids: seq![id], total: q as u128 };
        assert(r == levels.insert(i, nl));
        assert(level_sum(nl.ids, live) == q) by {
            assert(nl.ids.drop_last().len() == 0);
            assert(level_sum(nl.ids.drop_last(), live) == 0);
            assert(nl.ids.last() == id);
        }
        assert(level_ok(nl, side, live)) by {
            assert forall|k: int| 0 <= k < nl.ids.len() implies resting_at(
                live,
                #[trigger] nl.ids[k],
                side,
                nl.price,
            ) by {
                assert(nl.ids[k] == id);
            }
        }
        assert(side_wf(side, r, live)) by {
            assert forall|a: int, b: int| 0 <= a < b < r.len() implies better(
                side,
                #[trigger] r[a].price,
                #[trigger] r[b].price,
            ) by {
                if b < i {
                    assert(r[a] == levels[a] && r[b] == levels[b]);
                } else if b == i {
                    assert(r[a] == levels[a]);
                } else if a < i {
                    assert(r[a] == levels[a] && r[b] == levels[b - 1]);
                    assert(better(side, levels[a].price, levels[i].price));
                    if b - 1 > i {
                        assert(better(side, levels[i].price, levels[b - 1].price));
                    }
                    assert(levels[i].price != p);
                } else if a == i {
                    assert(r[b] == levels[b - 1]);
                    assert(levels[i].price != p);
                    if b - 1 > i {
                        assert(better(side, levels[i].price, levels[b - 1].price));
                    }
                } else {
                    assert(r[a] == levels[a - 1] && r[b] == levels[b - 1]);
                }
            }
            assert forall|j: int| 0 <= j < r.len() implies level_ok(#[trigger] r[j], side, live) by {
                if j < i {
                    assert(r[j] == levels[j]);
                } else if j > i {
                    assert(r[j] == levels[j - 1]);
                }
            }
        }
        assert forall|x: u64| #[trigger] side_contains(r, x) <==> (side_contains(levels, x) || x
            == id) by {
            if side_contains(r, x) {
                let j = choose|j: int| 0 <= j < r.len() && #[trigger] r[j].ids.contains(x);
                if j < i {
                    assert(r[j] == levels[j]);
                } else if j > i {
                    assert(r[j] == levels[j - 1]);
                } else {
                    let k = choose|k: int| 0 <= k < nl.ids.len() && nl.ids[k] == x;
                    assert(nl.ids[k] == id);
                }
            }
            if side_contains(levels, x) {
                let j = choose|j: int| 0 <= j < levels.len() && #[trigger] levels[j].ids.contains(x);
                if j < i {
                    assert(r[j] == levels[j]);
                } else {
                    assert(r[j + 1] == levels[j]);
                }
            }
            if x == id {
                assert(r[i] == nl);
                assert(nl.ids[0] == id);
                assert(r[i].ids.contains(x));
            }
        }
    }
}

/// Removing an order from the level at its own price keeps a side
/// well-formed, and the order no longer rests there.
#[verifier::rlimit(60)]
pub proof fn lemma_side_remove_wf(
    side: Side,
    levels: Seq<LevelModel>,
    live: Map<u64, LiveOrder>,
    p: i64,
    id: u64,
)
    requires
        side_wf(side, levels, live),
        live.contains_key(id),
        live[id].order.price == Some(p),
    ensures
        side_wf(side, side_remove(levels, p, id, live[id].remaining_quantity), live),
        !side_contains(side_remove(levels, p, id, live[id].remaining_quantity), id),
        forall|x: u64|
            #[trigger] side_contains(side_remove(levels, p, id, live[id].remaining_quantity), x)
                <==> (side_contains(levels, x) && x != id),
{
    let q = live[id].remaining_quantity;
    let r = side_remove(levels, p, id, q);
    lemma_level_index_props(levels, p);
    let i = level_index(levels, p);
    // outside level i the order does not occur
    assert forall|j: int| 0 <= j < levels.len() && j != i implies !(#[trigger] levels[j].ids.contains(
        id,
    )) by {
        if levels[j].ids.contains(id) {
            lemma_side_member_level(side, levels, live, id, j);
            if i < levels.len() {
                if j < i {
                    assert(better(side, levels[j].price, levels[i].price));
                } else {
                    assert(better(side, levels[i].price, levels[j].price));
                }
            }
        }
    }
    if i < levels.len() {
        let l = levels[i];
        assert(level_ok(l, side, live));
        let ids = without_id(l.ids, id);
        lemma_without_id(l.ids, id);
        if l.ids.contains(id) {
            lemma_sum_without(l.ids, id, live);
        }
        let total = if ids.len() != l.ids.len() {
            if l.total >= q {
                (l.total - q) as u128
            } else {
                0u128
            }
        } else {
            l.total
        };
        assert(total == level_sum(ids, live));
        let nl = LevelModel { price: p, ids, total };
        assert forall|k: int| 0 <= k < ids.len() implies resting_at(
            live,
            #[trigger] ids[k],
            side,
            p,
        ) by {
            assert(ids.contains(ids[k]));
            let k2 = choose|k2: int| 0 <= k2 < l.ids.len() && l.ids[k2] == ids[k];
            assert(resting_at(live, l.ids[k2], side, l.price));
        }
        if ids.len() == 0 {
            assert(r == levels.remove(i));
            assert(side_wf(side, r, live)) by {
                assert forall|a: int, b: int| 0 <= a < b < r.len() implies better(
                    side,
                    #[trigger] r[a].price,
                    #[trigger] r[b].price,
                ) by {
                    if b < i {
                        assert(r[a] == levels[a] && r[b] == levels[b]);
                    } else if a < i {
                        assert(r[a] == levels[a] && r[b] == levels[b + 1]);
                    } else {
                        assert(r[a] == levels[a + 1] && r[b] == levels[b + 1]);
                    }
                }
                assert forall|j: int| 0 <= j < r.len() implies level_ok(#[trigger] r[j], side, live) by {
                    if j < i {
                        assert(r[j] == levels[j]);
                    } else {
                        assert(r[j] == levels[j + 1]);
                    }
                }
            }
            assert forall|x: u64| #[trigger] side_contains(r, x) <==> (side_contains(levels, x) && x
                != id) by {
                if side_contains(r, x) {
                    let j = choose|j: int| 0 <= j < r.len() && #[trigger] r[j].ids.contains(x);
                    if j < i {
                        assert(r[j] == levels[j]);
                    } else {
                        assert(r[j] == levels[j + 1]);
                    }
                }
                if side_contains(levels, x) && x != id {
                    let j = choose|j: int|
                        0 <= j < levels.len() && #[trigger] levels[j].ids.contains(x);
                    if j < i {
                        assert(r[j] == levels[j]);
                    } else if j > i {
                        assert(r[j - 1] == levels[j]);
                    } else {
                        assert(ids.contains(x));
                    }
                }
            }
        } else {
            assert(r == levels.update(i, nl));
            assert(level_ok(nl, side, live));
            assert(side_wf(side, r, live)) by {
                assert forall|a: int, b: int| 0 <= a < b < r.len() implies better(
                    side,
                    #[trigger] r[a].price,
                    #[trigger] r[b].price,
                ) by {
                    assert(r[a].price == levels[a].price && r[b].price == levels[b].price);
                }
                assert forall|j: int| 0 <= j < r.len() implies level_ok(#[trigger] r[j], side, live) by {
                    if j != i {
                        assert(r[j] == levels[j]);
                    }
                }
            }
            assert forall|x: u64| #[trigger] side_contains(r, x) <==> (side_contains(levels, x) && x
                != id) by {
                if side_contains(r, x) {
                    let j = choose|j: int| 0 <= j < r.len() && #[trigger] r[j].ids.contains(x);
                    if j != i {
                        assert(r[j] == levels[j]);
                    } else {
                        assert(l.ids.contains(x));
                        assert(levels[i].ids.contains(x));
                    }
                }
                if side_contains(levels, x) && x != id {
                    let j = choose|j: int|
                        0 <= j < levels.len() && #[trigger] levels[j].ids.contains(x);
                    if j != i {
                        assert(r[j] == levels[j]);
                    } else {
                        assert(ids.contains(x));
                        assert(r[i].ids.contains(x));
                    }
                }
            }
        }
    } else {
        assert(r == levels);
    }
}

/// An order whose record says another side, or that is not active, or that
/// is unknown, does not rest on `side`.
pub proof fn lemma_not_on_side(side: Side, levels: Seq<LevelModel>, live: Map<u64, LiveOrder>, id: u64)
    requires
        side_wf(side, levels, live),
        !live.contains_key(id) || !live[id].is_active || live[id].order.side != side,
    ensures
        !side_contains(levels, id),
{
    if side_contains(levels, id) {
        lemma_side_member(side, levels, live, id);
    }
}

/// In a well-formed engine every level total is bounded by its size.
pub proof fn lemma_wf_level_bounded(m: EngineModel, side: Side, p: i64)
    requires
        wf(m),
    ensures
        level_total_bounded(m, side, p),
        forall|j: int|
            0 <= j < side_levels(m, side).len() ==> (#[trigger] side_levels(m, side)[j]).total
                <= side_levels(m, side)[j].ids.len() * 0xFFFF_FFFF_FFFF_FFFFnat,
{
    let levels = side_levels(m, side);
    assert(side_wf(side, levels, m.live));
    assert forall|j: int| 0 <= j < levels.len() implies (#[trigger] levels[j]).total
        <= levels[j].ids.len() * 0xFFFF_FFFF_FFFF_FFFFnat by {
        assert(level_ok(levels[j], side, m.live));
        lemma_sum_bound(levels[j].ids, m.live);
    }
}


/// Changing the record of an order that does not rest keeps the engine well-formed.
pub proof fn lemma_wf_set_live(m: EngineModel, id: u64, lo: LiveOrder)
    requires
        wf(m),
        !in_book(m, id),
    ensures
        wf(EngineModel { live: m.live.insert(id, lo), ..m }),
{
    let live2 = m.live.insert(id, lo);
    lemma_side_wf_frame(Side::Bid, m.bids, m.live, live2);
    lemma_side_wf_frame(Side::Ask, m.asks, m.live, live2);
    let m2 = EngineModel { live: live2, ..m };
    assert forall|k: int| 0 <= k < m2.queue.len() implies m2.live.contains_key(
        #[trigger] m2.queue[k],
    ) && !in_book(m2, m2.queue[k]) by {
        assert(m.live.contains_key(m.queue[k]));
    }
}

/// Queueing a known order that neither rests nor waits keeps the engine well-formed.
pub proof fn lemma_wf_queue_push(m: EngineModel, id: u64)
    requires
        wf(m),
        m.live.contains_key(id),
        !m.queue.contains(id),
        !in_book(m, id),
    ensures
        wf(EngineModel { queue: m.queue.push(id), ..m }),
{
    let m2 = EngineModel { queue: m.queue.push(id), ..m };
    assert forall|k: int| 0 <= k < m2.queue.len() implies m2.live.contains_key(
        #[trigger] m2.queue[k],
    ) && !in_book(m2, m2.queue[k]) by {
        if k < m.queue.len() {
            assert(m2.queue[k] == m.queue[k]);
        }
    }
    assert forall|a: int, b: int|
        0 <= a < m2.queue.len() && 0 <= b < m2.queue.len() && a != b implies m2.queue[a]
        != m2.queue[b] by {
        if a < m.queue.len() && b < m.queue.len() {
        } else if a < m.queue.len() {
            assert(m.queue.contains(m2.queue[a]));
        } else {
            assert(m.queue.contains(m2.queue[b]));
        }
    }
}

/// Dropping an order from the aggressor queue keeps the engine well-formed.
pub proof fn lemma_wf_queue_remove(m: EngineModel, id: u64)
    requires
        wf(m),
    ensures
        wf(EngineModel { queue: without_id(m.queue, id), ..m }),
        !without_id(m.queue, id).contains(id),
{
    lemma_without_id(m.queue, id);
    let m2 = EngineModel { queue: without_id(m.queue, id), ..m };
    assert forall|k: int| 0 <= k < m2.queue.len() implies m2.live.contains_key(
        #[trigger] m2.queue[k],
    ) && !in_book(m2, m2.queue[k]) by {
        assert(m2.queue.contains(m2.queue[k]));
        let j = choose|j: int| 0 <= j < m.queue.len() && m.queue[j] == m2.queue[k];
        assert(m.live.contains_key(m.queue[j]));
    }
}

/// An order that rests is on its own side at its own price: an order without
/// a price, or not active, does not rest.
pub proof fn lemma_in_book_own_side(m: EngineModel, id: u64)
    requires
        wf(m),
        in_book(m, id),
    ensures
        m.live.contains_key(id),
        m.live[id].is_active,
        m.live[id].order.price is Some,
        side_contains(side_levels(m, m.live[id].order.side), id),
        !side_contains(side_levels(m, crate::state::opposite(m.live[id].order.side)), id),
{
    if side_contains(m.bids, id) {
        lemma_side_member(Side::Bid, m.bids, m.live, id);
        lemma_not_on_side(Side::Ask, m.asks, m.live, id);
    } else {
        lemma_side_member(Side::Ask, m.asks, m.live, id);
        lemma_not_on_side(Side::Bid, m.bids, m.live, id);
    }
}

/// Taking a known order out of the level at its price keeps the engine
/// well-formed; afterwards it does not rest, and nothing else starts resting.
pub proof fn lemma_wf_book_remove(m: EngineModel, id: u64)
    requires
        wf(m),
        m.live.contains_key(id),
        m.live[id].order.price is Some,
    ensures
        ({
            let lo = m.live[id];
            let side = lo.order.side;
            let m2 = with_side(
                m,
                side,
                side_remove(side_levels(m, side), lo.order.price->0, id, lo.remaining_quantity),
            );
            &&& wf(m2)
            &&& !in_book(m2, id)
            &&& forall|x: u64| #[trigger] in_book(m2, x) ==> in_book(m, x)
        }),
{
    let lo = m.live[id];
    let side = lo.order.side;
    let p = lo.order.price->0;
    let levels = side_levels(m, side);
    lemma_side_remove_wf(side, levels, m.live, p, id);
    let m2 = with_side(m, side, side_remove(levels, p, id, lo.remaining_quantity));
    let other = crate::state::opposite(side);
    lemma_not_on_side(other, side_levels(m, other), m.live, id);
    assert(side_levels(m2, other) == side_levels(m, other));
    assert(side_levels(m2, side) == side_remove(levels, p, id, lo.remaining_quantity));
    assert forall|x: u64| #[trigger] in_book(m2, x) implies in_book(m, x) by {
        if side_contains(side_levels(m2, side), x) {
            assert(side_contains(levels, x));
        }
    }
    assert(side_wf(Side::Bid, m2.bids, m2.live));
    assert(side_wf(Side::Ask, m2.asks, m2.live));
    assert forall|k: int| 0 <= k < m2.queue.len() implies m2.live.contains_key(
        #[trigger] m2.queue[k],
    ) && !in_book(m2, m2.queue[k]) by {
        assert(m.live.contains_key(m.queue[k]));
        assert(!in_book(m, m.queue[k]));
    }
}

/// Resting an active order at its own price keeps the engine well-formed.
pub proof fn lemma_wf_book_add(m: EngineModel, side: Side, p: i64, id: u64, q: u64)
    requires
        wf(m),
        resting_at(m.live, id, side, p),
        m.live[id].remaining_quantity == q,
        !in_book(m, id),
        !m.queue.contains(id),
        add_fits(side, side_levels(m, side), p, q),
    ensures
        wf(with_side(m, side, side_add(side, side_levels(m, side), p, id, q))),
{
    let levels = side_levels(m, side);
    lemma_side_add_wf(side, levels, m.live, p, id, q);
    let m2 = with_side(m, side, side_add(side, levels, p, id, q));
    let other = crate::state::opposite(side);
    assert(side_levels(m2, other) == side_levels(m, other));
    assert(side_levels(m2, side) == side_add(side, levels, p, id, q));
    assert(side_wf(Side::Bid, m2.bids, m2.live));
    assert(side_wf(Side::Ask, m2.asks, m2.live));
    assert forall|k: int| 0 <= k < m2.queue.len() implies m2.live.contains_key(
        #[trigger] m2.queue[k],
    ) && !in_book(m2, m2.queue[k]) by {
        assert(m.live.contains_key(m.queue[k]));
        assert(!in_book(m, m.queue[k]));
        assert(m.queue[k] != id);
        if side_contains(side_levels(m2, side), m.queue[k]) {
            assert(side_contains(levels, m.queue[k]));
        }
    }
}

/// Nothing is left when removing an id from an empty sequence.
pub proof fn lemma_without_id_empty(s: Seq<u64>, id: u64)
    requires
        s.len() == 0,
    ensures
        without_id(s, id).len() == 0,
{
    lemma_without_id(s, id);
}

} // verus!
