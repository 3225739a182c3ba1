use std::collections::HashMap;
use std::collections::VecDeque;
use vstd::prelude::*;

use crate::book::{levels_view, side_sorted, without_id, LevelModel, OrderBook};
use crate::types::{Order, Side};

verus! {

/// The engine's record of an order: the order as submitted (its price may be
/// changed by a modification), the quantity still to execute, and whether it
/// is still live.
#[derive(Clone, Copy, Debug, PartialEq, Eq)]
pub struct LiveOrder {
    pub order: Order,
    pub remaining_quantity: u64,
    pub is_active: bool,
}

/// The mutable state of the engine. Every event reads it, changes it and
/// produces output events.
pub struct EngineState {
    /// Resting limit orders, by side and price level.
    pub order_book: OrderBook,
    /// Every known order by id: the source of truth for remaining quantity and activity.
    pub live_orders: HashMap<u64, LiveOrder>,
    /// Aggressor orders waiting to be matched, first come first served.
    pub active_order: VecDeque<u64>,
    /// Id of the next trade.
    pub next_trade: u64,
    /// Deterministic sequence number of the next trade.
    pub next_sequence: u64,
}

/// The mathematical content of an [`EngineState`].
pub struct EngineModel {
    pub bids: Seq<LevelModel>,
    pub asks: Seq<LevelModel>,
    pub live: Map<u64, LiveOrder>,
    pub queue: Seq<u64>,
    pub next_trade: u64,
    pub next_sequence: u64,
}

impl View for EngineState {
    type V = EngineModel;

    open spec fn view(&self) -> EngineModel {
        EngineModel {
            bids: levels_view(self.order_book.bids@),
            asks: levels_view(self.order_book.asks@),
            live: self.live_orders@,
            queue: self.active_order@,
            next_trade: self.next_trade,
            next_sequence: self.next_sequence,
        }
    }
}

/// The levels of `side` in `m`.
pub open spec fn side_levels(m: EngineModel, side: Side) -> Seq<LevelModel> {
    match side {
        Side::Bid => m.bids,
        Side::Ask => m.asks,
    }
}

/// `m` with the levels of `side` replaced.
pub open spec fn with_side(m: EngineModel, side: Side, levels: Seq<LevelModel>) -> EngineModel {
    match side {
        Side::Bid => EngineModel { bids: levels, ..m },
        Side::Ask => EngineModel { asks: levels, ..m },
    }
}

/// The other side of the book.
pub open spec fn opposite(side: Side) -> Side {
    match side {
        Side::Bid => Side::Ask,
        Side::Ask => Side::Bid,
    }
}

/// Sum of the remaining quantities of the orders `ids`.
pub open spec fn level_sum(ids: Seq<u64>, live: Map<u64, LiveOrder>) -> nat
    decreases ids.len(),
{
    if ids.len() == 0 {
        0
    } else {
        level_sum(ids.drop_last(), live) + live[ids.last()].remaining_quantity as nat
    }
}

/// Order `id` is live, active, and rests on `side` at `price`.
pub open spec fn resting_at(live: Map<u64, LiveOrder>, id: u64, side: Side, price: i64) -> bool {
    &&& live.contains_key(id)
    &&& live[id].is_active
    &&& live[id].order.side == side
    &&& live[id].order.price == Some(price)
}

/// A well-formed level: non-empty, each order once, each order resting there,
/// and its total equal to the sum of its orders' remaining quantities.
pub open spec fn level_ok(l: LevelModel, side: Side, live: Map<u64, LiveOrder>) -> bool {
    &&& l.ids.len() > 0
    &&& l.ids.no_duplicates()
    &&& l.total == level_sum(l.ids, live)
    &&& forall|k: int| 0 <= k < l.ids.len() ==> resting_at(live, #[trigger] l.ids[k], side, l.price)
}

/// A well-formed side: levels in strict priority order, each well-formed.
pub open spec fn side_wf(side: Side, levels: Seq<LevelModel>, live: Map<u64, LiveOrder>) -> bool {
    &&& side_sorted(side, levels)
    &&& forall|i: int| 0 <= i < levels.len() ==> level_ok(#[trigger] levels[i], side, live)
}

/// Order `id` appears in some level of `levels`.
pub open spec fn side_contains(levels: Seq<LevelModel>, id: u64) -> bool {
    exists|i: int| 0 <= i < levels.len() && #[trigger] levels[i].ids.contains(id)
}

/// Order `id` rests in the book.
pub open spec fn in_book(m: EngineModel, id: u64) -> bool {
    side_contains(m.bids, id) || side_contains(m.asks, id)
}

/// The engine's invariant: both sides well-formed; the aggressor queue holds
/// known orders, each once, none of them resting.
pub open spec fn wf(m: EngineModel) -> bool {
    &&& side_wf(Side::Bid, m.bids, m.live)
    &&& side_wf(Side::Ask, m.asks, m.live)
    &&& m.queue.no_duplicates()
    &&& forall|k: int|
        0 <= k < m.queue.len() ==> m.live.contains_key(#[trigger] m.queue[k]) && !in_book(
            m,
            m.queue[k],
        )
}

impl EngineState {
    /// An empty engine: no orders, counters at zero.
    pub fn new() -> (s: EngineState)
        ensures
            s@.bids.len() == 0,
            s@.asks.len() == 0,
            s@.live == Map::<u64, LiveOrder>::empty(),
            s@.queue.len() == 0,
            s@.next_trade == 0,
            s@.next_sequence == 0,
            wf(s@),
            crate::crossing::uncrossed(s@),
    {
        let s = EngineState {
            order_book: OrderBook::new(),
            live_orders: HashMap::new(),
            active_order: VecDeque::new(),
            next_trade: 0,
            next_sequence: 0,
        };
        assert(s@.bids =~= Seq::<LevelModel>::empty());
        assert(s@.asks =~= Seq::<LevelModel>::empty());
        s
    }
}

// ---------------------------------------------------------------------------
// Facts about level sums and id removal.

pub proof fn lemma_sum_push(ids: Seq<u64>, x: u64, live: Map<u64, LiveOrder>)
    ensures
        level_sum(ids.push(x), live) == level_sum(ids, live) + live[x].remaining_quantity,
{
    assert(ids.push(x).drop_last() =~= ids);
}

pub proof fn lemma_sum_drop_first(ids: Seq<u64>, live: Map<u64, LiveOrder>)
    requires
        ids.len() > 0,
    ensures
        level_sum(ids, live) == live[ids[0]].remaining_quantity + level_sum(ids.drop_first(), live),
    decreases ids.len(),
{
    if ids.len() > 1 {
        lemma_sum_drop_first(ids.drop_last(), live);
        assert(ids.drop_last().drop_first() =~= ids.drop_first().drop_last());
        assert(ids.drop_last()[0] == ids[0]);
        assert(ids.drop_first().last() == ids.last());
        assert(level_sum(ids.drop_first(), live) == level_sum(ids.drop_first().drop_last(), live)
            + live[ids.drop_first().last()].remaining_quantity);
    } else {
        assert(ids.drop_first().len() == 0);
        assert(ids.drop_last().len() == 0);
        assert(ids.last() == ids[0]);
        assert(level_sum(ids.drop_first(), live) == 0);
        assert(level_sum(ids.drop_last(), live) == 0);
    }
}

/// The sum only depends on the remaining quantities of the orders listed.
pub proof fn lemma_sum_agree(ids: Seq<u64>, a: Map<u64, LiveOrder>, b: Map<u64, LiveOrder>)
    requires
        forall|k: int|
            0 <= k < ids.len() ==> a[#[trigger] ids[k]].remaining_quantity
                == b[ids[k]].remaining_quantity,
    ensures
        level_sum(ids, a) == level_sum(ids, b),
    decreases ids.len(),
{
    if ids.len() > 0 {
        let d = ids.drop_last();
        assert forall|k: int| 0 <= k < d.len() implies a[#[trigger] d[k]].remaining_quantity
            == b[d[k]].remaining_quantity by {
            assert(d[k] == ids[k]);
        }
        lemma_sum_agree(d, a, b);
        assert(ids.last() == ids[ids.len() - 1]);
    }
}

pub proof fn lemma_sum_bound(ids: Seq<u64>, live: Map<u64, LiveOrder>)
    ensures
        level_sum(ids, live) <= ids.len() * 0xFFFF_FFFF_FFFF_FFFFnat,
    decreases ids.len(),
{
    if ids.len() > 0 {
        lemma_sum_bound(ids.drop_last(), live);
    }
}

/// Facts about removing every occurrence of an id from a sequence.
pub proof fn lemma_without_id(s: Seq<u64>, id: u64)
    ensures
        forall|x: u64| #[trigger] without_id(s, id).contains(x) <==> (s.contains(x) && x != id),
        without_id(s, id).len() <= s.len(),
        !s.contains(id) ==> without_id(s, id) == s,
        s.no_duplicates() ==> without_id(s, id).no_duplicates(),
        s.no_duplicates() && s.contains(id) ==> without_id(s, id).len() == s.len() - 1,
    decreases s.len(),
{
    reveal(Seq::filter);
    if s.len() == 0 {
        assert(without_id(s, id) =~= s);
    } else {
        let d = s.drop_last();
        lemma_without_id(d, id);
        let w = without_id(s, id);
        let wd = without_id(d, id);
        assert(s =~= d.push(s.last()));
        assert forall|x: u64| #[trigger] s.contains(x) <==> (d.contains(x) || x == s.last()) by {
            if s.contains(x) {
                let k = choose|k: int| 0 <= k < s.len() && s[k] == x;
                if k < s.len() - 1 {
                    assert(d[k] == x);
                }
            }
            if d.contains(x) {
                let k = choose|k: int| 0 <= k < d.len() && d[k] == x;
                assert(s[k] == x);
            }
            if x == s.last() {
                assert(s[s.len() - 1] == x);
            }
        }
        if s.last() != id {
            assert(w == wd.push(s.last()));
            assert forall|x: u64| #[trigger] w.contains(x) <==> (wd.contains(x) || x == s.last()) by {
                if w.contains(x) {
                    let k = choose|k: int| 0 <= k < w.len() && w[k] == x;
                    if k < w.len() - 1 {
                        assert(wd[k] == x);
                    }
                }
                if wd.contains(x) {
                    let k = choose|k: int| 0 <= k < wd.len() && wd[k] == x;
                    assert(w[k] == x);
                }
                if x == s.last() {
                    assert(w[w.len() - 1] == x);
                }
            }
            if s.no_duplicates() {
                assert(d.no_duplicates());
                assert(!d.contains(s.last())) by {
                    if d.contains(s.last()) {
                        let k = choose|k: int| 0 <= k < d.len() && d[k] == s.last();
                        assert(s[k] == s[s.len() - 1]);
                    }
                }
                assert(!wd.contains(s.last()));
                assert forall|i: int, j: int|
                    0 <= i < w.len() && 0 <= j < w.len() && i != j implies w[i] != w[j] by {
                    if i < w.len() - 1 && j < w.len() - 1 {
                        assert(w[i] == wd[i] && w[j] == wd[j]);
                    } else if i < w.len() - 1 {
                        assert(w[i] == wd[i]);
                        assert(wd.contains(wd[i]));
                    } else {
                        assert(w[j] == wd[j]);
                        assert(wd.contains(wd[j]));
                    }
                }
            }
        } else {
            assert(w == wd);
            if s.no_duplicates() {
                assert(d.no_duplicates());
                assert(!d.contains(id)) by {
                    if d.contains(id) {
                        let k = choose|k: int| 0 <= k < d.len() && d[k] == id;
                        assert(s[k] == s[s.len() - 1]);
                    }
                }
            }
            assert(s.contains(id)) by {
                assert(s[s.len() - 1] == id);
            }
        }
    }
}

/// Removing an order that occurs once lowers the sum by its remaining quantity.
pub proof fn lemma_sum_without(ids: Seq<u64>, id: u64, live: Map<u64, LiveOrder>)
    requires
        ids.no_duplicates(),
        ids.contains(id),
    ensures
        level_sum(without_id(ids, id), live) + live[id].remaining_quantity == level_sum(ids, live),
    decreases ids.len(),
{
    reveal(Seq::filter);
    let d = ids.drop_last();
    assert(d.no_duplicates());
    if ids.last() == id {
        assert(!d.contains(id)) by {
            if d.contains(id) {
                let k = choose|k: int| 0 <= k < d.len() && d[k] == id;
                assert(ids[k] == ids[ids.len() - 1]);
            }
        }
        lemma_without_id(d, id);
        assert(without_id(ids, id) == without_id(d, id));
    } else {
        assert(d.contains(id)) by {
            let k = choose|k: int| 0 <= k < ids.len() && ids[k] == id;
            assert(k != ids.len() - 1);
            assert(d[k] == id);
        }
        lemma_sum_without(d, id, live);
        assert(without_id(ids, id) == without_id(d, id).push(ids.last()));
        lemma_sum_push(without_id(d, id), ids.last(), live);
    }
}


/// A prefix sums to no more than the whole.
pub proof fn lemma_sum_prefix_le(ids: Seq<u64>, j: int, live: Map<u64, LiveOrder>)
    requires
        0 <= j <= ids.len(),
    ensures
        level_sum(ids.subrange(0, j), live) <= level_sum(ids, live),
    decreases ids.len(),
{
    if j < ids.len() {
        lemma_sum_prefix_le(ids.drop_last(), j, live);
        assert(ids.drop_last().subrange(0, j) =~= ids.subrange(0, j));
    } else {
        assert(ids.subrange(0, j) =~= ids);
    }
}

impl EngineState {
    /// Sum of the remaining quantities of the known, active orders among
    /// `ids[from..]` (recomputing a level's total from the order records).
    pub(crate) fn active_total(&self, ids: &VecDeque<u64>, from: usize) -> (r: u128)
        requires
            from <= ids@.len(),
            forall|k: int|
                from <= k < ids@.len() ==> self@.live.contains_key(#[trigger] ids@[k])
                    && self@.live[ids@[k]].is_active,
            level_sum(ids@.subrange(from as int, ids@.len() as int), self@.live) <= u128::MAX,
        ensures
            r == level_sum(ids@.subrange(from as int, ids@.len() as int), self@.live),
    {
        let ghost whole = ids@.subrange(from as int, ids@.len() as int);
        let mut sum: u128 = 0;
        let mut k: usize = from;
        assert(ids@.subrange(from as int, from as int) =~= Seq::<u64>::empty());
        while k < ids.len()
            invariant
                from <= k <= ids@.len(),
                whole == ids@.subrange(from as int, ids@.len() as int),
                forall|j: int|
                    from <= j < ids@.len() ==> self@.live.contains_key(#[trigger] ids@[j])
                        && self@.live[ids@[j]].is_active,
                level_sum(whole, self@.live) <= u128::MAX,
                sum == level_sum(ids@.subrange(from as int, k as int), self@.live),
            decreases ids@.len() - k,
        {
            let id = ids[k];
            proof {
                let pre = ids@.subrange(from as int, k + 1);
                assert(pre =~= ids@.subrange(from as int, k as int).push(id));
                lemma_sum_push(ids@.subrange(from as int, k as int), id, self@.live);
                assert(whole.subrange(0, k + 1 - from) =~= pre);
                lemma_sum_prefix_le(whole, k + 1 - from, self@.live);
            }
            match self.live_orders.get(&id) {
                Some(live) => {
                    if live.is_active && live.remaining_quantity != 0 {
                        sum = sum + live.remaining_quantity as u128;
                    }
                },
                None => {},
            }
            k = k + 1;
        }
        sum
    }
}

} // verus!
