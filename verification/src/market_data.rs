use vstd::prelude::*;

use crate::book::{LevelModel, PriceLevel};
use crate::state::{EngineState, LiveOrder};
use crate::types::{L2Level, L2Snapshot, L3Level, L3Order, L3Snapshot};

verus! {

/// The first `depth` levels (or all, if fewer).
pub open spec fn top_levels(levels: Seq<LevelModel>, depth: nat) -> Seq<LevelModel> {
    if depth < levels.len() {
        levels.subrange(0, depth as int)
    } else {
        levels
    }
}

/// Aggregated view of a level: its price and total.
pub open spec fn l2_of(l: LevelModel) -> L2Level {
    L2Level { price: l.price, total_quantity: l.total }
}

/// The first `depth` levels, aggregated.
pub open spec fn l2_levels(levels: Seq<LevelModel>, depth: nat) -> Seq<L2Level> {
    top_levels(levels, depth).map_values(|l: LevelModel| l2_of(l))
}

/// The orders of `ids`, in order, that are known, active and have quantity
/// left, with their remaining quantity.
pub open spec fn l3_orders(ids: Seq<u64>, live: Map<u64, LiveOrder>) -> Seq<L3Order>
    decreases ids.len(),
{
    if ids.len() == 0 {
        Seq::empty()
    } else {
        let prev = l3_orders(ids.drop_last(), live);
        let id = ids.last();
        if live.contains_key(id) && live[id].is_active && live[id].remaining_quantity != 0 {
            prev.push(L3Order { order_id: id, remaining_quantity: live[id].remaining_quantity })
        } else {
            prev
        }
    }
}

/// Sum of the remaining quantities listed.
pub open spec fn l3_total(orders: Seq<L3Order>) -> nat
    decreases orders.len(),
{
    if orders.len() == 0 {
        0
    } else {
        l3_total(orders.drop_last()) + orders.last().remaining_quantity as nat
    }
}

/// A full-depth level of the snapshot matches the book level `l`.
pub open spec fn l3_level_matches(r: L3Level, l: LevelModel, live: Map<u64, LiveOrder>) -> bool {
    &&& r.price == l.price
    &&& r.orders@ == l3_orders(l.ids, live)
    &&& r.total_quantity == l3_total(l3_orders(l.ids, live))
}

/// The snapshot levels match the first `depth` book levels, in order.
pub open spec fn l3_levels_match(
    r: Seq<L3Level>,
    levels: Seq<LevelModel>,
    depth: nat,
    live: Map<u64, LiveOrder>,
) -> bool {
    let top = top_levels(levels, depth);
    &&& r.len() == top.len()
    &&& forall|i: int| 0 <= i < r.len() ==> l3_level_matches(#[trigger] r[i], top[i], live)
}

pub proof fn lemma_l3_total_bound(orders: Seq<L3Order>)
    ensures
        l3_total(orders) <= orders.len() * 0xFFFF_FFFF_FFFF_FFFFnat,
    decreases orders.len(),
{
    if orders.len() > 0 {
        lemma_l3_total_bound(orders.drop_last());
    }
}

pub proof fn lemma_l3_orders_len(ids: Seq<u64>, live: Map<u64, LiveOrder>)
    ensures
        l3_orders(ids, live).len() <= ids.len(),
    decreases ids.len(),
{
    if ids.len() > 0 {
        lemma_l3_orders_len(ids.drop_last(), live);
    }
}

/// Every order listed for a level is one of the level's orders, known and
/// active, listed with the remaining quantity of its record, which is not zero.
pub proof fn law_l3_entries(ids: Seq<u64>, live: Map<u64, LiveOrder>)
    ensures
        forall|k: int|
            0 <= k < l3_orders(ids, live).len() ==> {
                let o = #[trigger] l3_orders(ids, live)[k];
                &&& ids.contains(o.order_id)
                &&& live.contains_key(o.order_id)
                &&& live[o.order_id].is_active
                &&& o.remaining_quantity == live[o.order_id].remaining_quantity
                &&& o.remaining_quantity > 0
            },
    decreases ids.len(),
{
    if ids.len() > 0 {
        let d = ids.drop_last();
        law_l3_entries(d, live);
        let prev = l3_orders(d, live);
        let r = l3_orders(ids, live);
        assert forall|k: int| 0 <= k < r.len() implies {
            let o = #[trigger] r[k];
            &&& ids.contains(o.order_id)
            &&& live.contains_key(o.order_id)
            &&& live[o.order_id].is_active
            &&& o.remaining_quantity == live[o.order_id].remaining_quantity
            &&& o.remaining_quantity > 0
        } by {
            if k < prev.len() {
                assert(r[k] == prev[k]);
                assert(d.contains(r[k].order_id));
                let j = choose|j: int| 0 <= j < d.len() && d[j] == r[k].order_id;
                assert(ids[j] == d[j]);
            } else {
                assert(ids[ids.len() - 1] == ids.last());
            }
        }
    }
}

/// When every order of a level is active and has quantity left (as in a
/// well-formed book whose resting orders all have quantity left), the level
/// lists all its orders, front first, each with its remaining quantity, and
/// the listed total is the sum of the remaining quantities of its orders.
pub proof fn law_l3_full_level(ids: Seq<u64>, live: Map<u64, LiveOrder>)
    requires
        forall|k: int|
            0 <= k < ids.len() ==> live.contains_key(#[trigger] ids[k]) && live[ids[k]].is_active
                && live[ids[k]].remaining_quantity > 0,
    ensures
        l3_orders(ids, live).len() == ids.len(),
        forall|k: int|
            0 <= k < ids.len() ==> #[trigger] l3_orders(ids, live)[k] == (L3Order {
                order_id: ids[k],
                remaining_quantity: live[ids[k]].remaining_quantity,
            }),
        l3_total(l3_orders(ids, live)) == crate::state::level_sum(ids, live),
    decreases ids.len(),
{
    if ids.len() > 0 {
        let d = ids.drop_last();
        assert forall|k: int| 0 <= k < d.len() implies live.contains_key(#[trigger] d[k])
            && live[d[k]].is_active && live[d[k]].remaining_quantity > 0 by {
            assert(d[k] == ids[k]);
        }
        law_l3_full_level(d, live);
        assert(ids.last() == ids[ids.len() - 1]);
        let r = l3_orders(ids, live);
        assert forall|k: int| 0 <= k < ids.len() implies #[trigger] r[k] == (L3Order {
            order_id: ids[k],
            remaining_quantity: live[ids[k]].remaining_quantity,
        }) by {
            if k < d.len() {
                assert(d[k] == ids[k]);
            }
        }
        assert(r.drop_last() == l3_orders(d, live));
    }
}

/// Aggregated depth of the first `depth` levels of a side.
fn l2_side(levels: &Vec<PriceLevel>, depth: usize) -> (r: Vec<L2Level>)
    ensures
        r@ == l2_levels(crate::book::levels_view(levels@), depth as nat),
{
    let ghost lv = crate::book::levels_view(levels@);
    let n = if depth < levels.len() {
        depth
    } else {
        levels.len()
    };
    let mut r: Vec<L2Level> = Vec::new();
    let mut i: usize = 0;
    while i < n
        invariant
            lv == crate::book::levels_view(levels@),
            n <= levels@.len(),
            n == top_levels(lv, depth as nat).len(),
            0 <= i <= n,
            r@ == lv.subrange(0, i as int).map_values(|l: LevelModel| l2_of(l)),
        decreases n - i,
    {
        r.push(L2Level { price: levels[i].price, total_quantity: levels[i].total_quantity });
        assert(lv.subrange(0, i + 1).map_values(|l: LevelModel| l2_of(l)) =~= lv.subrange(
            0,
            i as int,
        ).map_values(|l: LevelModel| l2_of(l)).push(l2_of(lv[i as int])));
        i = i + 1;
    }
    assert(top_levels(lv, depth as nat) =~= lv.subrange(0, n as int));
    r
}

impl EngineState {
    /// The first `depth` price levels of each side, best price first, with
    /// their total resting quantity.
    pub fn snapshot_l2(&self, depth: usize) -> (r: L2Snapshot)
        ensures
            r.bids@ == l2_levels(self@.bids, depth as nat),
            r.asks@ == l2_levels(self@.asks, depth as nat),
    {
        let bids = l2_side(&self.order_book.bids, depth);
        let asks = l2_side(&self.order_book.asks, depth);
        L2Snapshot { bids, asks }
    }

    /// The live orders of one level, front first, and their total.
    fn l3_level(&self, level: &PriceLevel) -> (r: L3Level)
        ensures
            l3_level_matches(r, level@, self@.live),
            forall|k: int|
                0 <= k < r.orders@.len() ==> {
                    let o = #[trigger] r.orders@[k];
                    &&& level@.ids.contains(o.order_id)
                    &&& self@.live.contains_key(o.order_id)
                    &&& self@.live[o.order_id].is_active
                    &&& o.remaining_quantity == self@.live[o.order_id].remaining_quantity
                    &&& o.remaining_quantity > 0
                },
    {
        proof {
            law_l3_entries(level@.ids, self@.live);
        }
        let mut total: u128 = 0;
        let mut orders: Vec<L3Order> = Vec::new();
        let mut i: usize = 0;
        let ghost ids = level.order_ids@;
        while i < level.order_ids.len()
            invariant
                ids == level.order_ids@,
                0 <= i <= ids.len(),
                orders@ == l3_orders(ids.subrange(0, i as int), self@.live),
                orders@.len() <= i,
                total == l3_total(orders@),
            decreases ids.len() - i,
        {
            let order_id = level.order_ids[i];
            proof {
                let s = ids.subrange(0, i + 1);
                assert(s.drop_last() =~= ids.subrange(0, i as int));
                assert(s.last() == order_id);
                lemma_l3_total_bound(orders@);
            }
            match self.live_orders.get(&order_id) {
                Some(live) => {
                    if live.is_active && live.remaining_quantity != 0 {
                        proof {
                            let t = total as int;
                            let k = orders@.len() as int;
                            let mx = 0xFFFF_FFFF_FFFF_FFFFint;
                            assert(t + live.remaining_quantity <= (k + 1) * mx) by (nonlinear_arith)
                                requires
                                    t <= k * mx,
                                    live.remaining_quantity <= mx,
                            ;
                            assert(k + 1 <= mx);
                            assert((k + 1) * mx <= mx * mx) by (nonlinear_arith)
                                requires
                                    k + 1 <= mx,
                                    mx > 0,
                            ;
                        }
                        total = total + live.remaining_quantity as u128;
                        orders.push(
                            L3Order { order_id, remaining_quantity: live.remaining_quantity },
                        );
                        proof {
                            let o = orders@;
                            assert(o.drop_last() == l3_orders(ids.subrange(0, i as int), self@.live));
                        }
                    }
                },
                None => {},
            }
            i = i + 1;
        }
        assert(ids.subrange(0, ids.len() as int) =~= ids);
        L3Level { price: level.price, orders, total_quantity: total }
    }

    /// Full depth of the first `depth` levels of a side.
    fn l3_side(&self, levels: &Vec<PriceLevel>, depth: usize) -> (r: Vec<L3Level>)
        ensures
            l3_levels_match(r@, crate::book::levels_view(levels@), depth as nat, self@.live),
            forall|i: int, k: int|
                0 <= i < r@.len() && 0 <= k < r@[i].orders@.len() ==> {
                    let o = #[trigger] r@[i].orders@[k];
                    &&& self@.live.contains_key(o.order_id)
                    &&& self@.live[o.order_id].is_active
                    &&& o.remaining_quantity == self@.live[o.order_id].remaining_quantity
                    &&& o.remaining_quantity > 0
                },
            forall|i: int| 0 <= i < r@.len() ==> (#[trigger] r@[i]).total_quantity == l3_total(r@[i].orders@),
    {
        let ghost lv = crate::book::levels_view(levels@);
        let n = if depth < levels.len() {
            depth
        } else {
            levels.len()
        };
        let mut r: Vec<L3Level> = Vec::new();
        let mut i: usize = 0;
        while i < n
            invariant
                lv == crate::book::levels_view(levels@),
                n <= levels@.len(),
                n == top_levels(lv, depth as nat).len(),
                0 <= i <= n,
                r@.len() == i,
                forall|j: int| 0 <= j < i ==> l3_level_matches(#[trigger] r@[j], lv[j], self@.live),
                forall|j: int, k: int|
                    0 <= j < i && 0 <= k < r@[j].orders@.len() ==> {
                        let o = #[trigger] r@[j].orders@[k];
                        &&& self@.live.contains_key(o.order_id)
                        &&& self@.live[o.order_id].is_active
                        &&& o.remaining_quantity == self@.live[o.order_id].remaining_quantity
                        &&& o.remaining_quantity > 0
                    },
            decreases n - i,
        {
            let l = self.l3_level(&levels[i]);
            r.push(l);
            i = i + 1;
        }
        let ghost top = top_levels(lv, depth as nat);
        assert forall|j: int| 0 <= j < r@.len() implies l3_level_matches(
            #[trigger] r@[j],
            top[j],
            self@.live,
        ) by {
            assert(top[j] == lv[j]);
        }
        r
    }

    /// The first `depth` price levels of each side, best price first, each
    /// with its live orders in time priority and their total.
    pub fn snapshot_l3(&self, depth: usize) -> (r: L3Snapshot)
        ensures
            l3_levels_match(r.bids@, self@.bids, depth as nat, self@.live),
            l3_levels_match(r.asks@, self@.asks, depth as nat, self@.live),
            forall|i: int, k: int|
                0 <= i < r.bids@.len() && 0 <= k < r.bids@[i].orders@.len() ==> {
                    let o = #[trigger] r.bids@[i].orders@[k];
                    &&& self@.live.contains_key(o.order_id)
                    &&& self@.live[o.order_id].is_active
                    &&& o.remaining_quantity == self@.live[o.order_id].remaining_quantity
                    &&& o.remaining_quantity > 0
                },
            forall|i: int, k: int|
                0 <= i < r.asks@.len() && 0 <= k < r.asks@[i].orders@.len() ==> {
                    let o = #[trigger] r.asks@[i].orders@[k];
                    &&& self@.live.contains_key(o.order_id)
                    &&& self@.live[o.order_id].is_active
                    &&& o.remaining_quantity == self@.live[o.order_id].remaining_quantity
                    &&& o.remaining_quantity > 0
                },
            forall|i: int| 0 <= i < r.bids@.len() ==> (#[trigger] r.bids@[i]).total_quantity == l3_total(r.bids@[i].orders@),
            forall|i: int| 0 <= i < r.asks@.len() ==> (#[trigger] r.asks@[i]).total_quantity == l3_total(r.asks@[i].orders@),
    {
        let bids = self.l3_side(&self.order_book.bids, depth);
        let asks = self.l3_side(&self.order_book.asks, depth);
        L3Snapshot { bids, asks }
    }
}

} // verus!
