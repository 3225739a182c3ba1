use std::collections::VecDeque;
use vstd::prelude::*;

use crate::types::Side;

verus! {

/// The resting orders at one price, in time priority (front first), with the
/// sum of their remaining quantities.
pub struct PriceLevel {
    pub price: i64,
    pub order_ids: VecDeque<u64>,
    pub total_quantity: u128,
}

/// The mathematical content of a [`PriceLevel`].
pub struct LevelModel {
    pub price: i64,
    pub ids: Seq<u64>,
    pub total: u128,
}

impl View for PriceLevel {
    type V = LevelModel;

    open spec fn view(&self) -> LevelModel {
        LevelModel { price: self.price, ids: self.order_ids@, total: self.total_quantity }
    }
}

/// The levels of one side, as mathematical values.
pub open spec fn levels_view(levels: Seq<PriceLevel>) -> Seq<LevelModel> {
    levels.map_values(|l: PriceLevel| l@)
}

/// Both sides of the book. Each side holds its price levels best price first:
/// bids by decreasing price, asks by increasing price.
///
/// A side is a vector kept in priority order rather than an ordered map:
/// matching needs the best level from either end, changes a level in place
/// and creates a missing level at its place, and vstd gives `BTreeMap` no
/// specification for these (`get_mut`, `entry`, `next_back`, `rev`). Their
/// effect on the sequence of levels is stated and proved here instead.
pub struct OrderBook {
    pub bids: Vec<PriceLevel>,
    pub asks: Vec<PriceLevel>,
}

impl OrderBook {
    pub fn new() -> (b: OrderBook)
        ensures
            b.bids@.len() == 0,
            b.asks@.len() == 0,
    {
        OrderBook { bids: Vec::new(), asks: Vec::new() }
    }
}

/// On `side`, price `a` has priority over price `b`.
pub open spec fn better(side: Side, a: i64, b: i64) -> bool {
    match side {
        Side::Bid => a > b,
        Side::Ask => a < b,
    }
}

/// The levels are in strict priority order (so no price occurs twice).
pub open spec fn side_sorted(side: Side, levels: Seq<LevelModel>) -> bool {
    forall|i: int, j: int|
        0 <= i < j < levels.len() ==> better(side, #[trigger] levels[i].price, #[trigger] levels[j].price)
}

/// The position at which a level for `price` belongs: the number of leading
/// levels whose price has priority over it.
pub open spec fn insert_index(side: Side, levels: Seq<LevelModel>, price: i64) -> int
    decreases levels.len(),
{
    if levels.len() == 0 {
        0
    } else if better(side, levels[0].price, price) {
        1 + insert_index(side, levels.drop_first(), price)
    } else {
        0
    }
}

/// The index of the first level at `price`, or the number of levels if there is none.
pub open spec fn level_index(levels: Seq<LevelModel>, price: i64) -> int
    decreases levels.len(),
{
    if levels.len() == 0 {
        0
    } else if levels[0].price == price {
        0
    } else {
        1 + level_index(levels.drop_first(), price)
    }
}

/// `side` after an order `id` of quantity `qty` joins the back of the queue at
/// `price`, creating the level at its place if there is none.
pub open spec fn side_add(
    side: Side,
    levels: Seq<LevelModel>,
    price: i64,
    id: u64,
    qty: u64,
) -> Seq<LevelModel> {
    let i = insert_index(side, levels, price);
    if i < levels.len() && levels[i].price == price {
        levels.update(
            i,
            LevelModel {
                price,
                ids: levels[i].ids.push(id),
                total: (levels[i].total + qty) as u128,
            },
        )
    } else {
        levels.insert(i, LevelModel { price, ids: seq![id], total: qty as u128 })
    }
}

/// Adding `qty` to the level at `price`, if there is one, does not overflow its total.
pub open spec fn add_fits(side: Side, levels: Seq<LevelModel>, price: i64, qty: u64) -> bool {
    let i = insert_index(side, levels, price);
    i < levels.len() && levels[i].price == price ==> levels[i].total + qty <= u128::MAX
}

/// The ids of `ids` other than `id`, in order.
pub open spec fn without_id(ids: Seq<u64>, id: u64) -> Seq<u64> {
    ids.filter(|x: u64| x != id)
}

/// `side` after order `id`, resting at `price` with remaining quantity `qty`,
/// leaves its level: the level's total drops by `qty` (never below zero) when
/// the id was there, and a level left empty disappears.
pub open spec fn side_remove(levels: Seq<LevelModel>, price: i64, id: u64, qty: u64) -> Seq<
    LevelModel,
> {
    let i = level_index(levels, price);
    if i >= levels.len() {
        levels
    } else {
        let l = levels[i];
        let ids = without_id(l.ids, id);
        let total = if ids.len() != l.ids.len() {
            if l.total >= qty {
                (l.total - qty) as u128
            } else {
                0u128
            }
        } else {
            l.total
        };
        if ids.len() == 0 {
            levels.remove(i)
        } else {
            levels.update(i, LevelModel { price, ids, total })
        }
    }
}

pub proof fn lemma_insert_index_char(side: Side, levels: Seq<LevelModel>, price: i64, i: int)
    requires
        0 <= i <= levels.len(),
        forall|j: int| 0 <= j < i ==> better(side, #[trigger] levels[j].price, price),
        i == levels.len() || !better(side, levels[i].price, price),
    ensures
        insert_index(side, levels, price) == i,
    decreases i,
{
    if i > 0 {
        let rest = levels.drop_first();
        assert forall|j: int| 0 <= j < i - 1 implies better(side, #[trigger] rest[j].price, price) by {
            assert(rest[j] == levels[j + 1]);
        }
        if i < levels.len() {
            assert(rest[i - 1] == levels[i]);
        }
        lemma_insert_index_char(side, rest, price, i - 1);
        assert(better(side, levels[0].price, price));
    }
}

pub proof fn lemma_level_index_char(levels: Seq<LevelModel>, price: i64, i: int)
    requires
        0 <= i <= levels.len(),
        forall|j: int| 0 <= j < i ==> (#[trigger] levels[j].price) != price,
        i == levels.len() || levels[i].price == price,
    ensures
        level_index(levels, price) == i,
    decreases i,
{
    if i > 0 {
        let rest = levels.drop_first();
        assert forall|j: int| 0 <= j < i - 1 implies (#[trigger] rest[j].price) != price by {
            assert(rest[j] == levels[j + 1]);
        }
        if i < levels.len() {
            assert(rest[i - 1] == levels[i]);
        }
        lemma_level_index_char(rest, price, i - 1);
        assert(levels[0].price != price);
    }
}

/// Whether price `a` has priority over price `b` on `side`.
pub fn has_priority(side: Side, a: i64, b: i64) -> (r: bool)
    ensures
        r == better(side, a, b),
{
    match side {
        Side::Bid => a > b,
        Side::Ask => a < b,
    }
}

/// Where a level for `price` belongs on `side`.
fn find_insert_index(levels: &Vec<PriceLevel>, side: Side, price: i64) -> (i: usize)
    ensures
        i == insert_index(side, levels_view(levels@), price),
        i <= levels@.len(),
{
    let ghost lv = levels_view(levels@);
    let mut i: usize = 0;
    while i < levels.len() && has_priority(side, levels[i].price, price)
        invariant
            0 <= i <= levels@.len(),
            lv == levels_view(levels@),
            forall|j: int| 0 <= j < i ==> better(side, #[trigger] lv[j].price, price),
        decreases levels@.len() - i,
    {
        i = i + 1;
    }
    proof {
        lemma_insert_index_char(side, lv, price, i as int);
    }
    i
}

/// The index of the level at `price`, or the number of levels if there is none.
fn find_level(levels: &Vec<PriceLevel>, price: i64) -> (i: usize)
    ensures
        i == level_index(levels_view(levels@), price),
        i <= levels@.len(),
        i < levels@.len() ==> levels@[i as int].price == price,
{
    let ghost lv = levels_view(levels@);
    let mut i: usize = 0;
    while i < levels.len() && levels[i].price != price
        invariant
            0 <= i <= levels@.len(),
            lv == levels_view(levels@),
            forall|j: int| 0 <= j < i ==> (#[trigger] lv[j].price) != price,
        decreases levels@.len() - i,
    {
        i = i + 1;
    }
    proof {
        lemma_level_index_char(lv, price, i as int);
    }
    i
}

/// A copy of `ids` without `id`.
pub fn ids_without(ids: &VecDeque<u64>, id: u64) -> (r: VecDeque<u64>)
    ensures
        r@ == without_id(ids@, id),
{
    let mut r: VecDeque<u64> = VecDeque::new();
    let mut i: usize = 0;
    while i < ids.len()
        invariant
            0 <= i <= ids@.len(),
            r@ == without_id(ids@.subrange(0, i as int), id),
        decreases ids@.len() - i,
    {
        let x = ids[i];
        proof {
            let s = ids@.subrange(0, i as int + 1);
            assert(s.drop_last() =~= ids@.subrange(0, i as int));
            assert(s.last() == x);
            reveal_with_fuel(Seq::filter, 1);
        }
        if x != id {
            r.push_back(x);
        }
        i = i + 1;
    }
    assert(ids@.subrange(0, ids@.len() as int) =~= ids@);
    r
}

/// An empty level, used as a placeholder while a level is being edited.
fn placeholder_level() -> (l: PriceLevel)
    ensures
        l@.ids.len() == 0,
{
    PriceLevel { price: 0, order_ids: VecDeque::new(), total_quantity: 0 }
}

/// Adds order `id` with quantity `qty` at the back of the queue at `price`.
pub fn levels_add(levels: &mut Vec<PriceLevel>, side: Side, price: i64, id: u64, qty: u64)
    requires
        forall|j: int|
            0 <= j < levels_view(old(levels)@).len() && (#[trigger] levels_view(
                old(levels)@,
            )[j]).price == price ==> levels_view(old(levels)@)[j].total <= levels_view(
                old(levels)@,
            )[j].ids.len() * 0xFFFF_FFFF_FFFF_FFFFnat,
    ensures
        levels_view(final(levels)@) == side_add(side, levels_view(old(levels)@), price, id, qty),
        add_fits(side, levels_view(old(levels)@), price, qty),
{
    let ghost lv = levels_view(levels@);
    let i = find_insert_index(levels, side, price);
    if i < levels.len() && levels[i].price == price {
        let mut lvl = placeholder_level();
        levels.set_and_swap(i, &mut lvl);
        let n = lvl.order_ids.len();
        proof {
            assert(lv[i as int].price == price);
            let t = lvl.total_quantity as int;
            let m = 0xFFFF_FFFF_FFFF_FFFFint;
            assert(t <= n * m);
            assert(n <= m);
            assert(t + qty <= (n + 1) * m) by (nonlinear_arith)
                requires
                    t <= n * m,
                    qty <= m,
            ;
            assert((n + 1) * m <= (m + 1) * m) by (nonlinear_arith)
                requires
                    n <= m,
                    m > 0,
            ;
        }
        lvl.order_ids.push_back(id);
        lvl.total_quantity = lvl.total_quantity + qty as u128;
        levels.set(i, lvl);
        assert(levels_view(levels@) =~= side_add(side, lv, price, id, qty));
    } else {
        let mut ids: VecDeque<u64> = VecDeque::new();
        ids.push_back(id);
        let lvl = PriceLevel { price, order_ids: ids, total_quantity: qty as u128 };
        levels.insert(i, lvl);
        assert(levels_view(levels@) =~= side_add(side, lv, price, id, qty));
    }
}

/// Removes order `id` from the level at `price`, lowering the level's total by
/// `qty` (never below zero) when the id was there; a level left empty is removed.
pub fn levels_remove_order(levels: &mut Vec<PriceLevel>, price: i64, id: u64, qty: u64)
    ensures
        levels_view(final(levels)@) == side_remove(levels_view(old(levels)@), price, id, qty),
{
    let ghost lv = levels_view(levels@);
    let i = find_level(levels, price);
    if i < levels.len() {
        let mut lvl = placeholder_level();
        levels.set_and_swap(i, &mut lvl);
        let before = lvl.order_ids.len();
        let ids = ids_without(&lvl.order_ids, id);
        lvl.order_ids = ids;
        if lvl.order_ids.len() != before {
            if lvl.total_quantity >= qty as u128 {
                lvl.total_quantity = lvl.total_quantity - qty as u128;
            } else {
                lvl.total_quantity = 0;
            }
        }
        if lvl.order_ids.len() == 0 {
            levels.remove(i);
            assert(levels_view(levels@) =~= side_remove(lv, price, id, qty));
        } else {
            levels.set(i, lvl);
            assert(levels_view(levels@) =~= side_remove(lv, price, id, qty));
        }
    }
}

} // verus!
