use vstd::prelude::*;

use crate::book::{
    add_fits, ids_without, levels_add, levels_remove_order, side_add, side_remove, without_id,
};
use crate::state::{side_levels, with_side, EngineModel, EngineState};
use crate::types::Side;

verus! {

/// The levels at `price` on `side` have totals within what their number of
/// orders allows (each order holds at most `u64::MAX`).
pub open spec fn level_total_bounded(m: EngineModel, side: Side, price: i64) -> bool {
    forall|j: int|
        0 <= j < side_levels(m, side).len() && (#[trigger] side_levels(m, side)[j]).price == price
            ==> side_levels(m, side)[j].total <= side_levels(m, side)[j].ids.len()
            * 0xFFFF_FFFF_FFFF_FFFFnat
}

impl EngineState {
    /// Rests order `order_id` with quantity `qty` at the back of the FIFO at
    /// `price` on `side`.
    pub fn add_resting_to_book(&mut self, side: Side, price: i64, order_id: u64, qty: u64)
        requires
            level_total_bounded(old(self)@, side, price),
        ensures
            final(self)@ == with_side(
                old(self)@,
                side,
                side_add(side, side_levels(old(self)@, side), price, order_id, qty),
            ),
            add_fits(side, side_levels(old(self)@, side), price, qty),
    {
        match side {
            Side::Bid => {
                assert(side_levels(self@, side) == crate::book::levels_view(self.order_book.bids@));
                levels_add(&mut self.order_book.bids, side, price, order_id, qty)
            },
            Side::Ask => {
                assert(side_levels(self@, side) == crate::book::levels_view(self.order_book.asks@));
                levels_add(&mut self.order_book.asks, side, price, order_id, qty)
            },
        }
    }

    /// Takes order `order_id` out of the level at `price` on `side`, lowering
    /// the level's total by `remaining_qty` (never below zero); an emptied
    /// level is removed.
    pub fn remove_resting_order_from_level(
        &mut self,
        side: Side,
        price: i64,
        order_id: u64,
        remaining_qty: u64,
    )
        ensures
            final(self)@ == with_side(
                old(self)@,
                side,
                side_remove(side_levels(old(self)@, side), price, order_id, remaining_qty),
            ),
    {
        match side {
            Side::Ask => levels_remove_order(
                &mut self.order_book.asks,
                price,
                order_id,
                remaining_qty,
            ),
            Side::Bid => levels_remove_order(
                &mut self.order_book.bids,
                price,
                order_id,
                remaining_qty,
            ),
        }
    }

    /// Drops `order_id` from the aggressor queue; true when it was there.
    pub fn remove_from_active_queue(&mut self, order_id: u64) -> (r: bool)
        ensures
            final(self)@ == (EngineModel { queue: without_id(old(self)@.queue, order_id), ..old(self)@ }),
            r == (without_id(old(self)@.queue, order_id).len() != old(self)@.queue.len()),
    {
        let before = self.active_order.len();
        let q = ids_without(&self.active_order, order_id);
        self.active_order = q;
        self.active_order.len() != before
    }
}

} // verus!
