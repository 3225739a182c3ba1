use vstd::prelude::*;

use crate::book::{side_add, side_remove, without_id};
use crate::invariants::{
    lemma_in_book_own_side, lemma_wf_book_add, lemma_wf_book_remove,
    lemma_wf_level_bounded, lemma_wf_queue_push, lemma_wf_queue_remove, lemma_wf_set_live,
};
use crate::liquidity::{marketable, sufficient_liquidity};
use crate::state::{in_book, side_levels, with_side, wf, EngineModel, EngineState, LiveOrder};
use crate::types::{events_view, Event, EventView, Order, Side, TimeInForce};

verus! {

/// An order record after it is canceled, rejected or expired: inactive, nothing left.
pub open spec fn deactivated(lo: LiveOrder) -> LiveOrder {
    LiveOrder { is_active: false, remaining_quantity: 0, ..lo }
}

pub open spec fn rejected(order_id: u64, reason: Seq<char>) -> EventView {
    EventView::OrderRejected { order_id, reason }
}

/// `m` with the record of `id` set to `lo`.
pub open spec fn set_live(m: EngineModel, id: u64, lo: LiveOrder) -> EngineModel {
    EngineModel { live: m.live.insert(id, lo), ..m }
}

/// `m` with `id` queued as an aggressor.
pub open spec fn enqueue(m: EngineModel, id: u64) -> EngineModel {
    EngineModel { queue: m.queue.push(id), ..m }
}

/// `m` with `id` dropped from the aggressor queue.
pub open spec fn dequeue_id(m: EngineModel, id: u64) -> EngineModel {
    EngineModel { queue: without_id(m.queue, id), ..m }
}

/// `m` with order `id` resting at `price` on `side` with quantity `qty`.
pub open spec fn rest(m: EngineModel, side: Side, price: i64, id: u64, qty: u64) -> EngineModel {
    with_side(m, side, side_add(side, side_levels(m, side), price, id, qty))
}

/// `m` with order `id` taken out of the level at its recorded price, if it has one.
pub open spec fn unrest(m: EngineModel, id: u64) -> EngineModel {
    let lo = m.live[id];
    match lo.order.price {
        Some(p) => with_side(
            m,
            lo.order.side,
            side_remove(side_levels(m, lo.order.side), p, id, lo.remaining_quantity),
        ),
        None => m,
    }
}

/// A new order: rejected when its quantity is zero; otherwise recorded and
/// then queued as an aggressor (market orders; marketable limit orders,
/// fill-or-kill ones only when the liquidity within their limit covers them),
/// rested (non-marketable good-till-canceled), canceled (non-marketable
/// immediate-or-cancel) or rejected (fill-or-kill that cannot fill).
pub open spec fn apply_new(m: EngineModel, o: Order) -> (EngineModel, Seq<EventView>) {
    let id = o.order_id;
    if o.quantity == 0 {
        (m, seq![rejected(id, "Quantity must be > 0"@)])
    } else {
        let lo = LiveOrder { order: o, remaining_quantity: o.quantity, is_active: true };
        let m1 = set_live(m, id, lo);
        let killed = set_live(m, id, deactivated(lo));
        let accepted = seq![EventView::OrderAccepted { order_id: id }];
        match o.price {
            None => (enqueue(m1, id), accepted),
            Some(lp) => if marketable(m, o.side, lp) {
                match o.time_in_force {
                    TimeInForce::FOK => if !sufficient_liquidity(m, o.side, lp, o.quantity) {
                        (killed, seq![rejected(id, "FOK: insufficient liquidity"@)])
                    } else {
                        (enqueue(m1, id), accepted)
                    },
                    _ => (enqueue(m1, id), accepted),
                }
            } else {
                match o.time_in_force {
                    TimeInForce::GTC => (rest(m1, o.side, lp, id, o.quantity), accepted),
                    TimeInForce::IOC => (killed, seq![EventView::OrderCanceled { order_id: id }]),
                    TimeInForce::FOK => (killed, seq![rejected(id, "FOK: not marketable"@)]),
                }
            },
        }
    }
}

/// Cancel: rejected for an unknown id or an order that is inactive or has
/// nothing left; otherwise the order leaves the queue and the book and
/// becomes inactive with nothing left.
pub open spec fn apply_cancel(m: EngineModel, id: u64) -> (EngineModel, Seq<EventView>) {
    if !m.live.contains_key(id) {
        (m, seq![rejected(id, "Unknown order_id"@)])
    } else if !m.live[id].is_active || m.live[id].remaining_quantity == 0 {
        (m, seq![rejected(id, "Order already inactive or filled"@)])
    } else {
        let m1 = unrest(dequeue_id(m, id), id);
        (set_live(m1, id, deactivated(m.live[id])), seq![EventView::OrderCanceled { order_id: id }])
    }
}

/// Modify: rejected for an unknown id or an order that is inactive or has
/// nothing left; otherwise the order leaves the book and the queue, takes the
/// new quantity and price, and re-enters as if new: queued when it has no
/// price or is marketable, rested otherwise; its time-in-force plays no part.
pub open spec fn apply_modify(m: EngineModel, id: u64, new_quantity: u64, new_price: Option<i64>) -> (
    EngineModel,
    Seq<EventView>,
) {
    if !m.live.contains_key(id) {
        (m, seq![rejected(id, "Unknown order_id"@)])
    } else if !m.live[id].is_active || m.live[id].remaining_quantity == 0 {
        (m, seq![rejected(id, "Not active or filled"@)])
    } else {
        let lo = m.live[id];
        let lo2 = LiveOrder {
            remaining_quantity: new_quantity,
            order: Order { price: new_price, ..lo.order },
            ..lo
        };
        let m1 = set_live(dequeue_id(unrest(m, id), id), id, lo2);
        let accepted = seq![EventView::OrderAccepted { order_id: id }];
        match new_price {
            None => (enqueue(m1, id), accepted),
            Some(p) => if marketable(m1, lo.order.side, p) {
                (enqueue(m1, id), accepted)
            } else {
                (rest(m1, lo.order.side, p, id, new_quantity), accepted)
            },
        }
    }
}

/// The effect of an input event on the state, and the events it produces.
/// Output events as input change nothing.
pub open spec fn apply_spec(m: EngineModel, e: EventView) -> (EngineModel, Seq<EventView>) {
    match e {
        EventView::NewOrder(o) => apply_new(m, o),
        EventView::CancelOrder { order_id } => apply_cancel(m, order_id),
        EventView::ModifyOrder { order_id, new_quantity, new_price } => apply_modify(
            m,
            order_id,
            new_quantity,
            new_price,
        ),
        _ => (m, Seq::empty()),
    }
}

/// A new order must not reuse the id of an order that rests in the book or
/// waits in the aggressor queue (ids of finished orders may be reused).
pub open spec fn fresh_new_order(m: EngineModel, e: EventView) -> bool {
    match e {
        EventView::NewOrder(o) => !in_book(m, o.order_id) && !m.queue.contains(o.order_id),
        _ => true,
    }
}

impl EngineState {
    /// Makes the record of `order_id`, if any, inactive with nothing left.
    pub(crate) fn deactivate(&mut self, order_id: u64)
        ensures
            final(self)@ == (if old(self)@.live.contains_key(order_id) {
                set_live(old(self)@, order_id, deactivated(old(self)@.live[order_id]))
            } else {
                old(self)@
            }),
    {
        let found = match self.live_orders.get(&order_id) {
            Some(l) => Some(*l),
            None => None,
        };
        if let Some(l) = found {
            let nl = LiveOrder { is_active: false, remaining_quantity: 0, order: l.order };
            self.live_orders.insert(order_id, nl);
        }
    }

    /// Applies an input event (new / cancel / modify) and leaves the state
    /// consistent. This is where a limit order is decided to rest or to enter
    /// as an aggressor (marketable).
    ///
    /// A new order must not carry the id of an order that still rests in the
    /// book or waits in the aggressor queue (`fresh_new_order`); the id of a
    /// canceled, rejected, expired or filled order may be used again.
    pub fn apply_event(&mut self, event: Event) -> (out: Vec<Event>)
        requires
            wf(old(self)@),
            fresh_new_order(old(self)@, event@),
        ensures
            wf(final(self)@),
            (final(self)@, events_view(out@)) == apply_spec(old(self)@, event@),
            crate::crossing::uncrossed(old(self)@) ==> crate::crossing::uncrossed(final(self)@),
            crate::resting::resting_have_quantity(old(self)@) && !crate::resting::modifies_to_zero(
                event@,
            ) ==> crate::resting::resting_have_quantity(final(self)@),
    {
        let ghost m0 = self@;
        proof {
            if crate::crossing::uncrossed(m0) {
                crate::crossing::lemma_apply_uncrossed(m0, event@);
            }
            if crate::resting::resting_have_quantity(m0) && !crate::resting::modifies_to_zero(event@) {
                crate::resting::lemma_apply_quantity(m0, event@);
            }
        }
        let mut out_events: Vec<Event> = Vec::new();
        match event {
            Event::NewOrder(order) => {
                if order.quantity == 0 {
                    out_events.push(
                        Event::OrderRejected {
                            order_id: order.order_id,
                            reason: "Quantity must be > 0".to_string(),
                        },
                    );
                    assert(events_view(out_events@) =~= apply_spec(m0, event@).1);
                    return out_events;
                }
                let order_id = order.order_id;
                let live_order = LiveOrder {
                    remaining_quantity: order.quantity,
                    is_active: true,
                    order,
                };
                let side = order.side;
                let price_opt = order.price;
                let tif = order.time_in_force;
                proof {
                    lemma_wf_set_live(m0, order_id, live_order);
                }
                self.live_orders.insert(order_id, live_order);
                let ghost m1 = self@;
                assert(m1 == set_live(m0, order_id, live_order));
                match price_opt {
                    None => {
                        proof {
                            lemma_wf_queue_push(m1, order_id);
                        }
                        self.active_order.push_back(order_id);
                        out_events.push(Event::OrderAccepted { order_id });
                    },
                    Some(limit_price) => {
                        if self.is_marketable_limit(side, limit_price) {
                            match tif {
                                TimeInForce::FOK => {
                                    let qty = order.quantity;
                                    if !self.has_sufficient_liquidity(side, limit_price, qty) {
                                        self.deactivate(order_id);
                                        proof {
                                            assert(self@.live =~= m0.live.insert(order_id, deactivated(live_order)));
 assert(self@ == set_live(m0, order_id, deactivated(live_order)));
                                            lemma_wf_set_live(
                                                m0,
                                                order_id,
                                                deactivated(live_order),
                                            );
                                        }
                                        out_events.push(
                                            Event::OrderRejected {
                                                order_id,
                                                reason: "FOK: insufficient liquidity".to_string(),
                                            },
                                        );
                                    } else {
                                        proof {
                                            lemma_wf_queue_push(m1, order_id);
                                        }
                                        self.active_order.push_back(order_id);
                                        out_events.push(Event::OrderAccepted { order_id });
                                    }
                                },
                                TimeInForce::IOC | TimeInForce::GTC => {
                                    proof {
                                        lemma_wf_queue_push(m1, order_id);
                                    }
                                    self.active_order.push_back(order_id);
                                    out_events.push(Event::OrderAccepted { order_id });
                                },
                            }
                        } else {
                            match tif {
                                TimeInForce::GTC => {
                                    let remaining = order.quantity;
                                    proof {
                                        lemma_wf_level_bounded(m1, side, limit_price);
                                    }
                                    self.add_resting_to_book(side, limit_price, order_id, remaining);
                                    proof {
                                        lemma_wf_book_add(m1, side, limit_price, order_id, remaining);
                                    }
                                    out_events.push(Event::OrderAccepted { order_id });
                                },
                                TimeInForce::IOC => {
                                    self.deactivate(order_id);
                                    proof {
                                        assert(self@.live =~= m0.live.insert(order_id, deactivated(live_order)));
 assert(self@ == set_live(m0, order_id, deactivated(live_order)));
                                        lemma_wf_set_live(m0, order_id, deactivated(live_order));
                                    }
                                    out_events.push(Event::OrderCanceled { order_id });
                                },
                                TimeInForce::FOK => {
                                    self.deactivate(order_id);
                                    proof {
                                        assert(self@.live =~= m0.live.insert(order_id, deactivated(live_order)));
 assert(self@ == set_live(m0, order_id, deactivated(live_order)));
                                        lemma_wf_set_live(m0, order_id, deactivated(live_order));
                                    }
                                    out_events.push(
                                        Event::OrderRejected {
                                            order_id,
                                            reason: "FOK: not marketable".to_string(),
                                        },
                                    );
                                },
                            }
                        }
                    },
                }
                assert(events_view(out_events@) =~= apply_spec(m0, event@).1);
            },
            Event::CancelOrder { order_id } => {
                let found = match self.live_orders.get(&order_id) {
                    Some(l) => Some(*l),
                    None => None,
                };
                let live = match found {
                    None => {
                        out_events.push(
                            Event::OrderRejected {
                                order_id,
                                reason: "Unknown order_id".to_string(),
                            },
                        );
                        assert(events_view(out_events@) =~= apply_spec(m0, event@).1);
                        return out_events;
                    },
                    Some(l) => l,
                };
                if !live.is_active || live.remaining_quantity == 0 {
                    out_events.push(
                        Event::OrderRejected {
                            order_id,
                            reason: "Order already inactive or filled".to_string(),
                        },
                    );
                    assert(events_view(out_events@) =~= apply_spec(m0, event@).1);
                    return out_events;
                }
                let price = live.order.price;
                let side = live.order.side;
                let remaining_qty = live.remaining_quantity;
                proof {
                    lemma_wf_queue_remove(m0, order_id);
                }
                self.remove_from_active_queue(order_id);
                let ghost m1 = self@;
                if let Some(price) = price {
                    proof {
                        lemma_wf_book_remove(m1, order_id);
                    }
                    self.remove_resting_order_from_level(side, price, order_id, remaining_qty);
                } else {
                    proof {
                        if in_book(m1, order_id) {
                            lemma_in_book_own_side(m1, order_id);
                        }
                    }
                }
                let ghost m2 = self@;
                assert(m2 == unrest(m1, order_id));
                proof {
                    lemma_wf_set_live(m2, order_id, deactivated(live));
                }
                self.deactivate(order_id);
                out_events.push(Event::OrderCanceled { order_id });
                assert(events_view(out_events@) =~= apply_spec(m0, event@).1);
            },
            Event::ModifyOrder { order_id, new_quantity, new_price } => {
                let found = match self.live_orders.get(&order_id) {
                    Some(l) => Some(*l),
                    None => None,
                };
                let live = match found {
                    None => {
                        out_events.push(
                            Event::OrderRejected {
                                order_id,
                                reason: "Unknown order_id".to_string(),
                            },
                        );
                        assert(events_view(out_events@) =~= apply_spec(m0, event@).1);
                        return out_events;
                    },
                    Some(l) => l,
                };
                if !live.is_active || live.remaining_quantity == 0 {
                    out_events.push(
                        Event::OrderRejected {
                            order_id,
                            reason: "Not active or filled".to_string(),
                        },
                    );
                    assert(events_view(out_events@) =~= apply_spec(m0, event@).1);
                    return out_events;
                }
                let old_price = live.order.price;
                let side = live.order.side;
                let remaining_qty = live.remaining_quantity;
                if let Some(price) = old_price {
                    proof {
                        lemma_wf_book_remove(m0, order_id);
                    }
                    self.remove_resting_order_from_level(side, price, order_id, remaining_qty);
                } else {
                    proof {
                        if in_book(m0, order_id) {
                            lemma_in_book_own_side(m0, order_id);
                        }
                    }
                }
                let ghost m1 = self@;
                assert(m1 == unrest(m0, order_id));
                proof {
                    lemma_wf_queue_remove(m1, order_id);
                }
                self.remove_from_active_queue(order_id);
                let ghost m2 = self@;
                let live2 = LiveOrder {
                    remaining_quantity: new_quantity,
                    order: Order { price: new_price, ..live.order },
                    ..live
                };
                proof {
                    lemma_wf_set_live(m2, order_id, live2);
                }
                self.live_orders.insert(order_id, live2);
                let ghost m3 = self@;
                assert(m3 == set_live(m2, order_id, live2));
                match new_price {
                    None => {
                        proof {
                            lemma_wf_queue_push(m3, order_id);
                        }
                        self.active_order.push_back(order_id);
                    },
                    Some(price) => {
                        if self.is_marketable_limit(side, price) {
                            proof {
                                lemma_wf_queue_push(m3, order_id);
                            }
                            self.active_order.push_back(order_id);
                        } else {
                            proof {
                                lemma_wf_level_bounded(m3, side, price);
                            }
                            self.add_resting_to_book(side, price, order_id, new_quantity);
                            proof {
                                lemma_wf_book_add(m3, side, price, order_id, new_quantity);
                            }
                        }
                    },
                }
                out_events.push(Event::OrderAccepted { order_id });
                assert(events_view(out_events@) =~= apply_spec(m0, event@).1);
            },
            _ => {
                assert(events_view(out_events@) =~= apply_spec(m0, event@).1);
            },
        }
        out_events
    }
}

} // verus!
