use vstd::prelude::*;

verus! {

/// The side of the book an order belongs to.
#[derive(Clone, Copy, Debug, PartialEq, Eq, Structural)]
pub enum Side {
    Bid,
    Ask,
}

/// Time-in-force of a limit order.
#[derive(Clone, Copy, Debug, PartialEq, Eq, Structural)]
pub enum TimeInForce {
    /// Good-till-canceled: the unfilled part rests in the book.
    GTC,
    /// Immediate-or-cancel: the unfilled part is canceled.
    IOC,
    /// Fill-or-kill: fills completely at once or not at all.
    FOK,
}

/// An order as submitted. A `price` of `None` is a market order.
#[derive(Clone, Copy, Debug, PartialEq, Eq)]
pub struct Order {
    pub order_id: u64,
    pub side: Side,
    pub price: Option<i64>,
    pub quantity: u64,
    pub time_in_force: TimeInForce,
}

impl Order {
    /// Builds an order; a market order (no price) is always immediate-or-cancel.
    pub fn new(
        order_id: u64,
        side: Side,
        price: Option<i64>,
        quantity: u64,
        time_in_force: TimeInForce,
    ) -> (o: Order)
        ensures
            o.order_id == order_id,
            o.side == side,
            o.price == price,
            o.quantity == quantity,
            o.time_in_force == (if price is None { TimeInForce::IOC } else { time_in_force }),
    {
        let tif = if price.is_none() {
            TimeInForce::IOC
        } else {
            time_in_force
        };
        Order { order_id, side, price, quantity, time_in_force: tif }
    }
}


/// An execution between an aggressor and a resting order. It changes nothing;
/// it records what happened.
#[derive(Clone, Copy, Debug, PartialEq, Eq, Structural)]
pub struct Trade {
    pub trade_id: u64,
    pub buy_order_id: u64,
    pub sell_order_id: u64,
    /// Execution price: always the resting order's price.
    pub price: i64,
    /// Executed quantity.
    pub quantity: u64,
    /// Deterministic position of the trade in the engine's output.
    pub sequence: u64,
}

/// Input events (new, cancel, modify) and output events of the engine.
#[derive(Debug, PartialEq, Eq)]
pub enum Event {
    NewOrder(Order),
    CancelOrder { order_id: u64 },
    ModifyOrder { order_id: u64, new_quantity: u64, new_price: Option<i64> },
    OrderAccepted { order_id: u64 },
    OrderRejected { order_id: u64, reason: String },
    OrderPartiallyFilled { order_id: u64, filled_quantity: u64, remaining_quantity: u64 },
    OrderFilled { order_id: u64 },
    OrderCanceled { order_id: u64 },
    Trade(Trade),
}

/// The mathematical content of an [`Event`]: the reason text is its character sequence.
pub enum EventView {
    NewOrder(Order),
    CancelOrder { order_id: u64 },
    ModifyOrder { order_id: u64, new_quantity: u64, new_price: Option<i64> },
    OrderAccepted { order_id: u64 },
    OrderRejected { order_id: u64, reason: Seq<char> },
    OrderPartiallyFilled { order_id: u64, filled_quantity: u64, remaining_quantity: u64 },
    OrderFilled { order_id: u64 },
    OrderCanceled { order_id: u64 },
    Trade(Trade),
}

impl View for Event {
    type V = EventView;

    open spec fn view(&self) -> EventView {
        match self {
            Event::NewOrder(o) => EventView::NewOrder(*o),
            Event::CancelOrder { order_id } => EventView::CancelOrder { order_id: *order_id },
            Event::ModifyOrder { order_id, new_quantity, new_price } => EventView::ModifyOrder {
                order_id: *order_id,
                new_quantity: *new_quantity,
                new_price: *new_price,
            },
            Event::OrderAccepted { order_id } => EventView::OrderAccepted { order_id: *order_id },
            Event::OrderRejected { order_id, reason } => EventView::OrderRejected {
                order_id: *order_id,
                reason: reason@,
            },
            Event::OrderPartiallyFilled { order_id, filled_quantity, remaining_quantity } =>
                EventView::OrderPartiallyFilled {
                order_id: *order_id,
                filled_quantity: *filled_quantity,
                remaining_quantity: *remaining_quantity,
            },
            Event::OrderFilled { order_id } => EventView::OrderFilled { order_id: *order_id },
            Event::OrderCanceled { order_id } => EventView::OrderCanceled { order_id: *order_id },
            Event::Trade(t) => EventView::Trade(*t),
        }
    }
}

/// The views of a sequence of events.
pub open spec fn events_view(events: Seq<Event>) -> Seq<EventView> {
    events.map_values(|e: Event| e@)
}

/// Aggregated depth at one price.
#[derive(Clone, Copy, Debug, PartialEq, Eq, Structural)]
pub struct L2Level {
    pub price: i64,
    pub total_quantity: u128,
}

/// Aggregated depth of both sides, best price first.
#[derive(Debug)]
pub struct L2Snapshot {
    pub bids: Vec<L2Level>,
    pub asks: Vec<L2Level>,
}

/// One resting order in a full-depth snapshot.
#[derive(Clone, Copy, Debug, PartialEq, Eq, Structural)]
pub struct L3Order {
    pub order_id: u64,
    pub remaining_quantity: u64,
}

/// The resting orders at one price, in time priority (front first).
#[derive(Debug)]
pub struct L3Level {
    pub price: i64,
    pub orders: Vec<L3Order>,
    pub total_quantity: u128,
}

/// Order-by-order depth of both sides, best price first.
#[derive(Debug)]
pub struct L3Snapshot {
    pub bids: Vec<L3Level>,
    pub asks: Vec<L3Level>,
}

} // verus!
