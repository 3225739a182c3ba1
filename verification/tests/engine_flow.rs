use clob_engine::engine::Engine;
use clob_engine::state::EngineState;
use clob_engine::types::{Event, Order, Side, TimeInForce, Trade};

fn engine() -> Engine {
    Engine::new(EngineState::new())
}

fn limit(id: u64, side: Side, price: i64, qty: u64, tif: TimeInForce) -> Event {
    Event::NewOrder(Order::new(id, side, Some(price), qty, tif))
}

fn market(id: u64, side: Side, qty: u64) -> Event {
    Event::NewOrder(Order::new(id, side, None, qty, TimeInForce::GTC))
}

fn rejected(id: u64, reason: &str) -> Event {
    Event::OrderRejected { order_id: id, reason: reason.to_string() }
}

#[test]
fn order_new_market_is_ioc() {
    let o = Order::new(7, Side::Bid, None, 3, TimeInForce::GTC);
    assert_eq!(o.time_in_force, TimeInForce::IOC);
    let o = Order::new(8, Side::Ask, Some(5), 3, TimeInForce::FOK);
    assert_eq!(o.time_in_force, TimeInForce::FOK);
    assert_eq!(o.price, Some(5));
    assert_eq!(o.quantity, 3);
}

#[test]
fn zero_quantity_is_rejected() {
    let mut e = engine();
    let out = e.process(limit(1, Side::Bid, 100, 0, TimeInForce::GTC));
    assert_eq!(out, vec![rejected(1, "Quantity must be > 0")]);
    assert!(e.state.live_orders.is_empty());
}

#[test]
fn gtc_not_marketable_rests() {
    let mut e = engine();
    let out = e.process(limit(1, Side::Bid, 100, 5, TimeInForce::GTC));
    assert_eq!(out, vec![Event::OrderAccepted { order_id: 1 }]);
    let snap = e.state.snapshot_l2(10);
    assert_eq!(snap.bids.len(), 1);
    assert_eq!(snap.bids[0].price, 100);
    assert_eq!(snap.bids[0].total_quantity, 5);
    assert!(snap.asks.is_empty());
}

#[test]
fn market_order_walks_the_book_and_cancels_the_rest() {
    let mut e = engine();
    e.process(limit(1, Side::Ask, 101, 2, TimeInForce::GTC));
    e.process(limit(2, Side::Ask, 102, 3, TimeInForce::GTC));
    let out = e.process(market(3, Side::Bid, 10));
    assert_eq!(
        out,
        vec![
            Event::OrderAccepted { order_id: 3 },
            Event::Trade(Trade {
                trade_id: 0,
                buy_order_id: 3,
                sell_order_id: 1,
                price: 101,
                quantity: 2,
                sequence: 0
            }),
            Event::OrderPartiallyFilled { order_id: 3, filled_quantity: 2, remaining_quantity: 8 },
            Event::OrderFilled { order_id: 1 },
            Event::Trade(Trade {
                trade_id: 1,
                buy_order_id: 3,
                sell_order_id: 2,
                price: 102,
                quantity: 3,
                sequence: 1
            }),
            Event::OrderPartiallyFilled { order_id: 3, filled_quantity: 3, remaining_quantity: 5 },
            Event::OrderFilled { order_id: 2 },
            Event::OrderCanceled { order_id: 3 },
        ]
    );
    assert!(e.state.order_book.asks.is_empty());
    assert_eq!(e.state.live_orders[&3].remaining_quantity, 0);
    assert!(!e.state.live_orders[&3].is_active);
    assert_eq!(e.state.next_trade, 2);
    assert_eq!(e.state.next_sequence, 2);
}

#[test]
fn market_order_on_empty_book_is_canceled() {
    let mut e = engine();
    let out = e.process(market(1, Side::Ask, 4));
    assert_eq!(out, vec![Event::OrderAccepted { order_id: 1 }, Event::OrderCanceled { order_id: 1 }]);
    assert!(e.state.order_book.bids.is_empty());
}

#[test]
fn fifo_within_a_price_level() {
    let mut e = engine();
    e.process(limit(1, Side::Ask, 100, 1, TimeInForce::GTC));
    e.process(limit(2, Side::Ask, 100, 1, TimeInForce::GTC));
    let out = e.process(limit(3, Side::Bid, 100, 1, TimeInForce::GTC));
    match &out[1] {
        Event::Trade(t) => {
            assert_eq!(t.sell_order_id, 1);
            assert_eq!(t.buy_order_id, 3);
        }
        other => panic!("expected a trade, got {:?}", other),
    }
    let l3 = e.state.snapshot_l3(5);
    assert_eq!(l3.asks.len(), 1);
    assert_eq!(l3.asks[0].orders.len(), 1);
    assert_eq!(l3.asks[0].orders[0].order_id, 2);
}

#[test]
fn best_price_first() {
    let mut e = engine();
    e.process(limit(1, Side::Ask, 102, 1, TimeInForce::GTC));
    e.process(limit(2, Side::Ask, 101, 1, TimeInForce::GTC));
    let out = e.process(market(3, Side::Bid, 1));
    match &out[1] {
        Event::Trade(t) => {
            assert_eq!(t.sell_order_id, 2);
            assert_eq!(t.price, 101);
        }
        other => panic!("expected a trade, got {:?}", other),
    }
}

#[test]
fn trade_price_is_the_resting_price() {
    let mut e = engine();
    e.process(limit(1, Side::Bid, 105, 4, TimeInForce::GTC));
    let out = e.process(limit(2, Side::Ask, 100, 4, TimeInForce::GTC));
    match &out[1] {
        Event::Trade(t) => {
            assert_eq!(t.price, 105);
            assert_eq!(t.buy_order_id, 1);
            assert_eq!(t.sell_order_id, 2);
            assert_eq!(t.quantity, 4);
        }
        other => panic!("expected a trade, got {:?}", other),
    }
    assert_eq!(out[2], Event::OrderFilled { order_id: 2 });
    assert_eq!(out[3], Event::OrderFilled { order_id: 1 });
}

#[test]
fn limit_aggressor_stops_at_its_limit_and_rests() {
    let mut e = engine();
    e.process(limit(1, Side::Ask, 100, 2, TimeInForce::GTC));
    e.process(limit(2, Side::Ask, 103, 2, TimeInForce::GTC));
    let out = e.process(limit(3, Side::Bid, 101, 5, TimeInForce::GTC));
    assert_eq!(out.len(), 4);
    assert_eq!(out[2], Event::OrderPartiallyFilled { order_id: 3, filled_quantity: 2, remaining_quantity: 3 });
    let snap = e.state.snapshot_l2(10);
    assert_eq!(snap.bids.len(), 1);
    assert_eq!(snap.bids[0].price, 101);
    assert_eq!(snap.bids[0].total_quantity, 3);
    assert_eq!(snap.asks.len(), 1);
    assert_eq!(snap.asks[0].price, 103);
}

#[test]
fn ioc_not_marketable_is_canceled() {
    let mut e = engine();
    let out = e.process(limit(1, Side::Bid, 100, 5, TimeInForce::IOC));
    assert_eq!(out, vec![Event::OrderCanceled { order_id: 1 }]);
    assert!(e.state.order_book.bids.is_empty());
    assert!(!e.state.live_orders[&1].is_active);
}

#[test]
fn ioc_marketable_partial_then_canceled() {
    let mut e = engine();
    e.process(limit(1, Side::Bid, 100, 2, TimeInForce::GTC));
    let out = e.process(limit(2, Side::Ask, 100, 5, TimeInForce::IOC));
    assert_eq!(out.len(), 5);
    assert_eq!(out[4], Event::OrderCanceled { order_id: 2 });
    assert!(e.state.order_book.asks.is_empty());
    assert!(e.state.order_book.bids.is_empty());
}

#[test]
fn fok_not_marketable_is_rejected() {
    let mut e = engine();
    let out = e.process(limit(1, Side::Bid, 100, 5, TimeInForce::FOK));
    assert_eq!(out, vec![rejected(1, "FOK: not marketable")]);
    assert!(e.state.order_book.bids.is_empty());
}

#[test]
fn fok_insufficient_liquidity_is_rejected_without_trades() {
    let mut e = engine();
    e.process(limit(1, Side::Ask, 100, 2, TimeInForce::GTC));
    e.process(limit(2, Side::Ask, 105, 10, TimeInForce::GTC));
    let out = e.process(limit(3, Side::Bid, 101, 5, TimeInForce::FOK));
    assert_eq!(out, vec![rejected(3, "FOK: insufficient liquidity")]);
    let snap = e.state.snapshot_l2(10);
    assert_eq!(snap.asks.len(), 2);
    assert_eq!(snap.asks[0].total_quantity, 2);
    assert_eq!(e.state.live_orders[&3].remaining_quantity, 0);
}

#[test]
fn fok_sufficient_liquidity_fills_completely() {
    let mut e = engine();
    e.process(limit(1, Side::Ask, 100, 2, TimeInForce::GTC));
    e.process(limit(2, Side::Ask, 101, 10, TimeInForce::GTC));
    let out = e.process(limit(3, Side::Bid, 101, 5, TimeInForce::FOK));
    assert_eq!(out[0], Event::OrderAccepted { order_id: 3 });
    assert_eq!(out.len(), 7);
    assert_eq!(out[5], Event::OrderFilled { order_id: 3 });
    assert_eq!(out[6], Event::OrderPartiallyFilled { order_id: 2, filled_quantity: 3, remaining_quantity: 7 });
    assert_eq!(e.state.live_orders[&3].remaining_quantity, 0);
    let snap = e.state.snapshot_l2(10);
    assert_eq!(snap.asks.len(), 1);
    assert_eq!(snap.asks[0].total_quantity, 7);
}

#[test]
fn cancel_resting_and_rejections() {
    let mut e = engine();
    e.process(limit(1, Side::Bid, 100, 5, TimeInForce::GTC));
    let out = e.process(Event::CancelOrder { order_id: 1 });
    assert_eq!(out, vec![Event::OrderCanceled { order_id: 1 }]);
    assert!(e.state.order_book.bids.is_empty());
    let out = e.process(Event::CancelOrder { order_id: 1 });
    assert_eq!(out, vec![rejected(1, "Order already inactive or filled")]);
    let out = e.process(Event::CancelOrder { order_id: 42 });
    assert_eq!(out, vec![rejected(42, "Unknown order_id")]);
}

#[test]
fn modify_moves_an_order() {
    let mut e = engine();
    e.process(limit(1, Side::Bid, 100, 5, TimeInForce::GTC));
    e.process(limit(2, Side::Bid, 100, 1, TimeInForce::GTC));
    let out = e.process(Event::ModifyOrder { order_id: 1, new_quantity: 3, new_price: Some(99) });
    assert_eq!(out, vec![Event::OrderAccepted { order_id: 1 }]);
    let snap = e.state.snapshot_l2(10);
    assert_eq!(snap.bids.len(), 2);
    assert_eq!((snap.bids[0].price, snap.bids[0].total_quantity), (100, 1));
    assert_eq!((snap.bids[1].price, snap.bids[1].total_quantity), (99, 3));
}

#[test]
fn modify_into_a_crossing_price_trades() {
    let mut e = engine();
    e.process(limit(1, Side::Ask, 101, 2, TimeInForce::GTC));
    e.process(limit(2, Side::Bid, 100, 2, TimeInForce::GTC));
    let out = e.process(Event::ModifyOrder { order_id: 2, new_quantity: 2, new_price: Some(101) });
    assert_eq!(out[0], Event::OrderAccepted { order_id: 2 });
    match &out[1] {
        Event::Trade(t) => assert_eq!((t.buy_order_id, t.sell_order_id, t.price), (2, 1, 101)),
        other => panic!("expected a trade, got {:?}", other),
    }
    assert!(e.state.order_book.asks.is_empty());
    assert!(e.state.order_book.bids.is_empty());
}

#[test]
fn modify_rejections() {
    let mut e = engine();
    let out = e.process(Event::ModifyOrder { order_id: 9, new_quantity: 1, new_price: None });
    assert_eq!(out, vec![rejected(9, "Unknown order_id")]);
    e.process(limit(1, Side::Bid, 100, 5, TimeInForce::IOC));
    let out = e.process(Event::ModifyOrder { order_id: 1, new_quantity: 1, new_price: None });
    assert_eq!(out, vec![rejected(1, "Not active or filled")]);
}

#[test]
fn modify_to_zero_leaves_an_entry_that_matching_drops() {
    let mut e = engine();
    e.process(limit(1, Side::Ask, 100, 5, TimeInForce::GTC));
    e.process(limit(2, Side::Ask, 100, 4, TimeInForce::GTC));
    let out = e.process(Event::ModifyOrder { order_id: 1, new_quantity: 0, new_price: Some(100) });
    assert_eq!(out, vec![Event::OrderAccepted { order_id: 1 }]);
    let out = e.process(market(3, Side::Bid, 5));
    match &out[1] {
        Event::Trade(t) => assert_eq!(t.sell_order_id, 2),
        other => panic!("expected a trade, got {:?}", other),
    }
    assert_eq!(out.len(), 5);
    assert_eq!(out[4], Event::OrderCanceled { order_id: 3 });
    assert!(!e.state.live_orders.contains_key(&1));
    assert!(e.state.order_book.asks.is_empty());
}

#[test]
fn output_events_as_input_do_nothing() {
    let mut e = engine();
    let out = e.process(Event::OrderFilled { order_id: 1 });
    assert!(out.is_empty());
}

#[test]
fn no_aggressor_no_trade() {
    let mut s = EngineState::new();
    let out = s.apply_event(limit(1, Side::Bid, 100, 5, TimeInForce::GTC));
    assert_eq!(out, vec![Event::OrderAccepted { order_id: 1 }]);
    let out = s.match_order();
    assert!(out.is_empty());
}

#[test]
fn book_never_crosses() {
    let mut e = engine();
    let mut id = 0;
    for round in 0..30i64 {
        id += 1;
        e.process(limit(id, Side::Bid, 100 + (round % 7), 3, TimeInForce::GTC));
        id += 1;
        e.process(limit(id, Side::Ask, 103 - (round % 5), 2, TimeInForce::GTC));
        let snap = e.state.snapshot_l2(1);
        if let (Some(b), Some(a)) = (snap.bids.first(), snap.asks.first()) {
            assert!(b.price < a.price);
        }
    }
}

#[test]
fn same_events_same_output() {
    let events = || {
        vec![
            limit(1, Side::Ask, 101, 3, TimeInForce::GTC),
            limit(2, Side::Ask, 100, 2, TimeInForce::GTC),
            limit(3, Side::Bid, 99, 4, TimeInForce::GTC),
            market(4, Side::Bid, 4),
            Event::CancelOrder { order_id: 3 },
            limit(5, Side::Ask, 98, 6, TimeInForce::IOC),
        ]
    };
    let mut a = engine();
    let mut b = engine();
    let out_a: Vec<Vec<Event>> = events().into_iter().map(|e| a.process(e)).collect();
    let out_b: Vec<Vec<Event>> = events().into_iter().map(|e| b.process(e)).collect();
    assert_eq!(out_a, out_b);
    assert_eq!(a.state.next_trade, b.state.next_trade);
}

#[test]
fn traded_quantity_equals_what_the_aggressor_lost() {
    let mut e = engine();
    e.process(limit(1, Side::Ask, 100, 2, TimeInForce::GTC));
    e.process(limit(2, Side::Ask, 101, 5, TimeInForce::GTC));
    let out = e.process(limit(3, Side::Bid, 101, 4, TimeInForce::GTC));
    let traded: u64 = out
        .iter()
        .map(|ev| match ev {
            Event::Trade(t) => t.quantity,
            _ => 0,
        })
        .sum();
    assert_eq!(traded, 4);
    assert_eq!(e.state.live_orders[&3].remaining_quantity, 0);
    assert_eq!(e.state.live_orders[&2].remaining_quantity, 3);
    assert_eq!(e.state.snapshot_l2(5).asks[0].total_quantity, 3);
}

#[test]
fn every_order_that_does_not_rest_gets_a_terminal_event() {
    let mut e = engine();
    e.process(limit(1, Side::Ask, 100, 2, TimeInForce::GTC));
    let out = e.process(limit(2, Side::Bid, 100, 2, TimeInForce::IOC));
    assert!(out.contains(&Event::OrderFilled { order_id: 2 }));
    let out = e.process(limit(3, Side::Bid, 100, 2, TimeInForce::IOC));
    assert!(out.contains(&Event::OrderCanceled { order_id: 3 }));
    let out = e.process(limit(4, Side::Bid, 100, 2, TimeInForce::FOK));
    assert!(matches!(out[0], Event::OrderRejected { order_id: 4, .. }));
}

#[test]
fn new_order_may_reuse_the_id_of_a_finished_order() {
    let mut e = engine();
    e.process(limit(1, Side::Bid, 100, 5, TimeInForce::GTC));
    e.process(Event::CancelOrder { order_id: 1 });
    let out = e.process(limit(1, Side::Ask, 101, 2, TimeInForce::GTC));
    assert_eq!(out, vec![Event::OrderAccepted { order_id: 1 }]);
    assert!(e.state.order_book.bids.is_empty());
    assert_eq!(e.state.order_book.asks.len(), 1);
    assert_eq!(e.state.order_book.asks[0].price, 101);
    assert_eq!(e.state.live_orders[&1].remaining_quantity, 2);
    assert!(e.state.live_orders[&1].is_active);
    let out = e.process(limit(2, Side::Bid, 90, 1, TimeInForce::FOK));
    assert_eq!(out, vec![rejected(2, "FOK: not marketable")]);
    let out = e.process(limit(2, Side::Bid, 101, 2, TimeInForce::GTC));
    assert_eq!(out[0], Event::OrderAccepted { order_id: 2 });
    assert_eq!(out[2], Event::OrderFilled { order_id: 2 });
    assert_eq!(out[3], Event::OrderFilled { order_id: 1 });
    assert!(e.state.order_book.asks.is_empty());
}

#[test]
fn accepted_fok_order_is_filled_and_never_rejected() {
    let mut e = engine();
    e.process(limit(1, Side::Ask, 100, 2, TimeInForce::GTC));
    e.process(limit(2, Side::Ask, 101, 10, TimeInForce::GTC));
    let out = e.process(limit(3, Side::Bid, 101, 5, TimeInForce::FOK));
    assert_eq!(out[0], Event::OrderAccepted { order_id: 3 });
    assert!(out.contains(&Event::OrderFilled { order_id: 3 }));
    assert!(out.iter().all(|ev| !matches!(ev, Event::OrderRejected { .. })));
}

#[test]
fn resting_orders_keep_quantity_left() {
    let mut e = engine();
    e.process(limit(1, Side::Ask, 100, 4, TimeInForce::GTC));
    e.process(limit(2, Side::Ask, 100, 3, TimeInForce::GTC));
    e.process(limit(3, Side::Ask, 102, 6, TimeInForce::GTC));
    e.process(limit(4, Side::Bid, 101, 6, TimeInForce::GTC));
    e.process(limit(5, Side::Bid, 99, 2, TimeInForce::GTC));
    e.process(Event::ModifyOrder { order_id: 5, new_quantity: 1, new_price: Some(98) });
    e.process(market(6, Side::Bid, 2));
    for level in e.state.order_book.bids.iter().chain(e.state.order_book.asks.iter()) {
        assert!(!level.order_ids.is_empty());
        for id in level.order_ids.iter() {
            assert!(e.state.live_orders[id].remaining_quantity > 0);
        }
    }
    assert_eq!(e.state.order_book.asks.len(), 1);
    assert_eq!(e.state.order_book.asks[0].total_quantity, 5);
}

#[test]
fn an_order_trades_at_most_once_per_resting_order() {
    let mut e = engine();
    e.process(limit(1, Side::Ask, 100, 1, TimeInForce::GTC));
    e.process(limit(2, Side::Ask, 100, 1, TimeInForce::GTC));
    e.process(limit(3, Side::Ask, 101, 1, TimeInForce::GTC));
    let out = e.process(market(4, Side::Bid, 100));
    let trades = out.iter().filter(|ev| matches!(ev, Event::Trade(_))).count();
    assert_eq!(trades, 3);
    assert_eq!(out.last(), Some(&Event::OrderCanceled { order_id: 4 }));
    let out = e.process(market(5, Side::Bid, 100));
    assert_eq!(out, vec![Event::OrderAccepted { order_id: 5 }, Event::OrderCanceled { order_id: 5 }]);
}
