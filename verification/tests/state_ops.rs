use clob_engine::state::EngineState;
use clob_engine::types::{Event, Order, Side, TimeInForce};

fn rest(s: &mut EngineState, id: u64, side: Side, price: i64, qty: u64) {
    let out = s.apply_event(Event::NewOrder(Order::new(id, side, Some(price), qty, TimeInForce::GTC)));
    assert_eq!(out, vec![Event::OrderAccepted { order_id: id }]);
}

#[test]
fn marketable_limit_compares_with_the_best_opposite_price() {
    let mut s = EngineState::new();
    assert!(!s.is_marketable_limit(Side::Bid, 1000));
    rest(&mut s, 1, Side::Ask, 101, 1);
    rest(&mut s, 2, Side::Bid, 99, 1);
    assert!(s.is_marketable_limit(Side::Bid, 101));
    assert!(!s.is_marketable_limit(Side::Bid, 100));
    assert!(s.is_marketable_limit(Side::Ask, 99));
    assert!(!s.is_marketable_limit(Side::Ask, 100));
}

#[test]
fn sufficient_liquidity_counts_levels_within_the_limit() {
    let mut s = EngineState::new();
    rest(&mut s, 1, Side::Ask, 100, 2);
    rest(&mut s, 2, Side::Ask, 101, 3);
    rest(&mut s, 3, Side::Ask, 103, 50);
    assert!(s.has_sufficient_liquidity(Side::Bid, 101, 5));
    assert!(!s.has_sufficient_liquidity(Side::Bid, 101, 6));
    assert!(s.has_sufficient_liquidity(Side::Bid, 103, 55));
    assert!(!s.has_sufficient_liquidity(Side::Bid, 99, 0));
    assert!(s.has_sufficient_liquidity(Side::Bid, 100, 0));
    assert!(!s.has_sufficient_liquidity(Side::Ask, 1, 1));
}

#[test]
fn resting_add_and_remove_keep_totals() {
    let mut s = EngineState::new();
    s.add_resting_to_book(Side::Bid, 100, 1, 5);
    s.add_resting_to_book(Side::Bid, 102, 2, 1);
    s.add_resting_to_book(Side::Bid, 100, 3, 7);
    assert_eq!(s.order_book.bids.len(), 2);
    assert_eq!(s.order_book.bids[0].price, 102);
    assert_eq!(s.order_book.bids[1].total_quantity, 12);
    assert_eq!(s.order_book.bids[1].order_ids.iter().copied().collect::<Vec<u64>>(), vec![1, 3]);
    s.remove_resting_order_from_level(Side::Bid, 100, 1, 5);
    assert_eq!(s.order_book.bids[1].total_quantity, 7);
    s.remove_resting_order_from_level(Side::Bid, 100, 99, 5);
    assert_eq!(s.order_book.bids[1].total_quantity, 7);
    s.remove_resting_order_from_level(Side::Bid, 100, 3, 100);
    assert_eq!(s.order_book.bids.len(), 1);
    s.remove_resting_order_from_level(Side::Ask, 100, 3, 1);
    assert_eq!(s.order_book.bids.len(), 1);
}

#[test]
fn active_queue_removal_reports_presence() {
    let mut s = EngineState::new();
    s.apply_event(Event::NewOrder(Order::new(1, Side::Bid, None, 3, TimeInForce::IOC)));
    assert_eq!(s.active_order.len(), 1);
    assert!(s.remove_from_active_queue(1));
    assert!(!s.remove_from_active_queue(1));
    assert!(s.active_order.is_empty());
}

#[test]
fn cancel_of_a_queued_aggressor_takes_it_out_of_the_queue() {
    let mut s = EngineState::new();
    s.apply_event(Event::NewOrder(Order::new(1, Side::Bid, None, 3, TimeInForce::IOC)));
    let out = s.apply_event(Event::CancelOrder { order_id: 1 });
    assert_eq!(out, vec![Event::OrderCanceled { order_id: 1 }]);
    assert!(s.active_order.is_empty());
    assert!(s.match_order().is_empty());
}

#[test]
fn two_queued_fok_orders_the_second_finds_less() {
    let mut s = EngineState::new();
    rest(&mut s, 1, Side::Ask, 100, 3);
    let a = s.apply_event(Event::NewOrder(Order::new(2, Side::Bid, Some(100), 3, TimeInForce::FOK)));
    let b = s.apply_event(Event::NewOrder(Order::new(3, Side::Bid, Some(100), 3, TimeInForce::FOK)));
    assert_eq!(a, vec![Event::OrderAccepted { order_id: 2 }]);
    assert_eq!(b, vec![Event::OrderAccepted { order_id: 3 }]);
    let out = s.match_order();
    assert_eq!(
        out.last(),
        Some(&Event::OrderRejected {
            order_id: 3,
            reason: "FOK: remaining quantity after matching (BUG)".to_string()
        })
    );
}

#[test]
fn snapshots_are_best_first_and_respect_depth() {
    let mut s = EngineState::new();
    rest(&mut s, 1, Side::Bid, 98, 1);
    rest(&mut s, 2, Side::Bid, 99, 2);
    rest(&mut s, 3, Side::Bid, 99, 4);
    rest(&mut s, 4, Side::Ask, 105, 5);
    rest(&mut s, 5, Side::Ask, 103, 6);
    let l2 = s.snapshot_l2(1);
    assert_eq!(l2.bids.len(), 1);
    assert_eq!((l2.bids[0].price, l2.bids[0].total_quantity), (99, 6));
    assert_eq!((l2.asks[0].price, l2.asks[0].total_quantity), (103, 6));
    let l2 = s.snapshot_l2(10);
    assert_eq!(l2.bids.len(), 2);
    assert_eq!(l2.asks.len(), 2);
    assert_eq!(l2.asks[1].price, 105);
    let l3 = s.snapshot_l3(2);
    assert_eq!(l3.bids.len(), 2);
    assert_eq!(l3.bids[0].price, 99);
    assert_eq!(l3.bids[0].total_quantity, 6);
    let ids: Vec<(u64, u64)> =
        l3.bids[0].orders.iter().map(|o| (o.order_id, o.remaining_quantity)).collect();
    assert_eq!(ids, vec![(2, 2), (3, 4)]);
    assert_eq!(s.snapshot_l3(0).asks.len(), 0);
}

#[test]
fn trade_counters_advance_by_one_per_trade() {
    let mut s = EngineState::new();
    s.next_trade = u64::MAX;
    s.next_sequence = 41;
    rest(&mut s, 1, Side::Ask, 100, 1);
    rest(&mut s, 2, Side::Ask, 100, 1);
    s.apply_event(Event::NewOrder(Order::new(3, Side::Bid, None, 2, TimeInForce::IOC)));
    let out = s.match_order();
    let trades: Vec<(u64, u64)> = out
        .iter()
        .filter_map(|e| match e {
            Event::Trade(t) => Some((t.trade_id, t.sequence)),
            _ => None,
        })
        .collect();
    assert_eq!(trades, vec![(u64::MAX, 41), (0, 42)]);
}

fn book_of(s: &EngineState) -> Vec<(Vec<(i64, Vec<u64>, u128)>, Vec<(i64, Vec<u64>, u128)>)> {
    let side = |levels: &Vec<clob_engine::book::PriceLevel>| {
        levels
            .iter()
            .map(|l| (l.price, l.order_ids.iter().copied().collect::<Vec<u64>>(), l.total_quantity))
            .collect::<Vec<_>>()
    };
    vec![(side(&s.order_book.bids), side(&s.order_book.asks))]
}

#[test]
fn add_then_remove_restores_the_book() {
    let mut s = EngineState::new();
    rest(&mut s, 1, Side::Bid, 100, 5);
    rest(&mut s, 2, Side::Bid, 98, 1);
    rest(&mut s, 3, Side::Ask, 103, 4);
    let before = book_of(&s);
    s.add_resting_to_book(Side::Bid, 100, 7, 3);
    assert_ne!(book_of(&s), before);
    s.remove_resting_order_from_level(Side::Bid, 100, 7, 3);
    assert_eq!(book_of(&s), before);
    s.add_resting_to_book(Side::Bid, 99, 8, 2);
    assert_eq!(s.order_book.bids.len(), 3);
    s.remove_resting_order_from_level(Side::Bid, 99, 8, 2);
    assert_eq!(book_of(&s), before);
    assert_eq!(s.active_order.len(), 0);
}
