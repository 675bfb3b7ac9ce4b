use lockfree_orderbook::engine::EngineError;
use lockfree_orderbook::journal::JournalEntry;
use lockfree_orderbook::{MatchingEngine, OrderEvent, OrderId, Price, Quantity, Side};

#[test]
fn test_limit_order() {
    let mut engine = MatchingEngine::new();

    let response = engine
        .process_event(OrderEvent::Limit {
            side: Side::Bid,
            price: Price(10000000000),
            quantity: Quantity(100),
        })
        .unwrap();

    assert_eq!(response.sequence, 1);
    assert_eq!(response.fills.len(), 0);
    assert!(response.remaining.is_some());
}

#[test]
fn test_matching() {
    let mut engine = MatchingEngine::new();

    let _bid_response = engine
        .process_event(OrderEvent::Limit {
            side: Side::Bid,
            price: Price(10000000000),
            quantity: Quantity(100),
        })
        .unwrap();

    let ask_response = engine
        .process_event(OrderEvent::Limit {
            side: Side::Ask,
            price: Price(10000000000),
            quantity: Quantity(100),
        })
        .unwrap();

    assert_eq!(ask_response.fills.len(), 1);
    assert!(ask_response.remaining.is_none());
}

#[test]
fn engine_test_cancel_order() {
    let mut engine = MatchingEngine::new();

    let bid_response = engine
        .process_event(OrderEvent::Limit {
            side: Side::Bid,
            price: Price(10000000000),
            quantity: Quantity(100),
        })
        .unwrap();

    let order_id = OrderId(bid_response.sequence);

    let cancel_result = engine.process_event(OrderEvent::Cancel { order_id });
    assert!(cancel_result.is_ok());

    let cancel_again = engine.process_event(OrderEvent::Cancel { order_id });
    assert!(cancel_again.is_err());
}

#[test]
fn engine_test_market_order() {
    let mut engine = MatchingEngine::new();

    let _bid = engine
        .process_event(OrderEvent::Limit {
            side: Side::Bid,
            price: Price(10000000000),
            quantity: Quantity(100),
        })
        .unwrap();

    let market = engine
        .process_event(OrderEvent::Market { side: Side::Ask, quantity: Quantity(100) })
        .unwrap();

    assert_eq!(market.fills.len(), 1);
    assert_eq!(market.fills[0].quantity.0, 100);
}

#[test]
fn test_metrics_update() {
    let mut engine = MatchingEngine::new();

    engine
        .process_event(OrderEvent::Limit {
            side: Side::Bid,
            price: Price(10000000000),
            quantity: Quantity(100),
        })
        .unwrap();

    assert_eq!(engine.metrics().total_orders(), 1);
    assert_eq!(engine.metrics().total_fills(), 0);
}

fn limit(side: Side, price: u64, qty: u64) -> OrderEvent {
    OrderEvent::Limit { side, price: Price(price), quantity: Quantity(qty) }
}

#[test]
fn engine_errors_name_the_missing_order() {
    let mut engine = MatchingEngine::with_capacity(16);
    match engine.process_event(OrderEvent::Cancel { order_id: OrderId(5) }) {
        Err(EngineError::OrderNotFound(id)) => assert_eq!(id, OrderId(5)),
        _ => panic!("expected OrderNotFound"),
    }
    let modify = OrderEvent::Modify {
        order_id: OrderId(6),
        new_price: Some(Price(1)),
        new_quantity: None,
    };
    match engine.process_event(modify) {
        Err(EngineError::OrderNotFound(id)) => assert_eq!(id, OrderId(6)),
        _ => panic!("expected OrderNotFound"),
    }
    // Failed events are still sequenced and journaled, but not counted.
    assert_eq!(engine.sequencer().total_sequenced(), 2);
    assert_eq!(engine.journal().order_event_count(), 2);
    assert_eq!(engine.metrics().total_orders(), 0);
}

#[test]
fn engine_journal_records_event_then_fills() {
    let mut engine = MatchingEngine::new();
    engine.process_event(limit(Side::Ask, 100, 10)).unwrap();
    engine.process_event(limit(Side::Ask, 101, 10)).unwrap();
    let r = engine.process_event(limit(Side::Bid, 101, 15)).unwrap();
    assert_eq!(r.sequence, 3);
    assert_eq!(r.fills.len(), 2);
    let entries = engine.journal().entries();
    assert_eq!(entries.len(), 5);
    match entries[2] {
        JournalEntry::OrderEvent(e) => assert_eq!(e.sequence, 3),
        _ => panic!("expected the event"),
    }
    match (entries[3], entries[4]) {
        (JournalEntry::Fill(a), JournalEntry::Fill(b)) => {
            assert_eq!((a.maker_id, a.taker_id, a.quantity.0, a.price.0), (OrderId(1), OrderId(3), 10, 100));
            assert_eq!((b.maker_id, b.taker_id, b.quantity.0, b.price.0), (OrderId(2), OrderId(3), 5, 101));
        }
        _ => panic!("expected two fills"),
    }
    assert_eq!(engine.journal().fill_count(), 2);
    assert_eq!(engine.metrics().total_fills(), 2);
    assert_eq!(engine.metrics().orders_in_book(), 1);
    assert_eq!(engine.metrics().active_asks(), 1);
    assert_eq!(engine.metrics().active_bids(), 0);
    assert_eq!(engine.total_orders_in_book(), 1);
    assert_eq!(engine.ask_quantity().0, 5);
    assert_eq!(engine.bid_quantity().0, 0);
}

#[test]
fn engine_modify_reports_no_fills_and_journals_none() {
    let mut engine = MatchingEngine::new();
    engine.process_event(limit(Side::Ask, 100, 10)).unwrap();
    engine.process_event(limit(Side::Bid, 90, 10)).unwrap();
    let r = engine
        .process_event(OrderEvent::Modify {
            order_id: OrderId(2),
            new_price: Some(Price(100)),
            new_quantity: None,
        })
        .unwrap();
    assert!(r.fills.is_empty());
    assert!(r.remaining.is_none());
    assert_eq!(engine.journal().fill_count(), 0);
    assert!(engine.get_order(OrderId(1)).is_none());
    assert!(engine.get_order(OrderId(2)).is_none());
}

#[test]
fn engine_market_order_is_all_or_nothing() {
    let mut engine = MatchingEngine::new();
    engine.process_event(limit(Side::Ask, 100, 10)).unwrap();
    // Too little liquidity: nothing trades and nothing rests.
    let r = engine
        .process_event(OrderEvent::Market { side: Side::Bid, quantity: Quantity(15) })
        .unwrap();
    assert_eq!(r.sequence, 2);
    assert!(r.fills.is_empty());
    assert!(r.remaining.is_none());
    assert!(engine.get_order(OrderId(2)).is_none());
    assert_eq!(engine.best_bid(), None);
    assert_eq!(engine.best_ask(), Some(Price(100)));
    assert_eq!(engine.ask_quantity().0, 10);
    assert_eq!(engine.journal().order_event_count(), 2);
    assert_eq!(engine.journal().fill_count(), 0);
    assert_eq!(engine.metrics().total_orders(), 2);
    // Enough liquidity: the whole quantity is filled.
    let r = engine
        .process_event(OrderEvent::Market { side: Side::Bid, quantity: Quantity(10) })
        .unwrap();
    assert_eq!(r.fills.len(), 1);
    assert_eq!((r.fills[0].maker_id, r.fills[0].quantity.0), (OrderId(1), 10));
    assert!(r.remaining.is_none());
    assert_eq!(engine.best_ask(), None);
    assert_eq!(engine.total_orders_in_book(), 0);
}

#[test]
fn engine_market_sell_sweeps_levels_when_covered() {
    let mut engine = MatchingEngine::new();
    engine.process_event(limit(Side::Bid, 99, 10)).unwrap();
    engine.process_event(limit(Side::Bid, 100, 10)).unwrap();
    let r = engine
        .process_event(OrderEvent::Market { side: Side::Ask, quantity: Quantity(20) })
        .unwrap();
    let got: Vec<(u64, u64, u64)> = r.fills.iter().map(|f| (f.maker_id.0, f.price.0, f.quantity.0)).collect();
    assert_eq!(got, vec![(2, 100, 10), (1, 99, 10)]);
    assert!(r.remaining.is_none());
    assert_eq!(engine.best_bid(), None);
}

#[test]
fn engine_counts_resting_orders() {
    let mut engine = MatchingEngine::new();
    engine.process_event(limit(Side::Bid, 10000000000, 100)).unwrap();
    engine.process_event(limit(Side::Bid, 9900000000, 50)).unwrap();
    assert_eq!(engine.total_orders_in_book(), 2);
    assert_eq!(engine.metrics().orders_in_book(), 2);
    assert_eq!(engine.metrics().active_bids(), 2);
    assert_eq!(engine.bid_quantity().0, 150);
    engine.process_event(OrderEvent::Cancel { order_id: OrderId(1) }).unwrap();
    assert_eq!(engine.total_orders_in_book(), 1);
    assert_eq!(engine.metrics().orders_in_book(), 1);
    assert_eq!(engine.metrics().active_bids(), 1);
    // A failed cancel leaves the metrics as they were.
    assert!(engine.process_event(OrderEvent::Cancel { order_id: OrderId(1) }).is_err());
    assert_eq!(engine.metrics().total_orders(), 3);
    assert_eq!(engine.metrics().orders_in_book(), 1);
}

#[test]
fn engine_metrics_mut_and_latency() {
    let mut engine = MatchingEngine::default();
    engine.process_event(limit(Side::Bid, 100, 10)).unwrap();
    assert_eq!(engine.metrics().order_latency().count, 1);
    engine.metrics_mut().reset();
    assert_eq!(engine.metrics().total_orders(), 0);
    assert_eq!(engine.metrics().order_latency().count, 0);
    assert_eq!(engine.best_bid(), Some(Price(100)));
}

#[test]
fn engine_replaying_journal_rebuilds_book() {
    let mut engine = MatchingEngine::new();
    engine.process_event(limit(Side::Bid, 98, 10)).unwrap();
    engine.process_event(limit(Side::Bid, 99, 20)).unwrap();
    engine.process_event(limit(Side::Ask, 103, 15)).unwrap();
    engine.process_event(limit(Side::Ask, 99, 25)).unwrap();
    let _ = engine.process_event(OrderEvent::Cancel { order_id: OrderId(1) });
    let _ = engine.process_event(OrderEvent::Cancel { order_id: OrderId(42) });
    engine
        .process_event(OrderEvent::Modify { order_id: OrderId(3), new_price: Some(Price(101)), new_quantity: None })
        .unwrap();
    engine.process_event(OrderEvent::Market { side: Side::Bid, quantity: Quantity(3) }).unwrap();

    let mut replayed = MatchingEngine::new();
    for entry in engine.journal().entries() {
        if let JournalEntry::OrderEvent(e) = entry {
            let _ = replayed.process_event(e.event);
        }
    }
    assert_eq!(replayed.best_bid(), engine.best_bid());
    assert_eq!(replayed.best_ask(), engine.best_ask());
    assert_eq!(replayed.bid_quantity().0, engine.bid_quantity().0);
    assert_eq!(replayed.ask_quantity().0, engine.ask_quantity().0);
    for id in 1..=8 {
        let a = engine.get_order(OrderId(id)).map(|o| (o.side, o.price, o.remaining));
        let b = replayed.get_order(OrderId(id)).map(|o| (o.side, o.price, o.remaining));
        assert_eq!(a, b);
    }
    assert_eq!(replayed.journal().len(), engine.journal().len());
    // The cancelled order is gone, its level with it; no bid is left.
    assert!(engine.get_order(OrderId(1)).is_none());
    assert_eq!(engine.best_bid(), None);
    assert_eq!(engine.spread(), None);
    assert_eq!(engine.best_ask(), Some(Price(99)));
    assert_eq!(engine.ask_quantity().0, 17);
}
