use lockfree_orderbook::{MatchingEngine, OrderEvent, OrderId, Price, Quantity, Side};

/// A price given in decimal units, in the engine's fixed-point form (x 10^8).
fn price(value: f64) -> Price {
    Price((value * 1e8) as u64)
}

/// A fixed-point price in decimal units.
fn decimal(p: Price) -> f64 {
    p.0 as f64 / 1e8
}

#[test]
fn test_basic_limit_match() {
    let mut engine = MatchingEngine::new();

    let bid = engine
        .process_event(OrderEvent::Limit { side: Side::Bid, price: price(100.0), quantity: Quantity(100) })
        .unwrap();

    assert_eq!(bid.sequence, 1);
    assert_eq!(bid.fills.len(), 0);
    assert!(bid.remaining.is_some());

    let ask = engine
        .process_event(OrderEvent::Limit { side: Side::Ask, price: price(100.0), quantity: Quantity(100) })
        .unwrap();

    assert_eq!(ask.sequence, 2);
    assert_eq!(ask.fills.len(), 1);
    assert!(ask.remaining.is_none());

    let fill = &ask.fills[0];
    assert_eq!(fill.quantity.0, 100);
}

#[test]
fn test_matching_test_partial_fill() {
    let mut engine = MatchingEngine::new();

    engine
        .process_event(OrderEvent::Limit { side: Side::Bid, price: price(100.0), quantity: Quantity(100) })
        .unwrap();

    let ask = engine
        .process_event(OrderEvent::Limit { side: Side::Ask, price: price(100.0), quantity: Quantity(60) })
        .unwrap();

    assert_eq!(ask.fills.len(), 1);
    assert_eq!(ask.fills[0].quantity.0, 60);
    assert!(ask.remaining.is_none());

    let remaining_bid = engine.get_order(OrderId(1)).unwrap();
    assert_eq!(remaining_bid.remaining.0, 40);
}

#[test]
fn test_matching_test_price_time_priority() {
    let mut engine = MatchingEngine::new();

    engine
        .process_event(OrderEvent::Limit { side: Side::Bid, price: price(100.0), quantity: Quantity(100) })
        .unwrap();

    engine
        .process_event(OrderEvent::Limit { side: Side::Bid, price: price(100.0), quantity: Quantity(100) })
        .unwrap();

    let ask = engine
        .process_event(OrderEvent::Limit { side: Side::Ask, price: price(100.0), quantity: Quantity(150) })
        .unwrap();

    assert_eq!(ask.fills.len(), 2);
    assert_eq!(ask.fills[0].maker_id, OrderId(1));
    assert_eq!(ask.fills[0].quantity.0, 100);
    assert_eq!(ask.fills[1].maker_id, OrderId(2));
    assert_eq!(ask.fills[1].quantity.0, 50);
}

#[test]
fn test_matching_test_cancel_order() {
    let mut engine = MatchingEngine::new();

    let bid = engine
        .process_event(OrderEvent::Limit { side: Side::Bid, price: price(100.0), quantity: Quantity(100) })
        .unwrap();

    let order_id = OrderId(bid.sequence);

    let cancel = engine.process_event(OrderEvent::Cancel { order_id }).unwrap();
    assert_eq!(cancel.fills.len(), 0);

    assert!(engine.get_order(order_id).is_none());

    let cancel_again = engine.process_event(OrderEvent::Cancel { order_id });
    assert!(cancel_again.is_err());
}

#[test]
fn test_matching_test_modify_order() {
    let mut engine = MatchingEngine::new();

    let bid = engine
        .process_event(OrderEvent::Limit { side: Side::Bid, price: price(100.0), quantity: Quantity(100) })
        .unwrap();

    let order_id = OrderId(bid.sequence);

    let modify = engine
        .process_event(OrderEvent::Modify {
            order_id,
            new_price: Some(price(105.0)),
            new_quantity: Some(Quantity(150)),
        })
        .unwrap();

    assert!(modify.fills.is_empty());

    let modified = engine.get_order(order_id).unwrap();
    assert_eq!(decimal(modified.price), 105.0);
    assert_eq!(modified.quantity.0, 150);
}

#[test]
fn test_matching_test_empty_book() {
    let engine = MatchingEngine::new();

    assert_eq!(engine.best_bid(), None);
    assert_eq!(engine.best_ask(), None);
    assert_eq!(engine.spread(), None);
}

#[test]
fn test_matching_test_market_order() {
    let mut engine = MatchingEngine::new();

    engine
        .process_event(OrderEvent::Limit { side: Side::Bid, price: price(99.0), quantity: Quantity(100) })
        .unwrap();

    engine
        .process_event(OrderEvent::Limit { side: Side::Bid, price: price(100.0), quantity: Quantity(100) })
        .unwrap();

    let market = engine
        .process_event(OrderEvent::Market { side: Side::Ask, quantity: Quantity(150) })
        .unwrap();

    assert_eq!(market.fills.len(), 2);
    assert_eq!(decimal(market.fills[0].price), 100.0);
}

#[test]
fn test_spread_calculation() {
    let mut engine = MatchingEngine::new();

    engine
        .process_event(OrderEvent::Limit { side: Side::Bid, price: price(99.0), quantity: Quantity(100) })
        .unwrap();

    engine
        .process_event(OrderEvent::Limit { side: Side::Ask, price: price(101.0), quantity: Quantity(100) })
        .unwrap();

    let spread = engine.spread().unwrap();
    assert_eq!(spread, 200000000);
}

#[test]
fn test_multiple_price_levels() {
    let mut engine = MatchingEngine::new();

    for i in 1..=5 {
        engine
            .process_event(OrderEvent::Limit {
                side: Side::Bid,
                price: price(100.0 - i as f64),
                quantity: Quantity(100),
            })
            .unwrap();
    }

    for i in 1..=5 {
        engine
            .process_event(OrderEvent::Limit {
                side: Side::Ask,
                price: price(100.0 + i as f64),
                quantity: Quantity(100),
            })
            .unwrap();
    }

    assert_eq!(decimal(engine.best_bid().unwrap()), 99.0);
    assert_eq!(decimal(engine.best_ask().unwrap()), 101.0);
}

#[test]
fn test_sequential_ordering() {
    let mut engine = MatchingEngine::new();

    for i in 0..10 {
        let response = engine
            .process_event(OrderEvent::Limit {
                side: if i % 2 == 0 { Side::Bid } else { Side::Ask },
                price: price(100.0),
                quantity: Quantity(100),
            })
            .unwrap();

        assert_eq!(response.sequence, (i + 1) as u64);
    }

    assert_eq!(engine.sequencer().total_sequenced(), 10);
}

#[test]
fn test_journal_recording() {
    let mut engine = MatchingEngine::new();

    engine
        .process_event(OrderEvent::Limit { side: Side::Bid, price: price(100.0), quantity: Quantity(100) })
        .unwrap();

    engine
        .process_event(OrderEvent::Limit { side: Side::Ask, price: price(100.0), quantity: Quantity(100) })
        .unwrap();

    let journal = engine.journal();
    assert_eq!(journal.order_event_count(), 2);
    assert_eq!(journal.fill_count(), 1);
}

#[test]
fn test_no_match_different_prices() {
    let mut engine = MatchingEngine::new();

    engine
        .process_event(OrderEvent::Limit { side: Side::Bid, price: price(99.0), quantity: Quantity(100) })
        .unwrap();

    let ask = engine
        .process_event(OrderEvent::Limit { side: Side::Ask, price: price(101.0), quantity: Quantity(100) })
        .unwrap();

    assert_eq!(ask.fills.len(), 0);
    assert!(ask.remaining.is_some());
}

#[test]
fn test_best_ask_logic() {
    let mut engine = MatchingEngine::new();

    engine
        .process_event(OrderEvent::Limit { side: Side::Ask, price: price(102.0), quantity: Quantity(100) })
        .unwrap();

    engine
        .process_event(OrderEvent::Limit { side: Side::Ask, price: price(101.0), quantity: Quantity(100) })
        .unwrap();

    engine
        .process_event(OrderEvent::Limit { side: Side::Ask, price: price(103.0), quantity: Quantity(100) })
        .unwrap();

    assert_eq!(decimal(engine.best_ask().unwrap()), 101.0);
}

#[test]
fn test_best_bid_logic() {
    let mut engine = MatchingEngine::new();

    engine
        .process_event(OrderEvent::Limit { side: Side::Bid, price: price(99.0), quantity: Quantity(100) })
        .unwrap();

    engine
        .process_event(OrderEvent::Limit { side: Side::Bid, price: price(100.0), quantity: Quantity(100) })
        .unwrap();

    engine
        .process_event(OrderEvent::Limit { side: Side::Bid, price: price(98.0), quantity: Quantity(100) })
        .unwrap();

    assert_eq!(decimal(engine.best_bid().unwrap()), 100.0);
}

#[test]
fn test_matching_test_metrics_tracking() {
    let mut engine = MatchingEngine::new();

    for _ in 0..10 {
        engine
            .process_event(OrderEvent::Limit { side: Side::Bid, price: price(100.0), quantity: Quantity(100) })
            .unwrap();
    }

    let metrics = engine.metrics();
    assert_eq!(metrics.total_orders(), 10);
}
