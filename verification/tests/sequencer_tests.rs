use lockfree_orderbook::sequencer::timestamp_ns_of;
use lockfree_orderbook::{OrderEvent, Price, Quantity, Sequencer, Side};

#[test]
fn test_monotonic_sequence() {
    let mut sequencer = Sequencer::new();

    let event1 = sequencer.sequence(OrderEvent::Limit {
        side: Side::Bid,
        price: Price(10000000000),
        quantity: Quantity(100),
    });

    let event2 = sequencer.sequence(OrderEvent::Limit {
        side: Side::Ask,
        price: Price(10000000000),
        quantity: Quantity(100),
    });

    assert_eq!(event1.sequence, 1);
    assert_eq!(event2.sequence, 2);
    assert!(event2.timestamp_ns >= event1.timestamp_ns);
}

#[test]
fn test_sequencer_total() {
    let mut sequencer = Sequencer::new();

    for _ in 0..10 {
        sequencer.sequence(OrderEvent::Limit {
            side: Side::Bid,
            price: Price(10000000000),
            quantity: Quantity(100),
        });
    }

    assert_eq!(sequencer.total_sequenced(), 10);
    assert_eq!(sequencer.peek_sequence(), 11);
}

#[test]
fn sequencer_starts_at_one() {
    let sequencer = Sequencer::default();
    assert_eq!(sequencer.peek_sequence(), 1);
    assert_eq!(sequencer.total_sequenced(), 0);
}

#[test]
fn timestamp_is_seconds_then_nanoseconds() {
    assert_eq!(timestamp_ns_of(0, 0), 0);
    assert_eq!(timestamp_ns_of(2, 5), 2_000_000_005);
    assert_eq!(timestamp_ns_of(1, 999_999_999), 1_999_999_999);
    assert_eq!(timestamp_ns_of(18_446_744_073, 709_551_615), u64::MAX);
    assert_eq!(timestamp_ns_of(18_446_744_073, 709_551_616), u64::MAX);
    assert_eq!(timestamp_ns_of(u64::MAX, 0), u64::MAX);
}

#[test]
fn timestamps_do_not_decrease() {
    let mut sequencer = Sequencer::new();
    let event = OrderEvent::Market { side: Side::Bid, quantity: Quantity(1) };
    let a = sequencer.sequence(event);
    let b = sequencer.sequence(event);
    assert!(a.timestamp_ns <= b.timestamp_ns);
}
