use lockfree_orderbook::journal::JournalEntry;
use lockfree_orderbook::order::Fill;
use lockfree_orderbook::sequencer::SequencedEvent;
use lockfree_orderbook::{EventJournal, OrderEvent, OrderId, Price, Quantity, Side};

#[test]
fn test_append_and_retrieve() {
    let mut journal = EventJournal::new();

    let event = SequencedEvent {
        sequence: 1,
        timestamp_ns: 0,
        event: OrderEvent::Limit { side: Side::Bid, price: Price(10000000000), quantity: Quantity(100) },
    };

    journal.append_event(event.clone());
    assert_eq!(journal.len(), 1);
    assert_eq!(journal.order_event_count(), 1);

    if let JournalEntry::OrderEvent(stored) = &journal.entries()[0] {
        assert_eq!(stored.sequence, 1);
    } else {
        panic!("Expected OrderEvent");
    }
}

#[test]
fn test_append_fills() {
    let mut journal = EventJournal::new();

    let fill = Fill {
        maker_id: OrderId(1),
        taker_id: OrderId(2),
        price: Price(10000000000),
        quantity: Quantity(50),
    };

    journal.append_fill(fill);
    assert_eq!(journal.fill_count(), 1);
    assert_eq!(journal.len(), 1);
}

#[test]
fn test_journal_capacity() {
    let journal = EventJournal::with_capacity(1000);
    assert_eq!(journal.len(), 0);
}

#[test]
fn journal_counts_and_clear() {
    let mut journal = EventJournal::default();
    assert!(journal.is_empty());
    let fill = Fill { maker_id: OrderId(1), taker_id: OrderId(2), price: Price(5), quantity: Quantity(1) };
    journal.append_fill(fill);
    journal.append_event(SequencedEvent {
        sequence: 2,
        timestamp_ns: 9,
        event: OrderEvent::Cancel { order_id: OrderId(1) },
    });
    journal.append_fill(fill);
    assert_eq!(journal.len(), 3);
    assert_eq!(journal.order_event_count(), 1);
    assert_eq!(journal.fill_count(), 2);
    journal.clear();
    assert!(journal.is_empty());
    assert_eq!(journal.fill_count(), 0);
}
