//! The matching engine: sequences events, applies them to the book, journals
//! them and keeps metrics.
//!
//! The book is always what replaying the journal's events through an empty
//! book gives.

use crate::book::OrderBook;
use crate::clock::{duration_as_nanos, instant_elapsed, instant_now};
use crate::journal::{events_of, fill_entries, lemma_append_fill_entries, EventJournal, JournalEntry};
use crate::matching::{
    add_limit, best_ask, best_bid, cancel, find_order, modify, side_total, spread, BookView,
};
use crate::metrics::{recorded, sat_add, Metrics, MetricsView};
use crate::laws::{book_count, law_event_count, law_replay_count, law_replay_keeps_inv};
use crate::order::{new_order, Fill, Order, OrderEvent, OrderId, Price, Quantity, Side};
use crate::sequencer::{timestamp_of, SequencedEvent, Sequencer};
use vstd::prelude::*;

verus! {

/// Errors of the matching engine.
#[derive(Debug)]
pub enum EngineError {
    /// The order to cancel or modify is not in the book
    OrderNotFound(OrderId),
    /// The order is invalid
    InvalidOrder(String),
}

/// Result type for engine operations.
pub type Result<T> = std::result::Result<T, EngineError>;

/// What processing an event produced.
#[derive(Debug, Clone)]
pub struct OrderResponse {
    /// Sequence number assigned by the sequencer
    pub sequence: u64,
    /// Fills that were generated
    pub fills: Vec<Fill>,
    /// Remaining order if not fully filled
    pub remaining: Option<Order>,
}

/// The book with no level on either side.
pub open spec fn empty_book() -> BookView {
    BookView { bids: Map::empty(), asks: Map::empty() }
}

/// The price at which a market order enters the book: one that crosses every
/// level of the opposite side.
pub open spec fn market_price(side: Side) -> Price {
    match side {
        Side::Bid => Price(u64::MAX),
        Side::Ask => Price(0),
    }
}

/// The order that a limit or market event enters, if it is one.
pub open spec fn entered_order(se: SequencedEvent) -> Option<Order> {
    match se.event {
        OrderEvent::Limit { side, price, quantity } => Some(
            new_order(OrderId(se.sequence), side, price, quantity, se.sequence, se.timestamp_ns),
        ),
        OrderEvent::Market { side, quantity } => Some(
            new_order(
                OrderId(se.sequence),
                side,
                market_price(side),
                quantity,
                se.sequence,
                se.timestamp_ns,
            ),
        ),
        _ => None,
    }
}

/// Applying a sequenced event to a book: the book afterwards, the resting
/// remainder and the fills reported, and whether the event succeeded. A
/// cancel or a modify of an order that is not in the book fails and leaves
/// the book unchanged; a successful one reports no fill and no remainder. A
/// market order is all or nothing: when the opposite side holds at least its
/// quantity it is matched against every level in turn, otherwise it neither
/// trades nor rests.
pub open spec fn apply_event(book: BookView, se: SequencedEvent) -> (
    BookView,
    Option<Order>,
    Seq<Fill>,
    bool,
) {
    match se.event {
        OrderEvent::Cancel { order_id } => {
            let c = cancel(book, order_id);
            if c.1 is Some {
                (c.0, None, Seq::empty(), true)
            } else {
                (book, None, Seq::empty(), false)
            }
        },
        OrderEvent::Modify { order_id, new_price, new_quantity } => {
            let m = modify(book, order_id, new_price, new_quantity);
            (m.0, None, Seq::empty(), m.1)
        },
        OrderEvent::Market { side, quantity } => {
            if side_total(opposite_side(book, side)) >= quantity.0 {
                let a = add_limit(book, entered_order(se)->0);
                (a.0, a.1, a.2, true)
            } else {
                (book, None, Seq::empty(), true)
            }
        },
        OrderEvent::Limit { .. } => {
            let a = add_limit(book, entered_order(se)->0);
            (a.0, a.1, a.2, true)
        },
    }
}

/// The levels that an order of `side` matches against.
pub open spec fn opposite_side(book: BookView, side: Side) -> Map<u64, Seq<Order>> {
    match side {
        Side::Bid => book.asks,
        Side::Ask => book.bids,
    }
}

/// The book obtained by applying `events` in order to `book`.
pub open spec fn replay(book: BookView, events: Seq<SequencedEvent>) -> BookView
    decreases events.len(),
{
    if events.len() == 0 {
        book
    } else {
        apply_event(replay(book, events.drop_last()), events.last()).0
    }
}

/// The identifier that a cancel or modify event names.
pub open spec fn target_id(event: OrderEvent) -> OrderId {
    match event {
        OrderEvent::Cancel { order_id } => order_id,
        OrderEvent::Modify { order_id, .. } => order_id,
        _ => OrderId(0),
    }
}

/// The event recorded at position `i` of a journal (meaningful when it is one).
pub open spec fn event_at(entries: Seq<JournalEntry>, i: int) -> SequencedEvent {
    match entries[i] {
        JournalEntry::OrderEvent(e) => e,
        JournalEntry::Fill(_) => arbitrary(),
    }
}

/// The engine: order book, sequencer, journal and metrics.
pub struct MatchingEngine {
    /// The order book
    book: OrderBook,
    /// Sequencer for assigning ordering and timestamps
    sequencer: Sequencer,
    /// Event journal for audit and replay
    journal: EventJournal,
    /// Performance metrics
    metrics: Metrics,
}

impl MatchingEngine {
    /// The contents of the engine's book.
    pub closed spec fn book_view(&self) -> BookView {
        self.book@
    }

    /// The next sequence number the engine will assign.
    pub closed spec fn next_sequence(&self) -> u64 {
        self.sequencer@
    }

    /// The entries of the engine's journal.
    pub closed spec fn journal_view(&self) -> Seq<JournalEntry> {
        self.journal@
    }

    /// The engine's metrics.
    pub closed spec fn metrics_view(&self) -> MetricsView {
        self.metrics@
    }

    /// The engine's journal.
    pub closed spec fn journal_of(&self) -> EventJournal {
        self.journal
    }

    /// The engine's sequencer.
    pub closed spec fn sequencer_of(&self) -> Sequencer {
        self.sequencer
    }

    /// The engine's metrics collector.
    pub closed spec fn metrics_of(&self) -> Metrics {
        self.metrics
    }

    /// The engine's state is consistent: the book is the replay of the
    /// journal's events, which are numbered 1, 2, ... in order, and the next
    /// sequence number follows the last of them.
    pub open spec fn wf(&self) -> bool {
        let events = events_of(self.journal_view());
        &&& self.book_view() == replay(empty_book(), events)
        &&& self.next_sequence() == events.len() + 1
        &&& forall|i: int| 0 <= i < events.len() ==> (#[trigger] events[i]).sequence == i + 1
    }

    /// Create a new matching engine.
    pub fn new() -> (r: Self)
        ensures
            r.wf(),
            r.book_view() == empty_book(),
            r.next_sequence() == 1,
            r.journal_view() == Seq::<JournalEntry>::empty(),
            r.metrics_view() == crate::metrics::initial_metrics(),
    {
        let r = MatchingEngine {
            book: OrderBook::new(),
            sequencer: Sequencer::new(),
            journal: EventJournal::new(),
            metrics: Metrics::new(),
        };
        proof {
            assert(events_of(r.journal@) =~= Seq::<SequencedEvent>::empty());
            assert(r.book@ =~= empty_book());
        }
        r
    }

    /// Create a new matching engine whose journal has room for `journal_capacity` entries.
    pub fn with_capacity(journal_capacity: usize) -> (r: Self)
        ensures
            r.wf(),
            r.book_view() == empty_book(),
            r.next_sequence() == 1,
            r.journal_view() == Seq::<JournalEntry>::empty(),
            r.metrics_view() == crate::metrics::initial_metrics(),
    {
        let r = MatchingEngine {
            book: OrderBook::new(),
            sequencer: Sequencer::new(),
            journal: EventJournal::with_capacity(journal_capacity),
            metrics: Metrics::new(),
        };
        proof {
            assert(events_of(r.journal@) =~= Seq::<SequencedEvent>::empty());
            assert(r.book@ =~= empty_book());
        }
        r
    }

    /// Append every fill of `fills` to the journal, in order.
    fn journal_fills(journal: &mut EventJournal, fills: &Vec<Fill>)
        ensures
            final(journal)@ == old(journal)@ + fill_entries(fills@),
    {
        let n = fills.len();
        let mut i: usize = 0;
        while i < n
            invariant
                n == fills@.len(),
                i <= n,
                journal@ == old(journal)@ + fill_entries(fills@.take(i as int)),
            decreases n - i,
        {
            journal.append_fill(fills[i]);
            proof {
                assert(fill_entries(fills@.take(i + 1)) =~= fill_entries(fills@.take(i as int)).push(
                    JournalEntry::Fill(fills@[i as int]),
                ));
                assert(journal@ =~= old(journal)@ + fill_entries(fills@.take(i + 1)));
            }
            i += 1;
        }
        proof {
            assert(fills@.take(n as int) =~= fills@);
        }
    }

    /// Process an incoming event: sequence it, journal it, apply it to the
    /// book (journaling the fills of a limit or market order) and update the
    /// metrics. A market order that the opposite side cannot fill completely
    /// neither trades nor rests. A cancel or modify of an order that is not in
    /// the book fails with `OrderNotFound`; the event stays journaled and the
    /// metrics are left as they were.
    pub fn process_event(&mut self, event: OrderEvent) -> (r: Result<OrderResponse>)
        requires
            old(self).wf(),
            old(self).next_sequence() < u64::MAX,
        ensures
            final(self).wf(),
            final(self).next_sequence() == old(self).next_sequence() + 1,
            final(self).sequencer_of().start_instant() == old(self).sequencer_of().start_instant(),
            ({
                let n = old(self).journal_view().len();
                let se = event_at(final(self).journal_view(), n as int);
                let a = apply_event(old(self).book_view(), se);
                &&& se.sequence == old(self).next_sequence()
                &&& se.event == event
                &&& exists|secs: u64, nanos: u32|
                    nanos < 1_000_000_000 && se.timestamp_ns == #[trigger] timestamp_of(secs, nanos)
                &&& final(self).book_view() == a.0
                &&& final(self).journal_view() == old(self).journal_view().push(
                    JournalEntry::OrderEvent(se),
                ) + fill_entries(a.2)
                &&& match r {
                    Ok(resp) => {
                        &&& a.3
                        &&& resp.sequence == se.sequence
                        &&& resp.fills@ == a.2
                        &&& resp.remaining == a.1
                        &&& exists|latency_ns: u64|
                            final(self).metrics_view() == (MetricsView {
                                order_latency: #[trigger] recorded(
                                    old(self).metrics_view().order_latency,
                                    latency_ns,
                                ),
                                total_orders: sat_add(old(self).metrics_view().total_orders, 1),
                                total_fills: sat_add(
                                    old(self).metrics_view().total_fills,
                                    a.2.len() as u64,
                                ),
                                orders_in_book: book_count(a.0) as u64,
                                active_bids: a.0.bids.dom().len() as u64,
                                active_asks: a.0.asks.dom().len() as u64,
                                ..old(self).metrics_view()
                            })
                    },
                    Err(e) => {
                        &&& !a.3
                        &&& e == EngineError::OrderNotFound(target_id(event))
                        &&& final(self).metrics_view() == old(self).metrics_view()
                    },
                }
            }),
    {
        let t0 = instant_now();
        let ghost j0 = self.journal@;
        let ghost b0 = self.book@;
        let sequenced = self.sequencer.sequence(event);
        let sequence = sequenced.sequence;
        let timestamp_ns = sequenced.timestamp_ns;
        self.journal.append_event(sequenced);
        let ghost a = apply_event(b0, sequenced);
        proof {
            law_replay_keeps_inv(events_of(j0));
            law_replay_count(events_of(j0));
            law_event_count(b0, sequenced);
            assert(book_count(a.0) <= u64::MAX);
            assert(event_at(self.journal@, j0.len() as int) == sequenced);
        }
        let (remaining, fills) = match event {
            OrderEvent::Limit { side, price, quantity } => {
                let order = Order::new(OrderId(sequence), side, price, quantity, sequence, timestamp_ns);
                let (remaining, fills) = self.book.add_limit_order(order);
                Self::journal_fills(&mut self.journal, &fills);
                (remaining, fills)
            },
            OrderEvent::Market { side, quantity } => {
                if self.book.covers(side.opposite(), quantity.0) {
                    let extreme_price = match side {
                        Side::Bid => Price(u64::MAX),
                        Side::Ask => Price(0),
                    };
                    let order = Order::new(
                        OrderId(sequence),
                        side,
                        extreme_price,
                        quantity,
                        sequence,
                        timestamp_ns,
                    );
                    let (remaining, fills) = self.book.add_limit_order(order);
                    Self::journal_fills(&mut self.journal, &fills);
                    (remaining, fills)
                } else {
                    let fills: Vec<Fill> = Vec::new();
                    proof {
                        assert(self.journal@ =~= self.journal@ + fill_entries(fills@));
                    }
                    (None, fills)
                }
            },
            OrderEvent::Cancel { order_id } => {
                if let Some(_cancelled) = self.book.cancel_order(order_id) {
                    let fills: Vec<Fill> = Vec::new();
                    proof {
                        assert(self.journal@ =~= self.journal@ + fill_entries(fills@));
                    }
                    (None, fills)
                } else {
                    proof {
                        assert(self.book@ =~= b0);
                        self.lemma_wf_after(j0, b0, sequenced);
                    }
                    return Err(EngineError::OrderNotFound(order_id));
                }
            },
            OrderEvent::Modify { order_id, new_price, new_quantity } => {
                if self.book.modify_order(order_id, new_price, new_quantity) {
                    let fills: Vec<Fill> = Vec::new();
                    proof {
                        assert(self.journal@ =~= self.journal@ + fill_entries(fills@));
                    }
                    (None, fills)
                } else {
                    proof {
                        assert(self.journal@ =~= self.journal@ + fill_entries(Seq::<Fill>::empty()));
                        self.lemma_wf_after(j0, b0, sequenced);
                    }
                    return Err(EngineError::OrderNotFound(order_id));
                }
            },
        };
        proof {
            assert(self.book@ == a.0);
            assert(fills@ == a.2);
            assert(remaining == a.1);
            assert(a.3);
            assert(event_at(self.journal@, j0.len() as int) == sequenced);
            self.lemma_wf_after(j0, b0, sequenced);
        }
        let elapsed = instant_elapsed(&t0);
        let latency_ns = duration_as_nanos(&elapsed) as u64;
        self.metrics.inc_order_count();
        self.metrics.record_order_latency(latency_ns);
        self.metrics.add_fill_count(fills.len());
        let in_book = self.book.order_count();
        self.metrics.set_orders_in_book(in_book);
        self.metrics.set_active_bids(self.book.bid_levels() as u64);
        self.metrics.set_active_asks(self.book.ask_levels() as u64);
        proof {
            let m = self.metrics_view();
            assert(m == (MetricsView {
                order_latency: recorded(old(self).metrics_view().order_latency, latency_ns),
                total_orders: sat_add(old(self).metrics_view().total_orders, 1),
                total_fills: sat_add(old(self).metrics_view().total_fills, a.2.len() as u64),
                orders_in_book: book_count(a.0) as u64,
                active_bids: a.0.bids.dom().len() as u64,
                active_asks: a.0.asks.dom().len() as u64,
                ..old(self).metrics_view()
            }));
        }
        Ok(OrderResponse { sequence, fills, remaining })
    }

    /// After one event has been sequenced, journaled (with its fills) and
    /// applied, the engine is consistent again.
    proof fn lemma_wf_after(&self, j0: Seq<JournalEntry>, b0: BookView, se: SequencedEvent)
        requires
            events_of(j0).len() + 1 == se.sequence,
            b0 == replay(empty_book(), events_of(j0)),
            forall|i: int| 0 <= i < events_of(j0).len() ==> (#[trigger] events_of(j0)[i]).sequence == i + 1,
            self.next_sequence() == se.sequence + 1,
            self.book_view() == apply_event(b0, se).0,
            self.journal_view() == j0.push(JournalEntry::OrderEvent(se)) + fill_entries(apply_event(b0, se).2),
        ensures
            self.wf(),
    {
        let j1 = j0.push(JournalEntry::OrderEvent(se));
        lemma_append_fill_entries(j1, apply_event(b0, se).2);
        assert(j1.drop_last() =~= j0);
        let ev = events_of(j1);
        assert(ev == events_of(j0).push(se));
        assert(ev.drop_last() =~= events_of(j0));
    }

    /// The best bid price.
    pub fn best_bid(&self) -> (r: Option<Price>)
        ensures
            r == best_bid(self.book_view()),
    {
        self.book.best_bid()
    }

    /// The best ask price.
    pub fn best_ask(&self) -> (r: Option<Price>)
        ensures
            r == best_ask(self.book_view()),
    {
        self.book.best_ask()
    }

    /// The current spread.
    pub fn spread(&self) -> (r: Option<i64>)
        ensures
            r == spread(self.book_view()),
    {
        self.book.spread()
    }

    /// An order of the book, by ID.
    pub fn get_order(&self, order_id: OrderId) -> (r: Option<Order>)
        ensures
            r == find_order(self.book_view(), order_id),
    {
        self.book.get_order(order_id)
    }

    /// The metrics.
    pub fn metrics(&self) -> (r: &Metrics)
        ensures
            *r == self.metrics_of(),
            r@ == self.metrics_view(),
    {
        &self.metrics
    }

    /// Mutable access to the metrics; nothing else of the engine changes.
    pub fn metrics_mut(&mut self) -> (r: &mut Metrics)
        ensures
            *r == old(self).metrics_of(),
            r@ == old(self).metrics_view(),
            final(self).metrics_of() == *final(r),
            final(self).metrics_view() == final(r)@,
            final(self).book_view() == old(self).book_view(),
            final(self).next_sequence() == old(self).next_sequence(),
            final(self).journal_view() == old(self).journal_view(),
    {
        &mut self.metrics
    }

    /// The journal.
    pub fn journal(&self) -> (r: &EventJournal)
        ensures
            *r == self.journal_of(),
            r@ == self.journal_view(),
    {
        &self.journal
    }

    /// The sequencer.
    pub fn sequencer(&self) -> (r: &Sequencer)
        ensures
            *r == self.sequencer_of(),
            r@ == self.next_sequence(),
    {
        &self.sequencer
    }

    /// Number of orders resting in the book, both sides.
    pub fn total_orders_in_book(&self) -> (r: u64)
        requires
            self.wf(),
        ensures
            r == book_count(self.book_view()),
    {
        proof {
            law_replay_count(events_of(self.journal@));
        }
        self.book.order_count()
    }

    /// Total quantity resting on the bid side.
    pub fn bid_quantity(&self) -> (r: Quantity)
        requires
            side_total(self.book_view().bids) <= u64::MAX,
        ensures
            r.0 == side_total(self.book_view().bids),
    {
        self.book.total_bid_quantity()
    }

    /// Total quantity resting on the ask side.
    pub fn ask_quantity(&self) -> (r: Quantity)
        requires
            side_total(self.book_view().asks) <= u64::MAX,
        ensures
            r.0 == side_total(self.book_view().asks),
    {
        self.book.total_ask_quantity()
    }
}

impl Default for MatchingEngine {
    fn default() -> (r: Self)
        ensures
            r.wf(),
            r.book_view() == empty_book(),
            r.next_sequence() == 1,
            r.journal_view() == Seq::<JournalEntry>::empty(),
            r.metrics_view() == crate::metrics::initial_metrics(),
    {
        Self::new()
    }
}

} // verus!
