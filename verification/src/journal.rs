//! Append-only journal of sequenced events and fills.
//!
//! Every sequenced event and every fill of a limit or market order is
//! recorded in order, so that the book can be rebuilt by replaying the events.

use crate::order::Fill;
use crate::sequencer::SequencedEvent;
use vstd::prelude::*;

verus! {

/// A journal entry: a sequenced event or a fill.
#[derive(Debug, Clone, Copy)]
pub enum JournalEntry {
    /// Sequenced order event
    OrderEvent(SequencedEvent),
    /// Fill event
    Fill(Fill),
}

/// The sequenced events among `entries`, in order.
pub open spec fn events_of(entries: Seq<JournalEntry>) -> Seq<SequencedEvent>
    decreases entries.len(),
{
    if entries.len() == 0 {
        Seq::empty()
    } else {
        match entries.last() {
            JournalEntry::OrderEvent(e) => events_of(entries.drop_last()).push(e),
            JournalEntry::Fill(_) => events_of(entries.drop_last()),
        }
    }
}

/// The fills among `entries`, in order.
pub open spec fn fills_of(entries: Seq<JournalEntry>) -> Seq<Fill>
    decreases entries.len(),
{
    if entries.len() == 0 {
        Seq::empty()
    } else {
        match entries.last() {
            JournalEntry::OrderEvent(_) => fills_of(entries.drop_last()),
            JournalEntry::Fill(f) => fills_of(entries.drop_last()).push(f),
        }
    }
}

/// The journal entries recording `fills`.
pub open spec fn fill_entries(fills: Seq<Fill>) -> Seq<JournalEntry> {
    fills.map_values(|f: Fill| JournalEntry::Fill(f))
}

/// Appending fill entries adds no event and adds exactly those fills.
pub proof fn lemma_append_fill_entries(entries: Seq<JournalEntry>, fills: Seq<Fill>)
    ensures
        events_of(entries + fill_entries(fills)) == events_of(entries),
        fills_of(entries + fill_entries(fills)) == fills_of(entries) + fills,
    decreases fills.len(),
{
    if fills.len() == 0 {
        assert(entries + fill_entries(fills) =~= entries);
        assert(fills_of(entries) + fills =~= fills_of(entries));
    } else {
        let init = fills.drop_last();
        lemma_append_fill_entries(entries, init);
        assert((entries + fill_entries(fills)).drop_last() =~= entries + fill_entries(init));
        assert(fills_of(entries) + fills =~= (fills_of(entries) + init).push(fills.last()));
    }
}

/// Append-only record of everything that passed through the engine.
#[derive(Debug)]
pub struct EventJournal {
    /// All journal entries in order
    entries: Vec<JournalEntry>,
}

impl View for EventJournal {
    type V = Seq<JournalEntry>;

    closed spec fn view(&self) -> Seq<JournalEntry> {
        self.entries@
    }
}

impl EventJournal {
    /// Create a new empty journal.
    pub fn new() -> (r: Self)
        ensures
            r@ == Seq::<JournalEntry>::empty(),
    {
        EventJournal { entries: Vec::new() }
    }

    /// Create an empty journal with room for `capacity` entries.
    pub fn with_capacity(capacity: usize) -> (r: Self)
        ensures
            r@ == Seq::<JournalEntry>::empty(),
    {
        EventJournal { entries: Vec::with_capacity(capacity) }
    }

    /// Append a sequenced event.
    pub fn append_event(&mut self, event: SequencedEvent)
        ensures
            final(self)@ == old(self)@.push(JournalEntry::OrderEvent(event)),
    {
        self.entries.push(JournalEntry::OrderEvent(event));
    }

    /// Append a fill.
    pub fn append_fill(&mut self, fill: Fill)
        ensures
            final(self)@ == old(self)@.push(JournalEntry::Fill(fill)),
    {
        self.entries.push(JournalEntry::Fill(fill));
    }

    /// All entries, in the order they were appended.
    pub fn entries(&self) -> (r: &[JournalEntry])
        ensures
            r@ == self@,
    {
        self.entries.as_slice()
    }

    /// Number of entries.
    pub fn len(&self) -> (r: usize)
        ensures
            r == self@.len(),
    {
        self.entries.len()
    }

    /// Whether the journal holds no entry.
    pub fn is_empty(&self) -> (r: bool)
        ensures
            r == (self@.len() == 0),
    {
        self.entries.len() == 0
    }

    /// Number of sequenced events recorded.
    pub fn order_event_count(&self) -> (r: usize)
        ensures
            r == events_of(self@).len(),
    {
        let n = self.entries.len();
        let mut count: usize = 0;
        let mut i: usize = 0;
        while i < n
            invariant
                n == self@.len(),
                i <= n,
                count == events_of(self@.take(i as int)).len(),
                count <= i,
            decreases n - i,
        {
            proof {
                assert(self@.take(i + 1).drop_last() =~= self@.take(i as int));
            }
            match self.entries[i] {
                JournalEntry::OrderEvent(_) => {
                    count += 1;
                },
                JournalEntry::Fill(_) => {},
            }
            i += 1;
        }
        proof {
            assert(self@.take(n as int) =~= self@);
        }
        count
    }

    /// Number of fills recorded.
    pub fn fill_count(&self) -> (r: usize)
        ensures
            r == fills_of(self@).len(),
    {
        let n = self.entries.len();
        let mut count: usize = 0;
        let mut i: usize = 0;
        while i < n
            invariant
                n == self@.len(),
                i <= n,
                count == fills_of(self@.take(i as int)).len(),
                count <= i,
            decreases n - i,
        {
            proof {
                assert(self@.take(i + 1).drop_last() =~= self@.take(i as int));
            }
            match self.entries[i] {
                JournalEntry::OrderEvent(_) => {},
                JournalEntry::Fill(_) => {
                    count += 1;
                },
            }
            i += 1;
        }
        proof {
            assert(self@.take(n as int) =~= self@);
        }
        count
    }

    /// Remove every entry.
    pub fn clear(&mut self)
        ensures
            final(self)@ == Seq::<JournalEntry>::empty(),
    {
        self.entries.clear();
    }
}

impl Default for EventJournal {
    fn default() -> (r: Self)
        ensures
            r@ == Seq::<JournalEntry>::empty(),
    {
        Self::new()
    }
}

} // verus!
