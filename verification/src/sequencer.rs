//! The sequencer: the single point that orders incoming events.
//!
//! Every event gets the next sequence number, starting at 1 and increasing by
//! one, and a timestamp read from the monotonic clock.

use crate::clock::{duration_as_secs, duration_subsec_nanos, instant_elapsed, instant_now};
use crate::order::OrderEvent;
use std::time::Instant;
use vstd::prelude::*;

verus! {

/// Assigns sequence numbers and timestamps to events.
#[derive(Debug)]
pub struct Sequencer {
    /// Next sequence number to assign
    next_sequence: u64,
    /// Creation time, from which timestamps are measured
    start_time: Instant,
}

/// An event with the sequence number and timestamp it was given.
#[derive(Debug, Clone, Copy)]
pub struct SequencedEvent {
    /// Global sequence number
    pub sequence: u64,
    /// Time since the sequencer was created (nanoseconds)
    pub timestamp_ns: u64,
    /// The event itself
    pub event: OrderEvent,
}

/// The timestamp, in nanoseconds, of a duration of `secs` whole seconds and
/// `nanos` further nanoseconds, capped at `u64::MAX`.
pub open spec fn timestamp_of(secs: u64, nanos: u32) -> u64 {
    if secs * 1_000_000_000 + nanos <= u64::MAX {
        (secs * 1_000_000_000 + nanos) as u64
    } else {
        u64::MAX
    }
}

/// The timestamp, in nanoseconds, of a duration of `secs` whole seconds and
/// `nanos` further nanoseconds, capped at `u64::MAX`.
pub fn timestamp_ns_of(secs: u64, nanos: u32) -> (r: u64)
    ensures
        r == timestamp_of(secs, nanos),
{
    match secs.checked_mul(1_000_000_000) {
        Some(whole) => whole.saturating_add(nanos as u64),
        None => u64::MAX,
    }
}

impl View for Sequencer {
    /// The next sequence number.
    type V = u64;

    closed spec fn view(&self) -> u64 {
        self.next_sequence
    }
}

impl Sequencer {
    #[verifier::type_invariant]
    spec fn inv(self) -> bool {
        self.next_sequence >= 1
    }

    /// The instant the sequencer was created, from which timestamps are measured.
    pub closed spec fn start_instant(&self) -> Instant {
        self.start_time
    }

    /// Create a sequencer whose first sequence number is 1.
    pub fn new() -> (r: Self)
        ensures
            r@ == 1,
    {
        Sequencer { next_sequence: 1, start_time: instant_now() }
    }

    /// Give `event` the next sequence number and the time elapsed since the
    /// sequencer was created: its whole seconds times 10^9 plus its
    /// sub-second nanoseconds (capped at `u64::MAX`). Which duration the clock
    /// gives is not stated.
    pub fn sequence(&mut self, event: OrderEvent) -> (r: SequencedEvent)
        requires
            old(self)@ < u64::MAX,
        ensures
            r.sequence == old(self)@,
            r.event == event,
            exists|secs: u64, nanos: u32|
                nanos < 1_000_000_000 && r.timestamp_ns == #[trigger] timestamp_of(secs, nanos),
            final(self)@ == old(self)@ + 1,
            final(self).start_instant() == old(self).start_instant(),
    {
        let sequence = self.next_sequence;
        self.next_sequence = self.next_sequence + 1;
        let elapsed = instant_elapsed(&self.start_time);
        let secs = duration_as_secs(&elapsed);
        let nanos = duration_subsec_nanos(&elapsed);
        let timestamp_ns = timestamp_ns_of(secs, nanos);
        SequencedEvent { sequence, timestamp_ns, event }
    }

    /// The next sequence number, without consuming it.
    pub fn peek_sequence(&self) -> (r: u64)
        ensures
            r == self@,
    {
        self.next_sequence
    }

    /// How many events have been sequenced.
    pub fn total_sequenced(&self) -> (r: u64)
        ensures
            r == self@ - 1,
    {
        proof {
            use_type_invariant(self);
        }
        self.next_sequence - 1
    }
}

impl Default for Sequencer {
    fn default() -> (r: Self)
        ensures
            r@ == 1,
    {
        Self::new()
    }
}

} // verus!
