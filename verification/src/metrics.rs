//! Engine metrics: counters and latency statistics.
//!
//! Latencies are measured with the clock, so sums of them could in principle
//! exceed `u64`; every counter here stops at `u64::MAX` rather than wrap.

use vstd::prelude::*;

verus! {

/// `a + b`, capped at `u64::MAX`.
pub open spec fn sat_add(a: u64, b: u64) -> u64 {
    if a + b > u64::MAX {
        u64::MAX
    } else {
        (a + b) as u64
    }
}

/// Statistics of a series of latency measurements.
#[derive(Debug, Clone, Copy)]
pub struct LatencyStats {
    /// Minimum latency (nanoseconds)
    pub min_ns: u64,
    /// Maximum latency (nanoseconds)
    pub max_ns: u64,
    /// Total accumulated latency (nanoseconds)
    pub total_ns: u64,
    /// Number of measurements
    pub count: u64,
}

/// Statistics before any measurement.
pub open spec fn empty_stats() -> LatencyStats {
    LatencyStats { min_ns: u64::MAX, max_ns: 0, total_ns: 0, count: 0 }
}

/// `s` after one more measurement of `latency_ns`.
pub open spec fn recorded(s: LatencyStats, latency_ns: u64) -> LatencyStats {
    LatencyStats {
        min_ns: if latency_ns < s.min_ns { latency_ns } else { s.min_ns },
        max_ns: if latency_ns > s.max_ns { latency_ns } else { s.max_ns },
        total_ns: sat_add(s.total_ns, latency_ns),
        count: sat_add(s.count, 1),
    }
}

impl LatencyStats {
    /// Create empty stats.
    pub fn new() -> (r: Self)
        ensures
            r == empty_stats(),
    {
        LatencyStats { min_ns: u64::MAX, max_ns: 0, total_ns: 0, count: 0 }
    }

    /// Update the stats with a new measurement.
    pub fn record(&mut self, latency_ns: u64)
        ensures
            *final(self) == recorded(*old(self), latency_ns),
    {
        if latency_ns < self.min_ns {
            self.min_ns = latency_ns;
        }
        if latency_ns > self.max_ns {
            self.max_ns = latency_ns;
        }
        self.total_ns = self.total_ns.saturating_add(latency_ns);
        self.count = self.count.saturating_add(1);
    }
}

/// The values a `Metrics` holds.
pub struct MetricsView {
    pub order_latency: LatencyStats,
    pub match_latency: LatencyStats,
    pub total_orders: u64,
    pub total_fills: u64,
    pub orders_in_book: u64,
    pub active_bids: u64,
    pub active_asks: u64,
}

/// Metrics as they are when created or reset.
pub open spec fn initial_metrics() -> MetricsView {
    MetricsView {
        order_latency: empty_stats(),
        match_latency: empty_stats(),
        total_orders: 0,
        total_fills: 0,
        orders_in_book: 0,
        active_bids: 0,
        active_asks: 0,
    }
}

/// Engine-wide metrics collector.
pub struct Metrics {
    /// Order insertion latencies
    order_latency: LatencyStats,
    /// Matching (fill generation) latencies
    match_latency: LatencyStats,
    /// Total orders processed
    total_orders: u64,
    /// Total fills generated
    total_fills: u64,
    /// Orders currently resting in the book
    orders_in_book: u64,
    /// Number of bid price levels
    active_bids: u64,
    /// Number of ask price levels
    active_asks: u64,
}

impl View for Metrics {
    type V = MetricsView;

    closed spec fn view(&self) -> MetricsView {
        MetricsView {
            order_latency: self.order_latency,
            match_latency: self.match_latency,
            total_orders: self.total_orders,
            total_fills: self.total_fills,
            orders_in_book: self.orders_in_book,
            active_bids: self.active_bids,
            active_asks: self.active_asks,
        }
    }
}

impl Metrics {
    /// Create a new metrics collector.
    pub fn new() -> (r: Self)
        ensures
            r@ == initial_metrics(),
    {
        Metrics {
            order_latency: LatencyStats::new(),
            match_latency: LatencyStats::new(),
            total_orders: 0,
            total_fills: 0,
            orders_in_book: 0,
            active_bids: 0,
            active_asks: 0,
        }
    }

    /// Record an order insertion latency.
    pub fn record_order_latency(&mut self, latency_ns: u64)
        ensures
            final(self)@ == (MetricsView {
                order_latency: recorded(old(self)@.order_latency, latency_ns),
                ..old(self)@
            }),
    {
        self.order_latency.record(latency_ns);
    }

    /// Record a matching latency.
    pub fn record_match_latency(&mut self, latency_ns: u64)
        ensures
            final(self)@ == (MetricsView {
                match_latency: recorded(old(self)@.match_latency, latency_ns),
                ..old(self)@
            }),
    {
        self.match_latency.record(latency_ns);
    }

    /// Count one more order.
    pub fn inc_order_count(&mut self)
        ensures
            final(self)@ == (MetricsView {
                total_orders: sat_add(old(self)@.total_orders, 1),
                ..old(self)@
            }),
    {
        self.total_orders = self.total_orders.saturating_add(1);
    }

    /// Count `count` more fills.
    pub fn add_fill_count(&mut self, count: usize)
        ensures
            final(self)@ == (MetricsView {
                total_fills: sat_add(old(self)@.total_fills, count as u64),
                ..old(self)@
            }),
    {
        self.total_fills = self.total_fills.saturating_add(count as u64);
    }

    /// Set the number of orders resting in the book.
    pub fn set_orders_in_book(&mut self, count: u64)
        ensures
            final(self)@ == (MetricsView { orders_in_book: count, ..old(self)@ }),
    {
        self.orders_in_book = count;
    }

    /// Set the number of bid levels.
    pub fn set_active_bids(&mut self, count: u64)
        ensures
            final(self)@ == (MetricsView { active_bids: count, ..old(self)@ }),
    {
        self.active_bids = count;
    }

    /// Set the number of ask levels.
    pub fn set_active_asks(&mut self, count: u64)
        ensures
            final(self)@ == (MetricsView { active_asks: count, ..old(self)@ }),
    {
        self.active_asks = count;
    }

    /// Order latency stats.
    pub fn order_latency(&self) -> (r: LatencyStats)
        ensures
            r == self@.order_latency,
    {
        self.order_latency
    }

    /// Match latency stats.
    pub fn match_latency(&self) -> (r: LatencyStats)
        ensures
            r == self@.match_latency,
    {
        self.match_latency
    }

    /// Total orders processed.
    pub fn total_orders(&self) -> (r: u64)
        ensures
            r == self@.total_orders,
    {
        self.total_orders
    }

    /// Total fills generated.
    pub fn total_fills(&self) -> (r: u64)
        ensures
            r == self@.total_fills,
    {
        self.total_fills
    }

    /// Orders resting in the book at the last update.
    pub fn orders_in_book(&self) -> (r: u64)
        ensures
            r == self@.orders_in_book,
    {
        self.orders_in_book
    }

    /// Number of bid price levels at the last update.
    pub fn active_bids(&self) -> (r: u64)
        ensures
            r == self@.active_bids,
    {
        self.active_bids
    }

    /// Number of ask price levels at the last update.
    pub fn active_asks(&self) -> (r: u64)
        ensures
            r == self@.active_asks,
    {
        self.active_asks
    }

    /// Reset every metric.
    pub fn reset(&mut self)
        ensures
            final(self)@ == initial_metrics(),
    {
        self.order_latency = LatencyStats::new();
        self.match_latency = LatencyStats::new();
        self.total_orders = 0;
        self.total_fills = 0;
        self.orders_in_book = 0;
        self.active_bids = 0;
        self.active_asks = 0;
    }
}

impl Default for Metrics {
    fn default() -> (r: Self)
        ensures
            r@ == initial_metrics(),
    {
        Self::new()
    }
}

} // verus!
