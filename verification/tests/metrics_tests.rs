use lockfree_orderbook::metrics::LatencyStats;
use lockfree_orderbook::Metrics;

#[test]
fn test_latency_stats() {
    let mut stats = LatencyStats::new();
    stats.record(100);
    stats.record(200);
    stats.record(150);

    assert_eq!(stats.min_ns, 100);
    assert_eq!(stats.max_ns, 200);
    assert_eq!(stats.count, 3);
    assert_eq!(stats.total_ns, 450);
    let avg = stats.total_ns as f64 / stats.count as f64;
    assert!(f64::abs(avg - 150.0) < 0.01);
}

#[test]
fn metrics_test_metrics_tracking() {
    let mut metrics = Metrics::new();

    metrics.inc_order_count();
    metrics.record_order_latency(1000);
    metrics.add_fill_count(1);

    assert_eq!(metrics.total_orders(), 1);
    assert_eq!(metrics.total_fills(), 1);
    assert_eq!(metrics.order_latency().count, 1);
}

#[test]
fn metrics_setters_reset_and_saturation() {
    let mut metrics = Metrics::default();
    assert_eq!(metrics.order_latency().min_ns, u64::MAX);
    metrics.record_match_latency(7);
    metrics.record_match_latency(u64::MAX);
    assert_eq!(metrics.match_latency().min_ns, 7);
    assert_eq!(metrics.match_latency().max_ns, u64::MAX);
    assert_eq!(metrics.match_latency().total_ns, u64::MAX);
    metrics.add_fill_count(usize::MAX);
    metrics.add_fill_count(5);
    assert_eq!(metrics.total_fills(), u64::MAX);
    metrics.set_orders_in_book(12);
    metrics.set_active_bids(3);
    metrics.set_active_asks(4);
    assert_eq!((metrics.orders_in_book(), metrics.active_bids(), metrics.active_asks()), (12, 3, 4));
    metrics.reset();
    assert_eq!(metrics.total_fills(), 0);
    assert_eq!(metrics.match_latency().count, 0);
    assert_eq!((metrics.orders_in_book(), metrics.active_bids(), metrics.active_asks()), (0, 0, 0));
}
