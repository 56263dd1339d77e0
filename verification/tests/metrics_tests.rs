use blockpack::metrics::{MetricCounts, RateTracker};

#[test]
fn rate_tracker_drops_events_before_window() {
    let mut t = RateTracker::new(100);
    t.record_at(10);
    t.record_at(50);
    t.record_at(120);
    // window ends at 120: events before 20 leave
    assert_eq!(t.count(), 2);
    assert_eq!(t.count_since(120), 2);
    assert_eq!(t.count_since(200), 1);
    t.record_at(300);
    assert_eq!(t.count(), 1);
}

#[test]
fn rate_tracker_record_now_counts() {
    let mut t = RateTracker::new(1_000_000_000_000);
    t.record();
    t.record();
    assert_eq!(t.count(), 2);
}

#[test]
fn metric_counts_record_each_outcome_once() {
    let mut counts = MetricCounts::new();
    counts.record_tx(true, false);
    counts.record_tx(false, true);
    counts.record_tx(false, false);
    counts.record_tx(true, true);
    assert_eq!(counts.tx_received, 4);
    assert_eq!(counts.tx_added, 2);
    assert_eq!(counts.tx_replaced, 1);
    assert_eq!(counts.tx_rejected, 1);
    counts.record_block(21_000, 500);
    assert_eq!((counts.blocks_built, counts.total_gas_used, counts.total_value_extracted), (1, 21_000, 500));
    assert!(!counts.can_record_block(u64::MAX, 0));
}
