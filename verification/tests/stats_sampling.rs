use client_core::stats::sample_stats;
use client_core::stats::NetworkStats;
use client_core::stats::STATS_INTERVAL_SECS;

#[test]
fn a_sample_is_the_counter_delta_divided_by_the_interval() {
    assert_eq!(STATS_INTERVAL_SECS, 5);
    let sample = sample_stats(1000, 400, 6000, 2900, 17);
    assert_eq!(
        sample,
        NetworkStats { latency_ms: 17, bytes_sent: 1000, bytes_received: 500 }
    );
}

#[test]
fn an_idle_interval_rates_zero() {
    let sample = sample_stats(1000, 400, 1000, 400, 3);
    assert_eq!(sample, NetworkStats { latency_ms: 3, bytes_sent: 0, bytes_received: 0 });
}

#[test]
fn a_decreasing_counter_rates_zero_instead_of_wrapping() {
    let sample = sample_stats(1000, 400, 900, 300, 3);
    assert_eq!(sample, NetworkStats { latency_ms: 3, bytes_sent: 0, bytes_received: 0 });
}

#[test]
fn stats_start_at_zero() {
    assert_eq!(
        NetworkStats::default(),
        NetworkStats { latency_ms: 0, bytes_sent: 0, bytes_received: 0 }
    );
}
