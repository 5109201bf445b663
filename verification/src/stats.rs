//! Link statistics and the fixed-interval sampler.

use vstd::prelude::*;

verus! {

/// Seconds between two statistics samples.
pub const STATS_INTERVAL_SECS: u64 = 5;

/// One statistics sample: instantaneous round-trip estimate and per-second
/// byte rates over the last sampling interval.  Overwritten wholesale each
/// interval; no history is kept.
#[derive(Clone, Copy, Debug, PartialEq, Eq, Structural)]
pub struct NetworkStats {
    pub latency_ms: u64,
    pub bytes_sent: u64,
    pub bytes_received: u64,
}

impl Default for NetworkStats {
    /// All counters zero, before the first sample.
    fn default() -> (r: Self)
        ensures
            r == (NetworkStats { latency_ms: 0, bytes_sent: 0, bytes_received: 0 }),
    {
        NetworkStats { latency_ms: 0, bytes_sent: 0, bytes_received: 0 }
    }
}

/// The per-second rate over one interval, from a cumulative counter's value
/// at the previous sample and now.  Cumulative counters never decrease, so a
/// smaller current value only arises from a caller's error; it rates as zero
/// rather than wrapping.
pub open spec fn spec_rate(prev: u64, now: u64) -> u64 {
    if now >= prev {
        (((now - prev) as u64) / STATS_INTERVAL_SECS) as u64
    } else {
        0
    }
}

/// The sample computed at the end of one interval: counter deltas divided by
/// the interval length, and the instantaneous round-trip estimate.
pub open spec fn spec_sample(
    prev_tx: u64,
    prev_rx: u64,
    tx: u64,
    rx: u64,
    rtt_ms: u64,
) -> NetworkStats {
    NetworkStats {
        latency_ms: rtt_ms,
        bytes_sent: spec_rate(prev_tx, tx),
        bytes_received: spec_rate(prev_rx, rx),
    }
}

/// Computes the statistics sample for one interval from the cumulative
/// transport counters at the previous sample (`prev_tx`, `prev_rx`), the
/// counters now (`tx`, `rx`), and the round-trip estimate now.
pub fn sample_stats(prev_tx: u64, prev_rx: u64, tx: u64, rx: u64, rtt_ms: u64) -> (r:
    NetworkStats)
    ensures
        r == spec_sample(prev_tx, prev_rx, tx, rx, rtt_ms),
{
    let sent = if tx >= prev_tx {
        (tx - prev_tx) / STATS_INTERVAL_SECS
    } else {
        0
    };
    let received = if rx >= prev_rx {
        (rx - prev_rx) / STATS_INTERVAL_SECS
    } else {
        0
    };
    NetworkStats { latency_ms: rtt_ms, bytes_sent: sent, bytes_received: received }
}

} // verus!
