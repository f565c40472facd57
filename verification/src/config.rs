//! Engine tuning knobs.

use vstd::prelude::*;

use crate::metrics::SeriesCollection;
use crate::time::Nanos;

verus! {

/// How long samples are kept, and what becomes of those beyond the ceiling.
#[derive(Debug, Clone, Copy, PartialEq, Eq, Structural)]
pub enum RetentionPolicy {
    /// All of them are kept; more than the ceiling is a failure.
    FailFast,
    /// Those taken more than the window before the present age out. The ceiling is a backstop only:
    /// a sample that finds no room is left out, which is no failure.
    Evict { window: Nanos },
}

/// Connection-tracker and metric-derivation configuration.
#[derive(Debug, Clone, Copy, PartialEq, Eq, Structural)]
pub struct EngineConfig {
    /// Idle gap after which a fresh SYN on the same pair starts a new instance.
    pub dead_after: Nanos,
    /// Backward serial distance above which a sequence number reads as a fresh initial one.
    /// From half the sequence space on no distance is above it.
    pub reset_threshold: u32,
    /// Which instances buffer a metric series.
    pub series_collection: SeriesCollection,
    /// Trailing window of the throughput; a zero window reads as no throughput.
    pub throughput_window: Nanos,
    /// A data segment behind the frontier is out of order within this gap, else a retransmit.
    pub reorder_window: Nanos,
    /// Ceiling on retained samples over everything collected.
    pub max_samples: usize,
    /// How long samples are kept.
    pub retention: RetentionPolicy,
    /// Whether a state sample is recorded per segment.
    pub collect_state_timeline: bool,
    /// Whether time/sequence points are recorded.
    pub collect_seq_timeline: bool,
    /// Whether bytes outstanding are recorded, for both directions, per segment.
    pub collect_inflight_timeline: bool,
    /// Whether round-trip times are recorded, raw and smoothed.
    pub collect_rtt_timeline: bool,
    /// Whether throughput and goodput are recorded, for both directions, per segment.
    pub collect_throughput_timeline: bool,
}

impl EngineConfig {
    /// The configuration that collects nothing.
    pub open spec fn standard() -> EngineConfig {
        EngineConfig {
            dead_after: Nanos(120_000_000_000),
            reset_threshold: 0x4000_0000,
            series_collection: SeriesCollection::Off,
            throughput_window: Nanos(1_000_000_000),
            reorder_window: Nanos(3_000_000),
            max_samples: 10_000_000,
            retention: RetentionPolicy::FailFast,
            collect_state_timeline: false,
            collect_seq_timeline: false,
            collect_inflight_timeline: false,
            collect_rtt_timeline: false,
            collect_throughput_timeline: false,
        }
    }
}

impl Default for EngineConfig {
    fn default() -> (res: EngineConfig)
        ensures
            res == EngineConfig::standard(),
    {
        EngineConfig {
            dead_after: Nanos(120_000_000_000),
            reset_threshold: 0x4000_0000,
            series_collection: SeriesCollection::Off,
            throughput_window: Nanos(1_000_000_000),
            reorder_window: Nanos(3_000_000),
            max_samples: 10_000_000,
            retention: RetentionPolicy::FailFast,
            collect_state_timeline: false,
            collect_seq_timeline: false,
            collect_inflight_timeline: false,
            collect_rtt_timeline: false,
            collect_throughput_timeline: false,
        }
    }
}

} // verus!
