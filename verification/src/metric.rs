//! The per-segment metric sample.

use vstd::prelude::*;

use crate::time::Nanos;

verus! {

/// The direction of the segment that produced a sample, relative to the connection's origin.
#[derive(Debug, Clone, Copy, PartialEq, Eq, Structural)]
pub enum SampleDir {
    OriginToResponder,
    ResponderToOrigin,
}

/// One metric sample. `in_flight_bytes`, `throughput_bps`, `retransmit` and `out_of_order`
/// pertain to `dir`; `rtt` is a round-trip measurement carried by the acknowledging segment;
/// `sack` reflects the options of the segment that triggered the sample.
#[derive(Debug, Clone, Copy, PartialEq, Eq, Structural)]
pub struct MetricSample {
    pub t: Nanos,
    pub dir: SampleDir,
    pub in_flight_bytes: u64,
    pub throughput_bps: u64,
    pub rtt: Option<Nanos>,
    pub retransmit: bool,
    pub out_of_order: bool,
    pub sack: bool,
}

} // verus!
