//! Connection identity and the reported view of a connection.

use vstd::prelude::*;

use crate::endpoint::Endpoint;
use crate::metric::SampleDir;
use crate::state::ConnState;
use crate::time::Nanos;

verus! {

/// The two endpoints of a connection in canonical order: a grouping key that does not depend on
/// which side sent.
#[derive(Debug, Clone, Copy, PartialEq, Eq, Hash, PartialOrd, Ord, Structural)]
pub struct EndpointPair {
    pub low: Endpoint,
    pub high: Endpoint,
}

impl EndpointPair {
    /// The pair of `a` and `b`, the one that sorts first in `low`.
    pub open spec fn of(a: Endpoint, b: Endpoint) -> EndpointPair {
        if b.before(a) {
            EndpointPair { low: b, high: a }
        } else {
            EndpointPair { low: a, high: b }
        }
    }

    /// Orders the two endpoints so both wire directions map to the same pair.
    #[must_use]
    pub fn new(a: Endpoint, b: Endpoint) -> (res: EndpointPair)
        ensures
            res == Self::of(a, b),
    {
        if b.sorts_before(a) {
            EndpointPair { low: b, high: a }
        } else {
            EndpointPair { low: a, high: b }
        }
    }

    /// `self` sorts strictly before `other`: by the low endpoint, then by the high one.
    pub open spec fn before(self, other: EndpointPair) -> bool {
        self.low.before(other.low) || (self.low == other.low && self.high.before(other.high))
    }

    /// Whether `self` sorts strictly before `other`.
    #[must_use]
    pub fn sorts_before(self, other: EndpointPair) -> (res: bool)
        ensures
            res == self.before(other),
    {
        self.low.sorts_before(other.low) || (self.low == other.low && self.high.sorts_before(
            other.high,
        ))
    }
}

/// A segment and the segment that answers it belong to the same pair, whichever is seen first.
pub proof fn law_both_directions_share_a_pair(a: Endpoint, b: Endpoint)
    ensures
        EndpointPair::of(a, b) == EndpointPair::of(b, a),
        !EndpointPair::of(a, b).high.before(EndpointPair::of(a, b).low),
        ({
            let pair = EndpointPair::of(a, b);
            (pair.low == a && pair.high == b) || (pair.low == b && pair.high == a)
        }),
{
    crate::endpoint::law_endpoints_are_totally_ordered(a, b, a);
}

/// Which instance of a pair: a pair can carry several connections one after the other.
#[derive(Debug, Clone, Copy, PartialEq, Eq, Hash, Structural)]
pub struct ConnId {
    pub pair: EndpointPair,
    pub instance: u32,
}

/// Direction of a segment relative to the orientation chosen for its connection.
#[derive(Debug, Clone, Copy, PartialEq, Eq, Structural)]
pub enum Direction {
    OriginToResponder,
    ResponderToOrigin,
}

impl Direction {
    /// The other direction.
    pub open spec fn reverse(self) -> Direction {
        match self {
            Direction::OriginToResponder => Direction::ResponderToOrigin,
            Direction::ResponderToOrigin => Direction::OriginToResponder,
        }
    }

    /// The direction as samples record it.
    pub open spec fn as_sample(self) -> SampleDir {
        match self {
            Direction::OriginToResponder => SampleDir::OriginToResponder,
            Direction::ResponderToOrigin => SampleDir::ResponderToOrigin,
        }
    }

    /// The other direction.
    #[must_use]
    pub fn opposite(self) -> (res: Direction)
        ensures
            res == self.reverse(),
    {
        match self {
            Direction::OriginToResponder => Direction::ResponderToOrigin,
            Direction::ResponderToOrigin => Direction::OriginToResponder,
        }
    }

    /// The direction as samples record it.
    #[must_use]
    pub fn sample_dir(self) -> (res: SampleDir)
        ensures
            res == self.as_sample(),
    {
        match self {
            Direction::OriginToResponder => SampleDir::OriginToResponder,
            Direction::ResponderToOrigin => SampleDir::ResponderToOrigin,
        }
    }
}

/// A tracked connection instance as the tracker reports it.
#[derive(Debug, Clone, Copy, PartialEq, Eq, Structural)]
pub struct Connection {
    pub id: ConnId,
    pub state: ConnState,
    pub origin: Endpoint,
    pub responder: Endpoint,
    pub origin_inferred: bool,
    pub opened_at: Nanos,
    pub last_at: Nanos,
    pub bytes_o2r: u64,
    pub bytes_r2o: u64,
    pub segments: u64,
}

impl Connection {
    /// Span from opening to the last segment, zero where timestamps ran backward.
    #[must_use]
    pub fn duration(&self) -> (res: Nanos)
        ensures
            res == crate::time::elapsed(self.last_at, self.opened_at),
    {
        self.last_at.since(self.opened_at)
    }

    /// The place of this connection in reports: by opening time, then pair, then instance.
    pub open spec fn listed_before(self, other: Connection) -> bool {
        self.opened_at.0 < other.opened_at.0 || (self.opened_at == other.opened_at && (
        self.id.pair.before(other.id.pair) || (self.id.pair == other.id.pair && self.id.instance
            < other.id.instance)))
    }

    /// Whether this connection is reported before `other`.
    #[must_use]
    pub fn lists_before(&self, other: &Connection) -> (res: bool)
        ensures
            res == self.listed_before(*other),
    {
        self.opened_at.0 < other.opened_at.0 || (self.opened_at == other.opened_at && (
        self.id.pair.sorts_before(other.id.pair) || (self.id.pair == other.id.pair
            && self.id.instance < other.id.instance)))
    }
}

} // verus!
