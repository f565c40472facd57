//! TCP serial-number arithmetic (RFC 1982).

use vstd::prelude::*;

verus! {

/// A TCP sequence or acknowledgement number, read modulo 2^32.
#[derive(Debug, Clone, Copy, PartialEq, Eq, Hash, Structural)]
pub struct TcpSeq(pub u32);

/// Half of the sequence space: the distance at which serial order is undefined.
pub const HALF: u32 = 0x8000_0000;

/// The number of bytes one has to advance from `earlier` to reach `later`, modulo 2^32.
pub open spec fn forward_distance(earlier: TcpSeq, later: TcpSeq) -> u32 {
    if later.0 >= earlier.0 {
        (later.0 - earlier.0) as u32
    } else {
        (later.0 - earlier.0 + 0x1_0000_0000) as u32
    }
}

/// `a` comes strictly before `b`: `b` lies less than half the space ahead of it.
pub open spec fn precedes(a: TcpSeq, b: TcpSeq) -> bool {
    0 < forward_distance(a, b) < HALF
}

/// `a` is `b` or comes before it.
pub open spec fn precedes_or_equal(a: TcpSeq, b: TcpSeq) -> bool {
    a == b || precedes(a, b)
}

/// The number `bytes` ahead of `from`, modulo 2^32.
pub open spec fn advanced(from: TcpSeq, bytes: int) -> TcpSeq {
    TcpSeq(((from.0 + bytes) % 0x1_0000_0000) as u32)
}

/// The further ahead of the two, preferring `candidate` where serial order does not decide.
pub open spec fn furthest(current: Option<TcpSeq>, candidate: TcpSeq) -> TcpSeq {
    match current {
        Some(c) => if precedes(candidate, c) {
            c
        } else {
            candidate
        },
        None => candidate,
    }
}

impl TcpSeq {
    /// Whether `self` precedes `other` in serial order.
    #[must_use]
    pub fn serial_lt(self, other: TcpSeq) -> (res: bool)
        ensures
            res == precedes(self, other),
    {
        let forward: u32 = other.0.wrapping_sub(self.0);
        forward != 0 && forward < HALF
    }

    /// Whether `self` follows `other` in serial order.
    #[must_use]
    pub fn serial_gt(self, other: TcpSeq) -> (res: bool)
        ensures
            res == precedes(other, self),
    {
        other.serial_lt(self)
    }

    /// The forward distance from `earlier` to `self`.
    #[must_use]
    pub fn serial_diff(self, earlier: TcpSeq) -> (res: u32)
        ensures
            res == forward_distance(earlier, self),
    {
        self.0.wrapping_sub(earlier.0)
    }

    /// Whether `self` is `later` or precedes it.
    #[must_use]
    pub fn serial_le(self, later: TcpSeq) -> (res: bool)
        ensures
            res == precedes_or_equal(self, later),
    {
        self == later || self.serial_lt(later)
    }
}

/// The further ahead of `current` and `candidate`.
#[must_use]
pub fn serial_max(current: Option<TcpSeq>, candidate: TcpSeq) -> (res: TcpSeq)
    ensures
        res == furthest(current, candidate),
{
    match current {
        Some(c) => if c.serial_gt(candidate) {
            c
        } else {
            candidate
        },
        None => candidate,
    }
}

/// A step of less than half the space is always forward, wherever it starts and whether or
/// not it wraps, and its distance is the step itself.
pub proof fn law_forward_step_precedes(base: TcpSeq, step: u32)
    requires
        0 < step < HALF,
    ensures
        precedes(base, advanced(base, step as int)),
        forward_distance(base, advanced(base, step as int)) == step,
{
}

/// No number precedes itself.
pub proof fn law_serial_order_is_irreflexive(a: TcpSeq)
    ensures
        !precedes(a, a),
{
}

/// Of two distinct numbers that are not exactly half the space apart, exactly one precedes
/// the other.
pub proof fn law_serial_order_is_antisymmetric(a: TcpSeq, b: TcpSeq)
    requires
        a != b,
        forward_distance(a, b) != HALF,
    ensures
        precedes(a, b) != precedes(b, a),
{
}

/// Walking the forward distance from `earlier` always arrives at `later`.
pub proof fn law_distance_reaches_target(earlier: TcpSeq, later: TcpSeq)
    ensures
        advanced(earlier, forward_distance(earlier, later) as int) == later,
{
}

/// Advancing in two steps or in one comes to the same number.
pub proof fn law_advances_add_up(base: TcpSeq, first: int, second: int)
    requires
        0 <= first,
        0 <= second,
    ensures
        advanced(advanced(base, first), second) == advanced(base, first + second),
{
}

/// Order looks half the sequence space ahead, whether or not the way wraps: a number precedes those
/// less than 2^31 ahead of it and no others. Of two numbers the furthest is the one that the other
/// precedes.
pub proof fn law_order_looks_half_the_space_ahead(a: TcpSeq, step: u32)
    ensures
        ({
            let b = advanced(a, step as int);
            &&& b.0 as int == a.0 + step || b.0 as int == a.0 + step - 0x1_0000_0000
            &&& forward_distance(a, b) == step
            &&& precedes(a, b) <==> 0 < step < 0x8000_0000
            &&& precedes_or_equal(a, b) <==> step < 0x8000_0000
            &&& 0 < step < 0x8000_0000 ==> furthest(Some(a), b) == b && furthest(Some(b), a) == b
            &&& furthest(None, a) == a
        }),
{
}

} // verus!
