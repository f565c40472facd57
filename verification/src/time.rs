//! Capture-relative time in nanoseconds.

use vstd::prelude::*;

use crate::text::{append_decimal, append_padded};

verus! {

/// Nanoseconds since the first packet record of the capture.
#[derive(Debug, Clone, Copy, PartialEq, Eq, PartialOrd, Ord, Hash, Structural)]
pub struct Nanos(pub u64);

/// Nanoseconds in one second.
pub const SECOND: u64 = 1_000_000_000;

/// `a - b`, or zero where `b` is the larger.
pub open spec fn elapsed(a: Nanos, b: Nanos) -> Nanos {
    Nanos(
        if a.0 >= b.0 {
            (a.0 - b.0) as u64
        } else {
            0
        },
    )
}

/// The later of two times.
pub open spec fn later(a: Nanos, b: Nanos) -> Nanos {
    if a.0 >= b.0 {
        a
    } else {
        b
    }
}

/// `n`, or the largest number there is room for.
pub open spec fn clamped(n: int) -> u64 {
    if n > u64::MAX {
        u64::MAX
    } else {
        n as u64
    }
}

/// The product of `a` and `b`, or the largest number there is room for.
pub fn clamped_product(a: u64, b: u64) -> (res: u64)
    ensures
        res == clamped(a * b),
{
    proof {
        assert(a * b <= u64::MAX * u64::MAX) by (nonlinear_arith)
            requires
                a <= u64::MAX,
                b <= u64::MAX,
        ;
    }
    let product: u128 = a as u128 * b as u128;
    if product > u64::MAX as u128 {
        u64::MAX
    } else {
        product as u64
    }
}

impl Nanos {
    /// The time since `earlier`, zero when `earlier` is not earlier at all.
    #[must_use]
    pub fn since(self, earlier: Nanos) -> (res: Nanos)
        ensures
            res == elapsed(self, earlier),
    {
        Nanos(self.0.saturating_sub(earlier.0))
    }

    /// The later of `self` and `other`.
    #[must_use]
    pub fn latest(self, other: Nanos) -> (res: Nanos)
        ensures
            res == later(self, other),
    {
        if self.0 >= other.0 {
            self
        } else {
            other
        }
    }

    /// Seconds with all nine fractional digits and the unit: `1.500000000s`.
    pub open spec fn text_spec(self) -> Seq<char> {
        crate::text::decimal((self.0 / SECOND) as nat) + seq!['.'] + crate::text::padded(
            (self.0 % SECOND) as nat,
            9,
        ) + seq!['s']
    }

    /// Seconds with all nine fractional digits and the unit.
    #[must_use]
    pub fn text(self) -> (res: String)
        ensures
            res@ == self.text_spec(),
    {
        let mut out = String::new();
        append_decimal(&mut out, self.0 / SECOND);
        out.push('.');
        append_padded(&mut out, self.0 % SECOND, 9);
        out.push('s');
        out
    }
}

} // verus!
