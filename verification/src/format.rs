//! Numbers as they are shown on screen. All arithmetic is on integers.

use vstd::prelude::*;

use crate::text::{append_decimal, append_padded, append_signed};
use crate::time::Nanos;

verus! {

/// Seconds with three decimals, cut off.
pub open spec fn seconds_text(t: Nanos) -> Seq<char> {
    let ms = t.0 as nat / 1_000_000;
    crate::text::decimal(ms / 1_000) + seq!['.'] + crate::text::padded(ms % 1_000, 3)
}

/// Seconds with three decimals, cut off.
#[must_use]
pub fn fmt_seconds(t: Nanos) -> (res: String)
    ensures
        res@ == seconds_text(t),
{
    let ms: u64 = t.0 / 1_000_000;
    let mut out = String::new();
    append_decimal(&mut out, ms / 1_000);
    out.push('.');
    append_padded(&mut out, ms % 1_000, 3);
    out
}

/// The number of `unit`s in `n` with one decimal, cut off, and the suffix of the unit.
pub open spec fn tenths_text(n: nat, unit: nat, suffix: char) -> Seq<char> {
    crate::text::decimal(n / unit) + seq!['.'] + crate::text::decimal(n % unit * 10 / unit)
        + seq![suffix]
}

/// A sequence offset: in full below a hundred thousand, else in the largest of the units thousand,
/// million, billion and trillion that it reaches.
pub open spec fn offset_text(n: int) -> Seq<char> {
    if n < 100_000 {
        crate::text::signed_decimal(n)
    } else if n >= 1_000_000_000_000 {
        tenths_text(n as nat, 1_000_000_000_000, 'T')
    } else if n >= 1_000_000_000 {
        tenths_text(n as nat, 1_000_000_000, 'G')
    } else if n >= 1_000_000 {
        tenths_text(n as nat, 1_000_000, 'M')
    } else {
        tenths_text(n as nat, 1_000, 'K')
    }
}

fn tenths(n: u64, unit: u64, suffix: char) -> (res: String)
    requires
        0 < unit <= 1_000_000_000_000,
    ensures
        res@ == tenths_text(n as nat, unit as nat, suffix),
{
    let mut out = String::new();
    append_decimal(&mut out, n / unit);
    out.push('.');
    append_decimal(&mut out, n % unit * 10 / unit);
    out.push(suffix);
    out
}

/// A sequence offset, short enough for the margin of a graph.
#[must_use]
pub fn fmt_seq(n: i64) -> (res: String)
    ensures
        res@ == offset_text(n as int),
{
    if n < 100_000 {
        let mut out = String::new();
        append_signed(&mut out, n);
        proof {
            assert(out@ =~= crate::text::signed_decimal(n as int));
        }
        out
    } else if n >= 1_000_000_000_000 {
        tenths(n as u64, 1_000_000_000_000, 'T')
    } else if n >= 1_000_000_000 {
        tenths(n as u64, 1_000_000_000, 'G')
    } else if n >= 1_000_000 {
        tenths(n as u64, 1_000_000, 'M')
    } else {
        tenths(n as u64, 1_000, 'K')
    }
}

/// The number of `unit`s in `n` with three decimals, cut off, and the name of the unit.
pub open spec fn thousandths_text(n: nat, unit: nat, name: Seq<char>) -> Seq<char> {
    crate::text::decimal(n / unit) + seq!['.'] + crate::text::padded(n % unit * 1_000 / unit, 3)
        + name
}

fn thousandths(n: u64, unit: u64, name: &str) -> (res: String)
    requires
        0 < unit <= 1_000_000_000,
    ensures
        res@ == thousandths_text(n as nat, unit as nat, name@),
{
    let mut out = String::new();
    append_decimal(&mut out, n / unit);
    out.push('.');
    append_padded(&mut out, n % unit * 1_000 / unit, 3);
    out.append(name);
    out
}

/// A round trip in the largest of the units second, millisecond and microsecond that it reaches,
/// and in nanoseconds below.
pub open spec fn rtt_text(t: Nanos) -> Seq<char> {
    let n = t.0 as nat;
    if n >= 1_000_000_000 {
        thousandths_text(n, 1_000_000_000, "s"@)
    } else if n >= 1_000_000 {
        thousandths_text(n, 1_000_000, "ms"@)
    } else if n >= 1_000 {
        thousandths_text(n, 1_000, "\u{b5}s"@)
    } else {
        crate::text::decimal(n) + "ns"@
    }
}

/// A round trip in a unit that suits it.
#[must_use]
pub fn fmt_rtt(t: Nanos) -> (res: String)
    ensures
        res@ == rtt_text(t),
{
    let n: u64 = t.0;
    if n >= 1_000_000_000 {
        thousandths(n, 1_000_000_000, "s")
    } else if n >= 1_000_000 {
        thousandths(n, 1_000_000, "ms")
    } else if n >= 1_000 {
        thousandths(n, 1_000, "\u{b5}s")
    } else {
        let mut out = String::new();
        append_decimal(&mut out, n);
        out.append("ns");
        out
    }
}

/// A rate in the largest of the units gigabit, megabit and kilobit per second that it reaches,
/// and in bits per second below.
pub open spec fn rate_text(bps: u64) -> Seq<char> {
    let n = bps as nat;
    if n >= 1_000_000_000 {
        thousandths_text(n, 1_000_000_000, "Gbps"@)
    } else if n >= 1_000_000 {
        thousandths_text(n, 1_000_000, "Mbps"@)
    } else if n >= 1_000 {
        thousandths_text(n, 1_000, "kbps"@)
    } else {
        crate::text::decimal(n) + "bps"@
    }
}

/// A rate in a unit that suits it.
#[must_use]
pub fn fmt_rate(bps: u64) -> (res: String)
    ensures
        res@ == rate_text(bps),
{
    if bps >= 1_000_000_000 {
        thousandths(bps, 1_000_000_000, "Gbps")
    } else if bps >= 1_000_000 {
        thousandths(bps, 1_000_000, "Mbps")
    } else if bps >= 1_000 {
        thousandths(bps, 1_000, "kbps")
    } else {
        let mut out = String::new();
        append_decimal(&mut out, bps);
        out.append("bps");
        out
    }
}

proof fn lemma_short_decimal(n: nat, places: nat)
    requires
        places == 1 ==> n < 10,
        places == 4 ==> n < 10_000,
        places == 5 ==> n < 100_000,
        places == 6 ==> n < 1_000_000,
        places == 1 || 4 <= places <= 6,
    ensures
        crate::text::decimal(n).len() <= places,
{
    reveal_with_fuel(crate::text::decimal, 7);
}

/// An offset fits the seven characters of the margin unless it reaches ten thousand trillion or
/// lies a million or more below zero.
pub proof fn law_offsets_fit_the_margin(n: int)
    requires
        -1_000_000 < n < 10_000_000_000_000_000,
    ensures
        offset_text(n).len() <= 7,
{
    if n < 0 {
        lemma_short_decimal((-n) as nat, 6);
    } else if n < 100_000 {
        lemma_short_decimal(n as nat, 5);
    } else {
        let unit: nat = if n >= 1_000_000_000_000 {
            1_000_000_000_000
        } else if n >= 1_000_000_000 {
            1_000_000_000
        } else if n >= 1_000_000 {
            1_000_000
        } else {
            1_000
        };
        assert(n as nat / unit < 10_000);
        assert(n as nat % unit * 10 / unit < 10);
        lemma_short_decimal(n as nat / unit, 4);
        lemma_short_decimal(n as nat % unit * 10 / unit, 1);
    }
}

} // verus!
