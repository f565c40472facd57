//! What the texts say when they are read back.

use vstd::prelude::*;

use crate::endpoint::Endpoint;
use crate::flow::FlowKey;
use crate::net::{IpAddr, Ipv4Addr, Ipv6Addr};
use crate::segment::TcpFlags;
use crate::time::Nanos;

verus! {

/// What a digit stands for.
pub open spec fn digit_value(c: char) -> int {
    if '0' <= c <= '9' {
        c as int - '0' as int
    } else if 'a' <= c <= 'f' {
        c as int - 'a' as int + 10
    } else {
        -1
    }
}

/// What the digits of `text` come to in the given base.
pub open spec fn value_of(text: Seq<char>, base: int) -> int
    decreases text.len(),
{
    if text.len() == 0 {
        0
    } else {
        value_of(text.drop_last(), base) * base + digit_value(text.last())
    }
}

/// `text` is made of digits of the base.
pub open spec fn is_number(text: Seq<char>, base: int) -> bool {
    &&& text.len() > 0
    &&& forall|i: int| 0 <= i < text.len() ==> 0 <= digit_value(#[trigger] text[i]) < base
}

/// Numbers read back as what was written, without leading zeros: in decimal, in hexadecimal, and in
/// decimal filled with zeros to a width.
pub proof fn law_numbers_read_back(n: nat, width: nat)
    ensures
        ({
            let (ten, sixteen) = (crate::text::decimal(n), crate::text::hexadecimal(n));
            let filled = crate::text::padded(n, width);
            &&& is_number(ten, 10) && value_of(ten, 10) == n
            &&& is_number(sixteen, 16) && value_of(sixteen, 16) == n
            &&& ten.len() > 1 ==> ten[0] != '0'
            &&& sixteen.len() > 1 ==> sixteen[0] != '0'
            &&& is_number(filled, 10) && value_of(filled, 10) == n
            &&& filled.len() >= width
            &&& filled.len() > width ==> filled[0] != '0' || filled.len() == 1
        }),
{
    lemma_decimal(n);
    lemma_hexadecimal(n);
    let ten = crate::text::decimal(n);
    let zeros = crate::text::repeated('0', width - ten.len());
    lemma_zeros_in_front(zeros, ten);
    assert(zeros.len() == 0 ==> zeros + ten =~= ten);
}

proof fn lemma_decimal(n: nat)
    ensures
        is_number(crate::text::decimal(n), 10),
        value_of(crate::text::decimal(n), 10) == n,
        crate::text::decimal(n)[0] == '0' ==> n == 0,
        n < 10 ==> crate::text::decimal(n).len() == 1,
    decreases n,
{
    let text = crate::text::decimal(n);
    reveal_with_fuel(value_of, 2);
    if n >= 10 {
        lemma_decimal(n / 10);
        assert(text.drop_last() =~= crate::text::decimal(n / 10));
        assert(text[0] == crate::text::decimal(n / 10)[0]);
    } else {
        assert(text.drop_last() =~= Seq::empty());
    }
}

proof fn lemma_hexadecimal(n: nat)
    ensures
        is_number(crate::text::hexadecimal(n), 16),
        value_of(crate::text::hexadecimal(n), 16) == n,
        crate::text::hexadecimal(n)[0] == '0' ==> n == 0,
        n < 16 ==> crate::text::hexadecimal(n).len() == 1,
    decreases n,
{
    let text = crate::text::hexadecimal(n);
    reveal_with_fuel(value_of, 2);
    if n >= 16 {
        lemma_hexadecimal(n / 16);
        assert(text.drop_last() =~= crate::text::hexadecimal(n / 16));
        assert(text[0] == crate::text::hexadecimal(n / 16)[0]);
    } else {
        assert(text.drop_last() =~= Seq::empty());
    }
}

/// Zeros in front change nothing.
proof fn lemma_zeros_in_front(zeros: Seq<char>, text: Seq<char>)
    requires
        forall|i: int| 0 <= i < zeros.len() ==> #[trigger] zeros[i] == '0',
        is_number(text, 10),
    ensures
        is_number(zeros + text, 10),
        value_of(zeros + text, 10) == value_of(text, 10),
{
    lemma_zeros_come_to_nothing(zeros);
    lemma_value_behind(zeros, text);
}

proof fn lemma_zeros_come_to_nothing(zeros: Seq<char>)
    requires
        forall|i: int| 0 <= i < zeros.len() ==> #[trigger] zeros[i] == '0',
    ensures
        value_of(zeros, 10) == 0,
    decreases zeros.len(),
{
    if zeros.len() > 0 {
        lemma_zeros_come_to_nothing(zeros.drop_last());
        assert(zeros[zeros.len() - 1] == '0');
    }
}

proof fn lemma_value_behind(zeros: Seq<char>, text: Seq<char>)
    requires
        value_of(zeros, 10) == 0,
    ensures
        value_of(zeros + text, 10) == value_of(text, 10),
    decreases text.len(),
{
    if text.len() == 0 {
        assert(zeros + text =~= zeros);
    } else {
        lemma_value_behind(zeros, text.drop_last());
        assert((zeros + text).drop_last() =~= zeros + text.drop_last());
    }
}

/// `text` is `whole` and `part` with a point between them, both written in decimal, and `end` behind
/// it; `part` has `places` digits.
pub open spec fn is_fraction(
    text: Seq<char>,
    whole: nat,
    part: nat,
    places: nat,
    end: Seq<char>,
) -> bool {
    exists|a: Seq<char>, b: Seq<char>|
        #![trigger is_number(a, 10), is_number(b, 10)]
        {
            &&& is_number(a, 10) && value_of(a, 10) == whole && (a.len() > 1 ==> a[0] != '0')
            &&& is_number(b, 10) && value_of(b, 10) == part && b.len() == places
            &&& text == a + seq!['.'] + b + end
        }
}

proof fn lemma_is_fraction(text: Seq<char>, whole: nat, part: nat, places: nat, end: Seq<char>)
    requires
        text == crate::text::decimal(whole) + seq!['.'] + crate::text::padded(part, places) + end,
        crate::text::decimal(part).len() <= places,
    ensures
        is_fraction(text, whole, part, places, end),
{
    law_numbers_read_back(whole, 0);
    law_numbers_read_back(part, places);
    assert(is_number(crate::text::decimal(whole), 10) && is_number(
        crate::text::padded(part, places),
        10,
    ));
}

proof fn lemma_short_decimals(n: nat)
    ensures
        n < 10 ==> crate::text::decimal(n).len() == 1,
        n < 1_000 ==> crate::text::decimal(n).len() <= 3,
        n < 1_000_000_000 ==> crate::text::decimal(n).len() <= 9,
{
    reveal_with_fuel(crate::text::decimal, 10);
}

/// Times read back: in full as seconds with nine digits behind the point, and cut off to
/// milliseconds with three.
pub proof fn law_times_read_back(t: Nanos)
    ensures
        exists|whole: nat, part: nat| #[trigger]
            is_fraction(t.text_spec(), whole, part, 9, "s"@) && whole * 1_000_000_000 + part == t.0
                && part < 1_000_000_000,
        exists|whole: nat, part: nat| #[trigger]
            is_fraction(crate::format::seconds_text(t), whole, part, 3, Seq::empty()) && (whole
                * 1_000 + part) * 1_000_000 <= t.0 < (whole * 1_000 + part + 1) * 1_000_000 && part
                < 1_000,
{
    reveal_strlit("s");
    let (s, ns) = ((t.0 / 1_000_000_000) as nat, (t.0 % 1_000_000_000) as nat);
    lemma_short_decimals(ns);
    assert("s"@ =~= seq!['s']);
    lemma_is_fraction(t.text_spec(), s, ns, 9, "s"@);
    let ms = t.0 as nat / 1_000_000;
    lemma_short_decimals(ms % 1_000);
    let text = crate::format::seconds_text(t);
    assert(text =~= text + Seq::<char>::empty());
    assert(text =~= crate::text::decimal(ms / 1_000) + seq!['.'] + crate::text::padded(
        ms % 1_000,
        3,
    ) + Seq::<char>::empty());
    lemma_is_fraction(text, ms / 1_000, ms % 1_000, 3, Seq::empty());
}

/// `text` gives `n` in the unit `unit` with three digits behind the point, cut off.
pub open spec fn is_scaled(text: Seq<char>, n: nat, unit: nat, name: Seq<char>) -> bool {
    exists|whole: nat, part: nat| #[trigger]
        is_fraction(text, whole, part, 3, name) && (whole * 1_000 + part) * unit <= n * 1_000 < (
        whole * 1_000 + part + 1) * unit
}

proof fn lemma_thousandths(n: nat, unit: nat, name: Seq<char>)
    requires
        unit > 0,
    ensures
        is_scaled(crate::format::thousandths_text(n, unit, name), n, unit, name),
{
    let (whole, rest) = (n / unit, n % unit);
    let part = rest * 1_000 / unit;
    assert(n == whole * unit + rest && rest < unit) by (nonlinear_arith)
        requires
            unit > 0,
            whole == n / unit,
            rest == n % unit,
    ;
    assert(part < 1_000 && part * unit <= rest * 1_000 < (part + 1) * unit) by (nonlinear_arith)
        requires
            unit > 0,
            rest < unit,
            part == rest * 1_000 / unit,
    ;
    assert((whole * 1_000 + part) * unit <= n * 1_000 < (whole * 1_000 + part + 1) * unit)
        by (nonlinear_arith)
        requires
            n == whole * unit + rest,
            part * unit <= rest * 1_000 < (part + 1) * unit,
    ;
    lemma_short_decimals(part);
    lemma_is_fraction(crate::format::thousandths_text(n, unit, name), whole, part, 3, name);
}

/// Round trips and rates are given in the largest unit they reach, cut off to thousandths of it, and
/// in full below the smallest such unit.
pub proof fn law_units_suit_the_number(t: Nanos, bps: u64)
    ensures
        ({
            let n = t.0 as nat;
            let text = crate::format::rtt_text(t);
            if n >= 1_000_000_000 {
                is_scaled(text, n, 1_000_000_000, "s"@)
            } else if n >= 1_000_000 {
                is_scaled(text, n, 1_000_000, "ms"@)
            } else if n >= 1_000 {
                is_scaled(text, n, 1_000, "\u{b5}s"@)
            } else {
                text == crate::text::decimal(n) + "ns"@
            }
        }),
        ({
            let n = bps as nat;
            let text = crate::format::rate_text(bps);
            if n >= 1_000_000_000 {
                is_scaled(text, n, 1_000_000_000, "Gbps"@)
            } else if n >= 1_000_000 {
                is_scaled(text, n, 1_000_000, "Mbps"@)
            } else if n >= 1_000 {
                is_scaled(text, n, 1_000, "kbps"@)
            } else {
                text == crate::text::decimal(n) + "bps"@
            }
        }),
{
    let n = t.0 as nat;
    if n >= 1_000_000_000 {
        lemma_thousandths(n, 1_000_000_000, "s"@);
    } else if n >= 1_000_000 {
        lemma_thousandths(n, 1_000_000, "ms"@);
    } else if n >= 1_000 {
        lemma_thousandths(n, 1_000, "\u{b5}s"@);
    }
    let m = bps as nat;
    if m >= 1_000_000_000 {
        lemma_thousandths(m, 1_000_000_000, "Gbps"@);
    } else if m >= 1_000_000 {
        lemma_thousandths(m, 1_000_000, "Mbps"@);
    } else if m >= 1_000 {
        lemma_thousandths(m, 1_000, "kbps"@);
    }
}

/// `text` gives `n` in the unit `unit` with one digit behind the point, cut off.
pub open spec fn is_tenths(text: Seq<char>, n: nat, unit: nat, suffix: char) -> bool {
    exists|whole: nat, part: nat| #[trigger]
        is_fraction(text, whole, part, 1, seq![suffix]) && (whole * 10 + part) * unit <= n * 10 < (
        whole * 10 + part + 1) * unit
}

proof fn lemma_tenths(n: nat, unit: nat, suffix: char)
    requires
        unit > 0,
    ensures
        is_tenths(crate::format::tenths_text(n, unit, suffix), n, unit, suffix),
{
    let (whole, rest) = (n / unit, n % unit);
    let part = rest * 10 / unit;
    assert(n == whole * unit + rest && rest < unit) by (nonlinear_arith)
        requires
            unit > 0,
            whole == n / unit,
            rest == n % unit,
    ;
    assert(part < 10 && part * unit <= rest * 10 < (part + 1) * unit) by (nonlinear_arith)
        requires
            unit > 0,
            rest < unit,
            part == rest * 10 / unit,
    ;
    assert((whole * 10 + part) * unit <= n * 10 < (whole * 10 + part + 1) * unit)
        by (nonlinear_arith)
        requires
            n == whole * unit + rest,
            part * unit <= rest * 10 < (part + 1) * unit,
    ;
    lemma_short_decimals(part);
    assert(crate::text::padded(part, 1) =~= crate::text::decimal(part));
    lemma_is_fraction(crate::format::tenths_text(n, unit, suffix), whole, part, 1, seq![suffix]);
}

/// Offsets are given in full below a hundred thousand, with a sign where they are negative, and in
/// tenths of the largest unit they reach from there on.
pub proof fn law_offsets_suit_the_margin(n: int)
    ensures
        ({
            let text = crate::format::offset_text(n);
            if n < 0 {
                text == seq!['-'] + crate::text::decimal((-n) as nat)
            } else if n < 100_000 {
                text == crate::text::decimal(n as nat)
            } else if n < 1_000_000 {
                is_tenths(text, n as nat, 1_000, 'K')
            } else if n < 1_000_000_000 {
                is_tenths(text, n as nat, 1_000_000, 'M')
            } else if n < 1_000_000_000_000 {
                is_tenths(text, n as nat, 1_000_000_000, 'G')
            } else {
                is_tenths(text, n as nat, 1_000_000_000_000, 'T')
            }
        }),
{
    if n >= 1_000_000_000_000 {
        lemma_tenths(n as nat, 1_000_000_000_000, 'T');
    } else if n >= 1_000_000_000 {
        lemma_tenths(n as nat, 1_000_000_000, 'G');
    } else if n >= 1_000_000 {
        lemma_tenths(n as nat, 1_000_000, 'M');
    } else if n >= 100_000 {
        lemma_tenths(n as nat, 1_000, 'K');
    }
}

/// An IPv4 address is written as its four bytes in decimal with dots between them, the highest
/// first.
pub proof fn law_v4_addresses_read_back(a: u8, b: u8, c: u8, d: u8)
    ensures
        Ipv4Addr((a * 0x100_0000 + b * 0x1_0000 + c * 0x100 + d) as u32).text_spec()
            == crate::text::decimal(a as nat) + seq!['.'] + crate::text::decimal(b as nat) + seq![
            '.',
        ] + crate::text::decimal(c as nat) + seq!['.'] + crate::text::decimal(d as nat),
{
    crate::net::law_octets_of_new_address(a, b, c, d);
    reveal_with_fuel(crate::net::dotted, 5);
}

/// Groups in hexadecimal with colons between them.
pub open spec fn with_colons(groups: Seq<nat>) -> Seq<char>
    decreases groups.len(),
{
    if groups.len() == 0 {
        Seq::empty()
    } else if groups.len() == 1 {
        crate::text::hexadecimal(groups[0])
    } else {
        with_colons(groups.drop_last()) + seq![':'] + crate::text::hexadecimal(groups.last())
    }
}

/// The groups from `i` up to `j` are all zero.
pub open spec fn zeros_from(groups: Seq<nat>, i: int, j: int) -> bool {
    0 <= i <= j <= groups.len() && forall|k: int| i <= k < j ==> #[trigger] groups[k] == 0
}

/// An IPv6 address is written as its eight groups in hexadecimal with colons between them, the
/// highest first. The first of the longest runs of two or more zero groups is written as two colons;
/// an address that holds an IPv4 one ends in that.
pub proof fn law_v6_addresses_read_back(addr: Ipv6Addr)
    ensures
        ({
            let groups = addr.groups();
            let text = addr.text_spec();
            let mapped = addr.0 / 0x1_0000_0000 == 0xffff;
            &&& groups.len() == 8
            &&& mapped ==> text == "::ffff:"@ + Ipv4Addr(
                (addr.0 % 0x1_0000_0000) as u32,
            ).text_spec()
            &&& !mapped && (forall|i: int| !#[trigger] zeros_from(groups, i, i + 2)) ==> text
                == with_colons(groups)
            &&& !mapped && (exists|i: int| #[trigger] zeros_from(groups, i, i + 2)) ==> exists|
                i: int,
                j: int,
            | #[trigger]
                zeros_from(groups, i, j) && j - i >= 2 && (forall|a: int, b: int| #[trigger]
                    zeros_from(groups, a, b) ==> b - a < j - i || (b - a == j - i && a >= i))
                    && text == with_colons(groups.take(i)) + "::"@ + with_colons(groups.skip(j))
        }),
{
    let groups = addr.groups();
    lemma_digit_count(addr.0 as nat, 8);
    let run = crate::net::longest_run(groups, 8);
    lemma_longest_run(groups, 8);
    lemma_joined(groups, 0, 8);
    assert(groups.subrange(0, 8) =~= groups);
    if run.1 >= 2 {
        assert(zeros_from(groups, run.0, run.0 + 2));
        lemma_joined(groups, 0, run.0);
        lemma_joined(groups, run.0 + run.1, 8);
        assert(groups.subrange(0, run.0) =~= groups.take(run.0));
        assert(groups.subrange(run.0 + run.1, 8) =~= groups.skip(run.0 + run.1));
        assert(zeros_from(groups, run.0, run.0 + run.1));
    } else {
        assert forall|i: int| !#[trigger] zeros_from(groups, i, i + 2) by {
            if zeros_from(groups, i, i + 2) {
                assert(i + 2 - i <= run.1);
            }
        }
    }
}

proof fn lemma_digit_count(n: nat, count: nat)
    ensures
        crate::net::digits_of(n, 0x1_0000, count).len() == count,
    decreases count,
{
    if count > 0 {
        lemma_digit_count(n / 0x1_0000, (count - 1) as nat);
    }
}

/// The groups of an address are the digits of its number to the base of two bytes.
pub proof fn law_groups_make_up_the_address(addr: Ipv6Addr)
    ensures
        ({
            let g = addr.groups();
            &&& g.len() == 8
            &&& forall|i: int| 0 <= i < 8 ==> #[trigger] g[i] < 0x1_0000
            &&& addr.0 == ((((((g[0] * 0x1_0000 + g[1]) * 0x1_0000 + g[2]) * 0x1_0000 + g[3])
                * 0x1_0000 + g[4]) * 0x1_0000 + g[5]) * 0x1_0000 + g[6]) * 0x1_0000 + g[7]
        }),
{
    reveal_with_fuel(crate::net::digits_of, 9);
    lemma_digit_count(addr.0 as nat, 8);
}

proof fn lemma_joined(groups: Seq<nat>, from: int, to: int)
    requires
        0 <= from <= to <= groups.len(),
    ensures
        crate::net::colon_joined(groups, from, to) == with_colons(groups.subrange(from, to)),
    decreases to - from,
{
    let part = groups.subrange(from, to);
    if to - from > 1 {
        lemma_joined(groups, from, to - 1);
        assert(part.drop_last() =~= groups.subrange(from, to - 1));
    }
}

proof fn lemma_zero_run(groups: Seq<nat>, i: int)
    requires
        0 <= i <= groups.len(),
    ensures
        ({
            let n = crate::net::zero_run(groups, i);
            &&& zeros_from(groups, i, i + n)
            &&& i + n < groups.len() ==> groups[i + n] != 0
        }),
    decreases groups.len() - i,
{
    if i < groups.len() && groups[i] == 0 {
        lemma_zero_run(groups, i + 1);
    }
}

proof fn lemma_longest_run(groups: Seq<nat>, upto: nat)
    requires
        upto <= groups.len(),
    ensures
        ({
            let (i, n) = crate::net::longest_run(groups, upto);
            &&& zeros_from(groups, i, i + n)
            &&& n >= 0
            &&& 0 <= i && (i == 0 || i < upto)
            &&& forall|a: int, b: int| #[trigger]
                zeros_from(groups, a, b) && a < upto ==> b - a < n || (b - a == n && a >= i)
            &&& upto == groups.len() ==> forall|a: int, b: int| #[trigger]
                zeros_from(groups, a, b) ==> b - a <= n
        }),
    decreases upto,
{
    if upto > 0 {
        let last = upto - 1;
        lemma_longest_run(groups, last as nat);
        lemma_zero_run(groups, last);
        let here = crate::net::zero_run(groups, last);
        assert forall|a: int, b: int| #[trigger]
            zeros_from(groups, a, b) && a == last implies b - a <= here by {
            if b - a > here {
                assert(groups[last + here] == 0);
            }
        }
    }
}

/// The one name, where it is to be told.
pub open spec fn name_if(told: bool, name: Seq<char>) -> Seq<Seq<char>> {
    if told {
        seq![name]
    } else {
        Seq::empty()
    }
}

/// The control bits are written by their names in a fixed order, with bars between them, and a
/// segment without any as a dot.
pub proof fn law_flags_are_named_in_order(flags: TcpFlags)
    ensures
        ({
            let f = flags.0;
            let names = name_if(f & 0x02 != 0, "SYN"@) + name_if(f & 0x10 != 0, "ACK"@) + name_if(
                f & 0x01 != 0,
                "FIN"@,
            ) + name_if(f & 0x04 != 0, "RST"@) + name_if(f & 0x08 != 0, "PSH"@) + name_if(
                f & 0x20 != 0,
                "URG"@,
            ) + name_if(f & 0x40 != 0, "ECE"@) + name_if(f & 0x80 != 0, "CWR"@) + name_if(
                f & 0x100 != 0,
                "NS"@,
            );
            flags.text_spec() == (if names.len() == 0 {
                "."@
            } else {
                with_bars(names)
            })
        }),
{
    lemma_one_more_name(flags, 0);
    assert(flags.names(1) =~= name_if(flags.0 & 0x02 != 0, "SYN"@));
    lemma_one_more_name(flags, 1);
    lemma_one_more_name(flags, 2);
    lemma_one_more_name(flags, 3);
    lemma_one_more_name(flags, 4);
    lemma_one_more_name(flags, 5);
    lemma_one_more_name(flags, 6);
    lemma_one_more_name(flags, 7);
    lemma_one_more_name(flags, 8);
    lemma_bars(flags.names(9));
}

proof fn lemma_one_more_name(flags: TcpFlags, i: nat)
    ensures
        flags.names(i + 1) == flags.names(i) + name_if(
            flags.0 & crate::segment::listed_mask(i as int) != 0,
            crate::segment::listed_name(i as int),
        ),
{
}

/// Names with bars between them.
pub open spec fn with_bars(names: Seq<Seq<char>>) -> Seq<char>
    decreases names.len(),
{
    if names.len() == 0 {
        Seq::empty()
    } else if names.len() == 1 {
        names[0]
    } else {
        with_bars(names.drop_last()) + seq!['|'] + names.last()
    }
}

proof fn lemma_bars(names: Seq<Seq<char>>)
    ensures
        crate::segment::bar_joined(names) == with_bars(names),
    decreases names.len(),
{
    if names.len() > 1 {
        lemma_bars(names.drop_last());
    }
}

/// An end is written as its address and its port with a colon between them, an IPv6 address in
/// brackets; a flow as its source and its destination, in this order.
pub proof fn law_ends_and_flows_read_back(flow: FlowKey, end: Endpoint)
    ensures
        end.ip matches IpAddr::V4(a) ==> end.text_spec() == a.text_spec() + ":"@
            + crate::text::decimal(end.port as nat),
        end.ip matches IpAddr::V6(a) ==> end.text_spec() == "["@ + a.text_spec() + "]:"@
            + crate::text::decimal(end.port as nat),
        ({
            let source = Endpoint { ip: flow.src_ip, port: flow.src_port };
            let destination = Endpoint { ip: flow.dst_ip, port: flow.dst_port };
            flow.text_spec() == source.text_spec() + " -> "@ + destination.text_spec()
        }),
{
    reveal_strlit(":");
    reveal_strlit("[");
    assert(":"@ =~= seq![':']);
    assert("["@ =~= seq!['[']);
}

} // verus!
