//! IP addresses, their order and their text.

use vstd::prelude::*;

use crate::text::{append_decimal, append_hexadecimal};

verus! {

/// An IPv4 address as the number its four octets spell, most significant first.
#[derive(Debug, Clone, Copy, PartialEq, Eq, PartialOrd, Ord, Hash, Structural)]
pub struct Ipv4Addr(pub u32);

/// An IPv6 address as the number its eight groups spell, most significant first.
#[derive(Debug, Clone, Copy, PartialEq, Eq, PartialOrd, Ord, Hash, Structural)]
pub struct Ipv6Addr(pub u128);

/// An address of either family. Every IPv4 address sorts before every IPv6 address; within a
/// family addresses sort by number.
#[derive(Debug, Clone, Copy, PartialEq, Eq, PartialOrd, Ord, Hash, Structural)]
pub enum IpAddr {
    V4(Ipv4Addr),
    V6(Ipv6Addr),
}

/// The `count` least significant digits of `n` in base `base`, most significant first.
pub open spec fn digits_of(n: nat, base: nat, count: nat) -> Seq<nat>
    decreases count,
{
    if count == 0 {
        Seq::empty()
    } else {
        digits_of(n / base, base, (count - 1) as nat).push(n % base)
    }
}

impl Ipv4Addr {
    /// The address `a.b.c.d`.
    #[must_use]
    pub fn new(a: u8, b: u8, c: u8, d: u8) -> (res: Ipv4Addr)
        ensures
            res.0 == a * 0x100_0000 + b * 0x1_0000 + c * 0x100 + d,
    {
        Ipv4Addr(a as u32 * 0x100_0000 + b as u32 * 0x1_0000 + c as u32 * 0x100 + d as u32)
    }

    /// The loopback address.
    #[must_use]
    pub fn localhost() -> (res: Ipv4Addr)
        ensures
            res.0 == 127 * 0x100_0000 + 1,
    {
        Ipv4Addr::new(127, 0, 0, 1)
    }

    /// The four octets, first octet first.
    pub open spec fn octets(self) -> Seq<nat> {
        digits_of(self.0 as nat, 256, 4)
    }

    /// The octets in decimal with dots between them.
    pub open spec fn text_spec(self) -> Seq<char> {
        dotted(self.octets(), 4)
    }
}

/// The first `count` octets in decimal with dots between them.
pub open spec fn dotted(octets: Seq<nat>, count: nat) -> Seq<char>
    decreases count,
{
    if count == 0 {
        Seq::empty()
    } else if count == 1 {
        crate::text::decimal(octets[0])
    } else {
        dotted(octets, (count - 1) as nat) + seq!['.'] + crate::text::decimal(octets[count - 1])
    }
}

/// The octets that `Ipv4Addr::new` is given are the octets of the address it returns.
pub proof fn law_octets_of_new_address(a: u8, b: u8, c: u8, d: u8)
    ensures
        Ipv4Addr((a * 0x100_0000 + b * 0x1_0000 + c * 0x100 + d) as u32).octets() == seq![
            a as nat,
            b as nat,
            c as nat,
            d as nat,
        ],
{
    let n: nat = (a * 0x100_0000 + b * 0x1_0000 + c * 0x100 + d) as nat;
    reveal_with_fuel(digits_of, 5);
    assert(n / 256 / 256 / 256 == a);
    assert(digits_of(n, 256, 4) =~= seq![a as nat, b as nat, c as nat, d as nat]);
}

/// Appends the dotted form of `addr`.
fn append_v4(out: &mut String, addr: Ipv4Addr)
    ensures
        final(out)@ == old(out)@ + addr.text_spec(),
{
    let n: u32 = addr.0;
    proof {
        reveal_with_fuel(digits_of, 5);
        reveal_with_fuel(dotted, 5);
    }
    append_decimal(out, (n / 256 / 256 / 256 % 256) as u64);
    out.push('.');
    append_decimal(out, (n / 256 / 256 % 256) as u64);
    out.push('.');
    append_decimal(out, (n / 256 % 256) as u64);
    out.push('.');
    append_decimal(out, (n % 256) as u64);
    proof {
        assert(out@ =~= old(out)@ + addr.text_spec());
    }
}

impl Ipv6Addr {
    /// The address with the given eight groups.
    #[must_use]
    pub fn new(a: u16, b: u16, c: u16, d: u16, e: u16, f: u16, g: u16, h: u16) -> (res: Ipv6Addr)
        ensures
            res.0 == ((((((a * 0x1_0000 + b) * 0x1_0000 + c) * 0x1_0000 + d) * 0x1_0000 + e)
                * 0x1_0000 + f) * 0x1_0000 + g) * 0x1_0000 + h,
    {
        let high: u128 = ((a as u128 * 0x1_0000 + b as u128) * 0x1_0000 + c as u128) * 0x1_0000
            + d as u128;
        let low: u128 = ((e as u128 * 0x1_0000 + f as u128) * 0x1_0000 + g as u128) * 0x1_0000
            + h as u128;
        Ipv6Addr(high * 0x1_0000_0000_0000_0000 + low)
    }

    /// The loopback address.
    #[must_use]
    pub fn localhost() -> (res: Ipv6Addr)
        ensures
            res.0 == 1,
    {
        Ipv6Addr(1)
    }

    /// The eight groups, first group first.
    pub open spec fn groups(self) -> Seq<nat> {
        digits_of(self.0 as nat, 0x1_0000, 8)
    }

    /// Whether this is an IPv4 address mapped into IPv6 (`::ffff:a.b.c.d`).
    pub open spec fn is_mapped_v4(self) -> bool {
        self.0 / 0x1_0000_0000 == 0xffff
    }

    /// The canonical text: an IPv4-mapped address ends in dotted form; otherwise groups are in
    /// hexadecimal with colons between them, and the first of the longest runs of at least two
    /// zero groups is written as `::`.
    pub open spec fn text_spec(self) -> Seq<char> {
        let groups = self.groups();
        let run = longest_run(groups, 8);
        if self.is_mapped_v4() {
            "::ffff:"@ + Ipv4Addr((self.0 % 0x1_0000_0000) as u32).text_spec()
        } else if run.1 >= 2 {
            colon_joined(groups, 0, run.0) + "::"@ + colon_joined(groups, run.0 + run.1, 8)
        } else {
            colon_joined(groups, 0, 8)
        }
    }
}

/// The number of zero groups in a row from index `i` on.
pub open spec fn zero_run(groups: Seq<nat>, i: int) -> int
    decreases groups.len() - i,
{
    if 0 <= i < groups.len() && groups[i] == 0 {
        1 + zero_run(groups, i + 1)
    } else {
        0
    }
}

/// The start and length of the longest run of zero groups that begins before index `upto`; the
/// first of them where several are equally long.
pub open spec fn longest_run(groups: Seq<nat>, upto: nat) -> (int, int)
    decreases upto,
{
    if upto == 0 {
        (0, 0)
    } else {
        let best = longest_run(groups, (upto - 1) as nat);
        let here = zero_run(groups, upto - 1);
        if here > best.1 {
            (upto - 1, here)
        } else {
            best
        }
    }
}

/// Groups `from` up to `to` in hexadecimal with colons between them.
pub open spec fn colon_joined(groups: Seq<nat>, from: int, to: int) -> Seq<char>
    decreases to - from,
{
    if from >= to {
        Seq::empty()
    } else if from + 1 == to {
        crate::text::hexadecimal(groups[from])
    } else {
        colon_joined(groups, from, to - 1) + seq![':'] + crate::text::hexadecimal(groups[to - 1])
    }
}

/// The groups of `n`, as numbers.
fn group_list(n: u128, count: u8) -> (res: Vec<u16>)
    requires
        count <= 8,
    ensures
        res@.len() == count,
        res@.map_values(|g: u16| g as nat) == digits_of(n as nat, 0x1_0000, count as nat),
    decreases count,
{
    if count == 0 {
        let res: Vec<u16> = Vec::new();
        proof {
            assert(res@.map_values(|g: u16| g as nat) =~= digits_of(n as nat, 0x1_0000, 0));
        }
        return res;
    }
    let mut res: Vec<u16> = group_list(n / 0x1_0000, count - 1);
    let last: u16 = (n % 0x1_0000) as u16;
    let ghost before = res@;
    res.push(last);
    proof {
        assert(res@.map_values(|g: u16| g as nat) =~= before.map_values(|g: u16| g as nat).push(
            last as nat,
        ));
    }
    res
}

/// The length of the run of zero groups that starts at `i`.
fn run_at(groups: &Vec<u16>, i: usize) -> (res: usize)
    requires
        i <= groups@.len(),
    ensures
        res == zero_run(groups@.map_values(|g: u16| g as nat), i as int),
        res <= groups@.len() - i,
    decreases groups@.len() - i,
{
    if i < groups.len() && groups[i] == 0 {
        1 + run_at(groups, i + 1)
    } else {
        0
    }
}

/// Appends groups `from` up to `to` with colons between them.
fn append_groups(out: &mut String, groups: &Vec<u16>, from: usize, to: usize)
    requires
        from <= to <= groups@.len(),
    ensures
        final(out)@ == old(out)@ + colon_joined(
            groups@.map_values(|g: u16| g as nat),
            from as int,
            to as int,
        ),
{
    let ghost list = groups@.map_values(|g: u16| g as nat);
    let ghost start = out@;
    let mut i: usize = from;
    while i < to
        invariant
            from <= i <= to <= groups@.len(),
            list == groups@.map_values(|g: u16| g as nat),
            out@ == start + colon_joined(list, from as int, i as int),
        decreases to - i,
    {
        if i > from {
            out.push(':');
        }
        append_hexadecimal(out, groups[i]);
        i = i + 1;
        proof {
            assert(out@ =~= start + colon_joined(list, from as int, i as int));
        }
    }
}

/// Appends the canonical text of `addr`.
fn append_v6(out: &mut String, addr: Ipv6Addr)
    ensures
        final(out)@ == old(out)@ + addr.text_spec(),
{
    let ghost start = out@;
    if addr.0 / 0x1_0000_0000 == 0xffff {
        out.append("::ffff:");
        append_v4(out, Ipv4Addr((addr.0 % 0x1_0000_0000) as u32));
        proof {
            assert(out@ =~= start + addr.text_spec());
        }
        return ;
    }
    let groups: Vec<u16> = group_list(addr.0, 8);
    let ghost list = addr.groups();
    let mut best_start: usize = 0;
    let mut best_len: usize = 0;
    let mut i: usize = 0;
    while i < 8
        invariant
            i <= 8,
            groups@.len() == 8,
            list == groups@.map_values(|g: u16| g as nat),
            longest_run(list, i as nat) == (best_start as int, best_len as int),
            best_start + best_len <= 8,
        decreases 8 - i,
    {
        let here: usize = run_at(&groups, i);
        if here > best_len {
            best_start = i;
            best_len = here;
        }
        i = i + 1;
    }
    if best_len >= 2 {
        append_groups(out, &groups, 0, best_start);
        out.append("::");
        append_groups(out, &groups, best_start + best_len, 8);
    } else {
        append_groups(out, &groups, 0, 8);
    }
    proof {
        assert(out@ =~= start + addr.text_spec());
    }
}

impl IpAddr {
    /// The text of the address.
    pub open spec fn text_spec(self) -> Seq<char> {
        match self {
            IpAddr::V4(a) => a.text_spec(),
            IpAddr::V6(a) => a.text_spec(),
        }
    }

    /// The text of the address.
    #[must_use]
    pub fn text(self) -> (res: String)
        ensures
            res@ == self.text_spec(),
    {
        let mut out = String::new();
        match self {
            IpAddr::V4(a) => append_v4(&mut out, a),
            IpAddr::V6(a) => append_v6(&mut out, a),
        }
        proof {
            assert(out@ =~= self.text_spec());
        }
        out
    }

    /// The family and number that order addresses.
    pub open spec fn rank(self) -> (int, int) {
        match self {
            IpAddr::V4(a) => (4, a.0 as int),
            IpAddr::V6(a) => (6, a.0 as int),
        }
    }

    /// `self` sorts strictly before `other`.
    pub open spec fn before(self, other: IpAddr) -> bool {
        self.rank().0 < other.rank().0 || (self.rank().0 == other.rank().0 && self.rank().1
            < other.rank().1)
    }

    /// Whether `self` sorts strictly before `other`.
    #[must_use]
    pub fn sorts_before(self, other: IpAddr) -> (res: bool)
        ensures
            res == self.before(other),
    {
        match (self, other) {
            (IpAddr::V4(a), IpAddr::V4(b)) => a.0 < b.0,
            (IpAddr::V4(_), IpAddr::V6(_)) => true,
            (IpAddr::V6(_), IpAddr::V4(_)) => false,
            (IpAddr::V6(a), IpAddr::V6(b)) => a.0 < b.0,
        }
    }
}

} // verus!
