//! What a frame holds, byte by byte, and what comes out when it is decoded.

use vstd::prelude::*;

use crate::decode::{OutcomeModel, TcpOption};
use crate::ingest::SkipReason;
use crate::link::LinkType;
use crate::net::{IpAddr, Ipv4Addr, Ipv6Addr};
use crate::time::Nanos;

verus! {

/// The `n` bytes of `b` from `off` on hold `x`, most significant byte first.
pub open spec fn written_at(b: Seq<u8>, off: int, n: nat, x: int) -> bool
    decreases n,
{
    if n == 0 {
        x == 0
    } else {
        &&& x >= 0
        &&& b[off + n - 1] == x % 256
        &&& written_at(b, off, (n - 1) as nat, x / 256)
    }
}

proof fn lemma_written_is_read(b: Seq<u8>, off: int, n: nat, x: int)
    requires
        written_at(b, off, n, x),
    ensures
        crate::decode::be_number(b, off, n) == x,
    decreases n,
{
    if n > 0 {
        lemma_written_is_read(b, off, (n - 1) as nat, x / 256);
    }
}

/// The fields of a TCP header, and how many bytes follow it.
pub ghost struct TcpFields {
    pub src_port: u16,
    pub dst_port: u16,
    pub seq: u32,
    pub ack: u32,
    /// The length of the header in words of four bytes.
    pub words: int,
    /// The nine control bits.
    pub bits: u16,
    pub window: u16,
    pub payload: int,
}

/// From `off` on `b` holds a TCP header with these fields, options of any kind included.
pub open spec fn holds_tcp(b: Seq<u8>, off: int, tcp: TcpFields) -> bool {
    &&& 5 <= tcp.words <= 15
    &&& tcp.payload >= 0
    &&& tcp.bits < 512
    &&& written_at(b, off, 2, tcp.src_port as int)
    &&& written_at(b, off + 2, 2, tcp.dst_port as int)
    &&& written_at(b, off + 4, 4, tcp.seq as int)
    &&& written_at(b, off + 8, 4, tcp.ack as int)
    &&& b[off + 12] / 16 == tcp.words
    &&& b[off + 12] % 2 == tcp.bits / 256
    &&& b[off + 13] == tcp.bits % 256
    &&& written_at(b, off + 14, 2, tcp.window as int)
}

/// `ip` starts with an IPv4 packet from `src` to `dst` that is no fragment and holds TCP: a header of
/// `words` words, then the TCP header and the payload up to the end that the header gives. More
/// bytes may follow.
pub open spec fn holds_v4(ip: Seq<u8>, src: u32, dst: u32, words: int, tcp: TcpFields) -> bool {
    let end = 4 * words + 4 * tcp.words + tcp.payload;
    &&& 5 <= words <= 15
    &&& end <= ip.len()
    &&& ip[0] == 0x40 + words
    &&& written_at(ip, 2, 2, end)
    &&& ip[6] % 64 == 0 && ip[7] == 0
    &&& ip[9] == 6
    &&& written_at(ip, 12, 4, src as int)
    &&& written_at(ip, 16, 4, dst as int)
    &&& holds_tcp(ip, 4 * words, tcp)
}

/// `ip` starts with an IPv6 packet from `src` to `dst` that holds TCP behind its fixed header, up to
/// the end that the header gives. More bytes may follow.
pub open spec fn holds_v6(ip: Seq<u8>, src: u128, dst: u128, tcp: TcpFields) -> bool {
    let rest = 4 * tcp.words + tcp.payload;
    &&& 40 + rest <= ip.len()
    &&& ip[0] / 16 == 6
    &&& written_at(ip, 4, 2, rest)
    &&& ip[6] == 6
    &&& written_at(ip, 8, 16, src as int)
    &&& written_at(ip, 24, 16, dst as int)
    &&& holds_tcp(ip, 40, tcp)
}

/// `outcome` is a segment at `ts` from `src` to `dst` with these fields.
pub open spec fn is_segment(
    outcome: OutcomeModel,
    ts: Nanos,
    src: IpAddr,
    dst: IpAddr,
    tcp: TcpFields,
    options: Seq<u8>,
) -> bool {
    outcome matches OutcomeModel::Decoded(seg) && {
        &&& seg.ts == ts
        &&& seg.flow.src_ip == src
        &&& seg.flow.src_port == tcp.src_port
        &&& seg.flow.dst_ip == dst
        &&& seg.flow.dst_port == tcp.dst_port
        &&& seg.seq.0 == tcp.seq
        &&& seg.ack.0 == tcp.ack
        &&& seg.flags.0 == tcp.bits
        &&& seg.window == tcp.window
        &&& seg.payload_len == tcp.payload
        &&& seg.options == crate::decode::folded_options(
            crate::decode::readable(crate::decode::tcp_options(options)),
        )
    }
}

proof fn lemma_bits_read_back(h: crate::decode::TcpHeader, low: u8, high: u8, bits: u16)
    requires
        bits < 512,
        low == bits % 256,
        high % 2 == bits / 256,
        h.fin == crate::decode::bit(low, 1),
        h.syn == crate::decode::bit(low, 2),
        h.rst == crate::decode::bit(low, 4),
        h.psh == crate::decode::bit(low, 8),
        h.ack == crate::decode::bit(low, 16),
        h.urg == crate::decode::bit(low, 32),
        h.ece == crate::decode::bit(low, 64),
        h.cwr == crate::decode::bit(low, 128),
        h.ns == crate::decode::bit(high, 1),
    ensures
        crate::decode::flag_bits(h) == bits,
{
    let (fin, syn, rst, psh, ack) = (h.fin, h.syn, h.rst, h.psh, h.ack);
    let (urg, ece, cwr, ns) = (h.urg, h.ece, h.cwr, h.ns);
    let (l, x) = (low as u16, high as u16);
    assert((if fin { 1u16 } else { 0u16 }) | (if syn { 2u16 } else { 0u16 }) | (if rst {
        4u16
    } else {
        0u16
    }) | (if psh { 8u16 } else { 0u16 }) | (if ack { 16u16 } else { 0u16 }) | (if urg {
        32u16
    } else {
        0u16
    }) | (if ece { 64u16 } else { 0u16 }) | (if cwr { 128u16 } else { 0u16 }) | (if ns {
        256u16
    } else {
        0u16
    }) == bits) by (bit_vector)
        requires
            bits < 512u16,
            l == bits % 256u16,
            x % 2u16 == bits / 256u16,
            fin == (l % 2u16 == 1u16),
            syn == ((l / 2u16) % 2u16 == 1u16),
            rst == ((l / 4u16) % 2u16 == 1u16),
            psh == ((l / 8u16) % 2u16 == 1u16),
            ack == ((l / 16u16) % 2u16 == 1u16),
            urg == ((l / 32u16) % 2u16 == 1u16),
            ece == ((l / 64u16) % 2u16 == 1u16),
            cwr == ((l / 128u16) % 2u16 == 1u16),
            ns == (x % 2u16 == 1u16),
    ;
}

proof fn lemma_written_in_part(b: Seq<u8>, from: int, upto: int, off: int, n: nat, x: int)
    requires
        0 <= from,
        0 <= off,
        from + off + n <= upto <= b.len(),
        written_at(b, from + off, n, x),
    ensures
        written_at(b.subrange(from, upto), off, n, x),
    decreases n,
{
    if n > 0 {
        lemma_written_in_part(b, from, upto, off, (n - 1) as nat, x / 256);
        assert(b.subrange(from, upto)[off + n - 1] == b[from + off + n - 1]);
    }
}

/// The fields of a TCP header are read back from its bytes.
proof fn lemma_tcp_reads_back(ip: Seq<u8>, off: int, tcp: TcpFields)
    requires
        holds_tcp(ip, off, tcp),
        0 <= off,
        off + 4 * tcp.words + tcp.payload <= ip.len(),
    ensures
        ({
            let b = ip.subrange(off, off + 4 * tcp.words + tcp.payload);
            let h = crate::decode::tcp_header(b);
            &&& crate::decode::has_tcp_header(b)
            &&& crate::decode::tcp_header_len(b) == 4 * tcp.words
            &&& b.len() == 4 * tcp.words + tcp.payload
            &&& h.source_port == tcp.src_port
            &&& h.destination_port == tcp.dst_port
            &&& h.seq == tcp.seq
            &&& h.ack_number == tcp.ack
            &&& h.window == tcp.window
            &&& crate::decode::flag_bits(h) == tcp.bits
            &&& b.subrange(20, 4 * tcp.words) == ip.subrange(off + 20, off + 4 * tcp.words)
        }),
{
    let upto = off + 4 * tcp.words + tcp.payload;
    let b = ip.subrange(off, upto);
    lemma_written_in_part(ip, off, upto, 0, 2, tcp.src_port as int);
    lemma_written_in_part(ip, off, upto, 2, 2, tcp.dst_port as int);
    lemma_written_in_part(ip, off, upto, 4, 4, tcp.seq as int);
    lemma_written_in_part(ip, off, upto, 8, 4, tcp.ack as int);
    lemma_written_in_part(ip, off, upto, 14, 2, tcp.window as int);
    lemma_written_is_read(b, 0, 2, tcp.src_port as int);
    lemma_written_is_read(b, 2, 2, tcp.dst_port as int);
    lemma_written_is_read(b, 4, 4, tcp.seq as int);
    lemma_written_is_read(b, 8, 4, tcp.ack as int);
    lemma_written_is_read(b, 14, 2, tcp.window as int);
    assert(b[12] == ip[off + 12]);
    assert(b[13] == ip[off + 13]);
    let h = crate::decode::tcp_header(b);
    lemma_bits_read_back(h, b[13], b[12], tcp.bits);
    assert(b.subrange(20, 4 * tcp.words) =~= ip.subrange(off + 20, off + 4 * tcp.words));
}

/// What a whole IPv4 packet with TCP decodes to: every field as it stands in the bytes, and as
/// payload length exactly the bytes between the end of the TCP header and the end of the packet,
/// whatever options either header holds and whatever follows the packet. So packets that differ in
/// their options only have the same payload length, and a header with nothing behind it has none.
pub proof fn law_v4_packets_read_as_they_were_written(
    ts: Nanos,
    ip: Seq<u8>,
    src: u32,
    dst: u32,
    words: int,
    tcp: TcpFields,
)
    requires
        holds_v4(ip, src, dst, words, tcp),
    ensures
        crate::decode::carries(ip, 6),
        is_segment(
            crate::decode::tcp_outcome(ts, ip, false),
            ts,
            IpAddr::V4(Ipv4Addr(src)),
            IpAddr::V4(Ipv4Addr(dst)),
            tcp,
            ip.subrange(4 * words + 20, 4 * words + 4 * tcp.words),
        ),
{
    let off = 4 * words;
    let end = off + 4 * tcp.words + tcp.payload;
    lemma_written_is_read(ip, 2, 2, end);
    lemma_written_is_read(ip, 12, 4, src as int);
    lemma_written_is_read(ip, 16, 4, dst as int);
    lemma_two_bytes_fit(ip, 2, end);
    assert(ip[0] % 16 == words && ip[0] / 16 == 4);
    assert(crate::decode::ip_payload(ip) == ip.subrange(off, end));
    lemma_tcp_reads_back(ip, off, tcp);
}

proof fn lemma_two_bytes_fit(b: Seq<u8>, off: int, x: int)
    requires
        written_at(b, off, 2, x),
    ensures
        0 <= x < 0x1_0000,
{
    reveal_with_fuel(written_at, 3);
}

/// What a whole IPv6 packet with TCP decodes to, as for IPv4.
pub proof fn law_v6_packets_read_as_they_were_written(
    ts: Nanos,
    ip: Seq<u8>,
    src: u128,
    dst: u128,
    tcp: TcpFields,
)
    requires
        holds_v6(ip, src, dst, tcp),
    ensures
        crate::decode::carries(ip, 6),
        is_segment(
            crate::decode::tcp_outcome(ts, ip, false),
            ts,
            IpAddr::V6(Ipv6Addr(src)),
            IpAddr::V6(Ipv6Addr(dst)),
            tcp,
            ip.subrange(60, 40 + 4 * tcp.words),
        ),
{
    let rest = 4 * tcp.words + tcp.payload;
    lemma_written_is_read(ip, 4, 2, rest);
    lemma_written_is_read(ip, 8, 16, src as int);
    lemma_written_is_read(ip, 24, 16, dst as int);
    lemma_two_bytes_fit(ip, 4, rest);
    assert(crate::decode::ip_payload(ip) == ip.subrange(40, 40 + rest));
    lemma_tcp_reads_back(ip, 40, tcp);
}

/// Behind each supported link header stands the packet that was put there: fourteen bytes of
/// Ethernet, sixteen or twenty of a cooked capture, four of a loopback one, and none of a raw one,
/// with the type of IPv4 or IPv6 where the header has one. Any other type is not TCP.
pub proof fn law_packets_are_found_behind_their_link_header(
    link: LinkType,
    head: Seq<u8>,
    ip: Seq<u8>,
)
    requires
        match link {
            LinkType::RawIp => head.len() == 0,
            LinkType::Null => head.len() == 4,
            LinkType::Ethernet => head.len() == 14,
            LinkType::LinuxSll => head.len() == 16,
            LinkType::LinuxSll2 => head.len() == 20,
        },
    ensures
        ({
            let at = match link {
                LinkType::Ethernet => 12int,
                LinkType::LinuxSll => 14,
                _ => 0,
            };
            let typed = link != LinkType::RawIp && link != LinkType::Null;
            let v4 = head[at] == 0x08 && head[at + 1] == 0x00;
            let v6 = head[at] == 0x86 && head[at + 1] == 0xdd;
            let tag = (head[at] == 0x81 && head[at + 1] == 0x00) || (head[at] == 0x88 && head[at
                + 1] == 0xa8);
            &&& !typed || v4 || v6 ==> crate::link::ip_offset(link, head + ip) == Ok::<
                int,
                SkipReason,
            >(head.len() as int) && (head + ip).skip(head.len() as int) == ip
            &&& typed && !v4 && !v6 && !(tag && link == LinkType::Ethernet)
                ==> crate::link::ip_offset(link, head + ip) == Err::<int, SkipReason>(
                SkipReason::NonTcp,
            )
        }),
{
    let frame = head + ip;
    assert(frame.skip(head.len() as int) =~= ip);
    assert(forall|k: int| 0 <= k < head.len() ==> #[trigger] frame[k] == head[k]);
}

/// A frame that ends within its link header is malformed.
pub proof fn law_cut_link_headers_are_malformed(link: LinkType, frame: Seq<u8>)
    requires
        match link {
            LinkType::RawIp => false,
            LinkType::Null => frame.len() < 4,
            LinkType::Ethernet => frame.len() < 14,
            LinkType::LinuxSll => frame.len() < 16,
            LinkType::LinuxSll2 => frame.len() < 2,
        },
    ensures
        crate::link::ip_offset(link, frame) == Err::<int, SkipReason>(SkipReason::Malformed),
{
}

/// A packet without a readable IP header is skipped: as cut short where a cut frame lost part of
/// the header, as malformed elsewhere, and always where its version or header length is
/// impossible. A fragment is skipped as such.
pub proof fn law_packets_without_a_header_are_skipped(ts: Nanos, ip: Seq<u8>, truncated: bool)
    ensures
        ({
            let version = ip[0] / 16;
            let words = ip[0] % 16;
            let short = ip.len() == 0 || (version == 4 && words >= 5 && ip.len() < 4 * words) || (
            version == 6 && ip.len() < 40);
            let broken = ip.len() > 0 && ((version != 4 && version != 6) || (version == 4 && words
                < 5));
            let outcome = crate::decode::packet_outcome(ts, ip, truncated);
            &&& short && truncated ==> outcome == OutcomeModel::Skipped(SkipReason::Truncated)
            &&& short && !truncated ==> outcome == OutcomeModel::Skipped(SkipReason::Malformed)
            &&& broken ==> outcome == OutcomeModel::Skipped(SkipReason::Malformed)
            &&& !short && !broken && version == 4 && (ip[6] % 64 != 0 || ip[7] != 0) ==> outcome
                == OutcomeModel::Skipped(SkipReason::Ipv6Fragment)
        }),
{
}

/// The last option of a kind counts, and one that is not there is not told: so for the segment
/// size, the window scale and the timestamp.
pub proof fn law_the_last_option_of_a_kind_counts(list: Seq<TcpOption>, i: int)
    requires
        0 <= i < list.len(),
    ensures
        ({
            let said = crate::decode::folded_options(list);
            &&& list[i] is Mss && (forall|k: int| i < k < list.len() ==> !(#[trigger] list[k] is Mss))
                ==> said.mss == Some(list[i]->Mss_0)
            &&& list[i] is WindowScale && (forall|k: int|
                i < k < list.len() ==> !(#[trigger] list[k] is WindowScale)) ==> said.window_scale
                == Some(list[i]->WindowScale_0)
            &&& list[i] is SackPermitted ==> said.sack_permitted
            &&& list[i] is Timestamp && (forall|k: int|
                i < k < list.len() ==> !(#[trigger] list[k] is Timestamp)) ==> said.timestamp
                == Some((list[i]->Timestamp_0, list[i]->Timestamp_1))
        }),
    decreases list.len(),
{
    let front = list.drop_last();
    if i < front.len() {
        assert(front[i] == list[i]);
        assert(forall|k: int| 0 <= k < front.len() ==> #[trigger] front[k] == list[k]);
        law_the_last_option_of_a_kind_counts(front, i);
        assert(list[list.len() - 1] == list.last());
    }
}

/// An option that is not there is not told.
pub proof fn law_missing_options_are_not_told(list: Seq<TcpOption>)
    ensures
        ({
            let said = crate::decode::folded_options(list);
            &&& said.mss is Some ==> exists|k: int| 0 <= k < list.len() && #[trigger] list[k] is Mss
            &&& said.window_scale is Some ==> exists|k: int|
                0 <= k < list.len() && #[trigger] list[k] is WindowScale
            &&& said.sack_permitted ==> exists|k: int|
                0 <= k < list.len() && #[trigger] list[k] is SackPermitted
            &&& said.timestamp is Some ==> exists|k: int|
                0 <= k < list.len() && #[trigger] list[k] is Timestamp
        }),
    decreases list.len(),
{
    if list.len() > 0 {
        let front = list.drop_last();
        law_missing_options_are_not_told(front);
        assert(forall|k: int| 0 <= k < front.len() ==> #[trigger] front[k] == list[k]);
        assert(list[list.len() - 1] == list.last());
    }
}

/// The blocks of selective acknowledgements that one option holds, in order.
pub open spec fn blocks_of(option: TcpOption) -> Seq<(u32, u32)> {
    match option {
        TcpOption::Sack(first, a, b, c) => seq![first] + held(a) + held(b) + held(c),
        _ => Seq::empty(),
    }
}

/// The block, if there is one.
pub open spec fn held(block: Option<(u32, u32)>) -> Seq<(u32, u32)> {
    match block {
        Some(edges) => seq![edges],
        None => Seq::empty(),
    }
}

/// Selective acknowledgements add up in the order of their options, both edges of each block as
/// they stand.
pub proof fn law_selective_acks_add_up(list: Seq<TcpOption>, option: TcpOption)
    ensures
        ({
            let before = crate::decode::folded_options(list).sack_blocks;
            let after = crate::decode::folded_options(list.push(option)).sack_blocks;
            &&& after.len() == before.len() + blocks_of(option).len()
            &&& after.take(before.len() as int) == before
            &&& forall|k: int|
                0 <= k < blocks_of(option).len() ==> {
                    let (left, right) = #[trigger] after[before.len() + k];
                    left.0 == blocks_of(option)[k].0 && right.0 == blocks_of(option)[k].1
                }
        }),
        crate::decode::folded_options(Seq::empty()).sack_blocks.len() == 0,
{
    assert(list.push(option).drop_last() =~= list);
    let before = crate::decode::folded_options(list).sack_blocks;
    let after = crate::decode::folded_options(list.push(option)).sack_blocks;
    assert(after.take(before.len() as int) =~= before);
}

/// Options are read up to the first that cannot be read, and all of them where each can.
pub proof fn law_options_are_read_up_to_a_broken_one(
    good: Seq<TcpOption>,
    rest: Seq<Option<TcpOption>>,
)
    ensures
        crate::decode::readable(good.map_values(|o: TcpOption| Some(o))) == good,
        crate::decode::readable(good.map_values(|o: TcpOption| Some(o)) + seq![None] + rest) == good,
    decreases good.len(),
{
    let list = good.map_values(|o: TcpOption| Some(o));
    let long = list + seq![None] + rest;
    if good.len() > 0 {
        let tail = good.skip(1);
        law_options_are_read_up_to_a_broken_one(tail, rest);
        assert(list.skip(1) =~= tail.map_values(|o: TcpOption| Some(o)));
        assert(long.skip(1) =~= tail.map_values(|o: TcpOption| Some(o)) + seq![None] + rest);
        assert(seq![good[0]] + tail =~= good);
    } else {
        assert(list =~= Seq::empty());
        assert(long[0] is None);
        assert(crate::decode::readable(list) =~= good);
        assert(crate::decode::readable(long) =~= good);
    }
}

/// Names come from datagrams that were sent from port 53, and from nothing else that UDP carries.
pub proof fn law_only_the_dns_port_names_hosts(ts: Nanos, ip: Seq<u8>, truncated: bool)
    requires
        crate::decode::carries(ip, 17),
    ensures
        ({
            let b = crate::decode::ip_payload(ip);
            let outcome = crate::decode::udp_outcome(ts, ip, truncated);
            &&& !(outcome is Decoded)
            &&& outcome is Names ==> b.len() >= 8 && b[0] == 0 && b[1] == 53
            &&& b.len() >= 8 && b[0] == 0 && b[1] == 53 && !(outcome is Names)
                ==> crate::dns::message_observations(
                ts,
                crate::decode::bounded(b, 8, crate::decode::be_number(b, 4, 2) as int),
            ).len() == 0
        }),
{
    let b = crate::decode::ip_payload(ip);
    crate::decode::law_datagrams_are_names_or_skips(ts, ip, truncated);
    reveal_with_fuel(crate::decode::be_number, 3);
}

/// A frame counts as cut where fewer bytes were captured than were on the wire, and only there; it
/// is judged by what stands behind its link header, and by the header alone where nothing does.
pub proof fn law_frames_are_cut_where_bytes_are_missing(
    link: LinkType,
    ts: Nanos,
    frame: Seq<u8>,
    wire_len: u32,
)
    ensures
        ({
            let outcome = crate::decode::frame_outcome(link, ts, frame, wire_len);
            match crate::link::ip_offset(link, frame) {
                Ok(off) => {
                    &&& frame.len() < wire_len ==> outcome == crate::decode::packet_outcome(
                        ts,
                        frame.skip(off),
                        true,
                    )
                    &&& frame.len() >= wire_len ==> outcome == crate::decode::packet_outcome(
                        ts,
                        frame.skip(off),
                        false,
                    )
                },
                Err(reason) => outcome == OutcomeModel::Skipped(reason),
            }
        }),
{
}

} // verus!
