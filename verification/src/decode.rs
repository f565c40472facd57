//! Decoding of captured frames.

use etherparse::err::ip::LaxHeaderSliceError;
use etherparse::err::packet::SliceError;
use etherparse::err::Layer;
use etherparse::{
    LaxIpSlice, LaxSlicedPacket, TcpOptionElement, TcpOptionsIterator, TcpSlice, TransportSlice,
};
use vstd::prelude::*;
use vstd::slice::slice_subrange;

use crate::dns::parse_dns_answers;
use crate::flow::FlowKey;
use crate::ingest::SkipReason;
use crate::link::{strip_link, LinkType, Stripped};
use crate::name::{NameModel, NameObservation};
use crate::net::{IpAddr, Ipv4Addr, Ipv6Addr};
use crate::segment::{OptionsModel, Segment, SegmentModel, TcpFlags, TcpOptions};
use crate::seq::TcpSeq;
use crate::time::Nanos;

verus! {

/// The port that DNS answers come from.
pub const DNS_PORT: u16 = 53;

/// The protocol number of TCP.
pub const PROTOCOL_TCP: u8 = 6;

/// The protocol number of UDP.
pub const PROTOCOL_UDP: u8 = 17;

/// The big-endian number in the `n` bytes from `off` on.
pub open spec fn be_number(b: Seq<u8>, off: int, n: nat) -> nat
    decreases n,
{
    if n == 0 {
        0
    } else {
        be_number(b, off, (n - 1) as nat) * 256 + b[off + n - 1] as nat
    }
}

/// The fields of an IP header that matter here: source, destination, the length field (of the
/// whole packet for IPv4, of what follows the fixed header for IPv6), and whether the packet is
/// a fragment.
#[derive(Debug, Clone, Copy, PartialEq, Eq, Structural)]
pub enum IpHeader {
    V4(u32, u32, u16, bool),
    V6(u128, u128, u16, bool),
}

/// Why there is no IP header: the bytes end too early, or they say something impossible.
#[derive(Debug, Clone, Copy, PartialEq, Eq, Structural)]
pub enum IpError {
    TooShort,
    Invalid,
}

/// The length of an IPv4 header, as its first byte gives it.
pub open spec fn v4_header_len(ip: Seq<u8>) -> nat {
    ((ip[0] % 16) * 4) as nat
}

/// The IP header at the start of `ip`. `v6_fragment` says whether an IPv6 packet is a fragment.
pub open spec fn ip_header(ip: Seq<u8>, v6_fragment: bool) -> Result<IpHeader, IpError> {
    if ip.len() == 0 {
        Err(IpError::TooShort)
    } else if ip[0] / 16 == 4 {
        if v4_header_len(ip) < 20 {
            Err(IpError::Invalid)
        } else if ip.len() < v4_header_len(ip) {
            Err(IpError::TooShort)
        } else {
            Ok(
                IpHeader::V4(
                    be_number(ip, 12, 4) as u32,
                    be_number(ip, 16, 4) as u32,
                    be_number(ip, 2, 2) as u16,
                    ip[6] % 64 != 0 || ip[7] != 0,
                ),
            )
        }
    } else if ip[0] / 16 == 6 {
        if ip.len() < 40 {
            Err(IpError::TooShort)
        } else {
            Ok(
                IpHeader::V6(
                    be_number(ip, 8, 16) as u128,
                    be_number(ip, 24, 16) as u128,
                    be_number(ip, 4, 2) as u16,
                    v6_fragment,
                ),
            )
        }
    } else {
        Err(IpError::Invalid)
    }
}

/// Whether the IPv6 packet `ip` is a fragment of a larger one.
pub uninterp spec fn v6_is_fragment(ip: Seq<u8>) -> bool;

/// Calls `etherparse::LaxIpSlice::from_slice` and hands out the fields of the header. Claims that
/// the header is read as `ip_header` says. Whether an IPv6 packet is a fragment is claimed only to
/// be a function of the bytes, and false where TCP or UDP follows the fixed header directly.
#[verifier::external_body]
fn read_ip_header(ip: &[u8]) -> (res: Result<IpHeader, IpError>)
    ensures
        res == ip_header(ip@, v6_is_fragment(ip@)),
        res matches Ok(IpHeader::V6(_, _, _, fragment)) ==> (ip@[6] == PROTOCOL_TCP || ip@[6]
            == PROTOCOL_UDP) ==> !fragment,
{
    match LaxIpSlice::from_slice(ip) {
        Ok((LaxIpSlice::Ipv4(v), _)) => {
            let h = v.header();
            let (from, to) = (h.source_addr().to_bits(), h.destination_addr().to_bits());
            Ok(IpHeader::V4(from, to, h.total_len(), v.is_payload_fragmented()))
        },
        Ok((LaxIpSlice::Ipv6(v), _)) => {
            let h = v.header();
            let (from, to) = (h.source_addr().to_bits(), h.destination_addr().to_bits());
            Ok(IpHeader::V6(from, to, h.payload_length(), v.is_payload_fragmented()))
        },
        Err(LaxHeaderSliceError::Len(_)) => Err(IpError::TooShort),
        Err(LaxHeaderSliceError::Content(_)) => Err(IpError::Invalid),
    }
}

/// The transport layer of an IP packet: the bytes of a TCP segment, the source port and payload
/// of a UDP datagram, or another protocol.
#[derive(Debug, Clone, Copy, PartialEq, Eq)]
pub enum Transport<'a> {
    Tcp(&'a [u8]),
    Udp(u16, &'a [u8]),
    Other,
}

/// The layer at which the reading of a packet stopped.
#[derive(Debug, Clone, Copy, PartialEq, Eq, Structural)]
pub enum StopLayer {
    IpHeader,
    Ipv6ExtHeader,
    HopByHop,
    DestOptions,
    Route,
    Fragment,
    Auth,
    Other,
}

/// Why the reading of a packet stopped: whether the bytes ended too early, and where.
#[derive(Debug, Clone, Copy, PartialEq, Eq, Structural)]
pub struct Stop {
    pub short: bool,
    pub layer: StopLayer,
}

/// What an IP packet carries, and what stopped the reading if something did.
#[derive(Debug, Clone, Copy, PartialEq, Eq)]
pub struct IpContent<'a> {
    pub transport: Option<Transport<'a>>,
    pub stop: Option<Stop>,
}

/// A transport layer by its bytes.
#[verifier::ext_equal]
pub enum TransportModel {
    Tcp(Seq<u8>),
    Udp(u16, Seq<u8>),
    Other,
}

/// What an IP packet carries, by its bytes.
#[verifier::ext_equal]
pub struct ContentModel {
    pub transport: Option<TransportModel>,
    pub stop: Option<Stop>,
}

impl<'a> View for Transport<'a> {
    type V = TransportModel;

    open spec fn view(&self) -> TransportModel {
        match self {
            Transport::Tcp(b) => TransportModel::Tcp(b@),
            Transport::Udp(port, b) => TransportModel::Udp(*port, b@),
            Transport::Other => TransportModel::Other,
        }
    }
}

impl<'a> View for IpContent<'a> {
    type V = ContentModel;

    open spec fn view(&self) -> ContentModel {
        ContentModel {
            transport: match self.transport {
                Some(t) => Some(t@),
                None => None,
            },
            stop: self.stop,
        }
    }
}

impl<'a> IpContent<'a> {
    /// A TCP segment starts with a whole header.
    pub open spec fn wf(self) -> bool {
        self.transport matches Some(Transport::Tcp(b)) ==> has_tcp_header(b@)
    }
}

/// The length of a TCP header, as its data offset gives it.
pub open spec fn tcp_header_len(b: Seq<u8>) -> nat {
    ((b[12] / 16) * 4) as nat
}

/// `b` starts with a whole TCP header.
pub open spec fn has_tcp_header(b: Seq<u8>) -> bool {
    b.len() >= 20 && 20 <= tcp_header_len(b) <= b.len()
}

/// The part of `b` from `start` on that is `declared` bytes long, or all of it if so many are not
/// there.
pub open spec fn bounded(b: Seq<u8>, start: int, declared: int) -> Seq<u8> {
    if start <= declared <= b.len() {
        b.subrange(start, declared)
    } else {
        b.skip(start)
    }
}

/// What follows the IPv4 header or the fixed IPv6 header of `ip`, without what lies behind the
/// end that the header gives. An end before the payload, and no length at all in an IPv6 header,
/// count as not given.
pub open spec fn ip_payload(ip: Seq<u8>) -> Seq<u8> {
    if ip[0] / 16 == 4 {
        bounded(ip, v4_header_len(ip) as int, be_number(ip, 2, 2) as int)
    } else if be_number(ip, 4, 2) == 0 {
        ip.skip(40)
    } else {
        bounded(ip, 40, (40 + be_number(ip, 4, 2)) as int)
    }
}

/// The header of `ip` is whole, names `protocol` as what follows it directly, and is not that of an
/// IPv4 fragment.
pub open spec fn carries(ip: Seq<u8>, protocol: u8) -> bool {
    match ip_header(ip, false) {
        Ok(IpHeader::V4(_, _, _, fragment)) => !fragment && ip[9] == protocol,
        Ok(IpHeader::V6(..)) => ip[6] == protocol,
        Err(_) => false,
    }
}

/// What a packet with the payload `b` carries if that is meant to be TCP.
pub open spec fn tcp_content(b: Seq<u8>) -> ContentModel {
    if has_tcp_header(b) {
        ContentModel { transport: Some(TransportModel::Tcp(b)), stop: None }
    } else {
        ContentModel {
            transport: None,
            stop: Some(
                Stop { short: b.len() < 20 || tcp_header_len(b) >= 20, layer: StopLayer::Other },
            ),
        }
    }
}

/// What a packet with the payload `b` carries if that is meant to be UDP. A length before the
/// payload or behind the end counts as not given.
pub open spec fn udp_content(b: Seq<u8>) -> ContentModel {
    if b.len() >= 8 {
        ContentModel {
            transport: Some(
                TransportModel::Udp(
                    be_number(b, 0, 2) as u16,
                    bounded(b, 8, be_number(b, 4, 2) as int),
                ),
            ),
            stop: None,
        }
    } else {
        ContentModel {
            transport: None,
            stop: Some(Stop { short: true, layer: StopLayer::Other }),
        }
    }
}

/// What the IP packet `ip` carries.
pub uninterp spec fn ip_content(ip: Seq<u8>) -> ContentModel;

/// Calls `etherparse::LaxSlicedPacket::from_ip` and hands out the transport layer and the error
/// that stopped the reading. Claims that the call succeeds exactly if the IP header can be read,
/// that a TCP segment starts with a whole header, and, where the IP header names TCP or UDP, what
/// comes out. Of the other protocols and of packets with extension headers it claims only that the
/// result is a function of the bytes.
#[verifier::external_body]
fn read_ip_content(ip: &[u8]) -> (res: Option<IpContent<'_>>)
    ensures
        res is Some <==> ip_header(ip@, false) is Ok,
        res matches Some(content) ==> content@ == ip_content(ip@),
        res matches Some(content) ==> content.wf(),
        res matches Some(content) ==> carries(ip@, PROTOCOL_TCP) ==> content@ == tcp_content(
            ip_payload(ip@),
        ),
        res matches Some(content) ==> carries(ip@, PROTOCOL_UDP) ==> content@ == udp_content(
            ip_payload(ip@),
        ),
{
    let packet = LaxSlicedPacket::from_ip(ip).ok()?;
    let transport = packet.transport.map(|t| match t {
        TransportSlice::Tcp(t) => Transport::Tcp(t.slice()),
        TransportSlice::Udp(u) => Transport::Udp(u.source_port(), u.payload()), _ => Transport::Other,
    });
    let stop = packet.stop_err.map(|(e, l)| Stop {
        short: matches!(e, SliceError::Len(_)),
        layer: match l {
            Layer::IpHeader => StopLayer::IpHeader, Layer::Ipv6ExtHeader => StopLayer::Ipv6ExtHeader,
            Layer::Ipv6HopByHopHeader => StopLayer::HopByHop, Layer::Ipv6RouteHeader => StopLayer::Route,
            Layer::Ipv6DestOptionsHeader => StopLayer::DestOptions, Layer::IpAuthHeader => StopLayer::Auth,
            Layer::Ipv6FragHeader => StopLayer::Fragment, _ => StopLayer::Other,
        } });
    Some(IpContent { transport, stop })
}

/// The fields of a TCP header.
#[derive(Debug, Clone, Copy, PartialEq, Eq, Structural)]
pub struct TcpHeader {
    pub source_port: u16,
    pub destination_port: u16,
    pub seq: u32,
    pub ack_number: u32,
    pub window: u16,
    pub header_len: usize,
    pub fin: bool,
    pub syn: bool,
    pub rst: bool,
    pub psh: bool,
    pub ack: bool,
    pub urg: bool,
    pub ece: bool,
    pub cwr: bool,
    pub ns: bool,
}

/// The bit of `byte` with the weight `weight`.
pub open spec fn bit(byte: u8, weight: u8) -> bool {
    (byte / weight) % 2 == 1
}

/// The fields of the TCP header at the start of `b`.
pub open spec fn tcp_header(b: Seq<u8>) -> TcpHeader {
    TcpHeader {
        source_port: be_number(b, 0, 2) as u16,
        destination_port: be_number(b, 2, 2) as u16,
        seq: be_number(b, 4, 4) as u32,
        ack_number: be_number(b, 8, 4) as u32,
        window: be_number(b, 14, 2) as u16,
        header_len: tcp_header_len(b) as usize,
        fin: bit(b[13], 1),
        syn: bit(b[13], 2),
        rst: bit(b[13], 4),
        psh: bit(b[13], 8),
        ack: bit(b[13], 16),
        urg: bit(b[13], 32),
        ece: bit(b[13], 64),
        cwr: bit(b[13], 128),
        ns: bit(b[12], 1),
    }
}

/// Calls `etherparse::TcpSlice::from_slice` and its accessors. Claims that the call succeeds
/// exactly if there is a whole header, and that the fields are read from their places in it.
#[verifier::external_body]
fn read_tcp_header(b: &[u8]) -> (res: Option<TcpHeader>)
    ensures
        res is Some <==> has_tcp_header(b@),
        res matches Some(header) ==> header == tcp_header(b@),
{
    let t = TcpSlice::from_slice(b).ok()?;
    Some(TcpHeader {
        source_port: t.source_port(), destination_port: t.destination_port(),
        seq: t.sequence_number(), ack_number: t.acknowledgment_number(),
        window: t.window_size(), header_len: t.header_len(),
        fin: t.fin(), syn: t.syn(), rst: t.rst(), psh: t.psh(), ack: t.ack(),
        urg: t.urg(), ece: t.ece(), cwr: t.cwr(), ns: t.ns(),
    })
}

/// A TCP option.
#[derive(Debug, Clone, Copy, PartialEq, Eq)]
pub enum TcpOption {
    Noop,
    Mss(u16),
    WindowScale(u8),
    SackPermitted,
    Sack((u32, u32), Option<(u32, u32)>, Option<(u32, u32)>, Option<(u32, u32)>),
    Timestamp(u32, u32),
}

/// The options in the option bytes of a TCP header, in order; `None` stands for one that cannot
/// be read.
pub uninterp spec fn tcp_options(b: Seq<u8>) -> Seq<Option<TcpOption>>;

/// Walks `etherparse::TcpOptionsIterator` over the option bytes. Claims only that the options are
/// a function of the bytes.
#[verifier::external_body]
fn read_tcp_options(b: &[u8]) -> (res: Vec<Option<TcpOption>>)
    ensures
        res@ == tcp_options(b@),
{
    let convert = |e: TcpOptionElement| match e {
        TcpOptionElement::Noop => TcpOption::Noop,
        TcpOptionElement::MaximumSegmentSize(v) => TcpOption::Mss(v),
        TcpOptionElement::WindowScale(v) => TcpOption::WindowScale(v),
        TcpOptionElement::SelectiveAcknowledgementPermitted => TcpOption::SackPermitted,
        TcpOptionElement::SelectiveAcknowledgement(first, [a, b, c]) => TcpOption::Sack(first, a, b, c),
        TcpOptionElement::Timestamp(a, b) => TcpOption::Timestamp(a, b),
    };
    TcpOptionsIterator::from_slice(b).map(|e| e.ok().map(convert)).collect()
}

/// `blocks` with the block `more` behind it, if there is one.
pub open spec fn with_block(
    blocks: Seq<(TcpSeq, TcpSeq)>,
    more: Option<(u32, u32)>,
) -> Seq<(TcpSeq, TcpSeq)> {
    match more {
        Some((a, b)) => blocks.push((TcpSeq(a), TcpSeq(b))),
        None => blocks,
    }
}

/// What `opts` says once `option` has been read.
pub open spec fn with_option(opts: OptionsModel, option: TcpOption) -> OptionsModel {
    match option {
        TcpOption::Noop => opts,
        TcpOption::Mss(v) => OptionsModel { mss: Some(v), ..opts },
        TcpOption::WindowScale(v) => OptionsModel { window_scale: Some(v), ..opts },
        TcpOption::SackPermitted => OptionsModel { sack_permitted: true, ..opts },
        TcpOption::Sack(first, a, b, c) => OptionsModel {
            sack_blocks: with_block(
                with_block(with_block(with_block(opts.sack_blocks, Some(first)), a), b),
                c,
            ),
            ..opts
        },
        TcpOption::Timestamp(a, b) => OptionsModel { timestamp: Some((a, b)), ..opts },
    }
}

/// What a header without options says.
pub open spec fn no_options() -> OptionsModel {
    OptionsModel {
        mss: None,
        window_scale: None,
        sack_permitted: false,
        timestamp: None,
        sack_blocks: Seq::empty(),
    }
}

/// The options up to the first that cannot be read.
pub open spec fn readable(list: Seq<Option<TcpOption>>) -> Seq<TcpOption>
    decreases list.len(),
{
    if list.len() == 0 {
        Seq::empty()
    } else {
        match list[0] {
            Some(option) => seq![option] + readable(list.skip(1)),
            None => Seq::empty(),
        }
    }
}

/// What the options of `list` say together: a later one overrides an earlier one of its kind,
/// selective acknowledgements add up.
pub open spec fn folded_options(list: Seq<TcpOption>) -> OptionsModel
    decreases list.len(),
{
    if list.len() == 0 {
        no_options()
    } else {
        with_option(folded_options(list.drop_last()), list.last())
    }
}

fn push_block(blocks: &mut Vec<(TcpSeq, TcpSeq)>, more: Option<(u32, u32)>)
    ensures
        final(blocks)@ == with_block(old(blocks)@, more),
{
    if let Some((a, b)) = more {
        blocks.push((TcpSeq(a), TcpSeq(b)));
    }
}

fn apply_option(opts: &mut TcpOptions, option: TcpOption)
    ensures
        final(opts)@ == with_option(old(opts)@, option),
{
    match option {
        TcpOption::Noop => {},
        TcpOption::Mss(v) => {
            opts.mss = Some(v);
        },
        TcpOption::WindowScale(v) => {
            opts.window_scale = Some(v);
        },
        TcpOption::SackPermitted => {
            opts.sack_permitted = true;
        },
        TcpOption::Sack(first, a, b, c) => {
            push_block(&mut opts.sack_blocks, Some(first));
            push_block(&mut opts.sack_blocks, a);
            push_block(&mut opts.sack_blocks, b);
            push_block(&mut opts.sack_blocks, c);
        },
        TcpOption::Timestamp(a, b) => {
            opts.timestamp = Some((a, b));
        },
    }
}

/// What a list of options says: reading stops at the first that cannot be read, and keeps what
/// came before.
#[must_use]
pub fn fold_options(list: &Vec<Option<TcpOption>>) -> (res: TcpOptions)
    ensures
        res@ == folded_options(readable(list@)),
{
    let mut opts = TcpOptions::default();
    let mut i: usize = 0;
    let ghost mut read: Seq<TcpOption> = Seq::empty();
    proof {
        assert(opts@ =~= no_options());
        assert(read + readable(list@.skip(0)) =~= readable(list@)) by {
            assert(list@.skip(0) =~= list@);
        }
    }
    while i < list.len()
        invariant
            i <= list@.len(),
            opts@ == folded_options(read),
            read + readable(list@.skip(i as int)) == readable(list@),
        decreases list@.len() - i,
    {
        let ghost rest = list@.skip(i as int);
        proof {
            assert(rest.skip(1) =~= list@.skip(i + 1));
        }
        match list[i] {
            Some(option) => {
                apply_option(&mut opts, option);
                proof {
                    let more = read.push(option);
                    assert(more.drop_last() =~= read);
                    assert(read + (seq![option] + readable(rest.skip(1))) =~= more + readable(
                        rest.skip(1),
                    ));
                    read = more;
                }
            },
            None => {
                proof {
                    assert(read + readable(rest) =~= read);
                }
                return opts;
            },
        }
        i = i + 1;
    }
    proof {
        assert(read + readable(list@.skip(i as int)) =~= read);
    }
    opts
}

/// The control bits of a header.
pub open spec fn flag_bits(h: TcpHeader) -> u16 {
    (if h.fin { TcpFlags::FIN } else { 0u16 })
        | (if h.syn { TcpFlags::SYN } else { 0u16 })
        | (if h.rst { TcpFlags::RST } else { 0u16 })
        | (if h.psh { TcpFlags::PSH } else { 0u16 })
        | (if h.ack { TcpFlags::ACK } else { 0u16 })
        | (if h.urg { TcpFlags::URG } else { 0u16 })
        | (if h.ece { TcpFlags::ECE } else { 0u16 })
        | (if h.cwr { TcpFlags::CWR } else { 0u16 })
        | (if h.ns { TcpFlags::NS } else { 0u16 })
}

fn build_flags(h: &TcpHeader) -> (res: TcpFlags)
    ensures
        res.0 == flag_bits(*h),
{
    TcpFlags(
        (if h.fin { TcpFlags::FIN } else { 0u16 })
            | (if h.syn { TcpFlags::SYN } else { 0u16 })
            | (if h.rst { TcpFlags::RST } else { 0u16 })
            | (if h.psh { TcpFlags::PSH } else { 0u16 })
            | (if h.ack { TcpFlags::ACK } else { 0u16 })
            | (if h.urg { TcpFlags::URG } else { 0u16 })
            | (if h.ece { TcpFlags::ECE } else { 0u16 })
            | (if h.cwr { TcpFlags::CWR } else { 0u16 })
            | (if h.ns { TcpFlags::NS } else { 0u16 }),
    )
}

/// The control bits of a decoded segment are those of its header, each under its own mask.
pub proof fn law_flags_read_back(h: TcpHeader)
    ensures
        ({
            let flags = TcpFlags(flag_bits(h));
            &&& flags.has(TcpFlags::FIN) == h.fin
            &&& flags.has(TcpFlags::SYN) == h.syn
            &&& flags.has(TcpFlags::RST) == h.rst
            &&& flags.has(TcpFlags::PSH) == h.psh
            &&& flags.has(TcpFlags::ACK) == h.ack
            &&& flags.has(TcpFlags::URG) == h.urg
            &&& flags.has(TcpFlags::ECE) == h.ece
            &&& flags.has(TcpFlags::CWR) == h.cwr
            &&& flags.has(TcpFlags::NS) == h.ns
        }),
{
    let fin = h.fin;
    let syn = h.syn;
    let rst = h.rst;
    let psh = h.psh;
    let ack = h.ack;
    let urg = h.urg;
    let ece = h.ece;
    let cwr = h.cwr;
    let ns = h.ns;
    let all = flag_bits(h);
    assert(((all & 1 != 0) == fin) && ((all & 2 != 0) == syn) && ((all & 4 != 0) == rst) && ((all
        & 8 != 0) == psh) && ((all & 16 != 0) == ack) && ((all & 32 != 0) == urg) && ((all & 64
        != 0) == ece) && ((all & 128 != 0) == cwr) && ((all & 256 != 0) == ns)) by (bit_vector)
        requires
            all == (if fin { 1u16 } else { 0u16 }) | (if syn { 2u16 } else { 0u16 })
                | (if rst { 4u16 } else { 0u16 }) | (if psh { 8u16 } else { 0u16 })
                | (if ack { 16u16 } else { 0u16 }) | (if urg { 32u16 } else { 0u16 })
                | (if ece { 64u16 } else { 0u16 }) | (if cwr { 128u16 } else { 0u16 })
                | (if ns { 256u16 } else { 0u16 }),
    ;
}

/// The outcome of decoding one frame.
#[derive(Debug, PartialEq, Eq)]
pub enum DecodeOutcome {
    Decoded(Segment),
    Names(Vec<NameObservation>),
    Skipped(SkipReason),
}

/// The outcome of decoding one frame, by what it says.
#[verifier::ext_equal]
pub enum OutcomeModel {
    Decoded(SegmentModel),
    Names(Seq<NameModel>),
    Skipped(SkipReason),
}

impl View for DecodeOutcome {
    type V = OutcomeModel;

    open spec fn view(&self) -> OutcomeModel {
        match self {
            DecodeOutcome::Decoded(seg) => OutcomeModel::Decoded(seg@),
            DecodeOutcome::Names(list) => OutcomeModel::Names(
                list@.map_values(|o: NameObservation| o@),
            ),
            DecodeOutcome::Skipped(reason) => OutcomeModel::Skipped(*reason),
        }
    }
}

impl StopLayer {
    /// The layer belongs to the chain of extension headers of an IPv6 packet.
    pub open spec fn in_v6_chain(self) -> bool {
        match self {
            StopLayer::Ipv6ExtHeader
            | StopLayer::HopByHop
            | StopLayer::DestOptions
            | StopLayer::Route
            | StopLayer::Fragment
            | StopLayer::Auth => true,
            StopLayer::IpHeader | StopLayer::Other => false,
        }
    }
}

/// Why a packet without TCP is skipped; `v6` says whether it is an IPv6 packet. Bytes that end too
/// early are the fault of a cut frame if it was cut; an IPv6 extension chain that cannot be
/// followed is named as such, and so is an IP header that cannot.
pub open spec fn no_tcp_reason(stop: Option<Stop>, v6: bool, truncated: bool) -> SkipReason {
    match stop {
        Some(s) => if s.short && truncated {
            SkipReason::Truncated
        } else if (v6 && s.layer.in_v6_chain()) || s.layer == StopLayer::IpHeader {
            SkipReason::UnsupportedExtChain
        } else {
            SkipReason::NonTcp
        },
        None => SkipReason::NonTcp,
    }
}

/// Why a packet without TCP is skipped.
#[must_use]
pub fn classify_no_tcp(stop: Option<Stop>, v6: bool, truncated: bool) -> (res: SkipReason)
    ensures
        res == no_tcp_reason(stop, v6, truncated),
{
    match stop {
        Some(s) => {
            if s.short && truncated {
                SkipReason::Truncated
            } else {
                match s.layer {
                    StopLayer::IpHeader => SkipReason::UnsupportedExtChain,
                    StopLayer::Other => SkipReason::NonTcp,
                    _ => if v6 {
                        SkipReason::UnsupportedExtChain
                    } else {
                        SkipReason::NonTcp
                    },
                }
            }
        },
        None => SkipReason::NonTcp,
    }
}

impl IpHeader {
    /// Where the packet comes from.
    pub open spec fn source(self) -> IpAddr {
        match self {
            IpHeader::V4(bits, _, _, _) => IpAddr::V4(Ipv4Addr(bits)),
            IpHeader::V6(bits, _, _, _) => IpAddr::V6(Ipv6Addr(bits)),
        }
    }

    /// Where the packet goes.
    pub open spec fn destination(self) -> IpAddr {
        match self {
            IpHeader::V4(_, bits, _, _) => IpAddr::V4(Ipv4Addr(bits)),
            IpHeader::V6(_, bits, _, _) => IpAddr::V6(Ipv6Addr(bits)),
        }
    }

    /// The length of the packet, as its header gives it.
    pub open spec fn declared_len(self) -> nat {
        match self {
            IpHeader::V4(_, _, total_len, _) => total_len as nat,
            IpHeader::V6(_, _, payload_len, _) => 40 + payload_len as nat,
        }
    }

    /// The packet is a fragment.
    pub open spec fn is_fragment(self) -> bool {
        match self {
            IpHeader::V4(_, _, _, fragment) => fragment,
            IpHeader::V6(_, _, _, fragment) => fragment,
        }
    }
}

/// How many bytes of TCP payload were on the wire: those captured, and those that a cut frame
/// lost out of `ip_len` declared ones.
pub open spec fn wire_payload(
    header: IpHeader,
    ip_len: nat,
    truncated: bool,
    tcp_len: nat,
    tcp_header_len: nat,
) -> u32 {
    let missing: int = if truncated && header.declared_len() > ip_len {
        header.declared_len() - ip_len
    } else {
        0
    };
    let len = tcp_len - tcp_header_len + missing;
    if len > u32::MAX {
        u32::MAX
    } else {
        len as u32
    }
}

/// The segment with the TCP bytes `b` in a packet of `ip_len` captured bytes.
pub open spec fn segment_model(
    ts: Nanos,
    header: IpHeader,
    ip_len: nat,
    truncated: bool,
    b: Seq<u8>,
) -> SegmentModel {
    let tcp = tcp_header(b);
    SegmentModel {
        ts,
        flow: FlowKey {
            src_ip: header.source(),
            src_port: tcp.source_port,
            dst_ip: header.destination(),
            dst_port: tcp.destination_port,
        },
        seq: TcpSeq(tcp.seq),
        ack: TcpSeq(tcp.ack_number),
        flags: TcpFlags(flag_bits(tcp)),
        window: tcp.window,
        options: folded_options(readable(tcp_options(b.subrange(20, tcp_header_len(b) as int)))),
        payload_len: wire_payload(header, ip_len, truncated, b.len(), tcp_header_len(b)),
    }
}

/// What becomes of a packet with this header and content.
pub open spec fn layers_outcome(
    ts: Nanos,
    header: IpHeader,
    content: ContentModel,
    ip_len: nat,
    truncated: bool,
) -> OutcomeModel {
    if header.is_fragment() {
        OutcomeModel::Skipped(SkipReason::Ipv6Fragment)
    } else {
        match content.transport {
            Some(TransportModel::Tcp(b)) => OutcomeModel::Decoded(
                segment_model(ts, header, ip_len, truncated, b),
            ),
            Some(TransportModel::Udp(port, payload)) => if port == DNS_PORT && crate::dns::message_observations(
                ts,
                payload,
            ).len() > 0 {
                OutcomeModel::Names(crate::dns::message_observations(ts, payload))
            } else {
                OutcomeModel::Skipped(no_tcp_reason(content.stop, header is V6, truncated))
            },
            _ => OutcomeModel::Skipped(no_tcp_reason(content.stop, header is V6, truncated)),
        }
    }
}

/// What becomes of the IP packet `ip`.
pub open spec fn packet_outcome(ts: Nanos, ip: Seq<u8>, truncated: bool) -> OutcomeModel {
    match ip_header(ip, v6_is_fragment(ip)) {
        Err(IpError::TooShort) => if truncated {
            OutcomeModel::Skipped(SkipReason::Truncated)
        } else {
            OutcomeModel::Skipped(SkipReason::Malformed)
        },
        Err(IpError::Invalid) => OutcomeModel::Skipped(SkipReason::Malformed),
        Ok(header) => layers_outcome(ts, header, ip_content(ip), ip.len(), truncated),
    }
}

/// What becomes of the IP packet `ip` if its header names TCP as what follows directly.
pub open spec fn tcp_outcome(ts: Nanos, ip: Seq<u8>, truncated: bool) -> OutcomeModel {
    layers_outcome(
        ts,
        ip_header(ip, false)->Ok_0,
        tcp_content(ip_payload(ip)),
        ip.len(),
        truncated,
    )
}

/// What becomes of the IP packet `ip` if its header names UDP as what follows directly.
pub open spec fn udp_outcome(ts: Nanos, ip: Seq<u8>, truncated: bool) -> OutcomeModel {
    layers_outcome(
        ts,
        ip_header(ip, false)->Ok_0,
        udp_content(ip_payload(ip)),
        ip.len(),
        truncated,
    )
}

/// What becomes of a frame that had `wire_len` bytes on the wire.
pub open spec fn frame_outcome(
    link: LinkType,
    ts: Nanos,
    frame: Seq<u8>,
    wire_len: u32,
) -> OutcomeModel {
    match crate::link::ip_offset(link, frame) {
        Err(reason) => OutcomeModel::Skipped(reason),
        Ok(off) => packet_outcome(ts, frame.skip(off), wire_len > frame.len()),
    }
}

/// The number of payload bytes on the wire, from the captured lengths.
fn wire_payload_len(
    header: &IpHeader,
    ip_len: usize,
    truncated: bool,
    tcp_len: usize,
    header_len: usize,
) -> (res: u32)
    requires
        header_len <= tcp_len,
    ensures
        res == wire_payload(*header, ip_len as nat, truncated, tcp_len as nat, header_len as nat),
{
    let declared: usize = match *header {
        IpHeader::V4(_, _, total_len, _) => total_len as usize,
        IpHeader::V6(_, _, payload_len, _) => 40 + payload_len as usize,
    };
    let missing: usize = if truncated && declared > ip_len {
        declared - ip_len
    } else {
        0
    };
    let captured: usize = tcp_len - header_len;
    if captured > u32::MAX as usize {
        return u32::MAX;
    }
    let total: u64 = captured as u64 + missing as u64;
    if total > u32::MAX as u64 {
        u32::MAX
    } else {
        total as u32
    }
}

/// What becomes of a packet of `ip_len` captured bytes with this header and content: a fragment
/// is skipped, TCP is decoded, DNS answers are read, and all else is skipped for a reason.
#[must_use]
pub fn decode_layers(
    ts: Nanos,
    header: IpHeader,
    content: IpContent<'_>,
    ip_len: usize,
    truncated: bool,
) -> (res: DecodeOutcome)
    requires
        content.wf(),
    ensures
        res@ == layers_outcome(ts, header, content@, ip_len as nat, truncated),
{
    let (src_ip, dst_ip, fragment, v6) = match header {
        IpHeader::V4(from, to, _, fragment) => (
            IpAddr::V4(Ipv4Addr(from)),
            IpAddr::V4(Ipv4Addr(to)),
            fragment,
            false,
        ),
        IpHeader::V6(from, to, _, fragment) => (
            IpAddr::V6(Ipv6Addr(from)),
            IpAddr::V6(Ipv6Addr(to)),
            fragment,
            true,
        ),
    };
    if fragment {
        return DecodeOutcome::Skipped(SkipReason::Ipv6Fragment);
    }
    match content.transport {
        Some(Transport::Tcp(b)) => {
            if let Some(tcp) = read_tcp_header(b) {
                let options = read_tcp_options(slice_subrange(b, 20, tcp.header_len));
                return DecodeOutcome::Decoded(
                    Segment {
                        ts,
                        flow: FlowKey {
                            src_ip,
                            src_port: tcp.source_port,
                            dst_ip,
                            dst_port: tcp.destination_port,
                        },
                        seq: TcpSeq(tcp.seq),
                        ack: TcpSeq(tcp.ack_number),
                        flags: build_flags(&tcp),
                        window: tcp.window,
                        options: fold_options(&options),
                        payload_len: wire_payload_len(
                            &header,
                            ip_len,
                            truncated,
                            b.len(),
                            tcp.header_len,
                        ),
                    },
                );
            }
        },
        Some(Transport::Udp(port, payload)) => {
            if port == DNS_PORT {
                let names = parse_dns_answers(ts, payload);
                if names.len() > 0 {
                    return DecodeOutcome::Names(names);
                }
            }
        },
        _ => {},
    }
    DecodeOutcome::Skipped(classify_no_tcp(content.stop, v6, truncated))
}

/// Decodes one link-layer frame of which `wire_len` bytes were on the wire: into a TCP segment,
/// into observed names, or into the reason for which it is skipped.
#[must_use]
pub fn decode_frame(link: LinkType, ts: Nanos, frame: &[u8], wire_len: u32) -> (res: DecodeOutcome)
    ensures
        res@ == frame_outcome(link, ts, frame@, wire_len),
        crate::link::ip_offset(link, frame@) matches Ok(off) ==> carries(
            frame@.skip(off),
            PROTOCOL_TCP,
        ) ==> res@ == tcp_outcome(ts, frame@.skip(off), wire_len > frame@.len()),
        crate::link::ip_offset(link, frame@) matches Ok(off) ==> carries(
            frame@.skip(off),
            PROTOCOL_UDP,
        ) ==> res@ == udp_outcome(ts, frame@.skip(off), wire_len > frame@.len()),
{
    let truncated = wire_len as u64 > frame.len() as u64;
    let ip = match strip_link(link, frame) {
        Stripped::Ip(ip) => ip,
        Stripped::Skip(reason) => return DecodeOutcome::Skipped(reason),
    };
    match read_ip_header(ip) {
        Err(IpError::TooShort) => {
            if truncated {
                DecodeOutcome::Skipped(SkipReason::Truncated)
            } else {
                DecodeOutcome::Skipped(SkipReason::Malformed)
            }
        },
        Err(IpError::Invalid) => DecodeOutcome::Skipped(SkipReason::Malformed),
        Ok(header) => match read_ip_content(ip) {
            Some(content) => decode_layers(ts, header, content, ip.len(), truncated),
            None => DecodeOutcome::Skipped(SkipReason::Malformed),
        },
    }
}

proof fn lemma_number_in_prefix(b: Seq<u8>, k: int, off: int, n: nat)
    requires
        0 <= off,
        off + n <= k <= b.len(),
    ensures
        be_number(b.take(k), off, n) == be_number(b, off, n),
    decreases n,
{
    if n > 0 {
        lemma_number_in_prefix(b, k, off, (n - 1) as nat);
    }
}

/// A capture that keeps only the headers decodes like one that keeps everything: cutting a whole
/// TCP packet anywhere behind its TCP header gives the same segment.
pub proof fn law_cut_packets_decode_alike(ts: Nanos, ip: Seq<u8>, kept: int)
    requires
        carries(ip, PROTOCOL_TCP),
        ip_header(ip, false)->Ok_0.declared_len() <= ip.len(),
        ip[0] / 16 == 4 ==> v4_header_len(ip) <= be_number(ip, 2, 2),
        ip[0] / 16 == 6 ==> be_number(ip, 4, 2) > 0,
        has_tcp_header(ip_payload(ip)),
        (if ip[0] / 16 == 4 {
            v4_header_len(ip)
        } else {
            40
        }) + tcp_header_len(ip_payload(ip)) <= kept <= ip.len(),
    ensures
        tcp_outcome(ts, ip.take(kept), true) == tcp_outcome(ts, ip, false),
        tcp_outcome(ts, ip, false) is Decoded,
{
    let cut = ip.take(kept);
    let whole = ip_payload(ip);
    let part = ip_payload(cut);
    lemma_number_in_prefix(ip, kept, 2, 2);
    lemma_number_in_prefix(ip, kept, 4, 2);
    lemma_number_in_prefix(ip, kept, 12, 4);
    lemma_number_in_prefix(ip, kept, 16, 4);
    if ip[0] / 16 == 6 {
        lemma_number_in_prefix(ip, kept, 8, 16);
        lemma_number_in_prefix(ip, kept, 24, 16);
    }
    lemma_short_numbers_fit(ip, 2);
    lemma_short_numbers_fit(ip, 4);
    assert(ip_header(cut, false) == ip_header(ip, false));
    assert(part =~= whole.take(part.len() as int));
    assert(tcp_header_len(whole) <= part.len());
    lemma_number_in_prefix(whole, part.len() as int, 0, 2);
    lemma_number_in_prefix(whole, part.len() as int, 2, 2);
    lemma_number_in_prefix(whole, part.len() as int, 4, 4);
    lemma_number_in_prefix(whole, part.len() as int, 8, 4);
    lemma_number_in_prefix(whole, part.len() as int, 14, 2);
    assert(tcp_header(part) == tcp_header(whole));
    assert(part.subrange(20, tcp_header_len(whole) as int) =~= whole.subrange(
        20,
        tcp_header_len(whole) as int,
    ));
}

/// An IPv6 packet whose extension headers cannot be followed to the end is counted as that, unless
/// a cut frame lost them.
pub proof fn law_broken_chains_are_named(
    ts: Nanos,
    header: IpHeader,
    content: ContentModel,
    ip_len: nat,
    truncated: bool,
)
    requires
        header is V6,
        !header.is_fragment(),
        content.transport is None,
        content.stop matches Some(stop) && stop.layer.in_v6_chain(),
    ensures
        layers_outcome(ts, header, content, ip_len, truncated) == OutcomeModel::Skipped(
            if content.stop->0.short && truncated {
                SkipReason::Truncated
            } else {
                SkipReason::UnsupportedExtChain
            },
        ),
{
}

/// A UDP datagram never becomes a segment: if it comes from the DNS port and holds an acceptable
/// address answer it becomes names, and if not it is skipped, as cut short where a cut frame lost
/// part of its header, as not TCP everywhere else.
pub proof fn law_datagrams_are_names_or_skips(ts: Nanos, ip: Seq<u8>, truncated: bool)
    requires
        carries(ip, PROTOCOL_UDP),
    ensures
        ({
            let b = ip_payload(ip);
            let names = crate::dns::message_observations(
                ts,
                bounded(b, 8, be_number(b, 4, 2) as int),
            );
            udp_outcome(ts, ip, truncated) == (if b.len() < 8 && truncated {
                OutcomeModel::Skipped(SkipReason::Truncated)
            } else if b.len() >= 8 && be_number(b, 0, 2) == DNS_PORT && names.len() > 0 {
                OutcomeModel::Names(names)
            } else {
                OutcomeModel::Skipped(SkipReason::NonTcp)
            })
        }),
{
    lemma_short_numbers_fit(ip_payload(ip), 0);
}

proof fn lemma_short_numbers_fit(b: Seq<u8>, off: int)
    ensures
        be_number(b, off, 2) <= u16::MAX,
{
    reveal_with_fuel(be_number, 3);
}

} // verus!
