//! Decoding of frames and of DNS answers.

use etherparse::{
    IpFragOffset, IpHeaders, IpNumber, Ipv6Extensions, Ipv6FragmentHeader, Ipv6Header,
    PacketBuilder, TcpOptionElement,
};
use simple_dns::rdata::{RData, A, AAAA, CNAME};
use simple_dns::{Name, Packet, ResourceRecord, CLASS};
use tcpvisr::decode::{
    classify_no_tcp, decode_frame, decode_layers, fold_options, DecodeOutcome, IpContent, IpHeader,
    Stop, StopLayer, TcpOption, Transport,
};
use tcpvisr::dns::{name_answers, parse_dns_answers, AnswerData, DnsAnswer};
use tcpvisr::ingest::SkipReason;
use tcpvisr::link::{strip_link, LinkType, Stripped};
use tcpvisr::net::{IpAddr, Ipv4Addr, Ipv6Addr};
use tcpvisr::segment::TcpFlags;
use tcpvisr::seq::TcpSeq;
use tcpvisr::time::Nanos;

fn decode_full(link: LinkType, frame: &[u8]) -> DecodeOutcome {
    let wire_len = u32::try_from(frame.len()).unwrap_or(u32::MAX);
    decode_frame(link, Nanos(0), frame, wire_len)
}

fn ipv4_tcp_syn() -> Vec<u8> {
    let mut buf = Vec::new();
    PacketBuilder::ipv4([10, 0, 0, 1], [10, 0, 0, 2], 64)
        .tcp(1234, 80, 1000, 64240)
        .syn()
        .write(&mut buf, &[])
        .unwrap();
    buf
}

fn ipv4_tcp_with_options() -> Vec<u8> {
    let mut buf = Vec::new();
    PacketBuilder::ipv4([10, 0, 0, 1], [10, 0, 0, 2], 64)
        .tcp(1234, 80, 1000, 64240)
        .syn()
        .options(&[
            TcpOptionElement::MaximumSegmentSize(1460),
            TcpOptionElement::WindowScale(7),
            TcpOptionElement::SelectiveAcknowledgementPermitted,
            TcpOptionElement::Timestamp(111, 222),
        ])
        .unwrap()
        .write(&mut buf, &[])
        .unwrap();
    buf
}

fn ipv4_udp() -> Vec<u8> {
    let mut buf = Vec::new();
    PacketBuilder::ipv4([10, 0, 0, 1], [10, 0, 0, 2], 64)
        .udp(1234, 80)
        .write(&mut buf, &[1, 2, 3])
        .unwrap();
    buf
}

fn ipv6_tcp() -> Vec<u8> {
    let mut buf = Vec::new();
    PacketBuilder::ipv6([0x20; 16], [0x21; 16], 64)
        .tcp(5000, 443, 7, 100)
        .ack(9)
        .write(&mut buf, &[0xaa, 0xbb])
        .unwrap();
    buf
}

fn ipv6_fragment_tcp() -> Vec<u8> {
    let exts = Ipv6Extensions {
        fragment: Some(Ipv6FragmentHeader {
            next_header: IpNumber::TCP,
            fragment_offset: IpFragOffset::ZERO,
            more_fragments: true, // first of several -> is_payload_fragmented() is true
            identification: 0xABCD,
        }),
        ..Ipv6Extensions::default()
    };
    let header = Ipv6Header {
        source: [0x20; 16],
        destination: [0x21; 16],
        hop_limit: 64,
        ..Ipv6Header::default()
    };
    let mut buf = Vec::new();
    PacketBuilder::ip(IpHeaders::Ipv6(header, exts))
        .tcp(5000, 443, 7, 100)
        .write(&mut buf, &[0u8; 8])
        .unwrap();
    buf
}

fn ethernet(ip: &[u8], v6: bool) -> Vec<u8> {
    let mut f = vec![0, 0, 0, 0, 0, 2, 0, 0, 0, 0, 0, 1];
    f.extend_from_slice(if v6 { &[0x86, 0xDD] } else { &[0x08, 0x00] });
    f.extend_from_slice(ip);
    f
}

fn sll2(ip: &[u8], v6: bool) -> Vec<u8> {
    let mut f = Vec::new();
    f.extend_from_slice(if v6 { &[0x86, 0xDD] } else { &[0x08, 0x00] }); // protocol type
    f.extend_from_slice(&[0, 0]); // reserved
    f.extend_from_slice(&[0, 0, 0, 1]); // interface index
    f.extend_from_slice(&[0, 1]); // ARPHRD type
    f.push(0); // packet type
    f.push(6); // link-layer address length
    f.extend_from_slice(&[0; 8]); // link-layer address
    f.extend_from_slice(ip); // header is 20 bytes total
    f
}

#[test]
fn decodes_ipv4_tcp_syn() {
    let frame = ipv4_tcp_syn();
    match decode_full(LinkType::RawIp, &frame) {
        DecodeOutcome::Decoded(seg) => {
            assert_eq!(seg.flow.src_port, 1234);
            assert_eq!(seg.flow.dst_port, 80);
            assert!(seg.flags.syn() && !seg.flags.ack());
            assert_eq!(seg.window, 64240);
            assert_eq!(seg.payload_len, 0);
        }
        other => panic!("expected decode, got {other:?}"),
    }
}

#[test]
fn parses_tcp_options() {
    let frame = ipv4_tcp_with_options();
    let DecodeOutcome::Decoded(seg) = decode_full(LinkType::RawIp, &frame) else {
        panic!("expected decode");
    };
    assert_eq!(seg.options.mss, Some(1460));
    assert_eq!(seg.options.window_scale, Some(7));
    assert!(seg.options.sack_permitted);
    assert_eq!(seg.options.timestamp, Some((111, 222)));
}

#[test]
fn non_tcp_is_skipped_non_tcp() {
    let frame = ipv4_udp();
    assert_eq!(
        decode_full(LinkType::RawIp, &frame),
        DecodeOutcome::Skipped(SkipReason::NonTcp)
    );
}

#[test]
fn garbage_is_malformed() {
    assert_eq!(
        decode_full(LinkType::RawIp, &[0xff, 0x00, 0x01]),
        DecodeOutcome::Skipped(SkipReason::Malformed)
    );
}

#[test]
fn decodes_ipv6_tcp() {
    let frame = ipv6_tcp();
    let DecodeOutcome::Decoded(seg) = decode_full(LinkType::RawIp, &frame) else {
        panic!("expected decode");
    };
    assert_eq!(seg.flow.dst_port, 443);
    assert_eq!(seg.payload_len, 2);
    assert!(matches!(seg.flow.src_ip, IpAddr::V6(_)));
}

#[test]
fn ipv6_fragmented_tcp_is_skipped() {
    let frame = ipv6_fragment_tcp();
    assert_eq!(
        decode_full(LinkType::RawIp, &frame),
        DecodeOutcome::Skipped(SkipReason::Ipv6Fragment)
    );
}

#[test]
fn decodes_through_ethernet() {
    let frame = ethernet(&ipv4_tcp_syn(), false);
    let DecodeOutcome::Decoded(seg) = decode_full(LinkType::Ethernet, &frame) else {
        panic!("expected decode");
    };
    assert_eq!(seg.flow.dst_port, 80);
}

#[test]
fn decodes_through_sll2() {
    let frame = sll2(&ipv6_tcp(), true);
    let DecodeOutcome::Decoded(seg) = decode_full(LinkType::LinuxSll2, &frame) else {
        panic!("expected decode");
    };
    assert_eq!(seg.flow.dst_port, 443);
}

#[test]
fn tcp_header_cut_on_truncated_frame_is_truncated() {
    // Full IPv4/TCP SYN with options (40-byte TCP header); cut the captured
    // bytes inside the TCP options so the data offset points past the captured
    // slice. wire_len is the full on-wire length, so this is a snaplen-cut frame.
    let full = ipv4_tcp_with_options();
    let cut = &full[..full.len() - 8];
    let wire_len = u32::try_from(full.len()).unwrap_or(u32::MAX);
    assert_eq!(
        decode_frame(LinkType::RawIp, Nanos(0), cut, wire_len),
        DecodeOutcome::Skipped(SkipReason::Truncated)
    );
}

fn response_with(records: Vec<ResourceRecord<'static>>) -> Vec<u8> {
    let mut p = Packet::new_reply(1);
    for r in records {
        p.answers.push(r);
    }
    p.build_bytes_vec().unwrap()
}

#[test]
fn extracts_a_and_aaaa_answers() {
    let bytes = response_with(vec![
        ResourceRecord::new(
            Name::new("example.com").unwrap(),
            CLASS::IN,
            300,
            RData::A(A {
                address: Ipv4Addr::new(93, 184, 216, 34).0,
            }),
        ),
        ResourceRecord::new(
            Name::new("v6.example.com").unwrap(),
            CLASS::IN,
            300,
            RData::AAAA(AAAA {
                address: Ipv6Addr::new(0x2001, 0xdb8, 0, 0, 0, 0, 0, 1).0,
            }),
        ),
    ]);
    let obs = parse_dns_answers(Nanos(7), &bytes);
    assert_eq!(obs.len(), 2);
    assert_eq!(obs[0].ip, IpAddr::V4(Ipv4Addr::new(93, 184, 216, 34)));
    assert_eq!(obs[0].name.as_str(), "example.com");
    assert_eq!(obs[0].ts, Nanos(7));
    assert_eq!(
        obs[1].ip,
        IpAddr::V6(Ipv6Addr::new(0x2001, 0xdb8, 0, 0, 0, 0, 0, 1))
    );
}

#[test]
fn query_yields_no_observations() {
    // A reply with no answers (models a query's empty answer section).
    let bytes = response_with(vec![]);
    assert!(parse_dns_answers(Nanos(0), &bytes).is_empty());
}

#[test]
fn garbage_yields_no_observations_without_panicking() {
    assert!(parse_dns_answers(Nanos(0), &[0xff, 0x00, 0x13, 0x37]).is_empty());
    assert!(parse_dns_answers(Nanos(0), &[]).is_empty());
}

#[test]
fn answers_without_an_address_are_ignored() {
    let bytes = response_with(vec![
        ResourceRecord::new(
            Name::new("alias.example.com").unwrap(),
            CLASS::IN,
            300,
            RData::CNAME(CNAME(Name::new("example.com").unwrap())),
        ),
        ResourceRecord::new(
            Name::new("example.com").unwrap(),
            CLASS::IN,
            300,
            RData::A(A { address: 0x0102_0304 }),
        ),
    ]);
    let obs = parse_dns_answers(Nanos(1), &bytes);
    assert_eq!(obs.len(), 1);
    assert_eq!(obs[0].ip, IpAddr::V4(Ipv4Addr::new(1, 2, 3, 4)));
}

#[test]
fn answers_with_unusable_names_are_ignored() {
    let answers = vec![
        DnsAnswer {
            data: AnswerData::V4(1),
            name: "\u{1b}".to_owned(),
        },
        DnsAnswer {
            data: AnswerData::V6(2),
            name: "six.example.".to_owned(),
        },
        DnsAnswer {
            data: AnswerData::Other,
            name: "text.example".to_owned(),
        },
    ];
    let obs = name_answers(Nanos(3), &answers);
    assert_eq!(obs.len(), 1);
    assert_eq!(obs[0].ip, IpAddr::V6(Ipv6Addr(2)));
    assert_eq!(obs[0].name.as_str(), "six.example");
    assert_eq!(obs[0].ts, Nanos(3));
}

fn udp(source_port: u16, payload: &[u8]) -> Vec<u8> {
    let mut buf = Vec::new();
    PacketBuilder::ipv4([9, 9, 9, 9], [10, 0, 0, 2], 64)
        .udp(source_port, 40_000)
        .write(&mut buf, payload)
        .unwrap();
    buf
}

#[test]
fn dns_answers_come_from_the_dns_port_only() {
    let dns = response_with(vec![ResourceRecord::new(
        Name::new("example.com").unwrap(),
        CLASS::IN,
        300,
        RData::A(A { address: 7 }),
    )]);
    match decode_full(LinkType::RawIp, &udp(53, &dns)) {
        DecodeOutcome::Names(names) => {
            assert_eq!(names.len(), 1);
            assert_eq!(names[0].name.as_str(), "example.com");
        }
        other => panic!("expected names, got {other:?}"),
    }
    assert_eq!(
        decode_full(LinkType::RawIp, &udp(5353, &dns)),
        DecodeOutcome::Skipped(SkipReason::NonTcp)
    );
    assert_eq!(
        decode_full(LinkType::RawIp, &udp(53, &response_with(vec![]))),
        DecodeOutcome::Skipped(SkipReason::NonTcp)
    );
}

#[test]
fn every_header_field_is_read_from_its_place() {
    let mut frame = Vec::new();
    PacketBuilder::ipv4([192, 168, 1, 2], [10, 20, 30, 40], 64)
        .tcp(0x1234, 0x5678, 0x9abc_def0, 0x0fed)
        .psh()
        .fin()
        .ack(0x1122_3344)
        .write(&mut frame, &[1, 2, 3])
        .unwrap();
    let DecodeOutcome::Decoded(seg) = decode_full(LinkType::RawIp, &frame) else {
        panic!("expected decode");
    };
    assert_eq!(seg.flow.src_ip, IpAddr::V4(Ipv4Addr::new(192, 168, 1, 2)));
    assert_eq!(seg.flow.dst_ip, IpAddr::V4(Ipv4Addr::new(10, 20, 30, 40)));
    assert_eq!((seg.flow.src_port, seg.flow.dst_port), (0x1234, 0x5678));
    assert_eq!(seg.seq, TcpSeq(0x9abc_def0));
    assert_eq!(seg.ack, TcpSeq(0x1122_3344));
    assert_eq!(
        seg.flags,
        TcpFlags(TcpFlags::PSH | TcpFlags::FIN | TcpFlags::ACK)
    );
    assert_eq!(seg.window, 0x0fed);
    assert_eq!(seg.payload_len, 3);
}

#[test]
fn v6_addresses_are_read_in_network_order() {
    let mut source = [0u8; 16];
    source[0] = 0x20;
    source[15] = 1;
    let mut frame = Vec::new();
    PacketBuilder::ipv6(source, [0x21; 16], 64)
        .tcp(1, 2, 3, 4)
        .write(&mut frame, &[])
        .unwrap();
    let DecodeOutcome::Decoded(seg) = decode_full(LinkType::RawIp, &frame) else {
        panic!("expected decode");
    };
    assert_eq!(
        seg.flow.src_ip,
        IpAddr::V6(Ipv6Addr::new(0x2000, 0, 0, 0, 0, 0, 0, 1))
    );
}

#[test]
fn selective_acknowledgements_are_read() {
    let mut frame = Vec::new();
    PacketBuilder::ipv4([10, 0, 0, 1], [10, 0, 0, 2], 64)
        .tcp(1, 2, 3, 4)
        .ack(5)
        .options(&[TcpOptionElement::SelectiveAcknowledgement(
            (100, 200),
            [Some((300, 400)), None, None],
        )])
        .unwrap()
        .write(&mut frame, &[])
        .unwrap();
    let DecodeOutcome::Decoded(seg) = decode_full(LinkType::RawIp, &frame) else {
        panic!("expected decode");
    };
    assert_eq!(
        seg.options.sack_blocks,
        vec![(TcpSeq(100), TcpSeq(200)), (TcpSeq(300), TcpSeq(400))]
    );
}

#[test]
fn options_stop_at_the_first_that_cannot_be_read() {
    let opts = fold_options(&vec![
        Some(TcpOption::Noop),
        Some(TcpOption::Mss(1000)),
        Some(TcpOption::Mss(1460)),
        Some(TcpOption::Sack((1, 2), None, Some((3, 4)), None)),
        None,
        Some(TcpOption::WindowScale(7)),
        Some(TcpOption::SackPermitted),
        Some(TcpOption::Timestamp(1, 2)),
    ]);
    assert_eq!(opts.mss, Some(1460));
    assert_eq!(opts.window_scale, None);
    assert!(!opts.sack_permitted);
    assert_eq!(opts.timestamp, None);
    assert_eq!(
        opts.sack_blocks,
        vec![(TcpSeq(1), TcpSeq(2)), (TcpSeq(3), TcpSeq(4))]
    );
}

#[test]
fn a_cut_frame_keeps_the_length_it_had_on_the_wire() {
    let mut full = Vec::new();
    PacketBuilder::ipv4([10, 0, 0, 1], [10, 0, 0, 2], 64)
        .tcp(1, 2, 3, 4)
        .write(&mut full, &[7; 500])
        .unwrap();
    let wire_len = u32::try_from(full.len()).unwrap();
    for kept in [40, 41, 300, 539, 540] {
        let DecodeOutcome::Decoded(seg) =
            decode_frame(LinkType::RawIp, Nanos(0), &full[..kept], wire_len)
        else {
            panic!("expected decode");
        };
        assert_eq!(seg.payload_len, 500, "kept {kept}");
    }
    // A frame that was not cut has what it has.
    let DecodeOutcome::Decoded(seg) = decode_frame(LinkType::RawIp, Nanos(0), &full[..300], 300)
    else {
        panic!("expected decode");
    };
    assert_eq!(seg.payload_len, 260);
    // Behind the end of the packet there may be padding.
    let mut padded = full.clone();
    padded.extend_from_slice(&[0; 20]);
    let DecodeOutcome::Decoded(seg) = decode_full(LinkType::RawIp, &padded) else {
        panic!("expected decode");
    };
    assert_eq!(seg.payload_len, 500);
}

#[test]
fn a_cut_v6_frame_keeps_the_length_it_had_on_the_wire() {
    let mut full = Vec::new();
    PacketBuilder::ipv6([0x20; 16], [0x21; 16], 64)
        .tcp(1, 2, 3, 4)
        .write(&mut full, &[7; 100])
        .unwrap();
    let wire_len = u32::try_from(full.len()).unwrap();
    let DecodeOutcome::Decoded(seg) =
        decode_frame(LinkType::RawIp, Nanos(0), &full[..60], wire_len)
    else {
        panic!("expected decode");
    };
    assert_eq!(seg.payload_len, 100);
}

#[test]
fn short_ip_headers_are_truncated_or_malformed() {
    let full = ipv4_tcp_syn();
    assert_eq!(
        decode_frame(LinkType::RawIp, Nanos(0), &full[..8], 40),
        DecodeOutcome::Skipped(SkipReason::Truncated)
    );
    assert_eq!(
        decode_frame(LinkType::RawIp, Nanos(0), &full[..8], 8),
        DecodeOutcome::Skipped(SkipReason::Malformed)
    );
    assert_eq!(
        decode_frame(LinkType::RawIp, Nanos(0), &[], 0),
        DecodeOutcome::Skipped(SkipReason::Malformed)
    );
}

#[test]
fn v4_fragments_are_skipped() {
    let mut frame = ipv4_tcp_syn();
    frame[6] = 0x20; // more fragments
    assert_eq!(
        decode_full(LinkType::RawIp, &frame),
        DecodeOutcome::Skipped(SkipReason::Ipv6Fragment)
    );
    frame[6] = 0x40; // may not be fragmented
    assert!(matches!(
        decode_full(LinkType::RawIp, &frame),
        DecodeOutcome::Decoded(_)
    ));
}

#[test]
fn stops_are_classified() {
    let stop = |short, layer| Some(Stop { short, layer });
    assert_eq!(classify_no_tcp(None, true, true), SkipReason::NonTcp);
    assert_eq!(
        classify_no_tcp(stop(true, StopLayer::Other), true, true),
        SkipReason::Truncated
    );
    assert_eq!(
        classify_no_tcp(stop(true, StopLayer::Other), true, false),
        SkipReason::NonTcp
    );
    for layer in [
        StopLayer::Ipv6ExtHeader,
        StopLayer::HopByHop,
        StopLayer::DestOptions,
        StopLayer::Route,
        StopLayer::Fragment,
        StopLayer::Auth,
    ] {
        assert_eq!(
            classify_no_tcp(stop(false, layer), true, true),
            SkipReason::UnsupportedExtChain
        );
        assert_eq!(
            classify_no_tcp(stop(true, layer), true, false),
            SkipReason::UnsupportedExtChain
        );
        assert_eq!(
            classify_no_tcp(stop(true, layer), true, true),
            SkipReason::Truncated
        );
    }
    assert_eq!(
        classify_no_tcp(stop(true, StopLayer::IpHeader), true, false),
        SkipReason::UnsupportedExtChain
    );
    assert_eq!(
        classify_no_tcp(stop(false, StopLayer::Auth), false, false),
        SkipReason::NonTcp
    );
}

/// An IPv6 packet with the given protocol number and payload.
fn ipv6_packet(next_header: u8, payload: &[u8]) -> Vec<u8> {
    let mut frame = vec![0x60, 0, 0, 0];
    frame.extend_from_slice(&u16::try_from(payload.len()).unwrap().to_be_bytes());
    frame.extend_from_slice(&[next_header, 64]);
    frame.extend_from_slice(&[0x20; 32]);
    frame.extend_from_slice(payload);
    frame
}

#[test]
fn broken_extension_chains_are_named() {
    // Destination options, and then hop-by-hop options where they may not stand.
    let misplaced = ipv6_packet(60, &[0, 0, 1, 4, 0, 0, 0, 0, 6, 0, 1, 4, 0, 0, 0, 0]);
    assert_eq!(
        decode_full(LinkType::RawIp, &misplaced),
        DecodeOutcome::Skipped(SkipReason::UnsupportedExtChain)
    );
    // Hop-by-hop, destination, routing, fragment and authentication headers without an end.
    for next_header in [0, 60, 43, 44, 51] {
        let short = ipv6_packet(next_header, &[6, 3, 0, 0]);
        assert_eq!(
            decode_full(LinkType::RawIp, &short),
            DecodeOutcome::Skipped(SkipReason::UnsupportedExtChain),
            "{next_header}"
        );
        assert_eq!(
            decode_frame(LinkType::RawIp, Nanos(0), &short, 200),
            DecodeOutcome::Skipped(SkipReason::Truncated),
            "{next_header}"
        );
    }
    // No extension header: what follows is just not TCP.
    assert_eq!(
        decode_full(LinkType::RawIp, &ipv6_packet(59, &[])),
        DecodeOutcome::Skipped(SkipReason::NonTcp)
    );
    // An authentication header in an IPv4 packet is no IPv6 chain.
    let mut v4 = ipv4_tcp_syn();
    v4[9] = 51;
    v4[21] = 0;
    assert_eq!(
        decode_full(LinkType::RawIp, &v4),
        DecodeOutcome::Skipped(SkipReason::NonTcp)
    );
}

#[test]
fn layers_decide_the_outcome() {
    let tcp = &ipv4_tcp_syn()[20..];
    let content = IpContent {
        transport: Some(Transport::Tcp(tcp)),
        stop: None,
    };
    match decode_layers(Nanos(9), IpHeader::V4(1, 2, 60, false), content, 40, true) {
        DecodeOutcome::Decoded(seg) => {
            assert_eq!(seg.ts, Nanos(9));
            assert_eq!(seg.flow.src_ip, IpAddr::V4(Ipv4Addr(1)));
            assert_eq!(seg.payload_len, 20, "sixty declared, forty captured");
        }
        other => panic!("expected decode, got {other:?}"),
    }
    assert_eq!(
        decode_layers(Nanos(9), IpHeader::V6(1, 2, 60, true), content, 40, true),
        DecodeOutcome::Skipped(SkipReason::Ipv6Fragment)
    );
    let other = IpContent {
        transport: Some(Transport::Other),
        stop: None,
    };
    assert_eq!(
        decode_layers(Nanos(9), IpHeader::V4(1, 2, 60, false), other, 40, true),
        DecodeOutcome::Skipped(SkipReason::NonTcp)
    );
}

#[test]
fn vlan_tags_are_stepped_over() {
    let mut frame = vec![0u8; 12];
    frame.extend_from_slice(&[0x88, 0xa8, 0, 1, 0x81, 0, 0, 2, 0x08, 0x00]);
    frame.extend_from_slice(&[0x45, 1, 2, 3]);
    match strip_link(LinkType::Ethernet, &frame) {
        Stripped::Ip(ip) => assert_eq!(ip, &[0x45, 1, 2, 3]),
        Stripped::Skip(reason) => panic!("skipped: {reason:?}"),
    }
}

#[test]
fn frames_without_ip_are_skipped() {
    let arp = [0, 0, 0, 0, 0, 0, 0, 0, 0, 0, 0, 0, 0x08, 0x06, 1];
    assert!(matches!(
        strip_link(LinkType::Ethernet, &arp),
        Stripped::Skip(SkipReason::NonTcp)
    ));
    assert!(matches!(
        strip_link(LinkType::Ethernet, &arp[..13]),
        Stripped::Skip(SkipReason::Malformed)
    ));
    assert!(matches!(
        strip_link(LinkType::Null, &arp[..3]),
        Stripped::Skip(SkipReason::Malformed)
    ));
    assert!(matches!(
        strip_link(LinkType::LinuxSll2, &[0x08, 0x00, 1]),
        Stripped::Skip(SkipReason::Malformed)
    ));
}

#[test]
fn link_layers_have_their_numbers() {
    assert_eq!(LinkType::from_dlt(1), Some(LinkType::Ethernet));
    assert_eq!(LinkType::from_dlt(0), Some(LinkType::Null));
    assert_eq!(LinkType::from_dlt(101), Some(LinkType::RawIp));
    assert_eq!(LinkType::from_dlt(113), Some(LinkType::LinuxSll));
    assert_eq!(LinkType::from_dlt(276), Some(LinkType::LinuxSll2));
    assert_eq!(LinkType::from_dlt(147), None);
}
