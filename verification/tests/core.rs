//! Addresses, endpoints, flows, flags, sequence numbers, time and names.

use tcpvisr::endpoint::Endpoint;
use tcpvisr::flow::FlowKey;
use tcpvisr::metric::{MetricSample, SampleDir};
use tcpvisr::name::{HostName, NameObservation, NameTable, MAX_HOST_LEN, NAME_TABLE_CAP};
use tcpvisr::net::{IpAddr, Ipv4Addr, Ipv6Addr};
use tcpvisr::segment::TcpFlags;
use tcpvisr::seq::{serial_max, TcpSeq, HALF};
use tcpvisr::time::{clamped_product, Nanos};

#[test]
fn endpoint_display_v4_uses_colon() {
    let e = Endpoint {
        ip: IpAddr::V4(Ipv4Addr::new(10, 0, 0, 1)),
        port: 80,
    };
    assert_eq!(e.text(), "10.0.0.1:80");
}

#[test]
fn endpoint_display_v6_brackets_address() {
    let e = Endpoint {
        ip: IpAddr::V6(Ipv6Addr::localhost()),
        port: 443,
    };
    assert_eq!(e.text(), "[::1]:443");
}

#[test]
fn ord_is_ip_then_port() {
    let a = Endpoint {
        ip: IpAddr::V4(Ipv4Addr::new(10, 0, 0, 1)),
        port: 9,
    };
    let b = Endpoint {
        ip: IpAddr::V4(Ipv4Addr::new(10, 0, 0, 1)),
        port: 10,
    };
    assert!(a < b);
    assert!(a.sorts_before(b));
    assert!(!b.sorts_before(a));
}

#[test]
fn address_families_order_before_numbers() {
    let v4 = IpAddr::V4(Ipv4Addr::new(255, 255, 255, 255));
    let v6 = IpAddr::V6(Ipv6Addr::new(0, 0, 0, 0, 0, 0, 0, 0));
    assert!(v4.sorts_before(v6));
    assert!(!v6.sorts_before(v4));
    assert!(v4 < v6);
}

#[test]
fn v6_text_compresses_the_longest_run() {
    let text = |a: [u16; 8]| {
        IpAddr::V6(Ipv6Addr::new(a[0], a[1], a[2], a[3], a[4], a[5], a[6], a[7])).text()
    };
    assert_eq!(text([0, 0, 0, 0, 0, 0, 0, 0]), "::");
    assert_eq!(text([0x2001, 0xdb8, 0, 0, 1, 0, 0, 1]), "2001:db8::1:0:0:1");
    assert_eq!(text([1, 0, 2, 0, 0, 0, 3, 4]), "1:0:2::3:4");
    assert_eq!(text([1, 2, 3, 4, 5, 6, 7, 0]), "1:2:3:4:5:6:7:0");
    assert_eq!(text([0, 0, 0, 0, 0, 0xffff, 0xc0a8, 0x0001]), "::ffff:192.168.0.1");
}

#[test]
fn flow_display_v4_uses_colon() {
    let v4 = FlowKey {
        src_ip: IpAddr::V4(Ipv4Addr::localhost()),
        src_port: 1,
        dst_ip: IpAddr::V4(Ipv4Addr::new(10, 0, 0, 1)),
        dst_port: 80,
    };
    assert_eq!(v4.text(), "127.0.0.1:1 -> 10.0.0.1:80");
}

#[test]
fn flow_display_v6_brackets_address() {
    let v6 = FlowKey {
        src_ip: IpAddr::V6(Ipv6Addr::localhost()),
        src_port: 1,
        dst_ip: IpAddr::V6(Ipv6Addr::localhost()),
        dst_port: 80,
    };
    assert_eq!(v6.text(), "[::1]:1 -> [::1]:80");
}

#[test]
fn sample_is_copy_and_holds_fields() {
    let s = MetricSample {
        t: Nanos(1_000),
        dir: SampleDir::OriginToResponder,
        in_flight_bytes: 50,
        throughput_bps: 400,
        rtt: Some(Nanos(2_000)),
        retransmit: false,
        out_of_order: false,
        sack: true,
    };
    let copy = s; // Copy, not move
    assert_eq!(copy, s);
    assert_eq!(copy.dir, SampleDir::OriginToResponder);
    assert_ne!(SampleDir::OriginToResponder, SampleDir::ResponderToOrigin);
}

#[test]
fn strips_trailing_root_dot() {
    assert_eq!(HostName::new("a.com.").unwrap().as_str(), "a.com");
    assert_eq!(HostName::new("a.com").unwrap().as_str(), "a.com");
}

#[test]
fn only_one_root_dot_is_stripped() {
    assert_eq!(HostName::new("a.com..").unwrap().as_str(), "a.com.");
}

#[test]
fn drops_control_and_escape_bytes() {
    let h = HostName::new("e\u{1b}[31mvil.com").unwrap();
    assert!(!h.as_str().contains('\u{1b}'), "no ESC survives");
    assert!(h.as_str().bytes().all(|b| (0x20..=0x7e).contains(&b)));
}

#[test]
fn drops_non_ascii() {
    assert_eq!(HostName::new("café").unwrap().as_str(), "caf");
}

#[test]
fn rejects_empty_and_oversize_and_fully_dropped() {
    assert!(HostName::new("").is_none());
    assert!(HostName::new(".").is_none()); // trailing dot stripped -> empty
    assert!(HostName::new(&"a".repeat(254)).is_none()); // > 253
    assert!(HostName::new("\u{1b}\u{7f}").is_none()); // all dropped -> empty
    assert!(HostName::new(&"a".repeat(253)).is_some()); // exactly 253 ok
}

#[test]
fn sanitized_output_is_always_printable_and_bounded() {
    let inputs = [
        "plain.example.org.",
        "\u{0}\u{1}\u{2}x",
        "tab\tand\nline",
        "ünïcödé.example",
        "\u{7f}~ ",
        "日本語",
    ];
    for raw in inputs {
        if let Some(h) = HostName::new(raw) {
            let s = h.as_str();
            assert!(!s.is_empty());
            assert!(s.len() <= MAX_HOST_LEN);
            assert!(s.bytes().all(|b| (0x20..=0x7e).contains(&b)));
        }
    }
    assert!(HostName::new("日本語").is_none());
    assert_eq!(HostName::new("ünïcödé").unwrap().as_str(), "ncd");
}

fn obs(ts: u64, ip: u8, name: &str) -> NameObservation {
    NameObservation {
        ts: Nanos(ts),
        ip: IpAddr::V4(Ipv4Addr::new(10, 0, 0, ip)),
        name: HostName::new(name).unwrap(),
    }
}

#[test]
fn latest_ts_wins_regardless_of_insertion_order() {
    let ip = IpAddr::V4(Ipv4Addr::new(10, 0, 0, 1));
    let mut t = NameTable::default();
    t.observe(obs(1, 1, "a.com"));
    t.observe(obs(2, 1, "b.com"));
    assert_eq!(t.resolve(ip).unwrap().as_str(), "b.com");

    let mut t2 = NameTable::default();
    t2.observe(obs(2, 1, "b.com"));
    t2.observe(obs(1, 1, "a.com")); // earlier ts must NOT overwrite
    assert_eq!(t2.resolve(ip).unwrap().as_str(), "b.com");
}

#[test]
fn tie_ts_resolves_to_last_seen() {
    let ip = IpAddr::V4(Ipv4Addr::new(10, 0, 0, 1));
    let mut t = NameTable::default();
    t.observe(obs(5, 1, "a.com"));
    t.observe(obs(5, 1, "b.com")); // equal ts, later observed wins
    assert_eq!(t.resolve(ip).unwrap().as_str(), "b.com");
}

#[test]
fn unknown_ip_resolves_none_and_len_counts_distinct() {
    let mut t = NameTable::default();
    t.observe(obs(1, 1, "a.com"));
    t.observe(obs(1, 2, "c.com"));
    assert_eq!(t.len(), 2);
    assert!(!t.is_empty());
    assert!(t.resolve(IpAddr::V4(Ipv4Addr::new(9, 9, 9, 9))).is_none());
}

#[test]
fn cap_drops_and_counts_new_ips_but_updates_present_ones() {
    let mut t = NameTable::default();
    for i in 0..NAME_TABLE_CAP {
        let octets = u32::try_from(i).unwrap().to_be_bytes();
        t.observe(NameObservation {
            ts: Nanos(1),
            ip: IpAddr::V4(Ipv4Addr::new(octets[0], octets[1], octets[2], octets[3])),
            name: HostName::new("x.com").unwrap(),
        });
    }
    assert_eq!(t.len(), NAME_TABLE_CAP);
    assert_eq!(t.dropped(), 0);
    // A brand-new IP is refused and counted.
    let new_ip = IpAddr::V4(Ipv4Addr::new(203, 0, 113, 1));
    t.observe(NameObservation {
        ts: Nanos(9),
        ip: new_ip,
        name: HostName::new("late.com").unwrap(),
    });
    assert_eq!(t.len(), NAME_TABLE_CAP);
    assert_eq!(t.dropped(), 1);
    assert!(t.resolve(new_ip).is_none());
    // An already-present IP still updates after the cap.
    let present = IpAddr::V4(Ipv4Addr::new(0, 0, 0, 0));
    t.observe(NameObservation {
        ts: Nanos(9),
        ip: present,
        name: HostName::new("updated.com").unwrap(),
    });
    assert_eq!(t.resolve(present).unwrap().as_str(), "updated.com");
}

#[test]
fn both_address_families_have_names() {
    let ip = IpAddr::V6(Ipv6Addr::localhost());
    let mut t = NameTable::new();
    assert!(t.is_empty());
    t.observe(NameObservation {
        ts: Nanos(1),
        ip,
        name: HostName::new("six.example").unwrap(),
    });
    t.observe(obs(1, 1, "four.example"));
    assert_eq!(t.len(), 2);
    assert_eq!(t.resolve(ip).unwrap().as_str(), "six.example");
}

#[test]
fn flags_display_lists_set_bits_in_order() {
    assert_eq!(TcpFlags(TcpFlags::SYN | TcpFlags::ACK).text(), "SYN|ACK");
}

#[test]
fn flags_display_dot_when_none() {
    assert_eq!(TcpFlags(0).text(), ".");
}

#[test]
fn flags_display_lists_every_bit() {
    assert_eq!(
        TcpFlags(0x1ff).text(),
        "SYN|ACK|FIN|RST|PSH|URG|ECE|CWR|NS"
    );
}

#[test]
fn forward_small_step_is_less() {
    assert!(TcpSeq(10).serial_lt(TcpSeq(20)));
    assert!(TcpSeq(20).serial_gt(TcpSeq(10)));
}

#[test]
fn wrap_forward_is_still_less_not_greater() {
    // near u32::MAX, +16 wraps forward — must read as advance, not a new instance.
    let a = TcpSeq(u32::MAX - 5);
    let b = TcpSeq(10); // a + 16 (wrapped)
    assert!(a.serial_lt(b));
    assert!(!a.serial_gt(b));
    assert_eq!(b.serial_diff(a), 16);
}

#[test]
fn irreflexive() {
    assert!(!TcpSeq(42).serial_lt(TcpSeq(42)));
    assert!(!TcpSeq(42).serial_gt(TcpSeq(42)));
}

#[test]
fn forward_distance_under_half_is_lt() {
    for base in [0, 1, 0x7fff_ffff, 0x8000_0000, u32::MAX] {
        for d in [1, 2, 1_000_000, HALF - 1] {
            let a = TcpSeq(base);
            let b = TcpSeq(base.wrapping_add(d));
            assert!(a.serial_lt(b));
            assert!(b.serial_gt(a));
            assert_eq!(b.serial_diff(a), d);
        }
    }
}

#[test]
fn antisymmetric_off_half() {
    for a in [0u32, 7, 0x8000_0000, u32::MAX] {
        for b in [1u32, 8, 0x8000_0001, u32::MAX - 3] {
            let (x, y) = (TcpSeq(a), TcpSeq(b));
            let d = b.wrapping_sub(a);
            if a != b && d != HALF {
                assert_ne!(x.serial_lt(y), y.serial_lt(x));
            }
        }
    }
}

#[test]
fn furthest_number_wins_across_a_wrap() {
    assert_eq!(serial_max(None, TcpSeq(5)), TcpSeq(5));
    assert_eq!(
        serial_max(Some(TcpSeq(u32::MAX)), TcpSeq(3)),
        TcpSeq(3)
    );
    assert_eq!(
        serial_max(Some(TcpSeq(3)), TcpSeq(u32::MAX)),
        TcpSeq(3)
    );
}

#[test]
fn display_is_seconds_and_padded_nanos() {
    assert_eq!(Nanos(1_500_000_000).text(), "1.500000000s");
    assert_eq!(Nanos(42).text(), "0.000000042s");
}

#[test]
fn time_differences_stop_at_zero() {
    assert_eq!(Nanos(5).since(Nanos(3)), Nanos(2));
    assert_eq!(Nanos(3).since(Nanos(5)), Nanos(0));
    assert_eq!(Nanos(3).latest(Nanos(5)), Nanos(5));
}

#[test]
fn products_are_clamped() {
    assert_eq!(clamped_product(3, 4), 12);
    assert_eq!(clamped_product(u64::MAX, 2), u64::MAX);
    assert_eq!(clamped_product(1 << 32, 1 << 32), u64::MAX);
}
