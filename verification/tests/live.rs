//! Live capture: options, failures and what a read becomes.

use etherparse::PacketBuilder;
use tcpvisr::link::LinkType;
use tcpvisr::live::{
    map_open_error, normalize_ts, packet_time, CaptureRead, LiveError, LiveEvent, LiveOptions,
    LiveSession,
};
use tcpvisr::segment::Item;
use tcpvisr::time::Nanos;

#[test]
fn privilege_error_names_the_setcap_fix() {
    let e = LiveError::Privilege {
        iface: "eth0".into(),
    };
    let msg = e.message();
    assert!(msg.contains("eth0"));
    assert!(msg.contains("cap_net_raw"), "names the setcap fix: {msg}");
}

#[test]
fn default_options_full_snaplen_non_promiscuous() {
    let o = LiveOptions::new("eth0");
    assert_eq!(o.iface, "eth0");
    assert_eq!(o.snaplen, 262_144);
    assert!(!o.promisc);
    assert!(o.filter.is_none());
}

#[test]
fn map_open_error_recognizes_permission_denied() {
    let e = "libpcap error: eth0: You don't have permission to capture";
    assert!(matches!(
        map_open_error("eth0", e),
        LiveError::Privilege { .. }
    ));
}

#[test]
fn map_open_error_defaults_to_activate() {
    let e = "libpcap error: No such device exists";
    assert!(matches!(
        map_open_error("eth0", e),
        LiveError::Activate { .. }
    ));
}

#[test]
fn normalize_ts_is_relative_to_first_timestamp() {
    let mut base = None;
    assert_eq!(normalize_ts(1_000_000_500, &mut base), Nanos(0));
    assert_eq!(normalize_ts(1_000_000_900, &mut base), Nanos(400));
    // a later-arriving earlier stamp saturates to 0, never negative
    assert_eq!(normalize_ts(1_000_000_100, &mut base), Nanos(0));
}

#[test]
fn live_errors_name_what_failed() {
    let cases = [
        (
            LiveError::Open {
                iface: "eth0".into(),
                detail: "gone".into(),
            },
            "opening interface eth0 for capture: gone",
        ),
        (
            LiveError::Activate {
                iface: "eth0".into(),
                detail: "down".into(),
            },
            "activating capture on eth0: down",
        ),
        (
            LiveError::Filter {
                expr: "tcp prt 80".into(),
                detail: "syntax error".into(),
            },
            "installing BPF filter `tcp prt 80`: syntax error",
        ),
        (
            LiveError::UnsupportedLinkType { dlt: 147 },
            "unsupported link type 147 on the interface (supports Ethernet, SLL, SLL2, raw IP, null)",
        ),
        (
            LiveError::Interfaces {
                detail: "none".into(),
            },
            "enumerating capture interfaces: none",
        ),
    ];
    for (error, message) in cases {
        assert_eq!(error.message(), message);
    }
}

#[test]
fn refusals_are_recognised_in_any_case() {
    for detail in [
        "PERMISSION denied",
        "Operation Not Permitted",
        "you must be ROOT",
    ] {
        assert_eq!(
            map_open_error("eth0", detail),
            LiveError::Privilege {
                iface: "eth0".into()
            }
        );
    }
    assert_eq!(
        map_open_error("eth0", "No such Device"),
        LiveError::Activate {
            iface: "eth0".into(),
            detail: "No such Device".into()
        }
    );
}

#[test]
fn sessions_need_a_known_link_layer() {
    assert_eq!(
        LiveSession::open(1).map(|s| s.link_type()),
        Ok(LinkType::Ethernet)
    );
    assert_eq!(
        LiveSession::open(147),
        Err(LiveError::UnsupportedLinkType { dlt: 147 })
    );
    for dlt in [-1, 65_536] {
        assert_eq!(
            LiveSession::open(dlt),
            Err(LiveError::UnsupportedLinkType { dlt: u16::MAX })
        );
    }
}

#[test]
fn packet_times_are_in_nanoseconds() {
    assert_eq!(packet_time(2, 5, true), Some(2_000_000_005));
    assert_eq!(packet_time(2, 5, false), Some(2_000_005_000));
    assert_eq!(packet_time(-1, -1, true), Some(0));
    assert_eq!(packet_time(i64::MAX, 0, true), None);
}

fn syn() -> Vec<u8> {
    let mut buf = Vec::new();
    PacketBuilder::ipv4([10, 0, 0, 1], [10, 0, 0, 2], 64)
        .tcp(1234, 80, 1000, 64240)
        .syn()
        .write(&mut buf, &[])
        .unwrap();
    buf
}

#[test]
fn packets_become_segments_from_time_zero() {
    let mut session = LiveSession::open(101).unwrap();
    let data = syn();
    let len = u32::try_from(data.len()).unwrap();
    for (abs_ns, expected) in [(5_000, 0), (5_700, 700), (4_000, 0)] {
        let events = session
            .take_read(CaptureRead::Packet {
                abs_ns,
                wire_len: len,
                data: &data,
            })
            .unwrap();
        match events.as_slice() {
            [LiveEvent::Item(Item::Segment(seg))] => assert_eq!(seg.ts, Nanos(expected)),
            other => panic!("expected one segment, got {other:?}"),
        }
    }
    assert_eq!(session.skipped.total(), 0);
}

#[test]
fn timeouts_become_ticks() {
    let mut session = LiveSession::open(101).unwrap();
    assert_eq!(
        session.take_read(CaptureRead::Timeout { now_ns: 100 }),
        Some(vec![LiveEvent::Item(Item::Tick(Nanos(0)))])
    );
    assert_eq!(
        session.take_read(CaptureRead::Timeout { now_ns: 350 }),
        Some(vec![LiveEvent::Item(Item::Tick(Nanos(250)))])
    );
    assert_eq!(session.take_read(CaptureRead::Ended), None);
}

#[test]
fn only_unexpected_skips_are_diagnostic() {
    let mut session = LiveSession::open(101).unwrap();
    let mut udp = Vec::new();
    PacketBuilder::ipv4([10, 0, 0, 1], [10, 0, 0, 2], 64)
        .udp(1000, 2000)
        .write(&mut udp, &[1, 2, 3])
        .unwrap();
    for data in [udp, vec![0xff; 30]] {
        let len = u32::try_from(data.len()).unwrap();
        let events = session.take_read(CaptureRead::Packet {
            abs_ns: 1,
            wire_len: len,
            data: &data,
        });
        assert_eq!(events, Some(vec![]));
    }
    assert_eq!(session.skipped.total(), 2);
    assert_eq!(session.diagnostic_skips, 1);
    assert!(session.has_room());
}
