//! What holds of several functions together, on concrete values.

use etherparse::PacketBuilder;
use tcpvisr::app::{row_place, App, Outcome};
use tcpvisr::config::EngineConfig;
use tcpvisr::conn::{ConnId, Connection, EndpointPair};
use tcpvisr::detail;
use tcpvisr::endpoint::Endpoint;
use tcpvisr::flow::FlowKey;
use tcpvisr::format::{fmt_rate, fmt_rtt, fmt_seq};
use tcpvisr::inflight;
use tcpvisr::keys::{handle_key, KeyCode, KeyPress};
use tcpvisr::link::{strip_link, LinkType, Stripped};
use tcpvisr::live::{CaptureRead, LiveEvent, LiveSession};
use tcpvisr::metric::SampleDir;
use tcpvisr::net::{IpAddr, Ipv4Addr};
use tcpvisr::replay::{Emitted, Replay};
use tcpvisr::report::can_track;
use tcpvisr::segment::{Item, Segment, TcpFlags, TcpOptions};
use tcpvisr::seq::{TcpSeq, HALF};
use tcpvisr::state::ConnState;
use tcpvisr::time::Nanos;
use tcpvisr::timeline::{InFlightSample, SeqKind, SeqSample, StateSample, Timeline};
use tcpvisr::tracker::{is_backward_reset, track, Tracker};
use tcpvisr::transport::Transport;

fn ep(a: u8, port: u16) -> Endpoint {
    Endpoint {
        ip: IpAddr::V4(Ipv4Addr::new(10, 0, 0, a)),
        port,
    }
}

fn segment(from: Endpoint, to: Endpoint, flags: u16, seq: u32, len: u32, ts: u64) -> Item {
    Item::Segment(Segment {
        ts: Nanos(ts),
        flow: FlowKey {
            src_ip: from.ip,
            src_port: from.port,
            dst_ip: to.ip,
            dst_port: to.port,
        },
        seq: TcpSeq(seq),
        ack: TcpSeq(0),
        flags: TcpFlags(flags),
        window: 0,
        options: TcpOptions::default(),
        payload_len: len,
    })
}

#[test]
fn the_distance_leads_to_the_target() {
    for (from, to) in [(0, 5), (u32::MAX - 2, 7), (9, 9), (5, 0)] {
        let distance = TcpSeq(to).serial_diff(TcpSeq(from));
        assert_eq!(from.wrapping_add(distance), to);
    }
}

#[test]
fn distances_in_a_row_add_up() {
    let (a, b, c) = (TcpSeq(u32::MAX - 10), TcpSeq(3), TcpSeq(50));
    assert_eq!(
        b.serial_diff(a) + c.serial_diff(b),
        c.serial_diff(a)
    );
}

#[test]
fn both_directions_have_one_pair() {
    let (a, b) = (ep(1, 1234), ep(2, 80));
    assert_eq!(EndpointPair::new(a, b), EndpointPair::new(b, a));
    let conns = track(
        &[
            segment(a, b, TcpFlags::ACK, 1, 10, 0),
            segment(b, a, TcpFlags::ACK, 1, 20, 1),
        ],
        EngineConfig::default(),
    );
    assert_eq!(conns.len(), 1);
    assert_eq!((conns[0].bytes_o2r, conns[0].bytes_r2o), (10, 20));
}

#[test]
fn endpoints_are_ordered_one_way_only() {
    let all = [ep(1, 80), ep(1, 443), ep(2, 22), ep(2, 22)];
    for x in all {
        for y in all {
            let less = x.sorts_before(y);
            let greater = y.sorts_before(x);
            assert!(!(less && greater));
            assert_eq!(!less && !greater, x == y);
        }
    }
}

#[test]
fn instances_of_a_pair_have_numbers_of_their_own() {
    let (a, b) = (ep(1, 1234), ep(2, 80));
    let items = [
        segment(a, b, TcpFlags::SYN, 100, 0, 0),
        segment(a, b, TcpFlags::RST, 101, 0, 1),
        segment(a, b, TcpFlags::SYN, 900, 0, 2),
        segment(b, a, TcpFlags::RST, 901, 0, 3),
        segment(a, b, TcpFlags::SYN, 5_000, 0, 4),
    ];
    assert!(can_track(&items, EngineConfig::default()));
    let conns = track(&items, EngineConfig::default());
    let mut numbers: Vec<u32> = conns.iter().map(|c| c.id.instance).collect();
    numbers.sort_unstable();
    assert_eq!(numbers, vec![0, 1, 2]);
    assert_eq!(conns.iter().map(|c| c.segments).sum::<u64>(), 5);
}

#[test]
fn half_the_space_is_never_too_far_back() {
    for seq in [0, 1, HALF - 1, HALF, u32::MAX] {
        assert!(!is_backward_reset(TcpSeq(77), TcpSeq(seq), HALF));
    }
}

#[test]
fn live_and_replay_read_a_packet_alike() {
    let mut data = Vec::new();
    PacketBuilder::ipv4([10, 0, 0, 1], [10, 0, 0, 2], 64)
        .tcp(1234, 80, 1000, 64240)
        .ack(7)
        .write(&mut data, &[1, 2, 3])
        .unwrap();
    let len = u32::try_from(data.len()).unwrap();
    let mut session = LiveSession::open(101).unwrap();
    let mut replay = Replay::with_link(101).unwrap();
    for abs_ns in [500, 900] {
        let live = session.take_read(CaptureRead::Packet {
            abs_ns,
            wire_len: len,
            data: &data,
        });
        let Ok(Emitted::Segment(seg)) = replay.process_packet("f", abs_ns, len, &data) else {
            panic!("expected a segment");
        };
        assert_eq!(live, Some(vec![LiveEvent::Item(Item::Segment(seg))]));
    }
}

#[test]
fn marks_of_offsets_stay_as_the_cursor_moves_on() {
    let samples: Vec<SeqSample> = (0..20)
        .map(|i| SeqSample {
            t: Nanos(i * 10),
            dir: SampleDir::OriginToResponder,
            rel: i64::try_from(i).unwrap() * 50,
            len: 50,
            kind: SeqKind::Data {
                retransmit: i % 3 == 0,
                out_of_order: i % 5 == 0,
            },
        })
        .collect();
    let plot = |cursor: u64| {
        detail::project(
            &samples,
            SampleDir::OriginToResponder,
            (Nanos(0), Nanos(190)),
            Nanos(cursor),
            20,
            10,
        )
        .unwrap()
    };
    let (sooner, later) = (plot(70), plot(150));
    for mark in sooner.marks {
        if mark.glyph != detail::CURSOR_GLYPH {
            assert!(later
                .marks
                .iter()
                .any(|m| (m.col, m.row) == (mark.col, mark.row) && m.glyph != detail::CURSOR_GLYPH));
        }
    }
}

#[test]
fn peaks_only_rise_as_the_cursor_moves_on() {
    let samples: Vec<InFlightSample> = [(0, 10), (1, 40), (2, 20), (50, 5), (51, 60)]
        .into_iter()
        .map(|(t, bytes)| InFlightSample {
            t: Nanos(t),
            dir: SampleDir::OriginToResponder,
            bytes,
        })
        .collect();
    let peak = |cursor: u64, col: u16| {
        inflight::project(
            &samples,
            &[],
            SampleDir::OriginToResponder,
            (Nanos(0), Nanos(100)),
            Nanos(cursor),
            11,
            7,
        )
        .unwrap()
        .marks
        .into_iter()
        .filter(|m| m.col == col && m.glyph == inflight::WIRE_GLYPH)
        .map(|m| m.row)
        .max()
    };
    assert_eq!(peak(0, 0), Some(1));
    assert_eq!(peak(1, 0), Some(4));
    assert_eq!(peak(2, 0), Some(4));
    assert_eq!(peak(2, 5), None);
    assert_eq!(peak(50, 5), Some(0));
    assert_eq!(peak(51, 5), Some(6));
}

#[test]
fn offsets_fit_the_margin() {
    for n in [0, -999_999, 99_999, 999_999, 9_999_999_999_999_999] {
        assert!(fmt_seq(n).chars().count() <= 7, "{}", fmt_seq(n));
    }
    assert_eq!(fmt_rtt(Nanos(999_999_999)), "999.999ms");
    assert_eq!(fmt_rate(999_999), "999.999kbps");
}

fn conn(origin: Endpoint, responder: Endpoint) -> Connection {
    Connection {
        id: ConnId {
            pair: EndpointPair::new(origin, responder),
            instance: 0,
        },
        state: ConnState::Established,
        origin,
        responder,
        origin_inferred: false,
        opened_at: Nanos(0),
        last_at: Nanos(1_000),
        bytes_o2r: 0,
        bytes_r2o: 0,
        segments: 1,
    }
}

fn replaying() -> App {
    let sample = |t: u64| StateSample {
        t: Nanos(t),
        state: ConnState::Established,
        bytes_o2r: 0,
        bytes_r2o: 0,
    };
    App::replaying(
        Timeline::new(vec![
            (conn(ep(1, 1), ep(2, 22)), vec![sample(0), sample(300)]),
            (conn(ep(1, 2), ep(3, 443)), vec![sample(100)]),
        ]),
        "t".to_string(),
    )
}

fn key(code: KeyCode) -> KeyPress {
    KeyPress {
        code,
        control: false,
    }
}

#[test]
fn every_key_keeps_the_selection_on_screen() {
    let mut app = replaying();
    let keys = [
        KeyCode::Char('.'),
        KeyCode::Char('j'),
        KeyCode::Char('s'),
        KeyCode::Char('S'),
        KeyCode::Char('/'),
        KeyCode::Char('h'),
        KeyCode::Char('z'),
        KeyCode::Backspace,
        KeyCode::Enter,
        KeyCode::Right,
        KeyCode::Char(','),
        KeyCode::Char('/'),
        KeyCode::Esc,
    ];
    for code in keys {
        assert_eq!(handle_key(&mut app, key(code)), Outcome::Continue);
        let rows = app.visible();
        match app.selected() {
            Some(id) => {
                let place = row_place(&rows, id).expect("the selected row is on screen");
                assert_eq!(rows[place].id, id);
            }
            None => assert!(rows.is_empty()),
        }
    }
}

#[test]
fn quitting_leaves_everything_as_it_was() {
    let mut app = replaying();
    handle_key(&mut app, key(KeyCode::Char('.')));
    let before = (app.cursor(), app.selected(), app.mode(), app.is_playing());
    assert_eq!(handle_key(&mut app, key(KeyCode::Char('q'))), Outcome::Quit);
    let ctrl_c = KeyPress {
        code: KeyCode::Char('c'),
        control: true,
    };
    assert_eq!(handle_key(&mut app, ctrl_c), Outcome::Quit);
    assert_eq!(
        before,
        (app.cursor(), app.selected(), app.mode(), app.is_playing())
    );
}

#[test]
fn ticks_never_take_the_cursor_back() {
    let mut transport = Transport::new(Nanos(10), Nanos(1_000));
    transport.toggle_play();
    let mut last = transport.cursor();
    for dt in [0, 1, 7, 100, 0, 5_000, 3] {
        transport.tick(Nanos(dt));
        assert!(transport.cursor() >= last);
        last = transport.cursor();
    }
    assert_eq!(last, Nanos(1_000));
}

#[test]
fn the_state_shown_is_the_newest_that_was_reached() {
    let app_at = |steps: usize| {
        let mut app = replaying();
        for _ in 0..steps {
            app.step_forward();
        }
        app.cursor()
    };
    assert_eq!(app_at(0), Nanos(0));
    assert_eq!(app_at(1), Nanos(100));
    assert_eq!(app_at(2), Nanos(300));
    assert_eq!(app_at(3), Nanos(300));
}

#[test]
fn offsets_are_distances_up_to_whole_turns() {
    let (a, b) = (ep(1, 1234), ep(2, 80));
    let numbers: [u32; 8] = [
        4_294_967_000,
        4_294_967_200,
        100,
        4_294_967_100,
        2_000_000_000,
        4_000_000_000,
        1_500_000_000,
        3_900_000_000,
    ];
    let items: Vec<Item> = numbers
        .iter()
        .zip(0..)
        .map(|(seq, ts)| segment(a, b, TcpFlags::ACK, *seq, 1, ts))
        .collect();
    let config = EngineConfig {
        collect_seq_timeline: true,
        collect_state_timeline: true,
        reset_threshold: HALF,
        ..EngineConfig::default()
    };
    let mut tracker = Tracker::new(config);
    for item in &items {
        tracker.observe(item);
    }
    let timeline = tracker.into_timeline().unwrap();
    let id = timeline.connections()[0].id;
    let offsets: Vec<i64> = timeline.seq_series(id).iter().map(|s| s.rel).collect();
    assert_eq!(offsets.len(), numbers.len());
    assert_eq!(offsets[0], 0);
    let mut greatest = 0;
    for (offset, number) in offsets.iter().zip(numbers) {
        let distance = i64::from(number.wrapping_sub(numbers[0]));
        assert_eq!(offset.rem_euclid(1 << 32), distance);
        assert!(greatest - (1 << 31) <= *offset && *offset < greatest + (1 << 31));
        greatest = greatest.max(*offset);
    }
}

#[test]
fn the_order_of_samples_changes_no_answer() {
    let sample = |t: u64| StateSample {
        t: Nanos(t),
        state: ConnState::Established,
        bytes_o2r: t,
        bytes_r2o: 0,
    };
    let timeline = |times: [u64; 3]| {
        Timeline::new(vec![(
            conn(ep(1, 1), ep(2, 22)),
            times.into_iter().map(sample).collect(),
        )])
    };
    let (one, two) = (timeline([10, 500, 30]), timeline([500, 30, 10]));
    assert_eq!(one.bounds(), two.bounds());
    for t in [0, 10, 29, 30, 499, 500, 1_000, 2_000] {
        assert_eq!(one.active_at(Nanos(t)), two.active_at(Nanos(t)));
        assert_eq!(one.resolve_at(Nanos(t)), two.resolve_at(Nanos(t)));
        assert_eq!(one.next_event(Nanos(t)), two.next_event(Nanos(t)));
        assert_eq!(one.prev_event(Nanos(t)), two.prev_event(Nanos(t)));
    }
}

#[test]
fn vlan_tags_are_transparent() {
    let mut frame = vec![0u8; 12];
    frame.extend_from_slice(&[0x08, 0x00, 0x45, 0x00, 0x01]);
    let mut other = vec![0u8; 12];
    other.extend_from_slice(&[0x08, 0x06, 0x00]);
    for plain in [frame, other, vec![0u8; 13]] {
        let mut tagged = plain.clone();
        for tag in [[0x81, 0x00, 0x12, 0x34], [0x88, 0xa8, 0xff, 0xff]] {
            tagged.splice(12..12, tag);
            match (
                strip_link(LinkType::Ethernet, &plain),
                strip_link(LinkType::Ethernet, &tagged),
            ) {
                (Stripped::Ip(one), Stripped::Ip(two)) => assert_eq!(one, two),
                (Stripped::Skip(one), Stripped::Skip(two)) => assert_eq!(one, two),
                _ => panic!("a tag changed the outcome"),
            }
        }
    }
}
