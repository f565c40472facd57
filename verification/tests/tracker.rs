//! Tracking of connections: orientation, lifecycle, instances, and what is recorded.

use tcpvisr::config::EngineConfig;
use tcpvisr::conn::{ConnId, Connection};
use tcpvisr::flow::FlowKey;
use tcpvisr::metric::SampleDir;
use tcpvisr::metrics::{ConnectionMetrics, MetricError, SeriesCollection};
use tcpvisr::net::{IpAddr, Ipv4Addr};
use tcpvisr::segment::{Item, Segment, TcpFlags, TcpOptions};
use tcpvisr::seq::{TcpSeq, HALF};
use tcpvisr::state::ConnState;
use tcpvisr::time::Nanos;
use tcpvisr::timeline::{SeqKind, Timeline};
use tcpvisr::tracker::{is_backward_reset, track, Tracker};

fn ep(o: u8, p: u16) -> (IpAddr, u16) {
    (IpAddr::V4(Ipv4Addr::new(10, 0, 0, o)), p)
}

/// Build a one-segment `Item`. `ack` is carried for state tests; pass `0` when unused.
fn seg(
    src: (IpAddr, u16),
    dst: (IpAddr, u16),
    flags: u16,
    seq: u32,
    ack: u32,
    len: u32,
    ts: u64,
) -> Item {
    Item::Segment(Segment {
        ts: Nanos(ts),
        flow: FlowKey {
            src_ip: src.0,
            src_port: src.1,
            dst_ip: dst.0,
            dst_port: dst.1,
        },
        seq: TcpSeq(seq),
        ack: TcpSeq(ack),
        flags: TcpFlags(flags),
        window: 0,
        options: TcpOptions::default(),
        payload_len: len,
    })
}

#[test]
fn bare_syn_sets_origin_and_groups_both_directions() {
    let (c, s) = (ep(1, 1234), ep(2, 80));
    let mut t = Tracker::new(EngineConfig::default());
    t.observe(&seg(c, s, TcpFlags::SYN, 100, 0, 0, 1_000)); // client SYN
    t.observe(&seg(
        s,
        c,
        TcpFlags::SYN | TcpFlags::ACK,
        500,
        101,
        0,
        2_000,
    )); // server SYN-ACK
    t.observe(&seg(c, s, TcpFlags::ACK, 101, 501, 10, 3_000)); // 10 bytes c->s
    t.observe(&seg(s, c, TcpFlags::ACK, 501, 111, 20, 4_000)); // 20 bytes s->c
    let conns = t.into_connections();
    assert_eq!(conns.len(), 1, "both directions group into one connection");
    let conn = conns[0];
    assert_eq!((conn.origin.ip, conn.origin.port), c);
    assert_eq!((conn.responder.ip, conn.responder.port), s);
    assert!(!conn.origin_inferred);
    assert_eq!(conn.bytes_o2r, 10);
    assert_eq!(conn.bytes_r2o, 20);
    assert_eq!(conn.segments, 4);
    assert_eq!(conn.duration(), Nanos(3_000));
}

#[test]
fn syn_ack_first_orients_server_as_responder() {
    let (c, s) = (ep(1, 1234), ep(2, 443));
    let mut t = Tracker::new(EngineConfig::default());
    t.observe(&seg(s, c, TcpFlags::SYN | TcpFlags::ACK, 9, 0, 0, 1_000)); // joined mid-handshake
    let conns = t.into_connections();
    assert_eq!(
        (conns[0].origin.ip, conns[0].origin.port),
        c,
        "client is origin"
    );
    assert_eq!((conns[0].responder.ip, conns[0].responder.port), s);
    assert!(!conns[0].origin_inferred, "SYN-ACK orientation is observed");
}

#[test]
fn mid_stream_infers_origin_from_first_segment() {
    let (a, b) = (ep(1, 5000), ep(2, 8080));
    let mut t = Tracker::new(EngineConfig::default());
    t.observe(&seg(a, b, TcpFlags::ACK, 42, 0, 5, 1_000)); // no SYN ever
    let conns = t.into_connections();
    assert_eq!((conns[0].origin.ip, conns[0].origin.port), a);
    assert!(conns[0].origin_inferred);
    assert_eq!(conns[0].bytes_o2r, 5);
}

#[test]
fn last_at_is_max_under_reordered_timestamps() {
    let (a, b) = (ep(1, 5000), ep(2, 8080));
    let mut t = Tracker::new(EngineConfig::default());
    t.observe(&seg(a, b, TcpFlags::ACK, 42, 0, 5, 5_000)); // later ts first
    t.observe(&seg(a, b, TcpFlags::ACK, 47, 0, 5, 1_000)); // reordered earlier ts
    let conns = t.into_connections();
    assert_eq!(conns[0].opened_at, Nanos(5_000));
    assert_eq!(
        conns[0].last_at,
        Nanos(5_000),
        "earlier ts must not move last_at back"
    );
    assert_eq!(conns[0].duration(), Nanos(0), "saturating, no panic");
}

fn run(items: &[Item]) -> Vec<Connection> {
    let mut t = Tracker::new(EngineConfig::default());
    for it in items {
        t.observe(it);
    }
    t.into_connections()
}

#[test]
fn three_way_handshake_reaches_established() {
    let (c, s) = (ep(1, 1234), ep(2, 80));
    let conns = run(&[
        seg(c, s, TcpFlags::SYN, 100, 0, 0, 1),
        seg(s, c, TcpFlags::SYN | TcpFlags::ACK, 500, 101, 0, 2),
        seg(c, s, TcpFlags::ACK, 101, 501, 0, 3),
    ]);
    assert_eq!(conns[0].state, ConnState::Established);
}

#[test]
fn simultaneous_open_reaches_established() {
    let (a, b) = (ep(1, 4000), ep(2, 4001));
    let conns = run(&[
        seg(a, b, TcpFlags::SYN, 10, 0, 0, 1), // a SYN -> SynSent, a=origin
        seg(b, a, TcpFlags::SYN, 20, 0, 0, 2), // b SYN (responder) -> SynReceived
        seg(a, b, TcpFlags::ACK, 11, 21, 0, 3),
        seg(b, a, TcpFlags::ACK, 21, 11, 0, 4),
    ]);
    assert_eq!(conns.len(), 1);
    assert_eq!(conns[0].state, ConnState::Established);
    assert!(!conns[0].origin_inferred);
}

#[test]
fn graceful_fin_fin_reaches_closed() {
    let (c, s) = (ep(1, 1234), ep(2, 80));
    let conns = run(&[
        seg(c, s, TcpFlags::ACK, 100, 1, 5, 1), // mid-stream established
        seg(c, s, TcpFlags::FIN | TcpFlags::ACK, 105, 1, 0, 2),
        seg(s, c, TcpFlags::FIN | TcpFlags::ACK, 1, 106, 0, 3),
    ]);
    assert_eq!(conns[0].state, ConnState::Closed);
}

#[test]
fn rst_overrides_to_reset() {
    let (c, s) = (ep(1, 1234), ep(2, 80));
    let conns = run(&[
        seg(c, s, TcpFlags::ACK, 100, 1, 5, 1),
        seg(s, c, TcpFlags::RST, 1, 0, 0, 2),
    ]);
    assert_eq!(conns[0].state, ConnState::Reset);
}

#[test]
fn retransmitted_payload_is_recounted_as_wire_bytes() {
    let (c, s) = (ep(1, 1234), ep(2, 80));
    let conns = run(&[
        seg(c, s, TcpFlags::ACK, 100, 1, 10, 1), // 10 bytes c->s
        seg(c, s, TcpFlags::ACK, 100, 1, 10, 2), // retransmit of the same 10 bytes
    ]);
    assert_eq!(
        conns[0].bytes_o2r, 20,
        "wire bytes count retransmits"
    );
    assert_eq!(conns[0].segments, 2);
}

#[test]
fn duplicate_syn_does_not_regress_established() {
    let (c, s) = (ep(1, 1234), ep(2, 80));
    let conns = run(&[
        seg(c, s, TcpFlags::SYN, 100, 0, 0, 1),
        seg(s, c, TcpFlags::SYN | TcpFlags::ACK, 500, 101, 0, 2),
        seg(c, s, TcpFlags::ACK, 101, 501, 5, 3), // Established
        seg(c, s, TcpFlags::SYN, 100, 0, 0, 4),   // retransmitted SYN (dup)
    ]);
    assert_eq!(conns.len(), 1, "dup SYN on live conn does not split");
    assert_eq!(conns[0].state, ConnState::Established);
}

fn run_cfg(items: &[Item], config: EngineConfig) -> Vec<Connection> {
    track(items, config)
}

#[test]
fn tuple_reuse_new_syn_after_close_splits() {
    let (c, s) = (ep(1, 1234), ep(2, 80));
    let conns = run_cfg(
        &[
            seg(c, s, TcpFlags::SYN, 100, 0, 0, 1),
            seg(s, c, TcpFlags::SYN | TcpFlags::ACK, 500, 101, 0, 2),
            seg(c, s, TcpFlags::ACK, 101, 501, 0, 3),
            seg(c, s, TcpFlags::FIN | TcpFlags::ACK, 101, 501, 0, 4),
            seg(s, c, TcpFlags::FIN | TcpFlags::ACK, 501, 102, 0, 5), // Closed
            seg(c, s, TcpFlags::SYN, 9000, 0, 0, 6),                  // reuse: new SYN
        ],
        EngineConfig::default(),
    );
    assert_eq!(conns.len(), 2, "reuse after close is a second instance");
    assert_eq!(conns[0].id.instance, 0);
    assert_eq!(conns[1].id.instance, 1);
    assert_eq!(conns[1].state, ConnState::SynSent);
}

#[test]
fn forward_wrap_stays_one_instance() {
    let (a, b) = (ep(1, 5000), ep(2, 8080));
    let conns = run_cfg(
        &[
            seg(a, b, TcpFlags::ACK, u32::MAX - 100, 1, 50, 1), // baseline near top
            seg(a, b, TcpFlags::ACK, 200, 1, 50, 2),            // wrapped forward — advance
        ],
        EngineConfig::default(),
    );
    assert_eq!(conns.len(), 1, "a u32 wrap must not split the flow");
}

#[test]
fn large_backward_reset_splits_mid_stream() {
    let (a, b) = (ep(1, 5000), ep(2, 8080));
    let conns = run_cfg(
        &[
            seg(a, b, TcpFlags::ACK, 0x7000_0000, 1, 50, 1), // established baseline
            seg(a, b, TcpFlags::ACK, 0x1000_0000, 1, 50, 2), // 0x6000_0000 backward -> reset
        ],
        EngineConfig::default(),
    );
    assert_eq!(conns.len(), 2, "fresh ISN far below baseline splits");
}

#[test]
fn small_backward_retransmit_does_not_split() {
    let (a, b) = (ep(1, 5000), ep(2, 8080));
    let conns = run_cfg(
        &[
            seg(a, b, TcpFlags::ACK, 1_000_000, 1, 50, 1),
            seg(a, b, TcpFlags::ACK, 999_000, 1, 50, 2), // retransmit
        ],
        EngineConfig::default(),
    );
    assert_eq!(conns.len(), 1);
}

#[test]
fn idle_syn_past_dead_after_splits_even_without_close() {
    let (c, s) = (ep(1, 1234), ep(2, 80));
    let cfg = EngineConfig {
        dead_after: Nanos(1_000),
        ..EngineConfig::default()
    };
    let conns = run_cfg(
        &[
            seg(c, s, TcpFlags::SYN, 100, 0, 0, 1),
            seg(s, c, TcpFlags::SYN | TcpFlags::ACK, 500, 101, 0, 2), // SynReceived, live
            seg(c, s, TcpFlags::SYN, 9000, 0, 0, 10_000), // 9998ns later: idle reuse
        ],
        cfg,
    );
    assert_eq!(
        conns.len(),
        2,
        "SYN after idle > dead_after starts a new instance"
    );
    assert_eq!(conns[0].state, ConnState::SynReceived);
}

#[test]
fn syn_ack_alone_does_not_complete_the_handshake() {
    let (c, s) = (ep(1, 1234), ep(2, 80));
    let syn_ack = TcpFlags::SYN | TcpFlags::ACK;
    let opening = [
        seg(c, s, TcpFlags::SYN, 100, 0, 0, 1),
        seg(s, c, syn_ack, 500, 101, 0, 2),
    ];
    let conns = track(&opening, EngineConfig::default());
    assert_eq!(conns.len(), 1);
    assert_eq!(conns[0].state, ConnState::SynReceived);
    for next in [
        seg(c, s, TcpFlags::ACK, 101, 501, 0, 3),
        seg(c, s, 0, 101, 0, 10, 3),
    ] {
        let mut items = opening.to_vec();
        items.push(next);
        let conns = track(&items, EngineConfig::default());
        assert_eq!(conns[0].state, ConnState::Established);
    }
    // Seen first, a SYN-ACK leaves its connection in the same state.
    let conns = track(&opening[1..], EngineConfig::default());
    assert_eq!(conns[0].state, ConnState::SynReceived);
}

#[test]
fn answers_of_a_simultaneous_open_complete_it() {
    let (c, s) = (ep(1, 1234), ep(2, 80));
    let syn_ack = TcpFlags::SYN | TcpFlags::ACK;
    let conns = track(
        &[
            seg(c, s, TcpFlags::SYN, 100, 0, 0, 1),
            seg(s, c, TcpFlags::SYN, 500, 0, 0, 2),
            seg(c, s, syn_ack, 100, 501, 0, 3),
        ],
        EngineConfig::default(),
    );
    assert_eq!(conns[0].state, ConnState::Established);
}

#[test]
fn fins_lead_into_the_close() {
    let (c, s) = (ep(1, 1234), ep(2, 80));
    let fin = TcpFlags::FIN | TcpFlags::ACK;
    let opening = [
        seg(c, s, TcpFlags::SYN, 100, 0, 0, 1),
        seg(s, c, fin, 500, 101, 0, 2),
    ];
    assert_eq!(
        track(&opening, EngineConfig::default())[0].state,
        ConnState::FinWait
    );
    let mut items = opening.to_vec();
    items.push(seg(c, s, fin, 101, 501, 0, 3));
    assert_eq!(
        track(&items, EngineConfig::default())[0].state,
        ConnState::Closed
    );
    items.push(seg(c, s, TcpFlags::RST, 102, 0, 0, 4));
    assert_eq!(
        track(&items, EngineConfig::default())[0].state,
        ConnState::Reset
    );
}

#[test]
fn forward_wrap_is_not_a_reset() {
    // baseline near the top; seq wrapped forward by 0x300 — an advance, not a reset.
    assert!(!is_backward_reset(
        TcpSeq(u32::MAX - 0xFF),
        TcpSeq(0x200),
        1 << 30
    ));
}

#[test]
fn small_backward_is_not_a_reset() {
    assert!(!is_backward_reset(
        TcpSeq(1_000_000),
        TcpSeq(999_000),
        1 << 30
    ));
}

#[test]
fn large_backward_is_a_reset() {
    // 0x6000_0000 backward (> 2^30, < 2^31).
    assert!(is_backward_reset(
        TcpSeq(0x7000_0000),
        TcpSeq(0x1000_0000),
        1 << 30
    ));
}

fn state_cfg() -> EngineConfig {
    EngineConfig {
        collect_state_timeline: true,
        ..EngineConfig::default()
    }
}

#[test]
fn collects_one_state_sample_per_segment() {
    let (c, s) = (ep(1, 1234), ep(2, 80));
    let mut t = Tracker::new(state_cfg());
    t.observe(&seg(c, s, TcpFlags::ACK, 100, 1, 10, 1_000)); // 10 bytes o2r
    t.observe(&seg(s, c, TcpFlags::ACK, 1, 110, 20, 2_000)); // 20 bytes r2o
    let tl = t.into_timeline().expect("no ceiling");
    assert_eq!(tl.connection_count(), 1);
    let at = tl.resolve_at(Nanos(2_000));
    assert_eq!(at[0].bytes_o2r, 10);
    assert_eq!(at[0].bytes_r2o, 20);
    assert_eq!(at[0].state, ConnState::Established);
    // As of the first segment only, the second direction's bytes are not yet counted.
    assert_eq!(tl.resolve_at(Nanos(1_000))[0].bytes_r2o, 0);
}

#[test]
fn none_flag_yields_empty_series() {
    let (c, s) = (ep(1, 1234), ep(2, 80));
    let mut t = Tracker::new(EngineConfig::default()); // collect_state_timeline = false
    t.observe(&seg(c, s, TcpFlags::ACK, 100, 1, 10, 1_000));
    let tl = t.into_timeline().expect("no ceiling");
    // No samples -> the connection is never resolvable and bounds fall back to 0..last_at.
    assert!(tl.resolve_at(Nanos(1_000)).is_empty());
    assert_eq!(tl.bounds(), (Nanos(0), Nanos(1_000)));
}

#[test]
fn tracker_ceiling_exceeded_returns_error() {
    let (c, s) = (ep(1, 1234), ep(2, 80));
    let mut t = Tracker::new(EngineConfig {
        collect_state_timeline: true,
        max_samples: 1,
        ..EngineConfig::default()
    });
    t.observe(&seg(c, s, TcpFlags::ACK, 100, 1, 10, 1_000));
    t.observe(&seg(c, s, TcpFlags::ACK, 110, 1, 10, 2_000)); // 2nd sample > limit 1
    let err = t.into_timeline().expect_err("should exceed");
    assert_eq!(
        err,
        MetricError::SampleCeiling {
            samples: 2,
            limit: 1
        }
    );
}

fn run_metrics(items: &[Item], coll: SeriesCollection) -> Vec<ConnectionMetrics> {
    let cfg = EngineConfig {
        series_collection: coll,
        ..EngineConfig::default()
    };
    let mut t = Tracker::new(cfg);
    for it in items {
        t.observe(it);
    }
    t.into_metrics().expect("no ceiling")
}

#[test]
fn none_collection_yields_empty_series() {
    let (c, s) = (ep(1, 1234), ep(2, 80));
    let m = run_metrics(
        &[seg(c, s, TcpFlags::ACK, 100, 1, 10, 1_000)],
        SeriesCollection::Off,
    );
    assert_eq!(m.len(), 1);
    assert!(m[0].series.is_empty());
}

#[test]
fn none_collection_does_not_accumulate_metric_state_for_unacked_flow() {
    // A long one-directional, never-acknowledged flow under `None` (the `conns` path) must
    // not buffer samples or grow per-connection RTT state — guards the cross-mode OOM path.
    let (c, s) = (ep(1, 1234), ep(2, 80));
    let mut t = Tracker::new(EngineConfig {
        series_collection: SeriesCollection::Off,
        ..EngineConfig::default()
    });
    for i in 0..10_000u32 {
        // distinct, advancing, never-acked data segments
        t.observe(&seg(
            c,
            s,
            TcpFlags::ACK,
            100 + i * 10,
            1,
            10,
            u64::from(i) + 1,
        ));
    }
    let m = t.into_metrics().expect("no ceiling under None");
    assert_eq!(m.len(), 1);
    assert!(m[0].series.is_empty(), "None must store no samples");
}

#[test]
fn all_collection_yields_one_sample_per_segment() {
    let (c, s) = (ep(1, 1234), ep(2, 80));
    let m = run_metrics(
        &[
            seg(c, s, TcpFlags::ACK, 100, 1, 10, 1_000),
            seg(s, c, TcpFlags::ACK, 1, 110, 0, 2_000),
        ],
        SeriesCollection::All,
    );
    assert_eq!(m[0].series.len(), 2);
    assert_eq!(m[0].series[0].in_flight_bytes, 10);
}

#[test]
fn only_collection_buffers_just_the_target() {
    // Two distinct connections; collect only the first one's ConnId.
    let (c1, s1) = (ep(1, 1111), ep(2, 80));
    let (c2, s2) = (ep(3, 2222), ep(4, 80));
    let items = [
        seg(c1, s1, TcpFlags::ACK, 100, 1, 10, 1_000),
        seg(c2, s2, TcpFlags::ACK, 100, 1, 10, 2_000),
    ];
    // Resolve target id via a None pass.
    let conns = {
        let mut t = Tracker::new(EngineConfig::default());
        for it in &items {
            t.observe(it);
        }
        t.into_connections()
    };
    let target = conns[0].id;
    let m = run_metrics(&items, SeriesCollection::Only(target));
    let by_target: Vec<_> = m.iter().filter(|cm| cm.conn.id == target).collect();
    let others: Vec<_> = m.iter().filter(|cm| cm.conn.id != target).collect();
    assert_eq!(by_target[0].series.len(), 1);
    assert!(others.iter().all(|cm| cm.series.is_empty()));
}

#[test]
fn series_ceiling_exceeded_returns_error() {
    let (c, s) = (ep(1, 1234), ep(2, 80));
    let cfg = EngineConfig {
        series_collection: SeriesCollection::All,
        max_samples: 1,
        ..EngineConfig::default()
    };
    let mut t = Tracker::new(cfg);
    t.observe(&seg(c, s, TcpFlags::ACK, 100, 1, 10, 1_000));
    t.observe(&seg(c, s, TcpFlags::ACK, 110, 1, 10, 2_000)); // 2nd sample > limit 1
    let err = t.into_metrics().expect_err("should exceed");
    assert_eq!(
        err,
        MetricError::SampleCeiling {
            samples: 2,
            limit: 1
        }
    );
}

#[test]
fn metrics_ordering_matches_into_connections() {
    let (c1, s1) = (ep(1, 1111), ep(2, 80));
    let (c2, s2) = (ep(3, 2222), ep(4, 80));
    let items = [
        seg(c2, s2, TcpFlags::ACK, 100, 1, 10, 2_000),
        seg(c1, s1, TcpFlags::ACK, 100, 1, 10, 1_000),
    ];
    let m = run_metrics(&items, SeriesCollection::All);
    // opened_at 1_000 (c1) sorts before 2_000 (c2).
    assert_eq!(m[0].conn.opened_at, Nanos(1_000));
    assert_eq!(m[1].conn.opened_at, Nanos(2_000));
}

fn seq_cfg() -> EngineConfig {
    EngineConfig {
        collect_state_timeline: true,
        collect_seq_timeline: true,
        ..EngineConfig::default()
    }
}

fn only_id(tl: &Timeline) -> ConnId {
    tl.connections().first().expect("one connection").id
}

// A segment carrying a single SACK block (L, R), in src->dst direction.
fn seg_sack(
    src: (IpAddr, u16),
    dst: (IpAddr, u16),
    flags: u16,
    seq: u32,
    ack: u32,
    ts: u64,
    block: (u32, u32),
) -> Item {
    let mut options = TcpOptions::default();
    options.sack_blocks.push((TcpSeq(block.0), TcpSeq(block.1)));
    Item::Segment(Segment {
        ts: Nanos(ts),
        flow: FlowKey {
            src_ip: src.0,
            src_port: src.1,
            dst_ip: dst.0,
            dst_port: dst.1,
        },
        seq: TcpSeq(seq),
        ack: TcpSeq(ack),
        flags: TcpFlags(flags),
        window: 0,
        options,
        payload_len: 0,
    })
}

#[test]
fn data_points_carry_unwrapped_rel_and_len() {
    let (c, s) = (ep(1, 1234), ep(2, 80));
    let mut t = Tracker::new(seq_cfg());
    t.observe(&seg(c, s, TcpFlags::ACK, 100, 1, 10, 1_000));
    t.observe(&seg(c, s, TcpFlags::ACK, 110, 1, 20, 2_000));
    let tl = t.into_timeline().expect("timeline");
    let series: Vec<_> = tl
        .seq_series(only_id(&tl))
        .iter()
        .filter(|p| p.dir == SampleDir::OriginToResponder)
        .copied()
        .collect();
    assert_eq!(series.len(), 2);
    assert_eq!((series[0].rel, series[0].len), (0, 10));
    assert_eq!((series[1].rel, series[1].len), (10, 20));
    assert_eq!(
        series[1].kind,
        SeqKind::Data {
            retransmit: false,
            out_of_order: false
        }
    );
}

#[test]
fn rel_unwraps_across_a_u32_wrap() {
    let (c, s) = (ep(1, 1234), ep(2, 80));
    let mut t = Tracker::new(seq_cfg());
    t.observe(&seg(c, s, TcpFlags::ACK, u32::MAX - 100, 1, 50, 1_000));
    t.observe(&seg(c, s, TcpFlags::ACK, 200, 1, 50, 2_000));
    let tl = t.into_timeline().expect("timeline");
    let rels: Vec<i64> = tl
        .seq_series(only_id(&tl))
        .iter()
        .filter(|p| p.dir == SampleDir::OriginToResponder)
        .map(|p| p.rel)
        .collect();
    // 200.serial_diff(u32::MAX-100) == 301 — a forward advance, not a fold.
    assert_eq!(rels, vec![0, 301]);
}

#[test]
fn rel_rises_monotonically_across_multiple_wraps() {
    let (c, s) = (ep(1, 1234), ep(2, 80));
    let mut t = Tracker::new(seq_cfg());
    let step: u32 = 1_200_000_000; // ~1.2 GB per segment; 4 segments wrap u32 twice
    let mut seq: u32 = 0;
    let mut ts = 0u64;
    for _ in 0..4 {
        ts += 1_000;
        t.observe(&seg(c, s, TcpFlags::ACK, seq, 1, step, ts));
        seq = seq.wrapping_add(step);
    }
    let tl = t.into_timeline().expect("timeline");
    let rels: Vec<i64> = tl
        .seq_series(only_id(&tl))
        .iter()
        .filter(|p| p.dir == SampleDir::OriginToResponder)
        .map(|p| p.rel)
        .collect();
    assert_eq!(rels.len(), 4);
    assert!(
        rels.windows(2).all(|w| w[1] > w[0]),
        "rel strictly increases across wraps: {rels:?}"
    );
    assert_eq!(rels[3], 3 * i64::from(step), "no fold: 3 steps forward");
}

#[test]
fn sack_point_lands_in_the_acked_direction_frame() {
    let (c, s) = (ep(1, 1234), ep(2, 80));
    let mut t = Tracker::new(seq_cfg());
    // O2R data anchors the O2R frame at seq 1000 (rel 0).
    t.observe(&seg(c, s, TcpFlags::ACK, 1000, 1, 100, 1_000));
    // R2O ack carrying a SACK block for O2R bytes [1200, 1300).
    t.observe(&seg_sack(s, c, TcpFlags::ACK, 1, 1101, 2_000, (1200, 1300)));
    let tl = t.into_timeline().expect("timeline");
    let sacks: Vec<_> = tl
        .seq_series(only_id(&tl))
        .iter()
        .filter(|p| p.kind == SeqKind::Sack)
        .copied()
        .collect();
    assert_eq!(sacks.len(), 1);
    assert_eq!(
        sacks[0].dir,
        SampleDir::OriginToResponder,
        "acked direction"
    );
    assert_eq!(sacks[0].rel, 200, "1200 - 1000 in the O2R frame");
    assert_eq!(sacks[0].len, 0);
}

#[test]
fn seq_collection_counts_against_the_ceiling() {
    let (c, s) = (ep(1, 1234), ep(2, 80));
    let mut cfg = seq_cfg();
    cfg.max_samples = 1; // first segment already produces state + seq samples
    let mut t = Tracker::new(cfg);
    t.observe(&seg(c, s, TcpFlags::ACK, 100, 1, 10, 1_000));
    t.observe(&seg(c, s, TcpFlags::ACK, 110, 1, 20, 2_000));
    let err = t.into_timeline().expect_err("ceiling");
    assert!(matches!(err, MetricError::SampleCeiling { .. }));
}

#[test]
fn retransmit_and_ooo_classified_on_seq_points() {
    let (c, s) = (ep(1, 1234), ep(2, 80));
    // Retransmit: behind-frontier re-send after a gap >= reorder_window (3ms default).
    let mut t = Tracker::new(seq_cfg());
    t.observe(&seg(c, s, TcpFlags::ACK, 200, 1, 100, 1_000_000));
    t.observe(&seg(c, s, TcpFlags::ACK, 100, 1, 100, 4_000_000)); // 3ms gap -> retransmit
    let tl = t.into_timeline().expect("timeline");
    let kinds: Vec<_> = tl.seq_series(only_id(&tl)).iter().map(|p| p.kind).collect();
    assert_eq!(
        kinds[1],
        SeqKind::Data {
            retransmit: true,
            out_of_order: false
        }
    );

    // Out-of-order: behind-frontier within the reorder window.
    let mut t2 = Tracker::new(seq_cfg());
    t2.observe(&seg(c, s, TcpFlags::ACK, 200, 1, 100, 1_000));
    t2.observe(&seg(c, s, TcpFlags::ACK, 100, 1, 100, 1_001)); // 1us gap -> out-of-order
    let tl2 = t2.into_timeline().expect("timeline");
    let kinds2: Vec<_> = tl2
        .seq_series(only_id(&tl2))
        .iter()
        .map(|p| p.kind)
        .collect();
    assert_eq!(
        kinds2[1],
        SeqKind::Data {
            retransmit: false,
            out_of_order: true
        }
    );
}

#[test]
fn forward_delta_never_resets() {
    for base in [0, 1, 0x7fff_ffff, 0x8000_0000, u32::MAX] {
        for d in [1, 500, 1 << 30, HALF - 1] {
            let seq = TcpSeq(base.wrapping_add(d));
            assert!(!is_backward_reset(TcpSeq(base), seq, 1 << 30));
        }
    }
}

#[test]
fn backward_delta_splits_iff_over_threshold() {
    for base in [0, 12_345, 0x8000_0000, u32::MAX] {
        for b in [1, 1000, 1 << 30, (1 << 30) + 1, HALF - 1] {
            for thr in [0, 1, 999, 1000, 1 << 30, HALF - 1] {
                let seq = TcpSeq(base.wrapping_sub(b));
                assert_eq!(is_backward_reset(TcpSeq(base), seq, thr), b > thr);
            }
        }
    }
}

#[test]
fn ticks_leave_no_trace() {
    let (c, s) = (ep(1, 1234), ep(2, 80));
    let items = [
        seg(c, s, TcpFlags::SYN, 100, 0, 0, 1),
        seg(s, c, TcpFlags::SYN | TcpFlags::ACK, 500, 101, 0, 2),
    ];
    let mut t = Tracker::new(EngineConfig::default());
    t.observe(&items[0]);
    t.observe(&Item::Tick(Nanos(900_000_000_000)));
    t.observe(&items[1]);
    assert_eq!(t.into_connections(), track(&items, EngineConfig::default()));
}

#[test]
fn every_segment_is_counted_once() {
    let (a, b, c) = (ep(1, 1), ep(2, 2), ep(3, 3));
    let items = [
        seg(a, b, TcpFlags::ACK, 1, 1, 10, 1),
        seg(c, b, TcpFlags::ACK, 1, 1, 20, 2),
        seg(b, a, TcpFlags::ACK, 1, 11, 30, 3),
        seg(a, c, TcpFlags::RST, 1, 1, 0, 4),
    ];
    let conns = track(&items, EngineConfig::default());
    assert_eq!(conns.len(), 3);
    assert_eq!(conns.iter().map(|c| c.segments).sum::<u64>(), 4);
    assert_eq!(
        conns.iter().map(|c| c.bytes_o2r + c.bytes_r2o).sum::<u64>(),
        60
    );
}

#[test]
fn recording_does_not_change_what_is_tracked() {
    let (c, s) = (ep(1, 1234), ep(2, 80));
    let items = [
        seg(c, s, TcpFlags::SYN, 100, 0, 0, 1),
        seg(s, c, TcpFlags::SYN | TcpFlags::ACK, 500, 101, 0, 2),
        seg(c, s, TcpFlags::ACK, 101, 501, 7, 3),
    ];
    let plain = track(&items, EngineConfig::default());
    let recorded = track(
        &items,
        EngineConfig {
            series_collection: SeriesCollection::All,
            collect_state_timeline: true,
            collect_seq_timeline: true,
            collect_inflight_timeline: true,
            collect_rtt_timeline: true,
            collect_throughput_timeline: true,
            max_samples: 2,
            ..EngineConfig::default()
        },
    );
    assert_eq!(plain, recorded);
}

#[test]
fn smoothed_round_trip_moves_an_eighth_of_the_way() {
    let (c, s) = (ep(1, 1234), ep(2, 80));
    let mut t = Tracker::new(EngineConfig {
        collect_rtt_timeline: true,
        collect_inflight_timeline: true,
        collect_throughput_timeline: true,
        collect_state_timeline: true,
        ..EngineConfig::default()
    });
    t.observe(&seg(c, s, TcpFlags::ACK, 100, 1, 100, 0));
    t.observe(&seg(s, c, TcpFlags::ACK, 1, 200, 0, 8_000));
    t.observe(&seg(c, s, TcpFlags::ACK, 200, 1, 100, 10_000));
    t.observe(&seg(s, c, TcpFlags::ACK, 1, 300, 0, 26_000));
    let tl = t.into_timeline().expect("timeline");
    let rtt: Vec<(u64, u64)> = tl
        .rtt_series(0)
        .iter()
        .map(|r| (r.rtt.0, r.srtt.0))
        .collect();
    assert_eq!(rtt, vec![(8_000, 8_000), (16_000, 9_000)]);
    assert_eq!(tl.inflight_series(0)[0].bytes, 100);
    assert_eq!(tl.throughput_series(0)[0].throughput_bps, 800);
}

#[test]
fn counters_are_checked_before_a_segment_is_taken() {
    let (c, s) = (ep(1, 1234), ep(2, 80));
    let t = Tracker::new(EngineConfig::default());
    assert!(t.can_observe(&seg(c, s, TcpFlags::ACK, 1, 1, u32::MAX, 1)));
    assert!(t.can_observe(&Item::Tick(Nanos(1))));
}
