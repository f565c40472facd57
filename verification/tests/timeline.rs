//! The configuration and the replay timeline.

use tcpvisr::config::EngineConfig;
use tcpvisr::conn::{ConnId, Connection, EndpointPair};
use tcpvisr::endpoint::Endpoint;
use tcpvisr::metric::SampleDir;
use tcpvisr::metrics::SeriesCollection;
use tcpvisr::net::{IpAddr, Ipv4Addr};
use tcpvisr::state::ConnState;
use tcpvisr::time::Nanos;
use tcpvisr::timeline::{SeqKind, SeqSample, StateSample, Timeline};

#[test]
fn defaults_match_spec() {
    let c = EngineConfig::default();
    assert_eq!(c.series_collection, SeriesCollection::Off);
    assert_eq!(c.throughput_window, Nanos(1_000_000_000));
    assert_eq!(c.reorder_window, Nanos(3_000_000));
    assert_eq!(c.max_samples, 10_000_000);
    assert!(!c.collect_state_timeline);
    assert_eq!(c.dead_after, Nanos(120_000_000_000));
    assert_eq!(c.reset_threshold, 1 << 30);
}

#[test]
fn config_is_copy() {
    let c = EngineConfig::default();
    let d = c; // Copy
    assert_eq!(c, d);
}

fn ep(a: u8, p: u16) -> Endpoint {
    Endpoint {
        ip: IpAddr::V4(Ipv4Addr::new(10, 0, 0, a)),
        port: p,
    }
}

fn conn(inst: u32, opened: u64, last: u64, state: ConnState) -> Connection {
    let port = 1000 + u16::try_from(inst).unwrap_or(0);
    Connection {
        id: ConnId {
            pair: EndpointPair::new(ep(1, port), ep(2, 80)),
            instance: inst,
        },
        state,
        origin: ep(1, port),
        responder: ep(2, 80),
        origin_inferred: false,
        opened_at: Nanos(opened),
        last_at: Nanos(last),
        bytes_o2r: 0,
        bytes_r2o: 0,
        segments: 1,
    }
}

fn ss(t: u64, state: ConnState, up: u64, down: u64) -> StateSample {
    StateSample {
        t: Nanos(t),
        state,
        bytes_o2r: up,
        bytes_r2o: down,
    }
}

#[test]
fn interval_index_membership() {
    // c0 open on [100,200] (Closed at 200); c1 still open from 150 (Established, end 300).
    let tl = Timeline::new(vec![
        (
            conn(0, 100, 200, ConnState::Closed),
            vec![
                ss(100, ConnState::Established, 0, 0),
                ss(200, ConnState::Closed, 0, 0),
            ],
        ),
        (
            conn(1, 150, 300, ConnState::Established),
            vec![
                ss(150, ConnState::Established, 0, 0),
                ss(300, ConnState::Established, 0, 0),
            ],
        ),
    ]);
    assert!(tl.active_at(Nanos(50)).is_empty());
    assert_eq!(tl.active_at(Nanos(120)).len(), 1);
    assert_eq!(tl.active_at(Nanos(180)).len(), 2);
    assert_eq!(tl.active_at(Nanos(250)).len(), 1); // c0 closed at 200, only c1
}

#[test]
fn resolves_state_and_bytes_as_of_t() {
    let tl = Timeline::new(vec![(
        conn(0, 100, 300, ConnState::Established),
        vec![
            ss(100, ConnState::SynSent, 0, 0),
            ss(200, ConnState::Established, 500, 0),
            ss(300, ConnState::Established, 500, 1000),
        ],
    )]);
    let at = |t: u64| tl.resolve_at(Nanos(t));
    assert_eq!(at(150)[0].state, ConnState::SynSent);
    assert_eq!(at(150)[0].bytes_o2r, 0);
    assert_eq!(at(250)[0].state, ConnState::Established);
    assert_eq!(at(250)[0].bytes_o2r, 500);
    assert_eq!(at(250)[0].bytes_r2o, 0);
    // At the capture end (300, the connection's effective bound) the last sample carries.
    assert_eq!(at(300)[0].bytes_r2o, 1000);
}

#[test]
fn closed_drops_out_still_open_stays() {
    // c0 closes at 100; c1 and c2 stay Established with a later capture end (300).
    let tl = Timeline::new(vec![
        (
            conn(0, 0, 100, ConnState::Closed),
            vec![
                ss(0, ConnState::Established, 0, 0),
                ss(100, ConnState::Closed, 0, 0),
            ],
        ),
        (
            conn(1, 0, 100, ConnState::Established),
            vec![ss(0, ConnState::Established, 0, 0)],
        ),
        (
            conn(2, 0, 300, ConnState::Established),
            vec![
                ss(0, ConnState::Established, 0, 0),
                ss(300, ConnState::Established, 0, 0),
            ],
        ),
    ]);
    let ids = |t: u64| tl.active_at(Nanos(t)).len();
    assert_eq!(ids(50), 3, "all three open at 50");
    assert_eq!(
        ids(200),
        2,
        "closed@100 gone; c1 and c2 (open, end=300) stay"
    );
}

#[test]
fn event_stepping_dedups_and_clamps() {
    let tl = Timeline::new(vec![
        (
            conn(0, 0, 200, ConnState::Established),
            vec![
                ss(0, ConnState::Established, 0, 0),
                ss(100, ConnState::Established, 0, 0),
            ],
        ),
        (
            conn(1, 0, 200, ConnState::Established),
            vec![
                ss(100, ConnState::Established, 0, 0), // dup @100
                ss(200, ConnState::Established, 0, 0),
            ],
        ),
    ]);
    assert_eq!(tl.next_event(Nanos(0)), Some(Nanos(100)));
    assert_eq!(tl.next_event(Nanos(100)), Some(Nanos(200)));
    assert_eq!(tl.next_event(Nanos(200)), None);
    assert_eq!(tl.prev_event(Nanos(200)), Some(Nanos(100)));
    assert_eq!(tl.prev_event(Nanos(0)), None);
}

#[test]
fn out_of_order_samples_are_sorted_at_construction() {
    let ordered = Timeline::new(vec![(
        conn(0, 100, 300, ConnState::Established),
        vec![
            ss(100, ConnState::SynSent, 0, 0),
            ss(200, ConnState::Established, 500, 0),
            ss(300, ConnState::Established, 500, 1000),
        ],
    )]);
    let shuffled = Timeline::new(vec![(
        conn(0, 100, 300, ConnState::Established),
        vec![
            ss(300, ConnState::Established, 500, 1000),
            ss(100, ConnState::SynSent, 0, 0),
            ss(200, ConnState::Established, 500, 0),
        ],
    )]);
    for t in [150u64, 250, 300] {
        assert_eq!(
            ordered.resolve_at(Nanos(t)),
            shuffled.resolve_at(Nanos(t)),
            "t={t}"
        );
        assert!(!ordered.resolve_at(Nanos(t)).is_empty(), "t={t} active");
    }
    assert_eq!(shuffled.bounds().0, Nanos(100));
}

#[test]
fn empty_timeline_has_zero_bounds() {
    let tl = Timeline::new(vec![]);
    assert_eq!(tl.bounds(), (Nanos(0), Nanos(0)));
    assert_eq!(tl.connection_count(), 0);
    assert!(tl.resolve_at(Nanos(0)).is_empty());
    assert_eq!(tl.next_event(Nanos(0)), None);
}

#[test]
fn seq_sample_is_copy_and_holds_fields() {
    let s = SeqSample {
        t: Nanos(5),
        dir: SampleDir::OriginToResponder,
        rel: 42,
        len: 10,
        kind: SeqKind::Data {
            retransmit: true,
            out_of_order: false,
        },
    };
    let copy = s; // Copy, not move
    assert_eq!(copy, s);
    assert_eq!(copy.rel, 42);
    assert_ne!(SeqKind::Sack, s.kind);
}

#[test]
fn stepping_on_and_back_returns_to_the_event() {
    let tl = Timeline::new(vec![(
        conn(0, 0, 300, ConnState::Established),
        vec![
            ss(0, ConnState::Established, 0, 0),
            ss(100, ConnState::Established, 0, 0),
            ss(300, ConnState::Established, 0, 0),
        ],
    )]);
    let next = tl.next_event(Nanos(100)).unwrap();
    assert_eq!(next, Nanos(300));
    assert_eq!(tl.prev_event(next), Some(Nanos(100)));
    assert_eq!(tl.next_event(Nanos(50)), Some(Nanos(100)));
}

#[test]
fn connections_carry_the_state_of_the_time_asked_for() {
    let c = conn(0, 100, 300, ConnState::Closed);
    let tl = Timeline::new(vec![(
        c,
        vec![
            ss(100, ConnState::SynSent, 0, 0),
            ss(200, ConnState::Established, 500, 7),
            ss(300, ConnState::Closed, 500, 1000),
        ],
    )]);
    let at = tl.connections_at(Nanos(250));
    assert_eq!(at.len(), 1);
    assert_eq!(at[0].id, c.id);
    assert_eq!(at[0].state, ConnState::Established);
    assert_eq!((at[0].bytes_o2r, at[0].bytes_r2o), (500, 7));
    assert_eq!(at[0].opened_at, Nanos(100));
    assert!(tl.connections_at(Nanos(301)).is_empty());
    assert_eq!(tl.connections(), vec![c]);
    assert_eq!(tl.position(c.id), Some(0));
    assert_eq!(tl.connection(0), c);
}
