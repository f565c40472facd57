//! Ageing out of samples.

use tcpvisr::config::{EngineConfig, RetentionPolicy};
use tcpvisr::flow::FlowKey;
use tcpvisr::metric::SampleDir;
use tcpvisr::metrics::{MetricError, SeriesCollection};
use tcpvisr::net::{IpAddr, Ipv4Addr};
use tcpvisr::report::live_engine_config;
use tcpvisr::retention::{earliest, keep_recent};
use tcpvisr::segment::{Item, Segment, TcpFlags, TcpOptions};
use tcpvisr::seq::TcpSeq;
use tcpvisr::time::Nanos;
use tcpvisr::timeline::InFlightSample;
use tcpvisr::tracker::Tracker;

const SECOND: u64 = 1_000_000_000;

fn data(client: u8, seq: u32, ts: u64) -> Item {
    Item::Segment(Segment {
        ts: Nanos(ts),
        flow: FlowKey {
            src_ip: IpAddr::V4(Ipv4Addr::new(10, 0, 0, client)),
            src_port: 40000,
            dst_ip: IpAddr::V4(Ipv4Addr::new(10, 0, 0, 100)),
            dst_port: 443,
        },
        seq: TcpSeq(seq),
        ack: TcpSeq(0),
        flags: TcpFlags(TcpFlags::ACK),
        window: 1000,
        options: TcpOptions::default(),
        payload_len: 10,
    })
}

fn observed(config: EngineConfig, items: &[Item]) -> Tracker {
    let mut tracker = Tracker::new(config);
    for item in items {
        assert!(tracker.can_observe(item));
        tracker.observe(item);
    }
    tracker
}

/// The times of the metric samples of each connection.
fn series_times(tracker: Tracker) -> Vec<Vec<u64>> {
    let metrics = tracker.into_metrics().expect("samples age out");
    metrics
        .iter()
        .map(|m| m.series.iter().map(|s| s.t.0).collect())
        .collect()
}

fn point(t: u64) -> InFlightSample {
    InFlightSample {
        t: Nanos(t),
        dir: SampleDir::OriginToResponder,
        bytes: t,
    }
}

#[test]
fn horizon_lies_the_window_before_now() {
    let evict = RetentionPolicy::Evict { window: Nanos(30) };
    assert_eq!(evict.horizon(Nanos(100)), Some(Nanos(70)));
    assert_eq!(evict.horizon(Nanos(30)), Some(Nanos(0)));
    assert_eq!(evict.horizon(Nanos(10)), Some(Nanos(0)));
    assert_eq!(RetentionPolicy::FailFast.horizon(Nanos(100)), None);
}

#[test]
fn keeping_the_recent_drops_exactly_the_old() {
    let mut list = vec![point(5), point(9), point(3), point(7), point(6)];
    assert_eq!(keep_recent(&mut list, Nanos(6)), 2);
    assert_eq!(list, vec![point(9), point(7), point(6)]);
    assert_eq!(keep_recent(&mut list, Nanos(6)), 0);
    assert_eq!(list.len(), 3);
    assert_eq!(keep_recent(&mut list, Nanos(8)), 2);
    assert_eq!(list, vec![point(9)]);
    assert_eq!(keep_recent(&mut list, Nanos(10)), 1);
    assert!(list.is_empty());
}

#[test]
fn earliest_sample_bounds_the_list() {
    let list = vec![point(5), point(9), point(3)];
    assert_eq!(earliest(&list, Nanos(u64::MAX)), Nanos(3));
    assert_eq!(earliest(&list, Nanos(2)), Nanos(2));
    assert_eq!(earliest(&Vec::<InFlightSample>::new(), Nanos(8)), Nanos(8));
}

#[test]
fn samples_age_out_of_the_window() {
    let tracker = observed(
        live_engine_config(5),
        &[
            data(1, 100, SECOND),
            data(1, 110, 3 * SECOND),
            data(2, 500, 6 * SECOND),
            data(1, 120, 8 * SECOND),
        ],
    );
    // Eight seconds in, what is older than three is gone.
    assert_eq!(
        series_times(tracker),
        vec![vec![3 * SECOND, 8 * SECOND], vec![6 * SECOND]]
    );
}

#[test]
fn every_series_ages_out_alike() {
    let items = [
        data(1, 100, SECOND),
        data(1, 110, 3 * SECOND),
        data(1, 120, 8 * SECOND),
    ];
    let tracker = observed(live_engine_config(4), &items);
    let timeline = tracker.into_timeline().expect("samples age out");
    let id = timeline.connection(0).id;
    let seq: Vec<u64> = timeline.seq_series(id).iter().map(|s| s.t.0).collect();
    assert_eq!(seq, vec![8 * SECOND]);
    let inflight: Vec<u64> = timeline.inflight_series(0).iter().map(|s| s.t.0).collect();
    assert_eq!(inflight, vec![8 * SECOND]);
    let rates: Vec<u64> = timeline.throughput_series(0).iter().map(|s| s.t.0).collect();
    assert_eq!(rates, vec![8 * SECOND]);
    assert_eq!(timeline.bounds(), (Nanos(8 * SECOND), Nanos(8 * SECOND)));
}

#[test]
fn ageing_leaves_connections_and_offsets_alone() {
    let items = [
        data(1, 100, SECOND),
        data(1, 110, 3 * SECOND),
        data(1, 120, 8 * SECOND),
    ];
    let tracker = observed(live_engine_config(1), &items);
    let timeline = tracker.into_timeline().expect("samples age out");
    let conn = timeline.connection(0);
    assert_eq!(conn.segments, 3);
    assert_eq!(conn.bytes_o2r, 30);
    assert_eq!(conn.opened_at, Nanos(SECOND));
    // The offset still counts from the first number seen, and all bytes are still outstanding.
    assert_eq!(timeline.seq_series(conn.id)[0].rel, 20);
    assert_eq!(timeline.inflight_series(0)[0].bytes, 30);
}

#[test]
fn ticks_let_samples_age_out() {
    let mut items = vec![data(1, 100, SECOND), data(1, 110, 3 * SECOND)];
    items.push(Item::Tick(Nanos(7 * SECOND)));
    let tracker = observed(live_engine_config(5), &items);
    assert_eq!(series_times(tracker), vec![vec![3 * SECOND]]);
    items.push(Item::Tick(Nanos(9 * SECOND)));
    let tracker = observed(live_engine_config(5), &items);
    assert_eq!(series_times(tracker), vec![Vec::<u64>::new()]);
}

#[test]
fn late_samples_count_by_their_own_time() {
    let tracker = observed(
        live_engine_config(5),
        &[
            data(1, 100, 9 * SECOND),
            data(1, 110, 2 * SECOND),
            data(1, 120, 10 * SECOND),
        ],
    );
    assert_eq!(series_times(tracker), vec![vec![9 * SECOND, 10 * SECOND]]);
}

#[test]
fn ceiling_is_no_failure_where_samples_age_out() {
    let config = EngineConfig {
        series_collection: SeriesCollection::All,
        max_samples: 2,
        retention: RetentionPolicy::Evict {
            window: Nanos(5 * SECOND),
        },
        ..EngineConfig::default()
    };
    let items = [
        data(1, 100, SECOND),
        data(1, 110, 2 * SECOND),
        data(1, 120, 3 * SECOND),
        data(1, 130, 7 * SECOND),
        data(1, 140, 8 * SECOND),
    ];
    // The third finds no room and is left out; by the time of the fourth the first has aged out and
    // made room for it.
    assert_eq!(
        series_times(observed(config, &items[..3])),
        vec![vec![SECOND, 2 * SECOND]]
    );
    assert_eq!(
        series_times(observed(config, &items[..4])),
        vec![vec![2 * SECOND, 7 * SECOND]]
    );
    assert_eq!(
        series_times(observed(config, &items)),
        vec![vec![7 * SECOND, 8 * SECOND]]
    );
    // The same ceiling is a failure where samples are kept for good.
    let strict = EngineConfig {
        retention: RetentionPolicy::FailFast,
        ..config
    };
    let error = observed(strict, &items).into_metrics().unwrap_err();
    assert_eq!(
        error,
        MetricError::SampleCeiling {
            samples: 3,
            limit: 2,
        }
    );
}

#[test]
fn nothing_ages_out_where_samples_are_kept_for_good() {
    let config = EngineConfig {
        series_collection: SeriesCollection::All,
        ..EngineConfig::default()
    };
    let tracker = observed(
        config,
        &[
            data(1, 100, SECOND),
            data(1, 110, 900 * SECOND),
            Item::Tick(Nanos(9000 * SECOND)),
        ],
    );
    assert_eq!(series_times(tracker), vec![vec![SECOND, 900 * SECOND]]);
}
