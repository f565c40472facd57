//! What holds of whole runs of the tracker over the same items, whatever it is asked to record.

use vstd::prelude::*;

use crate::config::EngineConfig;
use crate::conn::Direction;
use crate::segment::{Item, Segment, TcpFlags};
use crate::time::Nanos;
use crate::timeline::{RecordingModel, TimelineModel};
use crate::tracker::{Ledger, TrackModel, TrackerModel};

verus! {

/// The two instances are at the same point of their lifecycle and have the same counters.
pub open spec fn same_course(a: TrackModel, b: TrackModel) -> bool {
    a.conn == b.conn && a.fin_o2r == b.fin_o2r && a.fin_r2o == b.fin_r2o && a.base_o2r
        == b.base_o2r && a.base_r2o == b.base_r2o
}

/// The two configurations split connections alike.
pub open spec fn same_splits(a: EngineConfig, b: EngineConfig) -> bool {
    a.dead_after == b.dead_after && a.reset_threshold == b.reset_threshold
}

/// The two trackers have seen the same instances, each at the same point.
pub open spec fn same_courses(a: TrackerModel, b: TrackerModel) -> bool {
    &&& same_splits(a.config, b.config)
    &&& a.conns.len() == b.conns.len()
    &&& forall|i: int| 0 <= i < a.conns.len() ==> same_course(#[trigger] a.conns[i], b.conns[i])
}

/// Recording leaves the lifecycle and the counters of an instance as they are.
pub proof fn lemma_recording_keeps_course(
    ledger: Ledger,
    seg: Segment,
    dir: Direction,
    cfg: EngineConfig,
)
    ensures
        same_course(ledger.with_state(seg.ts, cfg).track, ledger.track),
        same_course(ledger.with_metrics(seg, dir, cfg).track, ledger.track),
{
    reveal(Ledger::with_state);
    reveal(Ledger::with_metrics);
    let sample = ledger.track.metrics.sample(seg, dir, cfg);
    let derived = Ledger {
        track: TrackModel {
            metrics: ledger.track.metrics.after(seg, dir, cfg),
            ..ledger.track
        },
        budget: ledger.budget,
    };
    let one = derived.with_sample(sample, cfg);
    let two = one.with_seq_points(seg, dir, sample, cfg);
    let three = two.with_inflight(seg.ts, cfg);
    let four = three.with_rtt(dir, sample, cfg);
    assert(same_course(one.track, ledger.track));
    assert(same_course(two.track, ledger.track));
    assert(same_course(three.track, ledger.track));
    assert(same_course(four.track, ledger.track));
}

/// Instances at the same point are at the same point after a segment.
pub proof fn lemma_accounting_keeps_course(a: TrackModel, b: TrackModel, seg: Segment, dir: Direction)
    requires
        same_course(a, b),
    ensures
        same_course(a.accounted(seg, dir), b.accounted(seg, dir)),
        same_course(
            a.accounted(seg, dir).lifecycle(seg, dir),
            b.accounted(seg, dir).lifecycle(seg, dir),
        ),
{
    reveal(TrackModel::accounted);
    reveal(TrackModel::lifecycle);
}

proof fn lemma_same_pairs(a: TrackerModel, b: TrackerModel)
    requires
        same_courses(a, b),
    ensures
        a.pairs() == b.pairs(),
        a.connections() == b.connections(),
{
    assert(a.pairs() =~= b.pairs());
    assert(a.connections() =~= b.connections());
}

proof fn lemma_step_keeps_courses(a: TrackerModel, b: TrackerModel, item: Item)
    requires
        same_courses(a, b),
    ensures
        same_courses(a.after(item), b.after(item)),
{
    let (x, y) = (a.aged(item.time()), b.aged(item.time()));
    crate::tracker::lemma_ageing_drops_samples_only(a, item.time());
    crate::tracker::lemma_ageing_drops_samples_only(b, item.time());
    assert forall|i: int| 0 <= i < x.conns.len() implies same_course(
        #[trigger] x.conns[i],
        y.conns[i],
    ) by {
        assert(same_course(a.conns[i], b.conns[i]));
        assert(crate::tracker::alike_but_for_samples(x.conns[i], a.conns[i]));
        assert(crate::tracker::alike_but_for_samples(y.conns[i], b.conns[i]));
    }
    lemma_recording_keeps_courses(x, y, item);
}

proof fn lemma_recording_keeps_courses(a: TrackerModel, b: TrackerModel, item: Item)
    requires
        same_courses(a, b),
    ensures
        same_courses(a.recorded(item), b.recorded(item)),
{
    lemma_same_pairs(a, b);
    match item {
        Item::Tick(_) => {},
        Item::Segment(seg) => {
            let pair = crate::conn::EndpointPair::of(
                seg.flow.source_spec(),
                seg.flow.destination_spec(),
            );
            crate::tracker::lemma_newest(a.pairs(), pair);
            assert(a.joined(seg) == b.joined(seg));
            match a.joined(seg) {
                Some(i) => {
                    let (x, y) = (a.conns[i], b.conns[i]);
                    let dir = crate::tracker::direction_from(x.conn, seg.flow.source_spec());
                    lemma_accounting_keeps_course(x, y, seg, dir);
                    let p = Ledger {
                        track: x.accounted(seg, dir).lifecycle(seg, dir),
                        budget: a.budget,
                    };
                    let q = Ledger {
                        track: y.accounted(seg, dir).lifecycle(seg, dir),
                        budget: b.budget,
                    };
                    lemma_recording_keeps_course(p, seg, dir, a.config);
                    lemma_recording_keeps_course(q, seg, dir, b.config);
                    lemma_recording_keeps_course(p.with_state(seg.ts, a.config), seg, dir, a.config);
                    lemma_recording_keeps_course(q.with_state(seg.ts, b.config), seg, dir, b.config);
                },
                None => {
                    let (x, y) = (a.newcomer(seg), b.newcomer(seg));
                    assert(x == y);
                    let dir = crate::tracker::direction_from(x.conn, seg.flow.source_spec());
                    lemma_accounting_keeps_course(x, y, seg, dir);
                    let track = if seg.flags.has(TcpFlags::FIN) {
                        x.accounted(seg, dir).with_fin(dir)
                    } else {
                        x.accounted(seg, dir)
                    };
                    let p = Ledger { track, budget: a.budget };
                    let q = Ledger { track, budget: b.budget };
                    lemma_recording_keeps_course(p, seg, dir, a.config);
                    lemma_recording_keeps_course(q, seg, dir, b.config);
                    lemma_recording_keeps_course(
                        p.with_metrics(seg, dir, a.config),
                        seg,
                        dir,
                        a.config,
                    );
                    lemma_recording_keeps_course(
                        q.with_metrics(seg, dir, b.config),
                        seg,
                        dir,
                        b.config,
                    );
                },
            }
        },
    }
}

/// What is recorded does not change what is tracked: two passes over the same items see the same
/// connections, however they are set up to record, as long as they split connections alike.
pub proof fn law_recording_never_changes_tracking(a: EngineConfig, b: EngineConfig, items: Seq<Item>)
    requires
        same_splits(a, b),
    ensures
        same_courses(
            TrackerModel::fresh(a).after_all(items),
            TrackerModel::fresh(b).after_all(items),
        ),
        TrackerModel::fresh(a).after_all(items).connections() == TrackerModel::fresh(b).after_all(
            items,
        ).connections(),
    decreases items.len(),
{
    if items.len() > 0 {
        let rest = items.drop_last();
        law_recording_never_changes_tracking(a, b, rest);
        lemma_step_keeps_courses(
            TrackerModel::fresh(a).after_all(rest),
            TrackerModel::fresh(b).after_all(rest),
            items.last(),
        );
    }
    lemma_same_pairs(
        TrackerModel::fresh(a).after_all(items),
        TrackerModel::fresh(b).after_all(items),
    );
}

proof fn lemma_same_room(a: TrackerModel, b: TrackerModel, item: Item)
    requires
        same_courses(a, b),
        !a.config.collect_seq_timeline,
        !b.config.collect_seq_timeline,
    ensures
        a.has_room(item) == b.has_room(item),
{
    lemma_same_pairs(a, b);
    match item {
        Item::Tick(_) => {},
        Item::Segment(seg) => {
            let pair = crate::conn::EndpointPair::of(
                seg.flow.source_spec(),
                seg.flow.destination_spec(),
            );
            crate::tracker::lemma_newest(a.pairs(), pair);
            assert(a.joined(seg) == b.joined(seg));
            match a.joined(seg) {
                Some(i) => {
                    assert(same_course(a.conns[i], b.conns[i]));
                },
                None => {
                    assert(a.newcomer(seg) == b.newcomer(seg));
                },
            }
        },
    }
}

proof fn lemma_config_stays(config: EngineConfig, items: Seq<Item>)
    ensures
        TrackerModel::fresh(config).after_all(items).config == config,
    decreases items.len(),
{
    if items.len() > 0 {
        lemma_config_stays(config, items.drop_last());
    }
}

/// Whether the counters have room for a capture does not depend on what is recorded either, as
/// long as no sequence offsets are.
pub proof fn law_recording_takes_no_room(a: EngineConfig, b: EngineConfig, items: Seq<Item>)
    requires
        same_splits(a, b),
        !a.collect_seq_timeline,
        !b.collect_seq_timeline,
    ensures
        TrackerModel::fresh(a).has_room_for_all(items) == TrackerModel::fresh(b).has_room_for_all(
            items,
        ),
    decreases items.len(),
{
    if items.len() > 0 {
        let rest = items.drop_last();
        law_recording_takes_no_room(a, b, rest);
        law_recording_never_changes_tracking(a, b, rest);
        lemma_config_stays(a, rest);
        lemma_config_stays(b, rest);
        lemma_same_room(
            TrackerModel::fresh(a).after_all(rest),
            TrackerModel::fresh(b).after_all(rest),
            items.last(),
        );
    }
}

/// No state sample of the instance lies after its last segment.
pub open spec fn states_within(track: TrackModel) -> bool {
    forall|k: int|
        0 <= k < track.states.len() ==> (#[trigger] track.states[k]).t.0 <= track.conn.last_at.0
}

proof fn lemma_metrics_keep_states(ledger: Ledger, seg: Segment, dir: Direction, cfg: EngineConfig)
    ensures
        ledger.with_metrics(seg, dir, cfg).track.states == ledger.track.states,
        ledger.with_metrics(seg, dir, cfg).track.conn == ledger.track.conn,
{
    reveal(Ledger::with_metrics);
    let sample = ledger.track.metrics.sample(seg, dir, cfg);
    let derived = Ledger {
        track: TrackModel {
            metrics: ledger.track.metrics.after(seg, dir, cfg),
            ..ledger.track
        },
        budget: ledger.budget,
    };
    let one = derived.with_sample(sample, cfg);
    let two = one.with_seq_points(seg, dir, sample, cfg);
    let three = two.with_inflight(seg.ts, cfg);
    let four = three.with_rtt(dir, sample, cfg);
    assert(one.track.states == ledger.track.states && one.track.conn == ledger.track.conn);
    assert(two.track.states == ledger.track.states && two.track.conn == ledger.track.conn);
    assert(three.track.states == ledger.track.states && three.track.conn == ledger.track.conn);
    assert(four.track.states == ledger.track.states && four.track.conn == ledger.track.conn);
}

proof fn lemma_state_within(ledger: Ledger, t: Nanos, cfg: EngineConfig)
    requires
        states_within(ledger.track),
        t.0 <= ledger.track.conn.last_at.0,
    ensures
        states_within(ledger.with_state(t, cfg).track),
        ledger.with_state(t, cfg).track.conn == ledger.track.conn,
{
    reveal(Ledger::with_state);
}

proof fn lemma_accounting_within(track: TrackModel, seg: Segment, dir: Direction)
    requires
        states_within(track),
    ensures
        states_within(track.accounted(seg, dir)),
        seg.ts.0 <= track.accounted(seg, dir).conn.last_at.0,
        states_within(track.accounted(seg, dir).lifecycle(seg, dir)),
        seg.ts.0 <= track.accounted(seg, dir).lifecycle(seg, dir).conn.last_at.0,
{
    reveal(TrackModel::accounted);
    reveal(TrackModel::lifecycle);
}

proof fn lemma_ageing_keeps_states_within(tracker: TrackerModel, now: Nanos)
    ensures
        (forall|i: int|
            0 <= i < tracker.conns.len() ==> states_within(#[trigger] tracker.conns[i])) ==> (
        forall|i: int|
            0 <= i < tracker.aged(now).conns.len() ==> states_within(
                #[trigger] tracker.aged(now).conns[i],
            )),
{
    if let Some(horizon) = tracker.config.retention.horizon_spec(now) {
        assert forall|i: int|
            0 <= i < tracker.aged(now).conns.len() && states_within(
                tracker.conns[i],
            ) implies states_within(#[trigger] tracker.aged(now).conns[i]) by {
            let track = tracker.conns[i];
            crate::retention::law_only_old_samples_age_out(track.states, horizon);
            let aged = tracker.aged(now).conns[i];
            assert forall|k: int| 0 <= k < aged.states.len() implies (
            #[trigger] aged.states[k]).t.0 <= aged.conn.last_at.0 by {
                let j = choose|j: int|
                    0 <= j < track.states.len() && track.states[j] == aged.states[k];
                assert(track.states[j].t.0 <= track.conn.last_at.0);
            }
        }
    }
}

proof fn lemma_run_keeps_states_within(config: EngineConfig, items: Seq<Item>)
    ensures
        forall|i: int|
            0 <= i < TrackerModel::fresh(config).after_all(items).conns.len() ==> states_within(
                #[trigger] TrackerModel::fresh(config).after_all(items).conns[i],
            ),
    decreases items.len(),
{
    if items.len() > 0 {
        let rest = items.drop_last();
        lemma_run_keeps_states_within(config, rest);
        let run = TrackerModel::fresh(config).after_all(rest);
        let before = run.aged(items.last().time());
        lemma_ageing_keeps_states_within(run, items.last().time());
        match items.last() {
            Item::Tick(_) => {},
            Item::Segment(seg) => {
                let cfg = before.config;
                let pair = crate::conn::EndpointPair::of(
                    seg.flow.source_spec(),
                    seg.flow.destination_spec(),
                );
                crate::tracker::lemma_newest(before.pairs(), pair);
                match before.joined(seg) {
                    Some(i) => {
                        let track = before.conns[i];
                        let dir = crate::tracker::direction_from(
                            track.conn,
                            seg.flow.source_spec(),
                        );
                        lemma_accounting_within(track, seg, dir);
                        let ledger = Ledger {
                            track: track.accounted(seg, dir).lifecycle(seg, dir),
                            budget: before.budget,
                        };
                        lemma_state_within(ledger, seg.ts, cfg);
                        lemma_metrics_keep_states(ledger.with_state(seg.ts, cfg), seg, dir, cfg);
                    },
                    None => {
                        let track = before.newcomer(seg);
                        let dir = crate::tracker::direction_from(
                            track.conn,
                            seg.flow.source_spec(),
                        );
                        lemma_accounting_within(track, seg, dir);
                        let accounted = track.accounted(seg, dir);
                        let ledger = Ledger {
                            track: if seg.flags.has(TcpFlags::FIN) {
                                accounted.with_fin(dir)
                            } else {
                                accounted
                            },
                            budget: before.budget,
                        };
                        lemma_metrics_keep_states(ledger, seg, dir, cfg);
                        lemma_state_within(ledger.with_metrics(seg, dir, cfg), seg.ts, cfg);
                    },
                }
            },
        }
    }
}

proof fn lemma_activity_covers(recordings: Seq<RecordingModel>, i: int)
    requires
        0 <= i < recordings.len(),
    ensures
        recordings[i].conn.last_at.0 <= crate::timeline::last_activity(recordings).0,
    decreases recordings.len(),
{
    if i < recordings.len() - 1 {
        lemma_activity_covers(recordings.drop_last(), i);
    }
}

/// The timeline of a run starts no later than it ends.
pub proof fn law_timelines_run_forward(
    config: EngineConfig,
    items: Seq<Item>,
    timeline: TimelineModel,
)
    requires
        ({
            let recordings = TrackerModel::fresh(config).after_all(items).conns.map_values(
                |t: TrackModel| t.recording(),
            );
            timeline.shows(recordings, crate::timeline::last_activity(recordings))
        }),
    ensures
        timeline.start.0 <= timeline.end.0,
{
    let conns = TrackerModel::fresh(config).after_all(items).conns;
    let recordings = conns.map_values(|t: TrackModel| t.recording());
    lemma_run_keeps_states_within(config, items);
    if timeline.events.len() > 0 {
        let t = timeline.events[0];
        assert(timeline.events.contains(t));
        assert(crate::timeline::sampled_at(recordings, t));
        let (i, k) = choose|i: int, k: int|
            0 <= i < recordings.len() && 0 <= k < recordings[i].states.len() && (
            #[trigger] recordings[i].states[k]).t == t;
        assert(states_within(conns[i]));
        assert(conns[i].states[k].t == t);
        lemma_activity_covers(recordings, i);
    }
}

} // verus!
