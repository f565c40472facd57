//! What recording adds to the lists of an instance.

use vstd::prelude::*;

use crate::config::{EngineConfig, RetentionPolicy};
use crate::conn::{ConnId, Direction, EndpointPair};
use crate::metric::{MetricSample, SampleDir};
use crate::retention::Dated;
use crate::segment::{Item, Segment, TcpFlags};
use crate::seq::TcpSeq;
use crate::time::Nanos;
use crate::timeline::{RttSample, StateSample};
use crate::tracker::{Budget, Frontier, Ledger, TrackModel, TrackerModel};

verus! {

/// `after` is `before` with samples taken at `t` behind it.
pub open spec fn extended<T: Dated>(
    before: Seq<T>,
    after: Seq<T>,
    t: Nanos,
) -> bool {
    &&& before.is_prefix_of(after)
    &&& forall|k: int|
        before.len() <= k < after.len() ==> (#[trigger] after[k]).taken_at() == t
}

/// Every list of `after` is that of `before` with samples taken at `t` behind it.
#[verifier::opaque]
pub open spec fn extended_at(before: TrackModel, after: TrackModel, t: Nanos) -> bool {
    &&& extended(before.series, after.series, t)
    &&& extended(before.states, after.states, t)
    &&& extended(before.seq, after.seq, t)
    &&& extended(before.inflight, after.inflight, t)
    &&& extended(before.rtt, after.rtt, t)
    &&& extended(before.throughput, after.throughput, t)
}

proof fn lemma_kept_extends<T: Dated>(
    budget: Budget,
    list: Seq<T>,
    more: Seq<T>,
    t: Nanos,
)
    requires
        forall|k: int| 0 <= k < more.len() ==> (#[trigger] more[k]).taken_at() == t,
    ensures
        extended(list, crate::tracker::kept(budget, list, more), t),
        extended(list, list, t),
{
    let all = crate::tracker::kept(budget, list, more);
    assert forall|k: int| list.len() <= k < all.len() implies (#[trigger] all[k]).taken_at()
        == t by {
        assert(all[k] == more[k - list.len()]);
    }
}

proof fn lemma_extending_adds_up(a: TrackModel, b: TrackModel, c: TrackModel, t: Nanos)
    requires
        extended_at(a, b, t),
        extended_at(b, c, t),
    ensures
        extended_at(a, c, t),
{
    reveal(extended_at);
    lemma_lists_extend_twice(a.series, b.series, c.series, t);
    lemma_lists_extend_twice(a.states, b.states, c.states, t);
    lemma_lists_extend_twice(a.seq, b.seq, c.seq, t);
    lemma_lists_extend_twice(a.inflight, b.inflight, c.inflight, t);
    lemma_lists_extend_twice(a.rtt, b.rtt, c.rtt, t);
    lemma_lists_extend_twice(a.throughput, b.throughput, c.throughput, t);
}

proof fn lemma_lists_extend_twice<T: Dated>(
    a: Seq<T>,
    b: Seq<T>,
    c: Seq<T>,
    t: Nanos,
)
    requires
        extended(a, b, t),
        extended(b, c, t),
    ensures
        extended(a, c, t),
{
    assert forall|k: int| 0 <= k < b.len() implies #[trigger] c[k] == b[k] by {
        assert(c.subrange(0, b.len() as int)[k] == b[k]);
    }
    assert forall|k: int| 0 <= k < a.len() implies #[trigger] c[k] == a[k] by {
        assert(b.subrange(0, a.len() as int)[k] == a[k]);
        assert(c[k] == b[k]);
    }
    assert(c.subrange(0, a.len() as int) =~= a);
    assert forall|k: int| a.len() <= k < c.len() implies (#[trigger] c[k]).taken_at() == t by {
        if k < b.len() {
            assert(c[k] == b[k]);
        }
    }
}

/// Lists that are the same are extended by nothing.
proof fn lemma_same_samples_extend(before: TrackModel, after: TrackModel, t: Nanos)
    requires
        before.series == after.series,
        before.states == after.states,
        before.seq == after.seq,
        before.inflight == after.inflight,
        before.rtt == after.rtt,
        before.throughput == after.throughput,
    ensures
        extended_at(before, after, t),
{
    reveal(extended_at);
    assert(before.series.subrange(0, before.series.len() as int) =~= before.series);
    assert(before.states.subrange(0, before.states.len() as int) =~= before.states);
    assert(before.seq.subrange(0, before.seq.len() as int) =~= before.seq);
    assert(before.inflight.subrange(0, before.inflight.len() as int) =~= before.inflight);
    assert(before.rtt.subrange(0, before.rtt.len() as int) =~= before.rtt);
    assert(before.throughput.subrange(0, before.throughput.len() as int) =~= before.throughput);
}

proof fn lemma_sack_points_taken_at(
    frontier: Frontier,
    blocks: Seq<(TcpSeq, TcpSeq)>,
    t: Nanos,
    dir: SampleDir,
)
    ensures
        forall|k: int|
            0 <= k < crate::tracker::sack_points(frontier, blocks, t, dir).len() ==> (#[trigger] crate::tracker::sack_points(
                frontier,
                blocks,
                t,
                dir,
            )[k]).t == t,
    decreases blocks.len(),
{
    if blocks.len() > 0 {
        lemma_sack_points_taken_at(frontier, blocks.drop_last(), t, dir);
    }
}

proof fn lemma_each_recording_extends(
    ledger: Ledger,
    seg: Segment,
    dir: Direction,
    sample: MetricSample,
    cfg: EngineConfig,
)
    requires
        sample.t == seg.ts,
    ensures
        extended_at(ledger.track, ledger.with_sample(sample, cfg).track, seg.ts),
        extended_at(ledger.track, ledger.with_seq_points(seg, dir, sample, cfg).track, seg.ts),
        extended_at(ledger.track, ledger.with_inflight(seg.ts, cfg).track, seg.ts),
        extended_at(ledger.track, ledger.with_rtt(dir, sample, cfg).track, seg.ts),
        extended_at(ledger.track, ledger.with_throughput(seg.ts, cfg).track, seg.ts),
        extended_at(ledger.track, ledger.with_state(seg.ts, cfg).track, seg.ts),
{
    let (track, budget, t) = (ledger.track, ledger.budget, seg.ts);
    reveal(Ledger::with_state);
    lemma_same_samples_extend(track, track, t);
    lemma_sack_points_taken_at(
        track.frontier(dir.reverse()),
        seg.options.sack_blocks@,
        t,
        dir.reverse().as_sample(),
    );
    lemma_kept_extends(budget, track.series, seq![sample], t);
    lemma_kept_extends(budget, track.states, seq![track.state_sample(t)], t);
    lemma_kept_extends(budget, track.seq, track.seq_points(seg, dir, sample), t);
    lemma_kept_extends(budget, track.inflight, track.inflight_points(t), t);
    lemma_kept_extends(
        budget,
        track.throughput,
        track.throughput_points(t, cfg.throughput_window),
        t,
    );
    if let Some(rtt) = sample.rtt {
        let acked = dir.reverse();
        let srtt = crate::tracker::smoothed(track.srtt(acked), rtt);
        lemma_kept_extends(
            budget,
            track.rtt,
            seq![RttSample { t: sample.t, dir: acked.as_sample(), rtt, srtt }],
            t,
        );
    }
    reveal(extended_at);
}

proof fn lemma_metrics_extend(ledger: Ledger, seg: Segment, dir: Direction, cfg: EngineConfig)
    ensures
        extended_at(ledger.track, ledger.with_metrics(seg, dir, cfg).track, seg.ts),
{
    reveal(Ledger::with_metrics);
    let t = seg.ts;
    let start = ledger.track;
    let sample = start.metrics.sample(seg, dir, cfg);
    let a = Ledger {
        track: TrackModel { metrics: start.metrics.after(seg, dir, cfg), ..start },
        budget: ledger.budget,
    };
    lemma_same_samples_extend(start, start, t);
    lemma_same_samples_extend(start, a.track, t);
    let b = a.with_sample(sample, cfg);
    lemma_each_recording_extends(a, seg, dir, sample, cfg);
    lemma_extending_adds_up(start, a.track, b.track, t);
    let c = b.with_seq_points(seg, dir, sample, cfg);
    lemma_each_recording_extends(b, seg, dir, sample, cfg);
    lemma_extending_adds_up(start, b.track, c.track, t);
    let d = c.with_inflight(t, cfg);
    lemma_each_recording_extends(c, seg, dir, sample, cfg);
    lemma_extending_adds_up(start, c.track, d.track, t);
    let e = d.with_rtt(dir, sample, cfg);
    lemma_each_recording_extends(d, seg, dir, sample, cfg);
    lemma_extending_adds_up(start, d.track, e.track, t);
    lemma_each_recording_extends(e, seg, dir, sample, cfg);
    lemma_extending_adds_up(start, e.track, e.with_throughput(t, cfg).track, t);
}

proof fn lemma_counting_extends(track: TrackModel, seg: Segment, dir: Direction)
    ensures
        extended_at(track, track.accounted(seg, dir), seg.ts),
        extended_at(track, track.accounted(seg, dir).with_fin(dir), seg.ts),
        extended_at(track, track.accounted(seg, dir).lifecycle(seg, dir), seg.ts),
{
    reveal(TrackModel::accounted);
    reveal(TrackModel::lifecycle);
    lemma_same_samples_extend(track, track.accounted(seg, dir), seg.ts);
    lemma_same_samples_extend(track, track.accounted(seg, dir).with_fin(dir), seg.ts);
    lemma_same_samples_extend(track, track.accounted(seg, dir).lifecycle(seg, dir), seg.ts);
}

/// A segment that joins an instance appends to its lists.
pub proof fn lemma_joining_extends(
    track: TrackModel,
    budget: Budget,
    seg: Segment,
    dir: Direction,
    cfg: EngineConfig,
)
    ensures
        extended_at(
            track,
            (Ledger {
                track: track.accounted(seg, dir).lifecycle(seg, dir),
                budget,
            }).with_state(seg.ts, cfg).with_metrics(seg, dir, cfg).track,
            seg.ts,
        ),
{
    let t = seg.ts;
    let ledger = Ledger { track: track.accounted(seg, dir).lifecycle(seg, dir), budget };
    let stated = ledger.with_state(t, cfg);
    lemma_counting_extends(track, seg, dir);
    lemma_each_recording_extends(ledger, seg, dir, track.metrics.sample(seg, dir, cfg), cfg);
    lemma_metrics_extend(stated, seg, dir, cfg);
    lemma_extending_adds_up(track, ledger.track, stated.track, t);
    lemma_extending_adds_up(track, stated.track, stated.with_metrics(seg, dir, cfg).track, t);
}

/// A segment that opens an instance appends to its lists.
pub proof fn lemma_opening_extends(
    track: TrackModel,
    budget: Budget,
    seg: Segment,
    dir: Direction,
    cfg: EngineConfig,
)
    ensures
        extended_at(
            track,
            (Ledger {
                track: if seg.flags.has(TcpFlags::FIN) {
                    track.accounted(seg, dir).with_fin(dir)
                } else {
                    track.accounted(seg, dir)
                },
                budget,
            }).with_metrics(seg, dir, cfg).with_state(seg.ts, cfg).track,
            seg.ts,
        ),
{
    let t = seg.ts;
    let ledger = Ledger {
        track: if seg.flags.has(TcpFlags::FIN) {
            track.accounted(seg, dir).with_fin(dir)
        } else {
            track.accounted(seg, dir)
        },
        budget,
    };
    let derived = ledger.with_metrics(seg, dir, cfg);
    lemma_counting_extends(track, seg, dir);
    lemma_metrics_extend(ledger, seg, dir, cfg);
    lemma_each_recording_extends(derived, seg, dir, track.metrics.sample(seg, dir, cfg), cfg);
    lemma_extending_adds_up(track, ledger.track, derived.track, t);
    lemma_extending_adds_up(track, derived.track, derived.with_state(t, cfg).track, t);
}

/// Recording only appends: a segment leaves every sample kept so far in its place, and whatever it
/// adds, to the instance it joins or opens, was taken at its own time.
pub proof fn law_recording_only_appends(tracker: TrackerModel, seg: Segment, i: int)
    requires
        0 <= i < tracker.recorded(Item::Segment(seg)).conns.len(),
    ensures
        ({
            let after = tracker.recorded(Item::Segment(seg)).conns[i];
            if i < tracker.conns.len() {
                extended_at(tracker.conns[i], after, seg.ts)
            } else {
                extended_at(tracker.newcomer(seg), after, seg.ts)
            }
        }),
{
    crate::tracker::lemma_newest(
        tracker.pairs(),
        EndpointPair::of(seg.flow.source_spec(), seg.flow.destination_spec()),
    );
    if i < tracker.conns.len() {
        lemma_same_samples_extend(tracker.conns[i], tracker.conns[i], seg.ts);
    }
    match tracker.joined(seg) {
        Some(place) => {
            let track = tracker.conns[place];
            let dir = crate::tracker::direction_from(track.conn, seg.flow.source_spec());
            lemma_joining_extends(track, tracker.budget, seg, dir, tracker.config);
        },
        None => {
            let track = tracker.newcomer(seg);
            let dir = crate::tracker::direction_from(track.conn, seg.flow.source_spec());
            lemma_opening_extends(track, tracker.budget, seg, dir, tracker.config);
        },
    }
}

/// No sample of the instance was taken before `t`.
pub open spec fn none_before(track: TrackModel, t: Nanos) -> bool {
    &&& crate::retention::all_since(track.series, t)
    &&& crate::retention::all_since(track.states, t)
    &&& crate::retention::all_since(track.seq, t)
    &&& crate::retention::all_since(track.inflight, t)
    &&& crate::retention::all_since(track.rtt, t)
    &&& crate::retention::all_since(track.throughput, t)
}

proof fn lemma_extended_since<T: Dated>(before: Seq<T>, after: Seq<T>, t: Nanos, bound: Nanos)
    requires
        extended(before, after, t),
        crate::retention::all_since(before, bound),
    ensures
        bound.0 <= t.0 ==> crate::retention::all_since(after, bound),
        t.0 <= bound.0 ==> crate::retention::all_since(after, t),
{
    assert forall|k: int| 0 <= k < before.len() implies #[trigger] after[k] == before[k] by {
        assert(after.subrange(0, before.len() as int)[k] == before[k]);
    }
}

/// What lies before no sample so far and not after the new ones lies before no sample then.
pub proof fn lemma_extending_keeps_bound(
    before: TrackModel,
    after: TrackModel,
    t: Nanos,
    bound: Nanos,
)
    requires
        extended_at(before, after, t),
        none_before(before, bound),
    ensures
        bound.0 <= t.0 ==> none_before(after, bound),
        t.0 <= bound.0 ==> none_before(after, t),
{
    reveal(extended_at);
    lemma_extended_since(before.series, after.series, t, bound);
    lemma_extended_since(before.states, after.states, t, bound);
    lemma_extended_since(before.seq, after.seq, t, bound);
    lemma_extended_since(before.inflight, after.inflight, t, bound);
    lemma_extended_since(before.rtt, after.rtt, t, bound);
    lemma_extended_since(before.throughput, after.throughput, t, bound);
}

/// An instance without samples before the horizon stays as it is.
pub proof fn law_recent_instances_stay(track: TrackModel, horizon: Nanos)
    requires
        none_before(track, horizon),
    ensures
        track.aged(horizon) == track,
{
    crate::retention::law_recent_lists_stay(track.series, horizon);
    crate::retention::law_recent_lists_stay(track.states, horizon);
    crate::retention::law_recent_lists_stay(track.seq, horizon);
    crate::retention::law_recent_lists_stay(track.inflight, horizon);
    crate::retention::law_recent_lists_stay(track.rtt, horizon);
    crate::retention::law_recent_lists_stay(track.throughput, horizon);
}

/// Points that find room are all kept, behind the list so far.
pub proof fn law_points_that_fit_are_kept<T>(budget: Budget, list: Seq<T>, more: Seq<T>)
    requires
        !budget.overflowed,
        budget.collected + more.len() <= budget.limit,
    ensures
        crate::tracker::kept(budget, list, more) == list + more,
        !budget.charged(more.len()).overflowed,
{
    assert(more.take(more.len() as int) =~= more);
}

/// Where samples are kept for a window, each list of an instance is, after an item at time `now`,
/// the list before without what was taken before `now - window`, and with new points of time `now`
/// behind it; so all that it holds was taken since `now - window`. Where they are kept for good, the
/// list before stays whole.
pub proof fn law_samples_age_out_of_the_window(tracker: TrackerModel, item: Item, i: int)
    requires
        0 <= i < tracker.conns.len(),
    ensures
        ({
            let before = tracker.conns[i];
            let after = tracker.after(item).conns[i];
            &&& tracker.after(item).conns.len() >= tracker.conns.len()
            &&& match tracker.config.retention {
                RetentionPolicy::Evict { window } => {
                    let horizon = crate::time::elapsed(item.time(), window);
                    &&& extended_at(before.aged(horizon), after, item.time())
                    &&& none_before(after, horizon)
                },
                RetentionPolicy::FailFast => extended_at(before, after, item.time()),
            }
        }),
{
    let before = tracker.conns[i];
    let aged = tracker.aged(item.time());
    match item {
        Item::Segment(seg) => {
            crate::tracker::lemma_newest(
                aged.pairs(),
                EndpointPair::of(seg.flow.source_spec(), seg.flow.destination_spec()),
            );
            law_recording_only_appends(aged, seg, i);
        },
        Item::Tick(t) => lemma_same_samples_extend(aged.conns[i], aged.conns[i], t),
    }
    if let RetentionPolicy::Evict { window } = tracker.config.retention {
        let horizon = crate::time::elapsed(item.time(), window);
        crate::retention::law_only_old_samples_age_out(before.series, horizon);
        crate::retention::law_only_old_samples_age_out(before.states, horizon);
        crate::retention::law_only_old_samples_age_out(before.seq, horizon);
        crate::retention::law_only_old_samples_age_out(before.inflight, horizon);
        crate::retention::law_only_old_samples_age_out(before.rtt, horizon);
        crate::retention::law_only_old_samples_age_out(before.throughput, horizon);
        lemma_extending_keeps_bound(
            before.aged(horizon),
            tracker.after(item).conns[i],
            item.time(),
            horizon,
        );
    }
}

/// What is left of a list and the new points behind it is what is left of the two together.
pub proof fn law_new_points_never_age_out<T: Dated>(
    list: Seq<T>,
    more: Seq<T>,
    now: Nanos,
    window: Nanos,
)
    requires
        forall|k: int| 0 <= k < more.len() ==> (#[trigger] more[k]).taken_at() == now,
    ensures
        crate::retention::recent(list + more, crate::time::elapsed(now, window))
            == crate::retention::recent(list, crate::time::elapsed(now, window)) + more,
{
    let horizon = crate::time::elapsed(now, window);
    Seq::filter_distributes_over_add(list, more, |s: T| s.taken_at().0 >= horizon.0);
    crate::retention::law_recent_lists_stay(more, horizon);
}

/// The instance has room for everything that `seg` can add, and everything is asked for.
pub open spec fn records_all(ledger: Ledger, seg: Segment, cfg: EngineConfig) -> bool {
    &&& !ledger.budget.overflowed
    &&& ledger.budget.collected + 8 + seg.options.sack_blocks@.len() <= ledger.budget.limit
    &&& cfg.collect_state_timeline
    &&& cfg.collect_seq_timeline
    &&& cfg.collect_inflight_timeline
    &&& cfg.collect_rtt_timeline
    &&& cfg.collect_throughput_timeline
    &&& cfg.series_collection.covers(ledger.track.conn.id)
}

/// What a segment adds to the lists of its instance beside its state, where everything is asked for
/// and has room: its own sample; a mark at its first byte in its own direction, if it carries
/// payload, and one at the left edge of each selective acknowledgement in the other; for each
/// direction that has any the bytes in flight and the rates; and the round trip that it completes,
/// which belongs to the other direction.
pub proof fn law_a_segment_is_recorded_in_full(
    ledger: Ledger,
    seg: Segment,
    dir: Direction,
    cfg: EngineConfig,
)
    requires
        records_all(ledger, seg, cfg),
    ensures
        ({
            let before = ledger.track;
            let after = ledger.with_metrics(seg, dir, cfg).track;
            let sample = before.metrics.sample(seg, dir, cfg);
            let (own, other) = if dir == Direction::OriginToResponder {
                (SampleDir::OriginToResponder, SampleDir::ResponderToOrigin)
            } else {
                (SampleDir::ResponderToOrigin, SampleDir::OriginToResponder)
            };
            let blocks = seg.options.sack_blocks@;
            let marks = after.seq.skip(before.seq.len() as int);
            let data: int = if seg.payload_len > 0 {
                1
            } else {
                0
            };
            &&& after.metrics == before.metrics.after(seg, dir, cfg)
            &&& after.conn == before.conn
            &&& after.states == before.states
            &&& after.series == before.series.push(sample)
            &&& marks.len() == data + blocks.len()
            &&& data == 1 ==> {
                &&& marks[0].t == seg.ts && marks[0].dir == own && marks[0].len == seg.payload_len
                &&& marks[0].rel == crate::tracker::unfolded(before.frontier(dir), seg.seq) as i64
                &&& marks[0].kind == crate::timeline::SeqKind::Data {
                    retransmit: sample.retransmit,
                    out_of_order: sample.out_of_order,
                }
            }
            &&& forall|i: int|
                0 <= i < blocks.len() ==> {
                    let mark = #[trigger] marks[data + i];
                    &&& mark.t == seg.ts && mark.dir == other && mark.len == 0
                    &&& mark.kind == crate::timeline::SeqKind::Sack
                }
            &&& match sample.rtt {
                Some(rtt) => {
                    let added = after.rtt.last();
                    &&& after.rtt == before.rtt.push(added)
                    &&& added.t == seg.ts && added.dir == other && added.rtt == rtt
                    &&& after.srtt(dir.reverse()) == Some(added.srtt)
                    &&& before.srtt(dir.reverse()) is None ==> added.srtt == rtt
                    &&& before.srtt(dir.reverse()) matches Some(srtt) ==> added.srtt.0 * 8 <= srtt.0
                        * 7 + rtt.0 < added.srtt.0 * 8 + 8
                },
                None => after.rtt == before.rtt,
            }
        }),
{
    reveal(Ledger::with_metrics);
    let before = ledger.track;
    let sample = before.metrics.sample(seg, dir, cfg);
    let points = before.seq_points(seg, dir, sample);
    lemma_sack_marks(
        before.frontier(dir.reverse()),
        seg.options.sack_blocks@,
        seg.ts,
        dir.reverse().as_sample(),
    );
    let after = ledger.with_metrics(seg, dir, cfg).track;
    assert(points.take(points.len() as int) =~= points);
    assert(after.seq =~= before.seq + points);
    assert(after.seq.skip(before.seq.len() as int) =~= points);
    assert(seq![sample].take(1) =~= seq![sample]);
    assert(after.series =~= before.series.push(sample));
    if let Some(rtt) = sample.rtt {
        let acked = dir.reverse();
        let srtt = crate::tracker::smoothed(before.srtt(acked), rtt);
        let added = RttSample { t: sample.t, dir: acked.as_sample(), rtt, srtt };
        assert(seq![added].take(1) =~= seq![added]);
        assert(after.rtt =~= before.rtt.push(added));
    }
}

proof fn lemma_sack_marks(
    frontier: Frontier,
    blocks: Seq<(TcpSeq, TcpSeq)>,
    t: Nanos,
    dir: SampleDir,
)
    ensures
        ({
            let marks = crate::tracker::sack_points(frontier, blocks, t, dir);
            &&& marks.len() == blocks.len()
            &&& forall|i: int|
                0 <= i < blocks.len() ==> (#[trigger] marks[i]).t == t && marks[i].dir == dir
                    && marks[i].len == 0 && marks[i].kind == crate::timeline::SeqKind::Sack
        }),
    decreases blocks.len(),
{
    if blocks.len() > 0 {
        lemma_sack_marks(frontier, blocks.drop_last(), t, dir);
    }
}

/// The mark of a selective acknowledgement lies at the offset of its left edge, unfolded behind the
/// numbers of the direction and of the blocks before it.
pub proof fn law_sack_marks_lie_at_left_edges(
    frontier: Frontier,
    blocks: Seq<(TcpSeq, TcpSeq)>,
    t: Nanos,
    dir: SampleDir,
    i: int,
)
    requires
        0 <= i < blocks.len(),
    ensures
        ({
            let before = crate::tracker::frontier_after_all(
                frontier,
                blocks.take(i).map_values(|b: (TcpSeq, TcpSeq)| b.0),
            );
            crate::tracker::sack_points(frontier, blocks, t, dir)[i].rel
                == crate::tracker::unfolded(before, blocks[i].0) as i64
        }),
    decreases blocks.len(),
{
    let rest = blocks.drop_last();
    lemma_sack_marks(frontier, rest, t, dir);
    if i < rest.len() {
        law_sack_marks_lie_at_left_edges(frontier, rest, t, dir, i);
        assert(rest.take(i) =~= blocks.take(i));
        assert(rest[i] == blocks[i]);
    } else {
        lemma_frontier_of_left_edges(frontier, rest);
        assert(blocks.take(i) =~= rest);
    }
}

proof fn lemma_frontier_of_left_edges(frontier: Frontier, blocks: Seq<(TcpSeq, TcpSeq)>)
    ensures
        crate::tracker::frontier_after_blocks(frontier, blocks)
            == crate::tracker::frontier_after_all(
            frontier,
            blocks.map_values(|b: (TcpSeq, TcpSeq)| b.0),
        ),
    decreases blocks.len(),
{
    let edges = blocks.map_values(|b: (TcpSeq, TcpSeq)| b.0);
    if blocks.len() > 0 {
        lemma_frontier_of_left_edges(frontier, blocks.drop_last());
        assert(edges.drop_last() =~= blocks.drop_last().map_values(|b: (TcpSeq, TcpSeq)| b.0));
    }
}

/// The graphs of both directions move with every segment: for each direction in which anything was
/// sent the bytes in flight after it, and for each in which payload was sent the rates at its time,
/// those of the origin first.
pub proof fn law_both_directions_are_recorded(
    ledger: Ledger,
    seg: Segment,
    dir: Direction,
    cfg: EngineConfig,
)
    requires
        records_all(ledger, seg, cfg),
    ensures
        ({
            let before = ledger.track;
            let after = ledger.with_metrics(seg, dir, cfg).track;
            let (o2r, r2o) = (after.metrics.o2r, after.metrics.r2o);
            let flight = after.inflight.skip(before.inflight.len() as int);
            let rates = after.throughput.skip(before.throughput.len() as int);
            let first: int = if o2r.outstanding() is Some {
                1
            } else {
                0
            };
            let lead: int = if o2r.latest is Some {
                1
            } else {
                0
            };
            &&& flight.len() == first + (if r2o.outstanding() is Some {
                1int
            } else {
                0
            })
            &&& o2r.outstanding() matches Some(bytes) ==> flight[0].t == seg.ts && flight[0].dir
                == SampleDir::OriginToResponder && flight[0].bytes == bytes
            &&& r2o.outstanding() matches Some(bytes) ==> flight[first].t == seg.ts
                && flight[first].dir == SampleDir::ResponderToOrigin && flight[first].bytes == bytes
            &&& rates.len() == lead + (if r2o.latest is Some {
                1int
            } else {
                0
            })
            &&& o2r.rates(seg.ts, cfg.throughput_window) matches Some(r) ==> rates[0].t == seg.ts
                && rates[0].dir == SampleDir::OriginToResponder && rates[0].throughput_bps == r.0
                && rates[0].goodput_bps == r.1
            &&& r2o.rates(seg.ts, cfg.throughput_window) matches Some(r) ==> rates[lead].t
                == seg.ts && rates[lead].dir == SampleDir::ResponderToOrigin
                && rates[lead].throughput_bps == r.0 && rates[lead].goodput_bps == r.1
        }),
{
    reveal(Ledger::with_metrics);
    let before = ledger.track;
    let after = ledger.with_metrics(seg, dir, cfg).track;
    let sample = before.metrics.sample(seg, dir, cfg);
    lemma_sack_marks(
        before.frontier(dir.reverse()),
        seg.options.sack_blocks@,
        seg.ts,
        dir.reverse().as_sample(),
    );
    let derived = TrackModel { metrics: after.metrics, ..before };
    let flight = derived.inflight_points(seg.ts);
    let rates = derived.throughput_points(seg.ts, cfg.throughput_window);
    assert(flight.take(flight.len() as int) =~= flight);
    assert(rates.take(rates.len() as int) =~= rates);
    assert(after.inflight.skip(before.inflight.len() as int) =~= flight);
    assert(after.throughput.skip(before.throughput.len() as int) =~= rates);
}

/// The state sample of a segment shows the state and the bytes of its connection.
pub proof fn law_states_are_recorded_as_they_are(ledger: Ledger, t: Nanos, cfg: EngineConfig)
    requires
        !ledger.budget.overflowed,
        ledger.budget.collected < ledger.budget.limit,
    ensures
        ({
            let before = ledger.track;
            let after = ledger.with_state(t, cfg).track;
            &&& after == (TrackModel { states: after.states, ..before })
            &&& !cfg.collect_state_timeline ==> after.states == before.states
            &&& cfg.collect_state_timeline ==> {
                let added = after.states.last();
                &&& after.states == before.states.push(added)
                &&& added.t == t
                &&& added.state == before.conn.state
                &&& added.bytes_o2r == before.conn.bytes_o2r
                &&& added.bytes_r2o == before.conn.bytes_r2o
            }
        }),
{
    reveal(Ledger::with_state);
    let added = ledger.track.state_sample(t);
    assert(seq![added].take(1) =~= seq![added]);
    assert(ledger.track.states + seq![added] =~= ledger.track.states.push(added));
}

/// Nothing is recorded that is not asked for.
pub proof fn law_nothing_is_recorded_unasked(
    ledger: Ledger,
    seg: Segment,
    dir: Direction,
    cfg: EngineConfig,
)
    ensures
        ({
            let before = ledger.track;
            let after = ledger.with_metrics(seg, dir, cfg).track;
            &&& !cfg.series_collection.covers(before.conn.id) ==> after.series == before.series
            &&& !cfg.collect_seq_timeline ==> after.seq == before.seq
            &&& !cfg.collect_inflight_timeline ==> after.inflight == before.inflight
            &&& !cfg.collect_rtt_timeline ==> after.rtt == before.rtt
            &&& !cfg.collect_throughput_timeline ==> after.throughput == before.throughput
        }),
{
    reveal(Ledger::with_metrics);
}

/// Which connections a series is kept of: none, all, or the one that is named.
pub proof fn law_series_are_kept_of_whom_was_named(one: ConnId, other: ConnId)
    ensures
        !crate::metrics::SeriesCollection::Off.covers(one),
        crate::metrics::SeriesCollection::All.covers(one),
        crate::metrics::SeriesCollection::Only(one).covers(other) <==> one == other,
{
}

/// Of `n` samples as many are kept as the ceiling allows. More than that is a failure where samples
/// are kept for good, and none where they age out.
pub proof fn law_the_ceiling_is_met_exactly(config: EngineConfig, n: nat)
    ensures
        ({
            let after = Budget::fresh(config).charged(n);
            &&& n <= config.max_samples ==> after.collected == n && !after.overflowed
            &&& n > config.max_samples ==> after.collected == config.max_samples
            &&& n > config.max_samples ==> after.overflowed == (config.retention
                == RetentionPolicy::FailFast)
        }),
{
}

/// The offsets of a direction go on from the payload that was sent in it, and from the left edges of
/// what the other side acknowledged of it out of order; nothing else moves them.
pub proof fn law_offsets_follow_payload_and_left_edges(
    ledger: Ledger,
    seg: Segment,
    dir: Direction,
    cfg: EngineConfig,
)
    requires
        records_all(ledger, seg, cfg),
    ensures
        ({
            let before = ledger.track;
            let after = ledger.with_metrics(seg, dir, cfg).track;
            let other = if dir == Direction::OriginToResponder {
                Direction::ResponderToOrigin
            } else {
                Direction::OriginToResponder
            };
            &&& after.frontier(dir) == (if seg.payload_len > 0 {
                crate::tracker::frontier_after_all(before.frontier(dir), seq![seg.seq])
            } else {
                before.frontier(dir)
            })
            &&& after.frontier(other) == crate::tracker::frontier_after_all(
                before.frontier(other),
                seg.options.sack_blocks@.map_values(|b: (TcpSeq, TcpSeq)| b.0),
            )
        }),
{
    reveal(Ledger::with_metrics);
    reveal_with_fuel(crate::tracker::frontier_after_all, 2);
    let before = ledger.track;
    lemma_frontier_of_left_edges(before.frontier(dir.reverse()), seg.options.sack_blocks@);
    assert(seq![seg.seq].drop_last() =~= Seq::empty());
}

/// What a segment shows is taken in by the connection that it joins, as seen from its sender, and
/// behind everything that connection has taken in before; the state that is recorded with it is the
/// one it leads to.
pub proof fn law_segments_are_recorded_where_they_join(tracker: TrackerModel, seg: Segment, i: int)
    requires
        tracker.joined(seg) == Some(i),
        tracker.config.retention == RetentionPolicy::FailFast,
        records_all(
            Ledger { track: tracker.conns[i], budget: tracker.budget },
            seg,
            tracker.config,
        ),
    ensures
        ({
            let before = tracker.conns[i];
            let after = tracker.after(Item::Segment(seg)).conns[i];
            let dir = if seg.flow.source_spec() == before.conn.origin {
                Direction::OriginToResponder
            } else {
                Direction::ResponderToOrigin
            };
            let cfg = tracker.config;
            let sample = before.metrics.sample(seg, dir, cfg);
            &&& after.metrics == before.metrics.after(seg, dir, cfg)
            &&& after.series == before.series.push(sample)
            &&& after.states == before.states.push(
                StateSample {
                    t: seg.ts,
                    state: after.conn.state,
                    bytes_o2r: after.conn.bytes_o2r,
                    bytes_r2o: after.conn.bytes_r2o,
                },
            )
        }),
{
    crate::tracker::lemma_newest(
        tracker.pairs(),
        EndpointPair::of(seg.flow.source_spec(), seg.flow.destination_spec()),
    );
    let before = tracker.conns[i];
    let cfg = tracker.config;
    let dir = crate::tracker::direction_from(before.conn, seg.flow.source_spec());
    let moved = before.accounted(seg, dir).lifecycle(seg, dir);
    let first = Ledger { track: moved, budget: tracker.budget };
    let second = first.with_state(seg.ts, cfg);
    reveal(TrackModel::accounted);
    reveal(TrackModel::lifecycle);
    law_states_are_recorded_as_they_are(first, seg.ts, cfg);
    assert(second.budget == tracker.budget.charged(1)) by {
        reveal(Ledger::with_state);
    }
    lemma_recorded_in_full(second, seg, dir, cfg);
}

/// The first segment of a connection is recorded as the first thing of it, with the state that it
/// opens the connection in.
pub proof fn law_first_segments_are_recorded_too(tracker: TrackerModel, seg: Segment)
    requires
        tracker.joined(seg) is None,
        tracker.config.retention == RetentionPolicy::FailFast,
        records_all(
            Ledger { track: tracker.newcomer(seg), budget: tracker.budget },
            seg,
            tracker.config,
        ),
    ensures
        ({
            let after = tracker.after(Item::Segment(seg)).conns.last();
            let dir = if seg.flow.source_spec() == after.conn.origin {
                Direction::OriginToResponder
            } else {
                Direction::ResponderToOrigin
            };
            let cfg = tracker.config;
            let fresh = crate::metrics::MetricModel::fresh();
            &&& after.metrics == fresh.after(seg, dir, cfg)
            &&& after.series == seq![fresh.sample(seg, dir, cfg)]
            &&& after.states == seq![
                StateSample {
                    t: seg.ts,
                    state: after.conn.state,
                    bytes_o2r: after.conn.bytes_o2r,
                    bytes_r2o: after.conn.bytes_r2o,
                },
            ]
        }),
{
    let cfg = tracker.config;
    let track = tracker.newcomer(seg);
    let dir = crate::tracker::direction_from(track.conn, seg.flow.source_spec());
    let accounted = track.accounted(seg, dir);
    let first = Ledger {
        track: if seg.flags.has(TcpFlags::FIN) {
            accounted.with_fin(dir)
        } else {
            accounted
        },
        budget: tracker.budget,
    };
    reveal(TrackModel::accounted);
    lemma_recorded_in_full(first, seg, dir, cfg);
    let second = first.with_metrics(seg, dir, cfg);
    law_states_are_recorded_as_they_are(second, seg.ts, cfg);
}

/// Recording a segment in full takes up at most seven places beside those of its selective
/// acknowledgements.
proof fn lemma_recorded_in_full(ledger: Ledger, seg: Segment, dir: Direction, cfg: EngineConfig)
    requires
        !ledger.budget.overflowed,
        ledger.budget.collected + 7 + seg.options.sack_blocks@.len() <= ledger.budget.limit,
        cfg.collect_seq_timeline,
        cfg.collect_inflight_timeline,
        cfg.collect_rtt_timeline,
        cfg.collect_throughput_timeline,
        cfg.series_collection.covers(ledger.track.conn.id),
    ensures
        ({
            let (before, after) = (ledger.track, ledger.with_metrics(seg, dir, cfg));
            &&& after.track.conn == before.conn
            &&& after.track.states == before.states
            &&& after.track.metrics == before.metrics.after(seg, dir, cfg)
            &&& after.track.series == before.series.push(before.metrics.sample(seg, dir, cfg))
            &&& !after.budget.overflowed
            &&& after.budget.limit == ledger.budget.limit
            &&& after.budget.collected <= ledger.budget.collected + 7
                + seg.options.sack_blocks@.len()
        }),
{
    reveal(Ledger::with_metrics);
    let sample = ledger.track.metrics.sample(seg, dir, cfg);
    lemma_sack_marks(
        ledger.track.frontier(dir.reverse()),
        seg.options.sack_blocks@,
        seg.ts,
        dir.reverse().as_sample(),
    );
    assert(seq![sample].take(1) =~= seq![sample]);
    assert(ledger.track.series + seq![sample] =~= ledger.track.series.push(sample));
}

/// Where the ceiling is exceeded, the error tells the ceiling and the first count above it.
pub proof fn law_the_error_tells_the_ceiling(config: EngineConfig, n: nat)
    requires
        n > config.max_samples,
        config.max_samples < usize::MAX,
    ensures
        crate::tracker::ceiling_error(Budget::fresh(config).charged(n))
            == (crate::metrics::MetricError::SampleCeiling {
            samples: (config.max_samples + 1) as usize,
            limit: config.max_samples,
        }),
{
}

/// What goes on the timeline of a connection is what was recorded of it.
pub proof fn law_timelines_get_what_was_recorded(track: TrackModel)
    ensures
        ({
            let recording = track.recording();
            &&& recording.conn == track.conn
            &&& recording.states == track.states
            &&& recording.seq == track.seq
            &&& recording.inflight == track.inflight
            &&& recording.rtt == track.rtt
            &&& recording.throughput == track.throughput
        }),
{
}

} // verus!
