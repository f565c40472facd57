//! The seekable replay timeline.
//!
//! Resolves, for any cursor time, the connections that are active then and the state and byte
//! counts each of them had reached.

use vstd::prelude::*;

use crate::conn::{ConnId, Connection};
use crate::metric::SampleDir;
use crate::sort::{pick, stable_order};
use crate::state::ConnState;
use crate::time::Nanos;

verus! {

/// The kind of a time/sequence mark.
#[derive(Debug, Clone, Copy, PartialEq, Eq, Structural)]
pub enum SeqKind {
    /// A segment with payload, and how it was classified.
    Data { retransmit: bool, out_of_order: bool },
    /// A selective acknowledgement, in the sequence space of the acknowledged direction.
    Sack,
}

/// One point of a connection's time/sequence graph. `rel` is the offset from the first payload
/// byte seen in `dir`, unfolded over wraps of the sequence space; `len` is the payload length,
/// zero for a selective acknowledgement.
#[derive(Debug, Clone, Copy, PartialEq, Eq, Structural)]
pub struct SeqSample {
    pub t: Nanos,
    pub dir: SampleDir,
    pub rel: i64,
    pub len: u32,
    pub kind: SeqKind,
}

/// Bytes outstanding in one direction at a time.
#[derive(Debug, Clone, Copy, PartialEq, Eq, Structural)]
pub struct InFlightSample {
    pub t: Nanos,
    pub dir: SampleDir,
    pub bytes: u64,
}

/// A round trip of the acknowledged direction, as measured and smoothed.
#[derive(Debug, Clone, Copy, PartialEq, Eq, Structural)]
pub struct RttSample {
    pub t: Nanos,
    pub dir: SampleDir,
    pub rtt: Nanos,
    pub srtt: Nanos,
}

/// Throughput and goodput of one direction at a time.
#[derive(Debug, Clone, Copy, PartialEq, Eq, Structural)]
pub struct ThroughputSample {
    pub t: Nanos,
    pub dir: SampleDir,
    pub throughput_bps: u64,
    pub goodput_bps: u64,
}

/// The state and byte counts a connection had reached at time `t`.
#[derive(Debug, Clone, Copy, PartialEq, Eq, Structural)]
pub struct StateSample {
    pub t: Nanos,
    pub state: ConnState,
    pub bytes_o2r: u64,
    pub bytes_r2o: u64,
}

/// A connection's state as of a cursor time.
#[derive(Debug, Clone, Copy, PartialEq, Eq, Structural)]
pub struct AsOf {
    pub id: ConnId,
    pub state: ConnState,
    pub bytes_o2r: u64,
    pub bytes_r2o: u64,
}

/// Everything recorded of one connection: the connection, its state samples, and its points for
/// the time/sequence, in-flight, round-trip and throughput graphs.
pub type Recording = (
    Connection,
    Vec<StateSample>,
    Vec<SeqSample>,
    Vec<InFlightSample>,
    Vec<RttSample>,
    Vec<ThroughputSample>,
);

/// The contents of a recording.
#[verifier::ext_equal]
pub ghost struct RecordingModel {
    pub conn: Connection,
    pub states: Seq<StateSample>,
    pub seq: Seq<SeqSample>,
    pub inflight: Seq<InFlightSample>,
    pub rtt: Seq<RttSample>,
    pub throughput: Seq<ThroughputSample>,
}

impl RecordingModel {
    /// The contents of `recording`.
    pub open spec fn of(recording: Recording) -> RecordingModel {
        RecordingModel {
            conn: recording.0,
            states: recording.1@,
            seq: recording.2@,
            inflight: recording.3@,
            rtt: recording.4@,
            throughput: recording.5@,
        }
    }

    /// A connection with state samples and no graph points.
    pub open spec fn bare(conn: Connection, states: Seq<StateSample>) -> RecordingModel {
        RecordingModel {
            conn,
            states,
            seq: Seq::empty(),
            inflight: Seq::empty(),
            rtt: Seq::empty(),
            throughput: Seq::empty(),
        }
    }
}

#[derive(Debug)]
struct Entry {
    conn: Connection,
    samples: Vec<StateSample>,
    seq: Vec<SeqSample>,
    inflight: Vec<InFlightSample>,
    rtt: Vec<RttSample>,
    throughput: Vec<ThroughputSample>,
    effective_end: Nanos,
}

/// The replay timeline over all connections.
#[derive(Debug)]
pub struct Timeline {
    entries: Vec<Entry>,
    start: Nanos,
    end: Nanos,
    event_times: Vec<Nanos>,
}

/// One connection on the timeline.
#[verifier::ext_equal]
pub ghost struct EntryModel {
    pub conn: Connection,
    /// The state samples by time.
    pub samples: Seq<StateSample>,
    pub seq: Seq<SeqSample>,
    pub inflight: Seq<InFlightSample>,
    pub rtt: Seq<RttSample>,
    pub throughput: Seq<ThroughputSample>,
    /// The last time at which the connection counts as active.
    pub effective_end: Nanos,
}

/// The contents of a timeline.
#[verifier::ext_equal]
pub ghost struct TimelineModel {
    pub entries: Seq<EntryModel>,
    pub start: Nanos,
    pub end: Nanos,
    /// The distinct sample times in increasing order.
    pub events: Seq<Nanos>,
}

/// The samples by time, those of equal time in their original order.
pub open spec fn by_time(samples: Seq<StateSample>) -> Seq<StateSample> {
    crate::sort::stably_sorted(samples, samples.map_values(|s: StateSample| s.t.0))
}

impl EntryModel {
    /// A recording on a timeline that ends at `end`. A closed or reset connection stops being
    /// active at its last segment, any other only with the timeline.
    pub open spec fn of(recording: RecordingModel, end: Nanos) -> EntryModel {
        EntryModel {
            conn: recording.conn,
            samples: by_time(recording.states),
            seq: recording.seq,
            inflight: recording.inflight,
            rtt: recording.rtt,
            throughput: recording.throughput,
            effective_end: if recording.conn.state.is_over() {
                recording.conn.last_at
            } else {
                end
            },
        }
    }

    /// The connection is active at `t`.
    pub open spec fn active(self, t: Nanos) -> bool {
        self.conn.opened_at.0 <= t.0 <= self.effective_end.0
    }

    /// The state as of `t`, if any sample is no later than `t`.
    pub open spec fn as_of(self, t: Nanos) -> Option<AsOf> {
        match last_no_later(self.samples, t) {
            Some(s) => Some(
                AsOf {
                    id: self.conn.id,
                    state: s.state,
                    bytes_o2r: s.bytes_o2r,
                    bytes_r2o: s.bytes_r2o,
                },
            ),
            None => None,
        }
    }
}

/// The last sample that is no later than `t`.
pub open spec fn last_no_later(samples: Seq<StateSample>, t: Nanos) -> Option<StateSample>
    decreases samples.len(),
{
    if samples.len() == 0 {
        None
    } else if samples.last().t.0 <= t.0 {
        Some(samples.last())
    } else {
        last_no_later(samples.drop_last(), t)
    }
}

/// The ids of the entries that are active at `t`, in order.
pub open spec fn active_ids(entries: Seq<EntryModel>, t: Nanos) -> Seq<ConnId>
    decreases entries.len(),
{
    if entries.len() == 0 {
        Seq::empty()
    } else if entries.last().active(t) {
        active_ids(entries.drop_last(), t).push(entries.last().conn.id)
    } else {
        active_ids(entries.drop_last(), t)
    }
}

/// The states as of `t` of the entries that are active then and have one, in order.
pub open spec fn resolved(entries: Seq<EntryModel>, t: Nanos) -> Seq<AsOf>
    decreases entries.len(),
{
    if entries.len() == 0 {
        Seq::empty()
    } else {
        let before = resolved(entries.drop_last(), t);
        match entries.last().as_of(t) {
            Some(s) if entries.last().active(t) => before.push(s),
            _ => before,
        }
    }
}

/// The connections that are active at `t`, each as it was then.
pub open spec fn connections_as_of(entries: Seq<EntryModel>, t: Nanos) -> Seq<Connection>
    decreases entries.len(),
{
    if entries.len() == 0 {
        Seq::empty()
    } else {
        let before = connections_as_of(entries.drop_last(), t);
        match entries.last().as_of(t) {
            Some(s) if entries.last().active(t) => before.push(
                Connection {
                    state: s.state,
                    bytes_o2r: s.bytes_o2r,
                    bytes_r2o: s.bytes_r2o,
                    ..entries.last().conn
                },
            ),
            _ => before,
        }
    }
}

/// The first event after `t`.
pub open spec fn next_after(events: Seq<Nanos>, t: Nanos) -> Option<Nanos>
    decreases events.len(),
{
    if events.len() == 0 {
        None
    } else if events[0].0 > t.0 {
        Some(events[0])
    } else {
        next_after(events.drop_first(), t)
    }
}

/// The last event before `t`.
pub open spec fn prev_before(events: Seq<Nanos>, t: Nanos) -> Option<Nanos>
    decreases events.len(),
{
    if events.len() == 0 {
        None
    } else if events.last().0 < t.0 {
        Some(events.last())
    } else {
        prev_before(events.drop_last(), t)
    }
}

/// The times increase strictly.
pub open spec fn increasing(events: Seq<Nanos>) -> bool {
    forall|i: int, j: int| 0 <= i < j < events.len() ==> events[i].0 < events[j].0
}

/// Some recording has a state sample at `t`.
pub open spec fn sampled_at(recordings: Seq<RecordingModel>, t: Nanos) -> bool {
    exists|i: int, j: int|
        0 <= i < recordings.len() && 0 <= j < recordings[i].states.len()
            && #[trigger] recordings[i].states[j].t == t
}

/// The latest `last_at` of the recordings, zero if there are none.
pub open spec fn last_activity(recordings: Seq<RecordingModel>) -> Nanos
    decreases recordings.len(),
{
    if recordings.len() == 0 {
        Nanos(0)
    } else {
        crate::time::later(last_activity(recordings.drop_last()), recordings.last().conn.last_at)
    }
}

impl TimelineModel {
    /// This is the timeline of `recordings` that ends at `end`: its events are the distinct
    /// sample times, and it starts with the first of them.
    pub open spec fn shows(self, recordings: Seq<RecordingModel>, end: Nanos) -> bool {
        &&& self.entries.len() == recordings.len()
        &&& forall|i: int|
            0 <= i < recordings.len() ==> #[trigger] self.entries[i] == EntryModel::of(
                recordings[i],
                end,
            )
        &&& self.end == end
        &&& increasing(self.events)
        &&& forall|t: Nanos| #[trigger]
            self.events.contains(t) <==> sampled_at(recordings, t)
        &&& self.start == if self.events.len() == 0 {
            Nanos(0)
        } else {
            self.events[0]
        }
    }

    /// The entry of the connection `id`, the first where several carry it.
    pub open spec fn position(self, id: ConnId) -> Option<int> {
        first_with_id(self.entries, id, 0)
    }
}

/// The first entry from `from` on that carries `id`.
pub open spec fn first_with_id(entries: Seq<EntryModel>, id: ConnId, from: int) -> Option<int>
    decreases entries.len() - from,
{
    if from < 0 || from >= entries.len() {
        None
    } else if entries[from].conn.id == id {
        Some(from)
    } else {
        first_with_id(entries, id, from + 1)
    }
}

impl View for Entry {
    type V = EntryModel;

    closed spec fn view(&self) -> EntryModel {
        EntryModel {
            conn: self.conn,
            samples: self.samples@,
            seq: self.seq@,
            inflight: self.inflight@,
            rtt: self.rtt@,
            throughput: self.throughput@,
            effective_end: self.effective_end,
        }
    }
}

impl View for Timeline {
    type V = TimelineModel;

    closed spec fn view(&self) -> TimelineModel {
        TimelineModel {
            entries: self.entries@.map_values(|e: Entry| e@),
            start: self.start,
            end: self.end,
            events: self.event_times@,
        }
    }
}

/// The samples are in order of time.
spec fn in_order(samples: Seq<StateSample>) -> bool {
    forall|i: int, j: int| 0 <= i <= j < samples.len() ==> samples[i].t.0 <= samples[j].t.0
}

/// Sorts samples by time.
fn sort_by_time(samples: &Vec<StateSample>) -> (out: Vec<StateSample>)
    ensures
        out@ == by_time(samples@),
        in_order(out@),
        out@.len() == samples@.len(),
        forall|j: int| 0 <= j < out@.len() ==> samples@.contains(#[trigger] out@[j]),
        forall|j: int| 0 <= j < samples@.len() ==> out@.contains(#[trigger] samples@[j]),
{
    let mut keys: Vec<u64> = Vec::new();
    let mut i: usize = 0;
    while i < samples.len()
        invariant
            i <= samples@.len(),
            keys@ == samples@.take(i as int).map_values(|s: StateSample| s.t.0),
        decreases samples@.len() - i,
    {
        keys.push(samples[i].t.0);
        i = i + 1;
        proof {
            assert(keys@ =~= samples@.take(i as int).map_values(|s: StateSample| s.t.0));
        }
    }
    proof {
        assert(samples@.take(i as int) =~= samples@);
    }
    let order = stable_order(&keys);
    let out = pick(samples, &order);
    proof {
        assert forall|i: int, j: int| 0 <= i <= j < out@.len() implies out@[i].t.0
            <= out@[j].t.0 by {
            if i < j {
                assert(crate::sort::placed_before(keys@, order@[i], order@[j]));
            }
        }
        assert forall|j: int| 0 <= j < samples@.len() implies out@.contains(
            #[trigger] samples@[j],
        ) by {
            assert(order@.contains(j as usize));
            let k = choose|k: int| 0 <= k < order@.len() && order@[k] == j as usize;
            assert(out@[k] == samples@[j]);
        }
        assert forall|j: int| 0 <= j < out@.len() implies samples@.contains(#[trigger] out@[j]) by {
            assert(out@[j] == samples@[order@[j] as int]);
        }
    }
    out
}

/// Whether `t` is the time of one of the first `upto` entries' samples.
spec fn seen_before(entries: Seq<Entry>, upto: int, t: u64) -> bool {
    exists|i: int, j: int|
        0 <= i < upto && 0 <= j < entries[i].samples@.len() && #[trigger] entries[i].samples@[j].t.0
            == t
}

/// The distinct sample times of the entries, in increasing order.
fn distinct_times(entries: &Vec<Entry>) -> (out: Vec<Nanos>)
    ensures
        increasing(out@),
        forall|t: Nanos| #[trigger]
            out@.contains(t) <==> seen_before(entries@, entries@.len() as int, t.0),
{
    let mut all: Vec<u64> = Vec::new();
    let mut i: usize = 0;
    while i < entries.len()
        invariant
            i <= entries@.len(),
            forall|t: u64| #[trigger] all@.contains(t) <==> seen_before(entries@, i as int, t),
        decreases entries@.len() - i,
    {
        let samples = &entries[i].samples;
        let ghost start = all@;
        let mut j: usize = 0;
        while j < samples.len()
            invariant
                i < entries@.len(),
                samples@ == entries@[i as int].samples@,
                j <= samples@.len(),
                all@ == start + samples@.take(j as int).map_values(|s: StateSample| s.t.0),
            decreases samples@.len() - j,
        {
            all.push(samples[j].t.0);
            j = j + 1;
            proof {
                assert(all@ =~= start + samples@.take(j as int).map_values(
                    |s: StateSample| s.t.0,
                ));
            }
        }
        proof {
            let times = samples@.map_values(|s: StateSample| s.t.0);
            assert(samples@.take(j as int) =~= samples@);
            assert forall|t: u64| #[trigger] all@.contains(t) <==> seen_before(
                entries@,
                i + 1,
                t,
            ) by {
                if all@.contains(t) {
                    let k = choose|k: int| 0 <= k < all@.len() && all@[k] == t;
                    if k < start.len() {
                        assert(start[k] == t);
                        assert(start.contains(t));
                        let (a, b) = choose|a: int, b: int|
                            0 <= a < i && 0 <= b < entries@[a].samples@.len()
                                && #[trigger] entries@[a].samples@[b].t.0 == t;
                        assert(entries@[a].samples@[b].t.0 == t);
                    } else {
                        assert(entries@[i as int].samples@[k - start.len()].t.0 == t);
                    }
                }
                if seen_before(entries@, i + 1, t) {
                    let (a, b) = choose|a: int, b: int|
                        0 <= a < i + 1 && 0 <= b < entries@[a].samples@.len()
                            && #[trigger] entries@[a].samples@[b].t.0 == t;
                    if a < i {
                        assert(seen_before(entries@, i as int, t));
                        assert(start.contains(t));
                        let k = choose|k: int| 0 <= k < start.len() && start[k] == t;
                        assert(all@[k] == t);
                    } else {
                        assert(all@[start.len() + b] == t);
                    }
                }
            }
        }
        i = i + 1;
    }
    let order = stable_order(&all);
    let mut out: Vec<Nanos> = Vec::new();
    let mut k: usize = 0;
    while k < order.len()
        invariant
            crate::sort::is_stable_order(all@, order@),
            k <= order@.len(),
            increasing(out@),
            forall|x: int| 0 <= x < out@.len() ==> all@.contains((#[trigger] out@[x]).0),
            forall|x: int| 0 <= x < k ==> out@.contains(Nanos(#[trigger] all@[order@[x] as int])),
            k > 0 ==> out@.len() > 0 && out@.last().0 == all@[order@[k - 1] as int],
            k == 0 ==> out@.len() == 0,
        decreases order@.len() - k,
    {
        let t: u64 = all[order[k]];
        let ghost before = out@;
        let repeated = if out.len() > 0 {
            out[out.len() - 1].0 == t
        } else {
            false
        };
        if !repeated {
            proof {
                if k > 0 {
                    assert(crate::sort::placed_before(all@, order@[k - 1], order@[k as int]));
                }
            }
            out.push(Nanos(t));
        }
        k = k + 1;
        proof {
            assert forall|x: int| 0 <= x < k implies out@.contains(
                Nanos(#[trigger] all@[order@[x] as int]),
            ) by {
                if x < k - 1 {
                    assert(before.contains(Nanos(all@[order@[x] as int])));
                    let w = choose|w: int|
                        0 <= w < before.len() && before[w] == Nanos(all@[order@[x] as int]);
                    assert(out@[w] == before[w]);
                } else {
                    assert(out@[out@.len() - 1] == Nanos(t));
                }
            }
        }
    }
    proof {
        assert forall|t: Nanos| #[trigger] out@.contains(t) <==> seen_before(
            entries@,
            entries@.len() as int,
            t.0,
        ) by {
            if out@.contains(t) {
                let x = choose|x: int| 0 <= x < out@.len() && out@[x] == t;
                assert(all@.contains(out@[x].0));
            }
            if seen_before(entries@, entries@.len() as int, t.0) {
                assert(all@.contains(t.0));
                let m = choose|m: int| 0 <= m < all@.len() && all@[m] == t.0;
                assert(order@.contains(m as usize));
                let x = choose|x: int| 0 <= x < order@.len() && order@[x] == m as usize;
                assert(out@.contains(Nanos(all@[order@[x] as int])));
            }
        }
    }
    out
}

/// How many samples are no later than `t`.
fn count_no_later(samples: &Vec<StateSample>, t: Nanos) -> (k: usize)
    requires
        in_order(samples@),
    ensures
        k <= samples@.len(),
        forall|i: int| 0 <= i < k ==> (#[trigger] samples@[i]).t.0 <= t.0,
        forall|i: int| k <= i < samples@.len() ==> (#[trigger] samples@[i]).t.0 > t.0,
{
    let mut lo: usize = 0;
    let mut hi: usize = samples.len();
    while lo < hi
        invariant
            in_order(samples@),
            lo <= hi <= samples@.len(),
            forall|i: int| 0 <= i < lo ==> (#[trigger] samples@[i]).t.0 <= t.0,
            forall|i: int| hi <= i < samples@.len() ==> (#[trigger] samples@[i]).t.0 > t.0,
        decreases hi - lo,
    {
        let mid: usize = lo + (hi - lo) / 2;
        if samples[mid].t.0 <= t.0 {
            lo = mid + 1;
        } else {
            hi = mid;
        }
    }
    lo
}

/// How many of the times are before `limit`.
fn count_before(times: &Vec<Nanos>, limit: u128) -> (k: usize)
    requires
        increasing(times@),
    ensures
        k <= times@.len(),
        forall|i: int| 0 <= i < k ==> (#[trigger] times@[i]).0 < limit,
        forall|i: int| k <= i < times@.len() ==> (#[trigger] times@[i]).0 >= limit,
{
    let mut lo: usize = 0;
    let mut hi: usize = times.len();
    while lo < hi
        invariant
            increasing(times@),
            lo <= hi <= times@.len(),
            forall|i: int| 0 <= i < lo ==> (#[trigger] times@[i]).0 < limit,
            forall|i: int| hi <= i < times@.len() ==> (#[trigger] times@[i]).0 >= limit,
        decreases hi - lo,
    {
        let mid: usize = lo + (hi - lo) / 2;
        if (times[mid].0 as u128) < limit {
            lo = mid + 1;
        } else {
            hi = mid;
        }
    }
    lo
}

proof fn lemma_last_no_later(samples: Seq<StateSample>, t: Nanos, k: int)
    requires
        0 <= k <= samples.len(),
        k > 0 ==> samples[k - 1].t.0 <= t.0,
        forall|i: int| k <= i < samples.len() ==> (#[trigger] samples[i]).t.0 > t.0,
    ensures
        last_no_later(samples, t) == (if k == 0 {
            None
        } else {
            Some(samples[k - 1])
        }),
    decreases samples.len(),
{
    if samples.len() > k {
        assert(samples[samples.len() - 1].t.0 > t.0);
        lemma_last_no_later(samples.drop_last(), t, k);
    }
}

proof fn lemma_next_after(events: Seq<Nanos>, t: Nanos, k: int)
    requires
        0 <= k <= events.len(),
        forall|i: int| 0 <= i < k ==> (#[trigger] events[i]).0 <= t.0,
        k < events.len() ==> events[k].0 > t.0,
    ensures
        next_after(events, t) == (if k < events.len() {
            Some(events[k])
        } else {
            None
        }),
    decreases events.len(),
{
    if k > 0 {
        assert(events[0].0 <= t.0);
        let rest = events.drop_first();
        assert forall|i: int| 0 <= i < k - 1 implies (#[trigger] rest[i]).0 <= t.0 by {
            assert(rest[i] == events[i + 1]);
        }
        lemma_next_after(rest, t, k - 1);
    }
}

proof fn lemma_prev_before(events: Seq<Nanos>, t: Nanos, k: int)
    requires
        0 <= k <= events.len(),
        k > 0 ==> events[k - 1].0 < t.0,
        forall|i: int| k <= i < events.len() ==> (#[trigger] events[i]).0 >= t.0,
    ensures
        prev_before(events, t) == (if k == 0 {
            None
        } else {
            Some(events[k - 1])
        }),
    decreases events.len(),
{
    if events.len() > k {
        assert(events[events.len() - 1].0 >= t.0);
        lemma_prev_before(events.drop_last(), t, k);
    }
}

impl Timeline {
    #[verifier::type_invariant]
    spec fn searchable(self) -> bool {
        &&& forall|i: int| 0 <= i < self.entries@.len() ==> in_order((#[trigger] self.entries@[i]).samples@)
        &&& increasing(self.event_times@)
    }

    /// The timeline of the given connections and their state samples, without graph points.
    #[must_use]
    pub fn new(conns: Vec<(Connection, Vec<StateSample>)>) -> (res: Timeline)
        ensures
            res@.shows(
                conns@.map_values(
                    |c: (Connection, Vec<StateSample>)| RecordingModel::bare(c.0, c.1@),
                ),
                last_activity(
                    conns@.map_values(
                        |c: (Connection, Vec<StateSample>)| RecordingModel::bare(c.0, c.1@),
                    ),
                ),
            ),
    {
        let ghost all = conns@;
        let mut recordings: Vec<Recording> = Vec::new();
        for entry in it: conns
            invariant
                it.seq() == all,
                recordings@.len() == it.index(),
                forall|k: int|
                    0 <= k < it.index() ==> RecordingModel::of(#[trigger] recordings@[k])
                        == RecordingModel::bare(all[k].0, all[k].1@),
        {
            let (conn, states) = entry;
            let recording: Recording = (
                conn,
                states,
                Vec::new(),
                Vec::new(),
                Vec::new(),
                Vec::new(),
            );
            proof {
                assert(RecordingModel::of(recording) =~= RecordingModel::bare(
                    all[it.index()].0,
                    all[it.index()].1@,
                ));
            }
            recordings.push(recording);
        }
        proof {
            assert(recordings@.map_values(|r: Recording| RecordingModel::of(r)) =~= all.map_values(
                |c: (Connection, Vec<StateSample>)| RecordingModel::bare(c.0, c.1@),
            ));
        }
        Timeline::with_seq(recordings)
    }

    /// The timeline of the given recordings; it ends with the last activity of any of them.
    #[must_use]
    pub fn with_seq(recordings: Vec<Recording>) -> (res: Timeline)
        ensures
            res@.shows(
                recordings@.map_values(|r: Recording| RecordingModel::of(r)),
                last_activity(recordings@.map_values(|r: Recording| RecordingModel::of(r))),
            ),
    {
        let ghost all = recordings@.map_values(|r: Recording| RecordingModel::of(r));
        let mut end = Nanos(0);
        let mut i: usize = 0;
        while i < recordings.len()
            invariant
                i <= recordings@.len(),
                all == recordings@.map_values(|r: Recording| RecordingModel::of(r)),
                end == last_activity(all.take(i as int)),
            decreases recordings@.len() - i,
        {
            proof {
                assert(all.take(i + 1).drop_last() =~= all.take(i as int));
            }
            end = end.latest(recordings[i].0.last_at);
            i = i + 1;
        }
        proof {
            assert(all.take(i as int) =~= all);
        }
        Timeline::with_seq_ending(recordings, end)
    }

    /// The timeline of the given recordings that ends at `end`.
    #[must_use]
    pub fn with_seq_ending(recordings: Vec<Recording>, end: Nanos) -> (res: Timeline)
        ensures
            res@.shows(recordings@.map_values(|r: Recording| RecordingModel::of(r)), end),
    {
        let ghost given = recordings@;
        let ghost all = recordings@.map_values(|r: Recording| RecordingModel::of(r));
        let mut entries: Vec<Entry> = Vec::new();
        for recording in it: recordings
            invariant
                it.seq() == given,
                all == given.map_values(|r: Recording| RecordingModel::of(r)),
                entries@.len() == it.index(),
                forall|k: int|
                    0 <= k < it.index() ==> {
                        &&& (#[trigger] entries@[k])@ == EntryModel::of(all[k], end)
                        &&& in_order(entries@[k].samples@)
                        &&& entries@[k].samples@.len() == all[k].states.len()
                        &&& forall|j: int|
                            0 <= j < all[k].states.len() ==> entries@[k].samples@.contains(
                                #[trigger] all[k].states[j],
                            )
                        &&& forall|j: int|
                            0 <= j < entries@[k].samples@.len() ==> all[k].states.contains(
                                #[trigger] entries@[k].samples@[j],
                            )
                    },
        {
            let (conn, states, seq, inflight, rtt, throughput) = recording;
            let samples = sort_by_time(&states);
            let effective_end = if conn.state.is_terminal() {
                conn.last_at
            } else {
                end
            };
            let entry = Entry { conn, samples, seq, inflight, rtt, throughput, effective_end };
            proof {
                assert(entry@ =~= EntryModel::of(all[it.index()], end));
            }
            entries.push(entry);
        }
        let event_times = distinct_times(&entries);
        let start = if event_times.len() > 0 {
            event_times[0]
        } else {
            Nanos(0)
        };
        proof {
            assert forall|t: Nanos| #[trigger] event_times@.contains(t) <==> sampled_at(all, t) by {
                if event_times@.contains(t) {
                    let (a, b) = choose|a: int, b: int|
                        0 <= a < entries@.len() && 0 <= b < entries@[a].samples@.len()
                            && #[trigger] entries@[a].samples@[b].t.0 == t.0;
                    assert(all[a].states.contains(entries@[a].samples@[b]));
                    let c = choose|c: int|
                        0 <= c < all[a].states.len() && all[a].states[c] == entries@[a].samples@[b];
                    assert(all[a].states[c].t == t);
                }
                if sampled_at(all, t) {
                    let (a, b) = choose|a: int, b: int|
                        0 <= a < all.len() && 0 <= b < all[a].states.len()
                            && #[trigger] all[a].states[b].t == t;
                    assert(entries@[a].samples@.contains(all[a].states[b]));
                    let c = choose|c: int|
                        0 <= c < entries@[a].samples@.len() && entries@[a].samples@[c]
                            == all[a].states[b];
                    assert(entries@[a].samples@[c].t.0 == t.0);
                }
            }
        }
        Timeline { entries, start, end, event_times }
    }

    /// The first and last time of the cursor.
    #[must_use]
    pub fn bounds(&self) -> (res: (Nanos, Nanos))
        ensures
            res == (self@.start, self@.end),
    {
        (self.start, self.end)
    }

    /// The number of connections.
    #[must_use]
    pub fn connection_count(&self) -> (res: usize)
        ensures
            res == self@.entries.len(),
    {
        self.entries.len()
    }

    /// The connections, in construction order.
    #[must_use]
    pub fn connections(&self) -> (res: Vec<Connection>)
        ensures
            res@ == self@.entries.map_values(|e: EntryModel| e.conn),
    {
        let mut out: Vec<Connection> = Vec::new();
        let mut i: usize = 0;
        while i < self.entries.len()
            invariant
                i <= self.entries@.len(),
                out@ == self@.entries.take(i as int).map_values(|e: EntryModel| e.conn),
            decreases self.entries@.len() - i,
        {
            out.push(self.entries[i].conn);
            i = i + 1;
            proof {
                assert(out@ =~= self@.entries.take(i as int).map_values(|e: EntryModel| e.conn));
            }
        }
        proof {
            assert(self@.entries.take(i as int) =~= self@.entries);
        }
        out
    }

    /// The ids of the connections that are active at `t`.
    #[must_use]
    pub fn active_at(&self, t: Nanos) -> (res: Vec<ConnId>)
        ensures
            res@ == active_ids(self@.entries, t),
    {
        let mut out: Vec<ConnId> = Vec::new();
        let mut i: usize = 0;
        while i < self.entries.len()
            invariant
                i <= self.entries@.len(),
                out@ == active_ids(self@.entries.take(i as int), t),
            decreases self.entries@.len() - i,
        {
            proof {
                assert(self@.entries.take(i + 1).drop_last() =~= self@.entries.take(i as int));
            }
            let e = &self.entries[i];
            if e.conn.opened_at.0 <= t.0 && t.0 <= e.effective_end.0 {
                out.push(e.conn.id);
            }
            i = i + 1;
        }
        proof {
            assert(self@.entries.take(i as int) =~= self@.entries);
        }
        out
    }

    /// The state of each connection that is active at `t`, as of `t`.
    #[must_use]
    pub fn resolve_at(&self, t: Nanos) -> (res: Vec<AsOf>)
        ensures
            res@ == resolved(self@.entries, t),
    {
        proof {
            use_type_invariant(self);
        }
        let mut out: Vec<AsOf> = Vec::new();
        let mut i: usize = 0;
        while i < self.entries.len()
            invariant
                self.searchable(),
                i <= self.entries@.len(),
                out@ == resolved(self@.entries.take(i as int), t),
            decreases self.entries@.len() - i,
        {
            proof {
                assert(self@.entries.take(i + 1).drop_last() =~= self@.entries.take(i as int));
            }
            let e = &self.entries[i];
            if e.conn.opened_at.0 <= t.0 && t.0 <= e.effective_end.0 {
                let k: usize = count_no_later(&e.samples, t);
                proof {
                    lemma_last_no_later(e.samples@, t, k as int);
                }
                if k > 0 {
                    let s = e.samples[k - 1];
                    out.push(
                        AsOf {
                            id: e.conn.id,
                            state: s.state,
                            bytes_o2r: s.bytes_o2r,
                            bytes_r2o: s.bytes_r2o,
                        },
                    );
                }
            }
            i = i + 1;
        }
        proof {
            assert(self@.entries.take(i as int) =~= self@.entries);
        }
        out
    }

    /// The connections that are active at `t`, each with the state and byte counts it had then.
    #[must_use]
    pub fn connections_at(&self, t: Nanos) -> (res: Vec<Connection>)
        ensures
            res@ == connections_as_of(self@.entries, t),
    {
        proof {
            use_type_invariant(self);
        }
        let mut out: Vec<Connection> = Vec::new();
        let mut i: usize = 0;
        while i < self.entries.len()
            invariant
                self.searchable(),
                i <= self.entries@.len(),
                out@ == connections_as_of(self@.entries.take(i as int), t),
            decreases self.entries@.len() - i,
        {
            proof {
                assert(self@.entries.take(i + 1).drop_last() =~= self@.entries.take(i as int));
            }
            let e = &self.entries[i];
            if e.conn.opened_at.0 <= t.0 && t.0 <= e.effective_end.0 {
                let k: usize = count_no_later(&e.samples, t);
                proof {
                    lemma_last_no_later(e.samples@, t, k as int);
                }
                if k > 0 {
                    let s = e.samples[k - 1];
                    let mut conn = e.conn;
                    conn.state = s.state;
                    conn.bytes_o2r = s.bytes_o2r;
                    conn.bytes_r2o = s.bytes_r2o;
                    out.push(conn);
                }
            }
            i = i + 1;
        }
        proof {
            assert(self@.entries.take(i as int) =~= self@.entries);
        }
        out
    }

    /// The nearest event strictly after `t`.
    #[must_use]
    pub fn next_event(&self, t: Nanos) -> (res: Option<Nanos>)
        ensures
            res == next_after(self@.events, t),
    {
        proof {
            use_type_invariant(self);
        }
        let k: usize = count_before(&self.event_times, t.0 as u128 + 1);
        proof {
            lemma_next_after(self.event_times@, t, k as int);
        }
        if k < self.event_times.len() {
            Some(self.event_times[k])
        } else {
            None
        }
    }

    /// The nearest event strictly before `t`.
    #[must_use]
    pub fn prev_event(&self, t: Nanos) -> (res: Option<Nanos>)
        ensures
            res == prev_before(self@.events, t),
    {
        proof {
            use_type_invariant(self);
        }
        let k: usize = count_before(&self.event_times, t.0 as u128);
        proof {
            lemma_prev_before(self.event_times@, t, k as int);
        }
        if k > 0 {
            Some(self.event_times[k - 1])
        } else {
            None
        }
    }

    /// The place of the connection `id`.
    #[must_use]
    pub fn position(&self, id: ConnId) -> (res: Option<usize>)
        ensures
            match res {
                Some(i) => self@.position(id) == Some(i as int) && i < self@.entries.len(),
                None => self@.position(id) is None,
            },
    {
        let mut i: usize = 0;
        while i < self.entries.len()
            invariant
                i <= self.entries@.len(),
                self@.position(id) == first_with_id(self@.entries, id, i as int),
            decreases self.entries@.len() - i,
        {
            if self.entries[i].conn.id == id {
                return Some(i);
            }
            i = i + 1;
        }
        None
    }

    /// The connection at place `i`.
    #[must_use]
    pub fn connection(&self, i: usize) -> (res: Connection)
        requires
            i < self@.entries.len(),
        ensures
            res == self@.entries[i as int].conn,
    {
        self.entries[i].conn
    }

    /// The time/sequence points of the connection `id`, none if there is no such connection.
    #[must_use]
    pub fn seq_series(&self, id: ConnId) -> (res: &[SeqSample])
        ensures
            res@ == (match self@.position(id) {
                Some(i) => self@.entries[i].seq,
                None => Seq::empty(),
            }),
    {
        match self.position(id) {
            Some(i) => self.entries[i].seq.as_slice(),
            None => &[],
        }
    }

    /// The in-flight points of the connection at place `i`.
    #[must_use]
    pub fn inflight_series(&self, i: usize) -> (res: &Vec<InFlightSample>)
        requires
            i < self@.entries.len(),
        ensures
            res@ == self@.entries[i as int].inflight,
    {
        &self.entries[i].inflight
    }

    /// The round-trip points of the connection at place `i`.
    #[must_use]
    pub fn rtt_series(&self, i: usize) -> (res: &Vec<RttSample>)
        requires
            i < self@.entries.len(),
        ensures
            res@ == self@.entries[i as int].rtt,
    {
        &self.entries[i].rtt
    }

    /// The throughput points of the connection at place `i`.
    #[must_use]
    pub fn throughput_series(&self, i: usize) -> (res: &Vec<ThroughputSample>)
        requires
            i < self@.entries.len(),
        ensures
            res@ == self@.entries[i as int].throughput,
    {
        &self.entries[i].throughput
    }
}

/// The next event is an event, it lies after `t`, and no event lies between; there is none only
/// past the last event.
pub proof fn law_next_event_is_nearest(events: Seq<Nanos>, t: Nanos)
    requires
        increasing(events),
    ensures
        match next_after(events, t) {
            Some(x) => events.contains(x) && t.0 < x.0 && forall|e: Nanos| #[trigger]
                events.contains(e) && t.0 < e.0 ==> x.0 <= e.0,
            None => forall|e: Nanos| #[trigger] events.contains(e) ==> e.0 <= t.0,
        },
    decreases events.len(),
{
    if events.len() > 0 {
        let rest = events.drop_first();
        assert forall|i: int, j: int| 0 <= i < j < rest.len() implies rest[i].0 < rest[j].0 by {
            assert(rest[i] == events[i + 1] && rest[j] == events[j + 1]);
        }
        law_next_event_is_nearest(rest, t);
        assert forall|e: Nanos| #[trigger] events.contains(e) implies e == events[0]
            || rest.contains(e) by {
            let i = choose|i: int| 0 <= i < events.len() && events[i] == e;
            if i > 0 {
                assert(rest[i - 1] == e);
            }
        }
        assert forall|e: Nanos| #[trigger] rest.contains(e) implies events.contains(e)
            && events[0].0 < e.0 by {
            let i = choose|i: int| 0 <= i < rest.len() && rest[i] == e;
            assert(events[i + 1] == e);
        }
        assert(events.contains(events[0]));
    }
}

/// The previous event is an event, it lies before `t`, and no event lies between; there is none
/// only up to the first event.
pub proof fn law_prev_event_is_nearest(events: Seq<Nanos>, t: Nanos)
    requires
        increasing(events),
    ensures
        match prev_before(events, t) {
            Some(x) => events.contains(x) && x.0 < t.0 && forall|e: Nanos| #[trigger]
                events.contains(e) && e.0 < t.0 ==> e.0 <= x.0,
            None => forall|e: Nanos| #[trigger] events.contains(e) ==> t.0 <= e.0,
        },
    decreases events.len(),
{
    if events.len() > 0 {
        let rest = events.drop_last();
        let n = events.len() - 1;
        law_prev_event_is_nearest(rest, t);
        assert forall|e: Nanos| #[trigger] events.contains(e) implies e == events[n]
            || rest.contains(e) by {
            let i = choose|i: int| 0 <= i < events.len() && events[i] == e;
            if i < n {
                assert(rest[i] == e);
            }
        }
        assert forall|e: Nanos| #[trigger] rest.contains(e) implies events.contains(e) && e.0
            < events[n].0 by {
            let i = choose|i: int| 0 <= i < rest.len() && rest[i] == e;
            assert(events[i] == e);
        }
        assert(events.contains(events[n]));
    }
}

/// Stepping forward from an event and then back returns to it, and so does stepping back and
/// then forward.
pub proof fn law_event_steps_undo_each_other(events: Seq<Nanos>, t: Nanos)
    requires
        increasing(events),
        events.contains(t),
    ensures
        next_after(events, t) matches Some(x) ==> prev_before(events, x) == Some(t),
        prev_before(events, t) matches Some(x) ==> next_after(events, x) == Some(t),
{
    law_next_event_is_nearest(events, t);
    law_prev_event_is_nearest(events, t);
    if let Some(x) = next_after(events, t) {
        law_prev_event_is_nearest(events, x);
        let back = prev_before(events, x).unwrap();
        if t.0 < back.0 {
            assert(events.contains(back));
        }
    }
    if let Some(x) = prev_before(events, t) {
        law_next_event_is_nearest(events, x);
        let forth = next_after(events, x).unwrap();
        if forth.0 < t.0 {
            assert(events.contains(forth));
        }
    }
}

/// Whatever resolves at `t` is active at `t`.
pub proof fn law_resolved_connections_are_active(entries: Seq<EntryModel>, t: Nanos)
    ensures
        resolved(entries, t).len() <= active_ids(entries, t).len(),
        forall|i: int|
            0 <= i < resolved(entries, t).len() ==> active_ids(entries, t).contains(
                (#[trigger] resolved(entries, t)[i]).id,
            ),
    decreases entries.len(),
{
    if entries.len() > 0 {
        let rest = entries.drop_last();
        law_resolved_connections_are_active(rest, t);
        let ids = active_ids(entries, t);
        assert forall|i: int| 0 <= i < resolved(entries, t).len() implies ids.contains(
            (#[trigger] resolved(entries, t)[i]).id,
        ) by {
            if i < resolved(rest, t).len() {
                let id = resolved(rest, t)[i].id;
                assert(active_ids(rest, t).contains(id));
                let k = choose|k: int|
                    0 <= k < active_ids(rest, t).len() && active_ids(rest, t)[k] == id;
                assert(ids[k] == id);
            } else {
                assert(ids[ids.len() - 1] == entries.last().conn.id);
            }
        }
    }
}

/// The state as of `t` is the newest one known by then: no sample that is no later than `t` is
/// later than it.
pub proof fn law_state_as_of_is_newest(samples: Seq<StateSample>, t: Nanos)
    requires
        forall|i: int, j: int| 0 <= i <= j < samples.len() ==> samples[i].t.0 <= samples[j].t.0,
    ensures
        match last_no_later(samples, t) {
            Some(s) => samples.contains(s) && s.t.0 <= t.0 && forall|i: int|
                0 <= i < samples.len() && (#[trigger] samples[i]).t.0 <= t.0 ==> samples[i].t.0
                    <= s.t.0,
            None => forall|i: int| 0 <= i < samples.len() ==> (#[trigger] samples[i]).t.0 > t.0,
        },
    decreases samples.len(),
{
    if samples.len() > 0 {
        let n = samples.len() - 1;
        let rest = samples.drop_last();
        law_state_as_of_is_newest(rest, t);
        if samples[n].t.0 > t.0 {
            match last_no_later(rest, t) {
                Some(s) => {
                    let k = choose|k: int| 0 <= k < rest.len() && rest[k] == s;
                    assert(samples[k] == s);
                    assert forall|i: int|
                        0 <= i < samples.len() && (#[trigger] samples[i]).t.0
                            <= t.0 implies samples[i].t.0 <= s.t.0 by {
                        assert(rest[i] == samples[i]);
                    }
                },
                None => {
                    assert forall|i: int| 0 <= i < samples.len() implies (#[trigger] samples[i]).t.0
                        > t.0 by {
                        if i < n {
                            assert(rest[i] == samples[i]);
                        }
                    }
                },
            }
        } else {
            assert(samples.contains(samples[n]));
        }
    }
}

/// A timeline stays within its bounds: it starts no later than any event.
pub proof fn law_timeline_starts_with_first_event(
    timeline: TimelineModel,
    recordings: Seq<RecordingModel>,
    end: Nanos,
    t: Nanos,
)
    requires
        timeline.shows(recordings, end),
        sampled_at(recordings, t),
    ensures
        timeline.start.0 <= t.0,
        timeline.events.contains(timeline.start),
{
    assert(timeline.events.contains(t));
    assert(timeline.events[0] == timeline.start);
}

/// The connections shown at a time are those that resolve to a state then, in the same order.
pub proof fn law_shown_connections_are_resolved(entries: Seq<EntryModel>, t: Nanos)
    ensures
        connections_as_of(entries, t).map_values(
            |c: Connection|
                AsOf {
                    id: c.id,
                    state: c.state,
                    bytes_o2r: c.bytes_o2r,
                    bytes_r2o: c.bytes_r2o,
                },
        ) == resolved(entries, t),
    decreases entries.len(),
{
    let as_of = |c: Connection|
        AsOf { id: c.id, state: c.state, bytes_o2r: c.bytes_o2r, bytes_r2o: c.bytes_r2o };
    if entries.len() > 0 {
        law_shown_connections_are_resolved(entries.drop_last(), t);
        assert(connections_as_of(entries, t).map_values(as_of) =~= resolved(entries, t));
    } else {
        assert(connections_as_of(entries, t).map_values(as_of) =~= resolved(entries, t));
    }
}

/// The keys increase strictly.
spec fn rising<T>(items: Seq<T>, key: spec_fn(T) -> int) -> bool {
    forall|i: int, j: int| 0 <= i < j < items.len() ==> key(#[trigger] items[i]) < key(#[trigger] items[j])
}

proof fn lemma_rising_items_are_unique<T>(one: Seq<T>, two: Seq<T>, key: spec_fn(T) -> int)
    requires
        rising(one, key),
        rising(two, key),
        forall|x: T| #[trigger] one.contains(x) <==> two.contains(x),
    ensures
        one == two,
    decreases one.len(),
{
    if one.len() == 0 {
        if two.len() > 0 {
            assert(two.contains(two[0]));
            assert(one.contains(two[0]));
        }
        assert(one =~= two);
    } else {
        assert(one.contains(one[0]));
        assert(two.contains(one[0]));
        let (a, b) = (one.last(), two.last());
        assert(one[one.len() - 1] == a && one.contains(a));
        assert(two[two.len() - 1] == b && two.contains(b));
        assert(two.contains(a));
        assert(one.contains(b));
        let i = choose|i: int| 0 <= i < two.len() && two[i] == a;
        let j = choose|j: int| 0 <= j < one.len() && one[j] == b;
        assert(key(one[j]) <= key(a)) by {
            if j < one.len() - 1 {
                assert(key(one[j]) < key(one[one.len() - 1]));
            }
        }
        if i < two.len() - 1 {
            assert(key(two[i]) < key(two[two.len() - 1]));
        }
        assert(a == b);
        let (fore, aft) = (one.drop_last(), two.drop_last());
        assert forall|x: T| #[trigger] fore.contains(x) <==> aft.contains(x) by {
            if fore.contains(x) {
                let m = choose|m: int| 0 <= m < fore.len() && fore[m] == x;
                assert(one[m] == x && one.contains(x));
                assert(two.contains(x));
                let n = choose|n: int| 0 <= n < two.len() && two[n] == x;
                assert(key(one[m]) < key(one[one.len() - 1]));
                assert(aft[n] == x);
            }
            if aft.contains(x) {
                let m = choose|m: int| 0 <= m < aft.len() && aft[m] == x;
                assert(two[m] == x && two.contains(x));
                assert(one.contains(x));
                let n = choose|n: int| 0 <= n < one.len() && one[n] == x;
                assert(key(two[m]) < key(two[two.len() - 1]));
                assert(fore[n] == x);
            }
        }
        assert forall|m: int, n: int| 0 <= m < n < fore.len() implies key(#[trigger] fore[m]) < key(
            #[trigger] fore[n],
        ) by {
            assert(key(one[m]) < key(one[n]));
        }
        assert forall|m: int, n: int| 0 <= m < n < aft.len() implies key(#[trigger] aft[m]) < key(
            #[trigger] aft[n],
        ) by {
            assert(key(two[m]) < key(two[n]));
        }
        lemma_rising_items_are_unique(fore, aft, key);
        assert(one =~= fore.push(a));
        assert(two =~= aft.push(b));
    }
}

/// No two of the samples are of the same time.
pub open spec fn all_at_other_times(samples: Seq<StateSample>) -> bool {
    forall|i: int, j: int|
        0 <= i < j < samples.len() ==> (#[trigger] samples[i]).t != (#[trigger] samples[j]).t
}

proof fn lemma_other_times_sort_strictly(samples: Seq<StateSample>)
    requires
        all_at_other_times(samples),
        samples.len() <= usize::MAX,
    ensures
        rising(by_time(samples), |s: StateSample| s.t.0 as int),
        forall|x: StateSample| #[trigger] by_time(samples).contains(x) <==> samples.contains(x),
{
    let keys = samples.map_values(|s: StateSample| s.t.0);
    crate::sort::law_every_list_has_a_stable_order(keys);
    crate::sort::law_sorting_keeps_the_items(samples, keys);
    let order = crate::sort::sorted_indices(keys);
    let sorted = by_time(samples);
    let key = |s: StateSample| s.t.0 as int;
    assert forall|i: int, j: int| 0 <= i < j < sorted.len() implies key(#[trigger] sorted[i]) < key(
        #[trigger] sorted[j],
    ) by {
        assert(crate::sort::placed_before(keys, order[i], order[j]));
        let (a, b) = (order[i] as int, order[j] as int);
        assert(samples[a] == sorted[i] && samples[b] == sorted[j]);
        assert(a != b);
    }
    broadcast use vstd::seq_lib::group_to_multiset_ensures;

    assert forall|x: StateSample| #[trigger] sorted.contains(x) <==> samples.contains(x) by {
        assert(sorted.to_multiset().count(x) == samples.to_multiset().count(x));
    }
}

/// `one` and `two` differ at most in the order of the state samples, none of which are of the same
/// time.
pub open spec fn reordered(one: RecordingModel, two: RecordingModel) -> bool {
    &&& two == (RecordingModel { states: two.states, ..one })
    &&& one.states.to_multiset() == two.states.to_multiset()
    &&& all_at_other_times(one.states)
    &&& all_at_other_times(two.states)
    &&& one.states.len() <= usize::MAX
    &&& two.states.len() <= usize::MAX
}

proof fn lemma_reordered_samples_agree(one: RecordingModel, two: RecordingModel)
    requires
        reordered(one, two),
    ensures
        by_time(one.states) == by_time(two.states),
        forall|x: StateSample| #[trigger] one.states.contains(x) <==> two.states.contains(x),
{
    lemma_other_times_sort_strictly(one.states);
    lemma_other_times_sort_strictly(two.states);
    broadcast use vstd::seq_lib::group_to_multiset_ensures;

    assert forall|x: StateSample| #[trigger]
        one.states.contains(x) <==> two.states.contains(x) by {
        assert(one.states.to_multiset().count(x) == two.states.to_multiset().count(x));
    }
    let (a, b) = (by_time(one.states), by_time(two.states));
    assert forall|x: StateSample| #[trigger] a.contains(x) <==> b.contains(x) by {
        assert(one.states.contains(x) <==> two.states.contains(x));
    }
    lemma_rising_items_are_unique(a, b, |s: StateSample| s.t.0 as int);
}

proof fn lemma_sampled_alike(one: Seq<RecordingModel>, two: Seq<RecordingModel>, t: Nanos)
    requires
        one.len() == two.len(),
        forall|i: int| 0 <= i < one.len() ==> reordered(#[trigger] one[i], two[i]),
        sampled_at(one, t),
    ensures
        sampled_at(two, t),
{
    let (i, j) = choose|i: int, j: int|
        0 <= i < one.len() && 0 <= j < one[i].states.len() && #[trigger] one[i].states[j].t == t;
    assert(reordered(one[i], two[i]));
    lemma_reordered_samples_agree(one[i], two[i]);
    let x = one[i].states[j];
    assert(one[i].states.contains(x));
    assert(two[i].states.contains(x));
    let m = choose|m: int| 0 <= m < two[i].states.len() && two[i].states[m] == x;
    assert(two[i].states[m].t == t);
}

/// The order in which the samples of a connection come makes no difference: two timelines whose
/// recordings differ only in that are the same timeline, and so agree in every answer.
pub proof fn law_order_of_samples_is_irrelevant(
    one: Seq<RecordingModel>,
    two: Seq<RecordingModel>,
    end: Nanos,
    a: TimelineModel,
    b: TimelineModel,
)
    requires
        one.len() == two.len(),
        forall|i: int| 0 <= i < one.len() ==> reordered(#[trigger] one[i], two[i]),
        a.shows(one, end),
        b.shows(two, end),
    ensures
        a == b,
        last_activity(one) == last_activity(two),
{
    assert forall|i: int| 0 <= i < a.entries.len() implies a.entries[i] == b.entries[i] by {
        assert(reordered(one[i], two[i]));
        lemma_reordered_samples_agree(one[i], two[i]);
        assert(a.entries[i] == EntryModel::of(one[i], end));
        assert(b.entries[i] == EntryModel::of(two[i], end));
    }
    assert(a.entries =~= b.entries);
    assert forall|i: int| 0 <= i < two.len() implies reordered(#[trigger] two[i], one[i]) by {
        assert(reordered(one[i], two[i]));
        assert(one[i] =~= RecordingModel { states: one[i].states, ..two[i] });
    }
    assert forall|t: Nanos| #[trigger] a.events.contains(t) <==> b.events.contains(t) by {
        if a.events.contains(t) {
            lemma_sampled_alike(one, two, t);
        }
        if b.events.contains(t) {
            lemma_sampled_alike(two, one, t);
        }
    }
    lemma_rising_items_are_unique(a.events, b.events, |t: Nanos| t.0 as int);
    lemma_last_activity_alike(one, two);
}

proof fn lemma_last_activity_alike(one: Seq<RecordingModel>, two: Seq<RecordingModel>)
    requires
        one.len() == two.len(),
        forall|i: int| 0 <= i < one.len() ==> reordered(#[trigger] one[i], two[i]),
    ensures
        last_activity(one) == last_activity(two),
    decreases one.len(),
{
    if one.len() > 0 {
        assert(reordered(one[one.len() - 1], two[one.len() - 1]));
        assert forall|i: int| 0 <= i < one.drop_last().len() implies reordered(
            #[trigger] one.drop_last()[i],
            two.drop_last()[i],
        ) by {
            assert(reordered(one[i], two[i]));
        }
        lemma_last_activity_alike(one.drop_last(), two.drop_last());
    }
}

} // verus!
