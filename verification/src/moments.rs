//! What a timeline shows of its recordings at any moment.

use vstd::prelude::*;

use crate::conn::{ConnId, Connection};
use crate::state::ConnState;
use crate::time::Nanos;
use crate::timeline::{EntryModel, RecordingModel, StateSample, TimelineModel};

verus! {

/// The sample at `j` is the one that counts at `t`: of those no later than `t` the latest, and of
/// several at its time the one recorded last.
pub open spec fn counts_at(states: Seq<StateSample>, j: int, t: Nanos) -> bool {
    &&& 0 <= j < states.len()
    &&& states[j].t.0 <= t.0
    &&& forall|k: int|
        0 <= k < states.len() && (#[trigger] states[k]).t.0 <= t.0 ==> states[k].t.0
            <= states[j].t.0 && (k > j ==> states[k].t.0 < states[j].t.0)
}

/// The connection of the recording shows at `t` in a timeline that ends at `end`: it was open by
/// then, something was recorded by then, and it was not over before.
pub open spec fn shows_at(recording: RecordingModel, end: Nanos, t: Nanos) -> bool {
    let over = recording.conn.state == ConnState::Closed || recording.conn.state
        == ConnState::Reset;
    &&& recording.conn.opened_at.0 <= t.0
    &&& over ==> t.0 <= recording.conn.last_at.0
    &&& !over ==> t.0 <= end.0
    &&& exists|k: int| 0 <= k < recording.states.len() && (#[trigger] recording.states[k]).t.0 <= t.0
}

/// `shown` is the connection of the recording with the state and the bytes of a sample that counts
/// at `t`.
pub open spec fn is_as_of(shown: Connection, recording: RecordingModel, t: Nanos) -> bool {
    exists|j: int| #[trigger]
        counts_at(recording.states, j, t) && {
            let s = recording.states[j];
            &&& shown.id == recording.conn.id
            &&& shown.origin == recording.conn.origin
            &&& shown.responder == recording.conn.responder
            &&& shown.origin_inferred == recording.conn.origin_inferred
            &&& shown.opened_at == recording.conn.opened_at
            &&& shown.last_at == recording.conn.last_at
            &&& shown.segments == recording.conn.segments
            &&& shown.state == s.state
            &&& shown.bytes_o2r == s.bytes_o2r
            &&& shown.bytes_r2o == s.bytes_r2o
        }
}

proof fn lemma_last_no_later_place(samples: Seq<StateSample>, t: Nanos) -> (k: int)
    ensures
        match crate::timeline::last_no_later(samples, t) {
            Some(s) => {
                &&& 0 <= k < samples.len()
                &&& samples[k] == s
                &&& s.t.0 <= t.0
                &&& forall|i: int| k < i < samples.len() ==> (#[trigger] samples[i]).t.0 > t.0
            },
            None => forall|i: int| 0 <= i < samples.len() ==> (#[trigger] samples[i]).t.0 > t.0,
        },
    decreases samples.len(),
{
    if samples.len() == 0 {
        0
    } else if samples.last().t.0 <= t.0 {
        samples.len() - 1
    } else {
        let rest = samples.drop_last();
        let k = lemma_last_no_later_place(rest, t);
        assert(forall|i: int| 0 <= i < rest.len() ==> rest[i] == #[trigger] samples[i]);
        assert(samples[samples.len() - 1] == samples.last());
        k
    }
}

proof fn lemma_entry_as_of(recording: RecordingModel, end: Nanos, t: Nanos) -> (j: int)
    requires
        recording.states.len() <= usize::MAX,
    ensures
        ({
            let states = recording.states;
            match EntryModel::of(recording, end).as_of(t) {
                Some(s) => {
                    &&& counts_at(states, j, t)
                    &&& s.id == recording.conn.id
                    &&& s.state == states[j].state
                    &&& s.bytes_o2r == states[j].bytes_o2r
                    &&& s.bytes_r2o == states[j].bytes_r2o
                },
                None => forall|k: int| 0 <= k < states.len() ==> (#[trigger] states[k]).t.0 > t.0,
            }
        }),
{
    let states = recording.states;
    let keys = states.map_values(|s: StateSample| s.t.0);
    let order = crate::sort::sorted_indices(keys);
    crate::sort::law_every_list_has_a_stable_order(keys);
    assert(crate::sort::is_stable_order(keys, order));
    let samples = crate::timeline::by_time(states);
    let k = lemma_last_no_later_place(samples, t);
    match crate::timeline::last_no_later(samples, t) {
        Some(_) => {
            let j = order[k] as int;
            assert(samples[k] == states[j]);
            assert forall|i: int| 0 <= i < states.len() && (#[trigger] states[i]).t.0
                <= t.0 implies states[i].t.0 <= states[j].t.0 && (i > j ==> states[i].t.0
                < states[j].t.0) by {
                assert(order.contains(i as usize));
                let x = choose|x: int| 0 <= x < order.len() && order[x] == i as usize;
                assert(samples[x] == states[i]);
                if x < k {
                    assert(crate::sort::placed_before(keys, order[x], order[k]));
                }
            }
            j
        },
        None => {
            assert forall|i: int| 0 <= i < states.len() implies (#[trigger] states[i]).t.0
                > t.0 by {
                assert(order.contains(i as usize));
                let x = choose|x: int| 0 <= x < order.len() && order[x] == i as usize;
                assert(samples[x] == states[i]);
            }
            0
        },
    }
}

/// `at` lists in order the recordings that show at `t`.
pub open spec fn lists_shown(
    recordings: Seq<RecordingModel>,
    end: Nanos,
    t: Nanos,
    at: Seq<int>,
) -> bool {
    &&& forall|a: int, b: int| 0 <= a < b < at.len() ==> (#[trigger] at[a]) < (#[trigger] at[b])
    &&& forall|a: int|
        0 <= a < at.len() ==> 0 <= #[trigger] at[a] < recordings.len() && shows_at(
            recordings[at[a]],
            end,
            t,
        )
    &&& forall|i: int|
        0 <= i < recordings.len() && shows_at(#[trigger] recordings[i], end, t) ==> at.contains(i)
}

proof fn lemma_shown_places(
    entries: Seq<EntryModel>,
    recordings: Seq<RecordingModel>,
    end: Nanos,
    t: Nanos,
) -> (at: Seq<int>)
    requires
        entries.len() == recordings.len(),
        forall|i: int|
            0 <= i < recordings.len() ==> (#[trigger] recordings[i]).states.len() <= usize::MAX,
        forall|i: int|
            0 <= i < recordings.len() ==> #[trigger] entries[i] == EntryModel::of(
                recordings[i],
                end,
            ),
    ensures
        lists_shown(recordings, end, t, at),
        at.len() == crate::timeline::connections_as_of(entries, t).len(),
        forall|a: int|
            0 <= a < at.len() ==> is_as_of(
                #[trigger] crate::timeline::connections_as_of(entries, t)[a],
                recordings[at[a]],
                t,
            ),
    decreases entries.len(),
{
    if entries.len() == 0 {
        Seq::empty()
    } else {
        let last = entries.len() - 1;
        let (front, before) = (entries.drop_last(), recordings.drop_last());
        assert(forall|i: int| 0 <= i < last ==> #[trigger] before[i] == recordings[i]);
        assert forall|i: int| 0 <= i < before.len() implies #[trigger] front[i] == EntryModel::of(
            before[i],
            end,
        ) by {
            assert(front[i] == entries[i]);
        }
        let at = lemma_shown_places(front, before, end, t);
        let rec = recordings[last];
        let entry = entries[last];
        let j = lemma_entry_as_of(rec, end, t);
        let shows = entry.as_of(t) is Some && entry.active(t);
        assert(shows == shows_at(rec, end, t)) by {
            if entry.as_of(t) is Some {
                assert(rec.states[j].t.0 <= t.0);
            }
        }
        let all = if shows {
            at.push(last)
        } else {
            at
        };
        assert forall|i: int|
            0 <= i < recordings.len() && shows_at(
                #[trigger] recordings[i],
                end,
                t,
            ) implies all.contains(i) by {
            if i < last {
                assert(before[i] == recordings[i]);
                assert(at.contains(i));
                let a = choose|a: int| 0 <= a < at.len() && at[a] == i;
                assert(all[a] == i);
            } else {
                assert(all[all.len() - 1] == i);
            }
        }
        let shown = crate::timeline::connections_as_of(entries, t);
        let earlier = crate::timeline::connections_as_of(front, t);
        assert forall|a: int| 0 <= a < all.len() implies is_as_of(
            #[trigger] shown[a],
            recordings[all[a]],
            t,
        ) by {
            if a < at.len() {
                assert(shown[a] == earlier[a]);
                assert(is_as_of(earlier[a], before[at[a]], t));
            } else {
                assert(counts_at(rec.states, j, t));
            }
        }
        all
    }
}

/// The connections shown at a moment are, in the order in which they were opened, those that were
/// open then: not before they were opened, not after a closed or reset one saw its last segment, nor
/// after the end. Each shows the state and the bytes that its latest sample by then recorded.
pub proof fn law_a_moment_shows_the_connections_open_then(
    timeline: TimelineModel,
    recordings: Seq<RecordingModel>,
    end: Nanos,
    t: Nanos,
)
    requires
        timeline.shows(recordings, end),
        forall|i: int|
            0 <= i < recordings.len() ==> (#[trigger] recordings[i]).states.len() <= usize::MAX,
    ensures
        exists|at: Seq<int>| #[trigger]
            lists_shown(recordings, end, t, at) && at.len() == crate::timeline::connections_as_of(
                timeline.entries,
                t,
            ).len() && forall|a: int|
                0 <= a < at.len() ==> is_as_of(
                    #[trigger] crate::timeline::connections_as_of(timeline.entries, t)[a],
                    recordings[at[a]],
                    t,
                ),
{
    let at = lemma_shown_places(timeline.entries, recordings, end, t);
}

/// The ids listed as active at a moment are those of the connections open then, in order.
pub proof fn law_active_connections_are_those_open(
    entries: Seq<EntryModel>,
    recordings: Seq<RecordingModel>,
    end: Nanos,
    t: Nanos,
    i: int,
)
    requires
        entries.len() == recordings.len(),
        forall|k: int|
            0 <= k < recordings.len() ==> #[trigger] entries[k] == EntryModel::of(
                recordings[k],
                end,
            ),
        0 <= i < recordings.len(),
        forall|k: int|
            0 <= k < recordings.len() && k != i ==> (#[trigger] recordings[k]).conn.id
                != recordings[i].conn.id,
    ensures
        ({
            let conn = recordings[i].conn;
            let over = conn.state == ConnState::Closed || conn.state == ConnState::Reset;
            crate::timeline::active_ids(entries, t).contains(conn.id) <==> conn.opened_at.0 <= t.0
                && (if over {
                t.0 <= conn.last_at.0
            } else {
                t.0 <= end.0
            })
        }),
{
    lemma_active_by_id(entries, t, recordings[i].conn.id);
    assert(entries[i].conn == recordings[i].conn);
    assert forall|k: int| 0 <= k < entries.len() && (#[trigger] entries[k]).conn.id
        == recordings[i].conn.id implies k == i by {
        assert(entries[k].conn == recordings[k].conn);
    }
}

proof fn lemma_active_by_id(entries: Seq<EntryModel>, t: Nanos, id: crate::conn::ConnId)
    ensures
        crate::timeline::active_ids(entries, t).contains(id) <==> exists|k: int|
            0 <= k < entries.len() && (#[trigger] entries[k]).conn.id == id && entries[k].active(t),
    decreases entries.len(),
{
    if entries.len() > 0 {
        let front = entries.drop_last();
        let last = entries.len() - 1;
        lemma_active_by_id(front, t, id);
        let ids = crate::timeline::active_ids(entries, t);
        let earlier = crate::timeline::active_ids(front, t);
        assert(forall|k: int| 0 <= k < last ==> #[trigger] front[k] == entries[k]);
        if ids.contains(id) {
            let x = choose|x: int| 0 <= x < ids.len() && ids[x] == id;
            if x < earlier.len() {
                assert(earlier[x] == id);
                assert(earlier.contains(id));
                let k = choose|k: int|
                    0 <= k < front.len() && (#[trigger] front[k]).conn.id == id && front[k].active(
                        t,
                    );
                assert(entries[k].conn.id == id);
            } else {
                assert(entries[last].conn.id == id);
            }
        }
        if exists|k: int|
            0 <= k < entries.len() && (#[trigger] entries[k]).conn.id == id && entries[k].active(
                t,
            ) {
            let k = choose|k: int|
                0 <= k < entries.len() && (#[trigger] entries[k]).conn.id == id
                    && entries[k].active(t);
            if k < last {
                assert(front[k].conn.id == id);
                assert(earlier.contains(id));
                let x = choose|x: int| 0 <= x < earlier.len() && earlier[x] == id;
                assert(ids[x] == id);
            } else {
                assert(ids[ids.len() - 1] == id);
            }
        }
    } else {
        assert(crate::timeline::active_ids(entries, t) =~= Seq::empty());
    }
}

/// A timeline ends with the last segment of any connection and starts with the first sample; both
/// are zero where there is nothing. The times to step to are those of the samples, each once and in
/// order. The graphs of a connection are those that were recorded of it.
pub proof fn law_timelines_span_what_was_recorded(
    timeline: TimelineModel,
    recordings: Seq<RecordingModel>,
    i: int,
)
    requires
        timeline.shows(recordings, crate::timeline::last_activity(recordings)),
        0 <= i < recordings.len(),
    ensures
        recordings[i].conn.last_at.0 <= timeline.end.0,
        exists|k: int|
            0 <= k < recordings.len() && (#[trigger] recordings[k]).conn.last_at == timeline.end,
        timeline.entries.len() == recordings.len(),
        timeline.entries[i].conn == recordings[i].conn,
        timeline.entries[i].seq == recordings[i].seq,
        timeline.entries[i].inflight == recordings[i].inflight,
        timeline.entries[i].rtt == recordings[i].rtt,
        timeline.entries[i].throughput == recordings[i].throughput,
        forall|j: int|
            0 <= j < recordings[i].states.len() ==> timeline.start.0 <= (
            #[trigger] recordings[i].states[j]).t.0 && timeline.events.contains(
                recordings[i].states[j].t,
            ),
        forall|a: int, b: int|
            0 <= a < b < timeline.events.len() ==> (#[trigger] timeline.events[a]).0 < (
            #[trigger] timeline.events[b]).0,
        forall|a: int|
            0 <= a < timeline.events.len() ==> crate::timeline::sampled_at(
                recordings,
                #[trigger] timeline.events[a],
            ),
        timeline.events.len() > 0 ==> crate::timeline::sampled_at(recordings, timeline.start),
{
    lemma_last_activity(recordings);
    assert forall|a: int| 0 <= a < timeline.events.len() implies crate::timeline::sampled_at(
        recordings,
        #[trigger] timeline.events[a],
    ) by {
        assert(timeline.events.contains(timeline.events[a]));
    }
    assert forall|j: int| 0 <= j < recordings[i].states.len() implies timeline.start.0 <= (
    #[trigger] recordings[i].states[j]).t.0 && timeline.events.contains(
        recordings[i].states[j].t,
    ) by {
        assert(crate::timeline::sampled_at(recordings, recordings[i].states[j].t));
        assert(timeline.events.contains(recordings[i].states[j].t));
        let k = choose|k: int|
            0 <= k < timeline.events.len() && timeline.events[k] == recordings[i].states[j].t;
        if k > 0 {
            assert(timeline.events[0].0 < timeline.events[k].0);
        }
    }
}

proof fn lemma_last_activity(recordings: Seq<RecordingModel>)
    ensures
        forall|i: int|
            0 <= i < recordings.len() ==> (#[trigger] recordings[i]).conn.last_at.0
                <= crate::timeline::last_activity(recordings).0,
        recordings.len() > 0 ==> exists|i: int|
            0 <= i < recordings.len() && (#[trigger] recordings[i]).conn.last_at
                == crate::timeline::last_activity(recordings),
    decreases recordings.len(),
{
    if recordings.len() > 0 {
        let rest = recordings.drop_last();
        lemma_last_activity(rest);
        assert forall|i: int| 0 <= i < recordings.len() implies (
        #[trigger] recordings[i]).conn.last_at.0 <= crate::timeline::last_activity(recordings).0 by {
            if i < rest.len() {
                assert(rest[i] == recordings[i]);
            }
        }
        let last = recordings.len() - 1;
        if rest.len() > 0 && crate::timeline::last_activity(recordings)
            == crate::timeline::last_activity(rest) {
            let k = choose|k: int|
                0 <= k < rest.len() && (#[trigger] rest[k]).conn.last_at
                    == crate::timeline::last_activity(rest);
            assert(recordings[k].conn.last_at == crate::timeline::last_activity(recordings));
        } else {
            assert(recordings[last].conn.last_at == crate::timeline::last_activity(recordings));
        }
    }
}

/// A connection is found on a timeline where it stands, at the first place where several carry its
/// number.
pub proof fn law_connections_are_found_on_the_timeline(timeline: TimelineModel, id: ConnId)
    ensures
        match timeline.position(id) {
            Some(i) => {
                &&& 0 <= i < timeline.entries.len()
                &&& timeline.entries[i].conn.id == id
                &&& forall|k: int| 0 <= k < i ==> (#[trigger] timeline.entries[k]).conn.id != id
            },
            None => forall|k: int|
                0 <= k < timeline.entries.len() ==> (#[trigger] timeline.entries[k]).conn.id != id,
        },
{
    lemma_first_with_id(timeline.entries, id, 0);
}

proof fn lemma_first_with_id(entries: Seq<EntryModel>, id: ConnId, from: int)
    requires
        0 <= from,
    ensures
        match crate::timeline::first_with_id(entries, id, from) {
            Some(i) => {
                &&& from <= i < entries.len()
                &&& entries[i].conn.id == id
                &&& forall|k: int| from <= k < i ==> (#[trigger] entries[k]).conn.id != id
            },
            None => forall|k: int|
                from <= k < entries.len() ==> (#[trigger] entries[k]).conn.id != id,
        },
    decreases entries.len() - from,
{
    if from < entries.len() && entries[from].conn.id != id {
        lemma_first_with_id(entries, id, from + 1);
    }
}

} // verus!
