//! What a segment does to the connections that a tracker knows.

use vstd::prelude::*;

use crate::config::EngineConfig;
use crate::conn::{Connection, EndpointPair};
use crate::endpoint::Endpoint;
use crate::segment::{Item, Segment, TcpFlags};
use crate::state::ConnState;
use crate::tracker::{Ledger, TrackModel, TrackerModel};

verus! {

/// The instance that `seg` makes of the one it joins or opens.
spec fn taken_in(tracker: TrackerModel, seg: Segment) -> TrackModel {
    match tracker.joined(seg) {
        Some(i) => {
            let track = tracker.conns[i];
            let dir = crate::tracker::direction_from(track.conn, seg.flow.source_spec());
            track.accounted(seg, dir).lifecycle(seg, dir)
        },
        None => {
            let track = tracker.newcomer(seg);
            let dir = crate::tracker::direction_from(track.conn, seg.flow.source_spec());
            if seg.flags.has(TcpFlags::FIN) {
                track.accounted(seg, dir).with_fin(dir)
            } else {
                track.accounted(seg, dir)
            }
        },
    }
}

/// One step, as far as lifecycle and counters go: one instance takes the segment in, all others
/// stay.
proof fn lemma_step_courses(tracker: TrackerModel, seg: Segment)
    ensures
        ({
            let next = tracker.after(Item::Segment(seg));
            let place = match tracker.joined(seg) {
                Some(i) => i,
                None => tracker.conns.len() as int,
            };
            &&& 0 <= place < next.conns.len()
            &&& tracker.joined(seg) is Some ==> next.conns.len() == tracker.conns.len()
                && tracker.conns[place].conn.id.pair == EndpointPair::of(
                seg.flow.source_spec(),
                seg.flow.destination_spec(),
            )
            &&& tracker.joined(seg) is None ==> next.conns.len() == tracker.conns.len() + 1
            &&& crate::passes::same_course(next.conns[place], taken_in(tracker, seg))
            &&& forall|k: int|
                0 <= k < tracker.conns.len() && k != place ==> crate::passes::same_course(
                    #[trigger] next.conns[k],
                    tracker.conns[k],
                )
        }),
{
    let aged = tracker.aged(seg.ts);
    let next = tracker.after(Item::Segment(seg));
    let cfg = tracker.config;
    crate::tracker::lemma_ageing_drops_samples_only(tracker, seg.ts);
    crate::tracker::lemma_ageing_keeps_room(tracker, seg.ts, Item::Segment(seg));
    crate::tracker::lemma_newest(
        tracker.pairs(),
        EndpointPair::of(seg.flow.source_spec(), seg.flow.destination_spec()),
    );
    match tracker.joined(seg) {
        Some(i) => {
            let (track, before) = (aged.conns[i], tracker.conns[i]);
            assert(crate::tracker::alike_but_for_samples(track, before));
            let dir = crate::tracker::direction_from(track.conn, seg.flow.source_spec());
            let ledger = Ledger {
                track: track.accounted(seg, dir).lifecycle(seg, dir),
                budget: aged.budget,
            };
            crate::passes::lemma_recording_keeps_course(ledger, seg, dir, cfg);
            crate::passes::lemma_recording_keeps_course(
                ledger.with_state(seg.ts, cfg),
                seg,
                dir,
                cfg,
            );
            crate::passes::lemma_accounting_keeps_course(track, before, seg, dir);
            assert forall|k: int|
                0 <= k < tracker.conns.len() && k != i implies crate::passes::same_course(
                #[trigger] next.conns[k],
                tracker.conns[k],
            ) by {
                assert(crate::tracker::alike_but_for_samples(aged.conns[k], tracker.conns[k]));
            }
        },
        None => {
            let track = aged.newcomer(seg);
            assert(track == tracker.newcomer(seg));
            let dir = crate::tracker::direction_from(track.conn, seg.flow.source_spec());
            let ledger = Ledger {
                track: if seg.flags.has(TcpFlags::FIN) {
                    track.accounted(seg, dir).with_fin(dir)
                } else {
                    track.accounted(seg, dir)
                },
                budget: aged.budget,
            };
            crate::passes::lemma_recording_keeps_course(ledger, seg, dir, cfg);
            crate::passes::lemma_recording_keeps_course(
                ledger.with_metrics(seg, dir, cfg),
                seg,
                dir,
                cfg,
            );
            assert forall|k: int|
                0 <= k < tracker.conns.len() implies crate::passes::same_course(
                #[trigger] next.conns[k],
                tracker.conns[k],
            ) by {
                assert(crate::tracker::alike_but_for_samples(aged.conns[k], tracker.conns[k]));
            }
        },
    }
}

/// A segment that joins a connection counts there and nowhere else: one segment more, its payload
/// on the side of its sender, and the time of last activity no earlier than its own. What the
/// connection was opened as stays, and so do all other connections.
pub proof fn law_a_segment_counts_where_it_joins(tracker: TrackerModel, seg: Segment, i: int)
    requires
        tracker.has_room(Item::Segment(seg)),
        tracker.joined(seg) == Some(i),
    ensures
        ({
            let next = tracker.after(Item::Segment(seg));
            let before = tracker.conns[i].conn;
            let after = next.conns[i].conn;
            let from_origin = seg.flow.src_ip == before.origin.ip && seg.flow.src_port
                == before.origin.port;
            &&& next.conns.len() == tracker.conns.len()
            &&& after.id == before.id
            &&& after.origin == before.origin
            &&& after.responder == before.responder
            &&& after.origin_inferred == before.origin_inferred
            &&& after.opened_at == before.opened_at
            &&& after.segments == before.segments + 1
            &&& after.bytes_o2r - before.bytes_o2r == (if from_origin {
                seg.payload_len as int
            } else {
                0
            })
            &&& after.bytes_r2o - before.bytes_r2o == (if from_origin {
                0
            } else {
                seg.payload_len as int
            })
            &&& after.last_at.0 >= before.last_at.0 && after.last_at.0 >= seg.ts.0
            &&& after.last_at == before.last_at || after.last_at == seg.ts
            &&& forall|k: int|
                0 <= k < tracker.conns.len() && k != i ==> (#[trigger] next.conns[k]).conn
                    == tracker.conns[k].conn
        }),
{
    lemma_step_courses(tracker, seg);
    reveal(TrackModel::accounted);
    reveal(TrackModel::lifecycle);
}

/// The state a connection is in after a segment, by the bits of the segment. A RST resets it for
/// good. Without FIN and RST only the handshake moves: a SYN-ACK answers a SYN, a SYN of the
/// responder crosses it, and the first acknowledgement or payload after that establishes the
/// connection; an established one stays so, a half-closed one stays half closed and a closed one
/// closed. A FIN of one side half-closes it, the FIN of the other side closes it.
pub proof fn law_bits_move_the_state(tracker: TrackerModel, seg: Segment, i: int)
    requires
        tracker.joined(seg) == Some(i),
    ensures
        ({
            let old = tracker.conns[i];
            let new = tracker.after(Item::Segment(seg)).conns[i];
            let from_origin = seg.flow.source_spec() == old.conn.origin;
            let syn = seg.flags.has(TcpFlags::SYN);
            let ack = seg.flags.has(TcpFlags::ACK);
            let fin = seg.flags.has(TcpFlags::FIN);
            let data = seg.payload_len > 0;
            if seg.flags.has(TcpFlags::RST) || old.conn.state == ConnState::Reset {
                &&& new.conn.state == ConnState::Reset
                &&& new.fin_o2r == old.fin_o2r
                &&& new.fin_r2o == old.fin_r2o
            } else if fin {
                &&& new.fin_o2r == (old.fin_o2r || from_origin)
                &&& new.fin_r2o == (old.fin_r2o || !from_origin)
                &&& new.conn.state == (if (new.fin_o2r && new.fin_r2o) || old.conn.state
                    == ConnState::Closed {
                    ConnState::Closed
                } else {
                    ConnState::FinWait
                })
            } else {
                &&& new.fin_o2r == old.fin_o2r
                &&& new.fin_r2o == old.fin_r2o
                &&& new.conn.state == (match old.conn.state {
                    ConnState::SynSent => if syn && ack {
                        ConnState::SynReceived
                    } else if syn && !from_origin && data {
                        ConnState::Established
                    } else if syn && !from_origin {
                        ConnState::SynReceived
                    } else {
                        ConnState::SynSent
                    },
                    ConnState::SynReceived => if ack || data {
                        ConnState::Established
                    } else {
                        ConnState::SynReceived
                    },
                    other => other,
                })
            }
        }),
{
    lemma_step_courses(tracker, seg);
    reveal(TrackModel::accounted);
    reveal(TrackModel::lifecycle);
}

/// The connection that a segment opens: its sender is the origin, unless a SYN-ACK shows that its
/// receiver is; only a SYN or a SYN-ACK shows that for certain. The state is what its bits tell,
/// and it counts as the first segment.
pub proof fn law_the_first_segment_tells_the_sides(tracker: TrackerModel, seg: Segment)
    requires
        tracker.has_room(Item::Segment(seg)),
        tracker.joined(seg) is None,
    ensures
        ({
            let next = tracker.after(Item::Segment(seg));
            let new = next.conns.last();
            let conn = new.conn;
            let syn = seg.flags.has(TcpFlags::SYN);
            let ack = seg.flags.has(TcpFlags::ACK);
            let rst = seg.flags.has(TcpFlags::RST);
            let fin = seg.flags.has(TcpFlags::FIN);
            let sender = Endpoint { ip: seg.flow.src_ip, port: seg.flow.src_port };
            let receiver = Endpoint { ip: seg.flow.dst_ip, port: seg.flow.dst_port };
            &&& next.conns.len() == tracker.conns.len() + 1
            &&& syn && ack ==> conn.origin == receiver && conn.responder == sender
            &&& !(syn && ack) ==> conn.origin == sender && conn.responder == receiver
            &&& conn.origin_inferred == !syn
            &&& conn.state == (if syn && !ack {
                ConnState::SynSent
            } else if syn {
                ConnState::SynReceived
            } else if rst {
                ConnState::Reset
            } else if fin {
                ConnState::FinWait
            } else {
                ConnState::Established
            })
            &&& conn.opened_at == seg.ts
            &&& conn.last_at == seg.ts
            &&& conn.segments == 1
            &&& conn.bytes_o2r + conn.bytes_r2o == seg.payload_len
            &&& sender != receiver ==> conn.bytes_o2r == (if syn && ack {
                0
            } else {
                seg.payload_len
            })
            &&& sender != receiver ==> new.fin_o2r == (fin && !(syn && ack))
            &&& sender != receiver ==> new.fin_r2o == (fin && syn && ack)
        }),
{
    lemma_step_courses(tracker, seg);
    reveal(TrackModel::accounted);
}

/// Which connection a segment joins: the one its endpoints opened last, whichever of the two sends.
/// It opens a further one where there is none, where it is a SYN without ACK on a connection that is
/// closed, reset or silent for longer than the configuration allows, and where its number lies too
/// far behind what its side of an established connection has sent.
pub proof fn law_segments_join_the_latest_connection_of_their_pair(
    tracker: TrackerModel,
    seg: Segment,
    i: int,
)
    requires
        0 <= i < tracker.conns.len(),
        ({
            let pair = tracker.conns[i].conn.id.pair;
            let sender = seg.flow.source_spec();
            let receiver = seg.flow.destination_spec();
            ||| pair.low == sender && pair.high == receiver
            ||| pair.low == receiver && pair.high == sender
        }),
        !tracker.conns[i].conn.id.pair.high.before(tracker.conns[i].conn.id.pair.low),
        forall|k: int|
            i < k < tracker.conns.len() ==> (#[trigger] tracker.conns[k]).conn.id.pair
                != tracker.conns[i].conn.id.pair,
    ensures
        ({
            let track = tracker.conns[i];
            let silent = seg.ts.0 - track.conn.last_at.0;
            let bare = seg.flags.has(TcpFlags::SYN) && !seg.flags.has(TcpFlags::ACK);
            let base = if seg.flow.source_spec() == track.conn.origin {
                track.base_o2r
            } else {
                track.base_r2o
            };
            let fresh = if bare {
                track.conn.state == ConnState::Closed || track.conn.state == ConnState::Reset
                    || silent > tracker.config.dead_after.0
            } else {
                &&& track.conn.state == ConnState::Established
                &&& base matches Some(b) && crate::tracker::backward_reset(
                    b,
                    seg.seq,
                    tracker.config.reset_threshold,
                )
            };
            tracker.joined(seg) == (if fresh {
                None
            } else {
                Some(i)
            })
        }),
{
    let (sender, receiver) = (seg.flow.source_spec(), seg.flow.destination_spec());
    let pair = EndpointPair::of(sender, receiver);
    crate::conn::law_both_directions_share_a_pair(sender, receiver);
    crate::endpoint::law_endpoints_are_totally_ordered(sender, receiver, sender);
    assert(pair == tracker.conns[i].conn.id.pair);
    lemma_newest_is_last(tracker.pairs(), pair, i);
}

proof fn lemma_newest_is_last(pairs: Seq<EndpointPair>, pair: EndpointPair, i: int)
    requires
        0 <= i < pairs.len(),
        pairs[i] == pair,
        forall|k: int| i < k < pairs.len() ==> #[trigger] pairs[k] != pair,
    ensures
        crate::tracker::newest(pairs, pair) == Some(i),
    decreases pairs.len(),
{
    if i < pairs.len() - 1 {
        assert(pairs[pairs.len() - 1] != pair);
        lemma_newest_is_last(pairs.drop_last(), pair, i);
    }
}

/// A segment between endpoints that no connection has opens one.
pub proof fn law_new_endpoints_open_a_connection(tracker: TrackerModel, seg: Segment)
    requires
        forall|k: int|
            0 <= k < tracker.conns.len() ==> {
                let pair = (#[trigger] tracker.conns[k]).conn.id.pair;
                let sender = seg.flow.source_spec();
                let receiver = seg.flow.destination_spec();
                &&& !(pair.low == sender && pair.high == receiver)
                &&& !(pair.low == receiver && pair.high == sender)
            },
    ensures
        tracker.joined(seg) is None,
        tracker.next_instance(seg) == 0,
{
    let (sender, receiver) = (seg.flow.source_spec(), seg.flow.destination_spec());
    let pair = EndpointPair::of(sender, receiver);
    crate::conn::law_both_directions_share_a_pair(sender, receiver);
    crate::tracker::lemma_newest(tracker.pairs(), pair);
    if let Some(k) = crate::tracker::newest(tracker.pairs(), pair) {
        assert(tracker.conns[k].conn.id.pair == pair);
    }
}

/// The item at place `j` is a FIN from `from` to `to`.
pub open spec fn is_fin_from(items: Seq<Item>, j: int, from: Endpoint, to: Endpoint) -> bool {
    &&& 0 <= j < items.len()
    &&& items[j] matches Item::Segment(seg) && seg.flags.has(TcpFlags::FIN)
        && seg.flow.source_spec() == from && seg.flow.destination_spec() == to
}

/// The two sides of the connection are those of its pair.
spec fn sides_fit(conn: Connection) -> bool {
    conn.id.pair == EndpointPair::of(conn.origin, conn.responder)
}

/// What the FINs of a connection stand for.
spec fn fins_seen(track: TrackModel, items: Seq<Item>) -> bool {
    let conn = track.conn;
    &&& sides_fit(conn)
    &&& conn.state == ConnState::Closed ==> track.fin_o2r && track.fin_r2o
    &&& track.fin_o2r ==> exists|j: int| is_fin_from(items, j, conn.origin, conn.responder)
    &&& track.fin_r2o ==> exists|j: int| is_fin_from(items, j, conn.responder, conn.origin)
}

proof fn lemma_fins_stay_seen(a: TrackModel, b: TrackModel, items: Seq<Item>, more: Item)
    requires
        crate::passes::same_course(a, b),
        fins_seen(b, items),
    ensures
        fins_seen(a, items.push(more)),
{
    let conn = b.conn;
    let all = items.push(more);
    if b.fin_o2r {
        let j = choose|j: int| is_fin_from(items, j, conn.origin, conn.responder);
        assert(is_fin_from(all, j, conn.origin, conn.responder));
    }
    if b.fin_r2o {
        let j = choose|j: int| is_fin_from(items, j, conn.responder, conn.origin);
        assert(is_fin_from(all, j, conn.responder, conn.origin));
    }
}

proof fn lemma_taking_in_sees_fins(tracker: TrackerModel, seg: Segment, items: Seq<Item>)
    requires
        tracker.joined(seg) matches Some(i) ==> fins_seen(tracker.conns[i], items),
    ensures
        fins_seen(taken_in(tracker, seg), items.push(Item::Segment(seg))),
{
    reveal(TrackModel::accounted);
    reveal(TrackModel::lifecycle);
    let all = items.push(Item::Segment(seg));
    let last = items.len() as int;
    let (sender, receiver) = (seg.flow.source_spec(), seg.flow.destination_spec());
    let pair = EndpointPair::of(sender, receiver);
    crate::conn::law_both_directions_share_a_pair(sender, receiver);
    crate::tracker::lemma_newest(tracker.pairs(), pair);
    let after = taken_in(tracker, seg);
    let conn = after.conn;
    if let Some(i) = tracker.joined(seg) {
        let before = tracker.conns[i];
        crate::conn::law_both_directions_share_a_pair(conn.origin, conn.responder);
        lemma_fins_stay_seen(before, before, items, Item::Segment(seg));
    }
    if seg.flags.has(TcpFlags::FIN) {
        assert(is_fin_from(all, last, sender, receiver));
    }
}

/// A connection is closed only once both of its sides have sent a FIN: where a run of the tracker
/// ends with a closed connection, the items hold a FIN of its origin and a FIN of its responder.
pub proof fn law_closed_only_after_both_fins(config: EngineConfig, items: Seq<Item>, i: int)
    requires
        0 <= i < TrackerModel::fresh(config).after_all(items).conns.len(),
        TrackerModel::fresh(config).after_all(items).conns[i].conn.state == ConnState::Closed,
    ensures
        ({
            let conn = TrackerModel::fresh(config).after_all(items).conns[i].conn;
            &&& exists|j: int| is_fin_from(items, j, conn.origin, conn.responder)
            &&& exists|j: int| is_fin_from(items, j, conn.responder, conn.origin)
        }),
{
    lemma_run_sees_fins(config, items);
    assert(fins_seen(TrackerModel::fresh(config).after_all(items).conns[i], items));
}

proof fn lemma_run_sees_fins(config: EngineConfig, items: Seq<Item>)
    ensures
        forall|i: int|
            0 <= i < TrackerModel::fresh(config).after_all(items).conns.len() ==> fins_seen(
                #[trigger] TrackerModel::fresh(config).after_all(items).conns[i],
                items,
            ),
    decreases items.len(),
{
    if items.len() > 0 {
        let rest = items.drop_last();
        let before = TrackerModel::fresh(config).after_all(rest);
        let next = before.after(items.last());
        lemma_run_sees_fins(config, rest);
        assert(rest.push(items.last()) =~= items);
        match items.last() {
            Item::Tick(t) => {
                crate::tracker::lemma_ageing_drops_samples_only(before, t);
                assert forall|i: int| 0 <= i < next.conns.len() implies fins_seen(
                    #[trigger] next.conns[i],
                    items,
                ) by {
                    assert(crate::tracker::alike_but_for_samples(next.conns[i], before.conns[i]));
                    lemma_fins_stay_seen(next.conns[i], before.conns[i], rest, items.last());
                }
            },
            Item::Segment(seg) => {
                lemma_step_courses(before, seg);
                lemma_taking_in_sees_fins(before, seg, rest);
                let place = match before.joined(seg) {
                    Some(i) => i,
                    None => before.conns.len() as int,
                };
                assert forall|i: int| 0 <= i < next.conns.len() implies fins_seen(
                    #[trigger] next.conns[i],
                    items,
                ) by {
                    if i != place {
                        lemma_fins_stay_seen(next.conns[i], before.conns[i], rest, items.last());
                    }
                }
            },
        }
    }
}

/// What a connection remembers of the numbers that its sides sent: for each side the furthest one.
/// A segment moves the number of its sender alone, and only forward.
pub proof fn law_each_side_remembers_its_furthest_number(
    tracker: TrackerModel,
    seg: Segment,
    i: int,
)
    requires
        tracker.joined(seg) == Some(i),
    ensures
        ({
            let old = tracker.conns[i];
            let new = tracker.after(Item::Segment(seg)).conns[i];
            let from_origin = seg.flow.source_spec() == old.conn.origin;
            let (before, after) = if from_origin {
                (old.base_o2r, new.base_o2r)
            } else {
                (old.base_r2o, new.base_r2o)
            };
            &&& from_origin ==> new.base_r2o == old.base_r2o
            &&& !from_origin ==> new.base_o2r == old.base_o2r
            &&& before is None ==> after == Some(seg.seq)
            &&& before matches Some(b) ==> after == (if crate::seq::precedes(seg.seq, b) {
                Some(b)
            } else {
                Some(seg.seq)
            })
        }),
{
    lemma_step_courses(tracker, seg);
    reveal(TrackModel::accounted);
    reveal(TrackModel::lifecycle);
}

/// A connection that a segment opens remembers the number of that segment for its sender, and none
/// for the other side.
pub proof fn law_the_first_number_is_remembered(tracker: TrackerModel, seg: Segment)
    requires
        tracker.joined(seg) is None,
        seg.flow.source_spec() != seg.flow.destination_spec(),
    ensures
        ({
            let new = tracker.after(Item::Segment(seg)).conns.last();
            let from_origin = seg.flow.source_spec() == new.conn.origin;
            &&& from_origin ==> new.base_o2r == Some(seg.seq) && new.base_r2o is None
            &&& !from_origin ==> new.base_r2o == Some(seg.seq) && new.base_o2r is None
        }),
{
    lemma_step_courses(tracker, seg);
    reveal(TrackModel::accounted);
}

} // verus!
