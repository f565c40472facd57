//! What the metrics of a connection say of the segments that went both ways.
//!
//! Sequence numbers are read as places on a line here: each number that counts for one direction is
//! `base` and so many bytes, before or behind it, where `base` is the first number that the
//! direction sent. As long as all places lie within half the sequence space of each other, the
//! numbers compare like their places.

use vstd::prelude::*;

use crate::config::EngineConfig;
use crate::conn::Direction;
use crate::metrics::{DirModel, MetricModel};
use crate::segment::{Segment, TcpFlags};
use crate::seq::{TcpSeq, HALF};
use crate::time::Nanos;

verus! {

/// Segments and the direction of each, in the order in which they were seen.
pub type Exchange = Seq<(Segment, Direction)>;

/// The metrics after the first `n` of `events`, from `start` on.
pub open spec fn heard(start: MetricModel, events: Exchange, n: int, cfg: EngineConfig) -> MetricModel
    decreases n,
{
    if n <= 0 {
        start
    } else {
        heard(start, events, n - 1, cfg).after(events[n - 1].0, events[n - 1].1, cfg)
    }
}

/// How many places `seg` takes on the line: its payload, and one each for SYN and FIN.
pub open spec fn span(seg: Segment) -> int {
    seg.payload_len + (if seg.flags.has(TcpFlags::SYN) {
        1int
    } else {
        0
    }) + (if seg.flags.has(TcpFlags::FIN) {
        1int
    } else {
        0
    })
}

/// The event at `k` was sent in direction `d`.
pub open spec fn sent(events: Exchange, d: Direction, k: int) -> bool {
    0 <= k < events.len() && events[k].1 == d
}

/// The event at `k` acknowledges direction `d`.
pub open spec fn acks(events: Exchange, d: Direction, k: int) -> bool {
    0 <= k < events.len() && events[k].1 != d && events[k].0.flags.has(TcpFlags::ACK)
}

/// The exchange starts with the first segment of direction `d`, and `places` gives the place of each
/// number that counts for that direction: of the first byte of what was sent in it, and of each
/// acknowledgement of it. The first number sent is at zero, and all lie within half the sequence
/// space from `low` on.
pub open spec fn placed(
    events: Exchange,
    d: Direction,
    base: TcpSeq,
    places: Seq<int>,
    low: int,
) -> bool {
    &&& places.len() == events.len() > 0
    &&& events[0].1 == d
    &&& places[0] == 0
    &&& low <= 0
    &&& forall|k: int| #[trigger]
        sent(events, d, k) ==> {
            &&& events[k].0.seq == crate::seq::advanced(base, places[k])
            &&& low <= places[k] && places[k] + span(events[k].0) < low + HALF
        }
    &&& forall|k: int| #[trigger]
        acks(events, d, k) ==> {
            &&& events[k].0.ack == crate::seq::advanced(base, places[k])
            &&& low <= places[k] < low + HALF
        }
}

/// Places within half the sequence space compare like their numbers.
proof fn lemma_places_compare(base: TcpSeq, a: int, b: int)
    requires
        -HALF < b - a < HALF,
    ensures
        crate::seq::precedes(crate::seq::advanced(base, a), crate::seq::advanced(base, b)) <==> a
            < b,
        crate::seq::advanced(base, a) == crate::seq::advanced(base, b) <==> a == b,
        a <= b ==> crate::seq::forward_distance(
            crate::seq::advanced(base, a),
            crate::seq::advanced(base, b),
        ) == b - a,
{
    let m = 0x1_0000_0000int;
    let x = (base.0 + a) % m;
    let y = (base.0 + b) % m;
    assert((y - x) % m == (b - a) % m);
    if a <= b {
        assert((b - a) % m == b - a);
    } else {
        assert((b - a) % m == b - a + m);
    }
}

/// The end of `seg` lies its span behind its first byte.
proof fn lemma_end_place(base: TcpSeq, seg: Segment, place: int)
    requires
        seg.seq == crate::seq::advanced(base, place),
    ensures
        seg.end() == crate::seq::advanced(base, place + span(seg)),
{
}

/// `far` is the furthest end of what the first `n` events sent in `d`.
pub open spec fn furthest_end(
    events: Exchange,
    d: Direction,
    places: Seq<int>,
    n: int,
    far: int,
) -> bool {
    &&& forall|k: int| #[trigger]
        sent(events, d, k) && k < n ==> places[k] + span(events[k].0) <= far
    &&& exists|k: int| #[trigger]
        sent(events, d, k) && k < n && places[k] + span(events[k].0) == far
}

/// `edge` is the furthest place of direction `d` that the first `n` events acknowledged; its first
/// number where none further was.
pub open spec fn acknowledged_edge(
    events: Exchange,
    d: Direction,
    places: Seq<int>,
    n: int,
    edge: int,
) -> bool {
    &&& edge >= 0
    &&& forall|k: int| #[trigger] acks(events, d, k) && k < n ==> places[k] <= edge
    &&& edge == 0 || exists|k: int| #[trigger] acks(events, d, k) && k < n && places[k] == edge
}

/// The state of a direction holds the furthest end and the furthest acknowledgement.
proof fn lemma_edges(
    start: MetricModel,
    events: Exchange,
    d: Direction,
    base: TcpSeq,
    places: Seq<int>,
    low: int,
    n: int,
    cfg: EngineConfig,
) -> (res: (int, int))
    requires
        start.of(d) == DirModel::silent(),
        placed(events, d, base, places, low),
        0 < n <= events.len(),
    ensures
        ({
            let own = heard(start, events, n, cfg).of(d);
            &&& own.snd_nxt == Some(crate::seq::advanced(base, res.0))
            &&& own.acked == Some(crate::seq::advanced(base, res.1))
            &&& furthest_end(events, d, places, n, res.0)
            &&& acknowledged_edge(events, d, places, n, res.1)
            &&& low <= res.0 < low + HALF
            &&& low <= res.1 < low + HALF
        }),
    decreases n,
{
    let last = n - 1;
    let (seg, dir) = events[last];
    let place = places[last];
    let before = heard(start, events, last, cfg).of(d);
    let own = heard(start, events, n, cfg).of(d);
    if last == 0 {
        assert(sent(events, d, 0));
        lemma_end_place(base, seg, 0);
        assert(heard(start, events, 0, cfg) == start);
        assert(own == crate::metrics::after_sending(before, seg, cfg));
        assert(crate::seq::advanced(base, 0) == seg.seq);
        (span(seg), 0)
    } else {
        let (far, edge) = lemma_edges(start, events, d, base, places, low, last, cfg);
        let w = choose|k: int| #[trigger]
            sent(events, d, k) && k < last && places[k] + span(events[k].0) == far;
        if dir == d {
            assert(sent(events, d, last));
            let end = place + span(seg);
            lemma_end_place(base, seg, place);
            assert(own == crate::metrics::after_sending(before, seg, cfg));
            lemma_places_compare(base, end, far);
            assert(sent(events, d, w));
            (
                if end >= far {
                    end
                } else {
                    far
                },
                edge,
            )
        } else {
            assert(dir == d.reverse());
            assert(own == crate::metrics::after_acking(before, seg));
            assert(sent(events, d, w));
            if seg.flags.has(TcpFlags::ACK) {
                assert(acks(events, d, last));
                lemma_places_compare(base, edge, place);
                (
                    far,
                    if place > edge {
                        place
                    } else {
                        edge
                    },
                )
            } else {
                (far, edge)
            }
        }
    }
}

/// Before a direction sends, nothing that the other sends touches its state.
pub proof fn law_a_silent_direction_stays_silent(
    events: Exchange,
    d: Direction,
    n: int,
    cfg: EngineConfig,
)
    requires
        0 <= n <= events.len(),
        forall|k: int| 0 <= k < n ==> !#[trigger] sent(events, d, k),
    ensures
        heard(MetricModel::fresh(), events, n, cfg).of(d) == DirModel::silent(),
        heard(MetricModel::fresh(), events, n, cfg).of(d).outstanding() is None,
    decreases n,
{
    if n > 0 {
        law_a_silent_direction_stays_silent(events, d, n - 1, cfg);
        assert(!sent(events, d, n - 1));
        assert(events[n - 1].1 == d.reverse());
    }
}

/// The bytes in flight are those from the furthest acknowledged place to the furthest end sent, in
/// whatever order segments and acknowledgements came, and zero where the acknowledgements are
/// ahead. In particular sending bytes again, or any segment that ends before the furthest end,
/// leaves the number as it was. The sample of a segment carries the number that holds with it.
pub proof fn law_in_flight_reaches_from_the_ack_to_the_furthest_end(
    start: MetricModel,
    events: Exchange,
    d: Direction,
    base: TcpSeq,
    places: Seq<int>,
    low: int,
    n: int,
    far: int,
    edge: int,
    cfg: EngineConfig,
)
    requires
        start.of(d) == DirModel::silent(),
        placed(events, d, base, places, low),
        0 < n <= events.len(),
        furthest_end(events, d, places, n, far),
        acknowledged_edge(events, d, places, n, edge),
    ensures
        heard(start, events, n, cfg).of(d).outstanding() == Some(
            if far >= edge {
                (far - edge) as u64
            } else {
                0
            },
        ),
        events[n - 1].1 == d ==> heard(start, events, n - 1, cfg).sample(
            events[n - 1].0,
            d,
            cfg,
        ).in_flight_bytes == (if far >= edge {
            far - edge
        } else {
            0
        }),
{
    let (f, e) = lemma_edges(start, events, d, base, places, low, n, cfg);
    assert(f == far);
    assert(e == edge);
    lemma_places_compare(base, edge, far);
    if events[n - 1].1 == d {
        assert(heard(start, events, n, cfg).of(d) == crate::metrics::after_sending(
            heard(start, events, n - 1, cfg).of(d),
            events[n - 1].0,
            cfg,
        ));
    }
}

/// Whatever was sent and acknowledged before, a segment whose end is not ahead of the furthest byte
/// sent leaves the bytes in flight of its direction as they were.
pub proof fn law_sending_old_bytes_leaves_the_flight(own: DirModel, seg: Segment, cfg: EngineConfig)
    requires
        own.snd_nxt matches Some(far) && (seg.end() == far || crate::seq::precedes(seg.end(), far)),
        own.acked is Some,
    ensures
        crate::metrics::after_sending(own, seg, cfg).outstanding() == own.outstanding(),
{
}

/// The event at `k` sent payload in direction `d`.
pub open spec fn sent_data(events: Exchange, d: Direction, k: int) -> bool {
    sent(events, d, k) && events[k].0.payload_len > 0
}

/// The state of a direction holds the furthest end of payload and when payload was last sent.
proof fn lemma_data_edge(
    start: MetricModel,
    events: Exchange,
    d: Direction,
    base: TcpSeq,
    places: Seq<int>,
    low: int,
    n: int,
    cfg: EngineConfig,
) -> (res: Option<(int, int)>)
    requires
        start.of(d) == DirModel::silent(),
        placed(events, d, base, places, low),
        0 <= n <= events.len(),
    ensures
        ({
            let own = heard(start, events, n, cfg).of(d);
            match res {
                None => {
                    &&& own.frontier is None
                    &&& own.last_data_ts is None
                    &&& forall|k: int| 0 <= k < n ==> !#[trigger] sent_data(events, d, k)
                },
                Some((reach, prev)) => {
                    &&& own.frontier == Some(crate::seq::advanced(base, reach))
                    &&& own.last_data_ts == Some(events[prev].0.ts)
                    &&& low <= reach < low + HALF
                    &&& forall|k: int| #[trigger]
                        sent_data(events, d, k) && k < n ==> places[k] + span(events[k].0) <= reach
                            && k <= prev
                    &&& exists|k: int| #[trigger]
                        sent_data(events, d, k) && k < n && places[k] + span(events[k].0) == reach
                    &&& sent_data(events, d, prev) && prev < n
                },
            }
        }),
    decreases n,
{
    if n == 0 {
        None
    } else {
        let last = n - 1;
        let (seg, dir) = events[last];
        let place = places[last];
        let before = heard(start, events, last, cfg).of(d);
        let own = heard(start, events, n, cfg).of(d);
        let res = lemma_data_edge(start, events, d, base, places, low, last, cfg);
        if dir == d {
            assert(sent(events, d, last));
            assert(own == crate::metrics::after_sending(before, seg, cfg));
            if seg.payload_len > 0 {
                assert(sent_data(events, d, last));
                let end = place + span(seg);
                lemma_end_place(base, seg, place);
                match res {
                    None => Some((end, last)),
                    Some((reach, _)) => {
                        lemma_places_compare(base, end, reach);
                        let w = choose|k: int| #[trigger]
                            sent_data(events, d, k) && k < last && places[k] + span(events[k].0)
                                == reach;
                        assert(sent_data(events, d, w));
                        Some(
                            (
                                if end >= reach {
                                    end
                                } else {
                                    reach
                                },
                                last,
                            ),
                        )
                    },
                }
            } else {
                assert(!sent_data(events, d, last));
                res
            }
        } else {
            assert(dir == d.reverse());
            assert(!sent_data(events, d, last));
            assert(own.frontier == before.frontier && own.last_data_ts == before.last_data_ts);
            res
        }
    }
}

/// Payload is late exactly if payload sent before it in its direction reaches past its first byte.
/// Late payload is out of order if it follows the payload sent last within the reorder window, and
/// a retransmission if it does not; anything else is neither.
pub proof fn law_late_payload_is_reordered_or_sent_again(
    start: MetricModel,
    events: Exchange,
    d: Direction,
    base: TcpSeq,
    places: Seq<int>,
    low: int,
    n: int,
    prev: int,
    cfg: EngineConfig,
)
    requires
        start.of(d) == DirModel::silent(),
        placed(events, d, base, places, low),
        sent(events, d, n),
        (sent_data(events, d, prev) && prev < n) || (forall|k: int|
            0 <= k < n ==> !#[trigger] sent_data(events, d, k)),
        forall|k: int| prev < k < n ==> !#[trigger] sent_data(events, d, k),
    ensures
        ({
            let seg = events[n].0;
            let sample = heard(start, events, n, cfg).sample(seg, d, cfg);
            let late = seg.payload_len > 0 && exists|k: int| #[trigger]
                sent_data(events, d, k) && k < n && places[n] < places[k] + span(events[k].0);
            let soon = seg.ts.0 - events[prev].0.ts.0 < cfg.reorder_window.0
                && cfg.reorder_window.0 > 0;
            &&& sample.out_of_order == (late && soon)
            &&& sample.retransmit == (late && !soon)
        }),
{
    let seg = events[n].0;
    match lemma_data_edge(start, events, d, base, places, low, n, cfg) {
        None => {
            assert forall|k: int| !(#[trigger] sent_data(events, d, k) && k < n && places[n]
                < places[k] + span(events[k].0)) by {}
        },
        Some((reach, newest)) => {
            let w = choose|k: int| #[trigger]
                sent_data(events, d, k) && k < n && places[k] + span(events[k].0) == reach;
            assert(sent_data(events, d, newest));
            assert(newest == prev);
            assert(sent(events, d, w));
            lemma_places_compare(base, places[n], reach);
            assert(sent_data(events, d, w));
        },
    }
}

/// An acknowledgement that moves the acknowledged number of a direction forward forgets exactly the
/// sends that it covers, from the oldest on: what is left starts with a send whose end lies past
/// the acknowledged number, and stays as it was. It gives the time since the oldest send it covers,
/// and no time where it covers none. Any other segment forgets nothing and gives no time.
pub proof fn law_an_ack_forgets_what_it_covers(peer: DirModel, seg: Segment) -> (covered: int)
    ensures
        ({
            let moves = seg.flags.has(TcpFlags::ACK) && peer.snd_nxt is Some && (peer.acked
                matches Some(edge) ==> crate::seq::precedes(edge, seg.ack));
            let after = crate::metrics::after_acking(peer, seg);
            &&& 0 <= covered <= peer.pending.len()
            &&& after.pending == peer.pending.subrange(covered, peer.pending.len() as int)
            &&& after.acked == (if moves {
                Some(seg.ack)
            } else {
                peer.acked
            })
            &&& after == (DirModel { pending: after.pending, acked: after.acked, ..peer })
            &&& !moves ==> covered == 0
            &&& forall|a: int|
                0 <= a < covered ==> (#[trigger] peer.pending[a]).0 == seg.ack
                    || crate::seq::precedes(peer.pending[a].0, seg.ack)
            &&& moves && covered < peer.pending.len() ==> peer.pending[covered].0 != seg.ack
                && !crate::seq::precedes(peer.pending[covered].0, seg.ack)
            &&& crate::metrics::round_trip(peer, seg) == (if covered == 0 {
                None
            } else if seg.ts.0 >= peer.pending[0].1.0 {
                Some(Nanos((seg.ts.0 - peer.pending[0].1.0) as u64))
            } else {
                Some(Nanos(0))
            })
        }),
{
    if crate::metrics::ack_advances(peer, seg) {
        lemma_covered_front(peer.pending, seg.ack);
        let covered = crate::metrics::acknowledged(peer.pending, seg.ack) as int;
        assert(peer.pending.skip(covered) =~= peer.pending.subrange(
            covered,
            peer.pending.len() as int,
        ));
        covered
    } else {
        assert(peer.pending =~= peer.pending.subrange(0, peer.pending.len() as int));
        0
    }
}

proof fn lemma_covered_front(pending: Seq<(TcpSeq, Nanos)>, ack: TcpSeq)
    ensures
        ({
            let covered = crate::metrics::acknowledged(pending, ack);
            &&& covered <= pending.len()
            &&& forall|a: int|
                0 <= a < covered ==> crate::seq::precedes_or_equal(
                    (#[trigger] pending[a]).0,
                    ack,
                )
            &&& covered < pending.len() ==> !crate::seq::precedes_or_equal(
                pending[covered as int].0,
                ack,
            )
        }),
    decreases pending.len(),
{
    if pending.len() > 0 && crate::seq::precedes_or_equal(pending[0].0, ack) {
        let rest = pending.drop_first();
        lemma_covered_front(rest, ack);
        assert forall|a: int|
            0 <= a < crate::metrics::acknowledged(pending, ack) implies crate::seq::precedes_or_equal(
            (#[trigger] pending[a]).0,
            ack,
        ) by {
            if a > 0 {
                assert(rest[a - 1] == pending[a]);
            }
        }
    }
}

/// The event at `k` takes up places in direction `d`, so that it will be acknowledged.
pub open spec fn takes_places(events: Exchange, d: Direction, k: int) -> bool {
    sent(events, d, k) && span(events[k].0) > 0
}

/// Direction `d` sends its bytes in order and each once, from its first number on, and is
/// acknowledged only what it sent before.
pub open spec fn in_order(events: Exchange, d: Direction, places: Seq<int>) -> bool {
    &&& forall|k: int| #[trigger] takes_places(events, d, k) ==> places[k] >= 0
    &&& forall|j: int, k: int|
        j < k && #[trigger] takes_places(events, d, j) && #[trigger] takes_places(events, d, k)
            ==> places[j] + span(events[j].0) <= places[k]
    &&& forall|k: int| #[trigger]
        acks(events, d, k) ==> places[k] <= 0 || exists|j: int| #[trigger]
            takes_places(events, d, j) && j < k && places[k] <= places[j] + span(events[j].0)
}

/// `waiting` lists, in order, the events before `n` whose end lies past `edge`, and `pending` holds
/// the end and time of each.
spec fn waits(
    events: Exchange,
    d: Direction,
    base: TcpSeq,
    places: Seq<int>,
    n: int,
    edge: int,
    waiting: Seq<int>,
    pending: Seq<(TcpSeq, Nanos)>,
) -> bool {
    &&& pending.len() == waiting.len()
    &&& forall|a: int|
        0 <= a < waiting.len() ==> {
            let k = #[trigger] waiting[a];
            &&& takes_places(events, d, k) && k < n
            &&& edge < places[k] + span(events[k].0)
            &&& pending[a] == (
                crate::seq::advanced(base, places[k] + span(events[k].0)),
                events[k].0.ts,
            )
        }
    &&& forall|a: int, b: int|
        0 <= a < b < waiting.len() ==> (#[trigger] waiting[a]) < (#[trigger] waiting[b])
    &&& forall|k: int| #[trigger]
        takes_places(events, d, k) && k < n && edge < places[k] + span(events[k].0)
            ==> waiting.contains(k)
}

proof fn lemma_waiting(
    start: MetricModel,
    events: Exchange,
    d: Direction,
    base: TcpSeq,
    places: Seq<int>,
    low: int,
    n: int,
    edge: int,
    cfg: EngineConfig,
) -> (waiting: Seq<int>)
    requires
        start.of(d) == DirModel::silent(),
        placed(events, d, base, places, low),
        in_order(events, d, places),
        0 < n <= events.len(),
        acknowledged_edge(events, d, places, n, edge),
    ensures
        waits(
            events,
            d,
            base,
            places,
            n,
            edge,
            waiting,
            heard(start, events, n, cfg).of(d).pending,
        ),
        heard(start, events, n, cfg).of(d).acked == Some(crate::seq::advanced(base, edge)),
        heard(start, events, n, cfg).of(d).snd_nxt is Some,
    decreases n,
{
    let last = n - 1;
    let (seg, dir) = events[last];
    let place = places[last];
    let before = heard(start, events, last, cfg).of(d);
    let own = heard(start, events, n, cfg).of(d);
    let (_, e) = lemma_edges(start, events, d, base, places, low, n, cfg);
    assert(e == edge);
    if dir == d {
        assert(sent(events, d, last));
        assert(own == crate::metrics::after_sending(before, seg, cfg));
        assert(acknowledged_edge(events, d, places, last, edge)) by {
            assert forall|k: int| #[trigger] acks(events, d, k) && k < n implies k < last by {}
        }
        let front = if last == 0 {
            assert(heard(start, events, 0, cfg) == start);
            Seq::<int>::empty()
        } else {
            lemma_waiting(start, events, d, base, places, low, last, edge, cfg)
        };
        lemma_in_order_is_never_late(start, events, d, base, places, low, last, cfg);
        let end = place + span(seg);
        lemma_end_place(base, seg, place);
        if span(seg) > 0 {
            assert(takes_places(events, d, last));
            lemma_edge_is_behind(events, d, places, last, edge);
            assert(own.pending == before.pending.push((seg.end(), seg.ts)));
            let waiting = front.push(last);
            assert forall|k: int| #[trigger]
                takes_places(events, d, k) && k < n && edge < places[k] + span(
                    events[k].0,
                ) implies waiting.contains(k) by {
                if k < last {
                    assert(front.contains(k));
                    let a = choose|a: int| 0 <= a < front.len() && front[a] == k;
                    assert(waiting[a] == k);
                } else {
                    assert(waiting[front.len() as int] == k);
                }
            }
            waiting
        } else {
            assert(!takes_places(events, d, last));
            assert(own.pending == before.pending);
            front
        }
    } else {
        assert(dir == d.reverse());
        assert(!takes_places(events, d, last));
        assert(own == crate::metrics::after_acking(before, seg));
        let (_, old_edge) = lemma_edges(start, events, d, base, places, low, last, cfg);
        let front = lemma_waiting(start, events, d, base, places, low, last, old_edge, cfg);
        if seg.flags.has(TcpFlags::ACK) {
            assert(acks(events, d, last));
            lemma_places_compare(base, old_edge, place);
            let covered = law_an_ack_forgets_what_it_covers(before, seg);
            assert(edge == if place > old_edge {
                place
            } else {
                old_edge
            });
            if place > old_edge {
                lemma_covered_sends(
                    events,
                    d,
                    base,
                    places,
                    low,
                    last,
                    old_edge,
                    front,
                    before.pending,
                    place,
                    covered,
                );
                let waiting = front.subrange(covered, front.len() as int);
                assert forall|k: int| #[trigger]
                    takes_places(events, d, k) && k < n && edge < places[k] + span(
                        events[k].0,
                    ) implies waiting.contains(k) by {
                    assert(front.contains(k));
                    let a = choose|a: int| 0 <= a < front.len() && front[a] == k;
                    assert(a >= covered);
                    assert(waiting[a - covered] == k);
                }
                waiting
            } else {
                assert(own.pending =~= before.pending);
                front
            }
        } else {
            let covered = law_an_ack_forgets_what_it_covers(before, seg);
            assert(own.pending =~= before.pending);
            assert(old_edge == edge);
            front
        }
    }
}

/// Bytes that are sent in order are never late.
proof fn lemma_in_order_is_never_late(
    start: MetricModel,
    events: Exchange,
    d: Direction,
    base: TcpSeq,
    places: Seq<int>,
    low: int,
    n: int,
    cfg: EngineConfig,
)
    requires
        start.of(d) == DirModel::silent(),
        placed(events, d, base, places, low),
        in_order(events, d, places),
        sent(events, d, n),
    ensures
        !crate::metrics::behind_frontier(heard(start, events, n, cfg).of(d), events[n].0),
{
    if events[n].0.payload_len > 0 {
        assert(takes_places(events, d, n));
        if let Some((reach, _)) = lemma_data_edge(start, events, d, base, places, low, n, cfg) {
            let w = choose|k: int| #[trigger]
                sent_data(events, d, k) && k < n && places[k] + span(events[k].0) == reach;
            assert(takes_places(events, d, w));
            lemma_places_compare(base, places[n], reach);
        }
    }
}

/// The sends that an acknowledgement of `place` covers are those that end there or before.
proof fn lemma_covered_sends(
    events: Exchange,
    d: Direction,
    base: TcpSeq,
    places: Seq<int>,
    low: int,
    n: int,
    edge: int,
    waiting: Seq<int>,
    pending: Seq<(TcpSeq, Nanos)>,
    place: int,
    covered: int,
)
    requires
        placed(events, d, base, places, low),
        in_order(events, d, places),
        waits(events, d, base, places, n, edge, waiting, pending),
        low <= place < low + HALF,
        0 <= covered <= pending.len(),
        forall|a: int|
            0 <= a < covered ==> (#[trigger] pending[a]).0 == crate::seq::advanced(base, place)
                || crate::seq::precedes(pending[a].0, crate::seq::advanced(base, place)),
        covered < pending.len() ==> pending[covered].0 != crate::seq::advanced(base, place)
            && !crate::seq::precedes(pending[covered].0, crate::seq::advanced(base, place)),
    ensures
        forall|a: int|
            0 <= a < waiting.len() ==> (places[#[trigger] waiting[a]] + span(events[waiting[a]].0)
                <= place <==> a < covered),
{
    assert forall|a: int| 0 <= a < waiting.len() implies (places[#[trigger] waiting[a]] + span(
        events[waiting[a]].0,
    ) <= place <==> a < covered) by {
        let k = waiting[a];
        assert(sent(events, d, k));
        lemma_places_compare(base, places[k] + span(events[k].0), place);
        if a < covered {
            assert(pending[a].0 == crate::seq::advanced(base, place) || crate::seq::precedes(
                pending[a].0,
                crate::seq::advanced(base, place),
            ));
        } else {
            let c = waiting[covered];
            assert(sent(events, d, c));
            lemma_places_compare(base, places[c] + span(events[c].0), place);
            if a > covered {
                assert(waiting[covered] < waiting[a]);
                assert(takes_places(events, d, c) && takes_places(events, d, k));
            }
        }
    }
}

/// What is acknowledged lies before what is sent next.
proof fn lemma_edge_is_behind(
    events: Exchange,
    d: Direction,
    places: Seq<int>,
    last: int,
    edge: int,
)
    requires
        in_order(events, d, places),
        takes_places(events, d, last),
        acknowledged_edge(events, d, places, last, edge),
    ensures
        edge < places[last] + span(events[last].0),
{
    if edge != 0 {
        let v = choose|k: int| #[trigger] acks(events, d, k) && k < last && places[k] == edge;
        let j = choose|j: int| #[trigger]
            takes_places(events, d, j) && j < v && places[v] <= places[j] + span(events[j].0);
        assert(takes_places(events, d, j) && j < last);
    }
}

/// Where bytes are sent in order and each once, an acknowledgement gives the time since the oldest
/// send that it is the first to cover, and no time where it covers nothing new. So sends that are
/// acknowledged one by one each give the time since themselves.
pub proof fn law_each_ack_measures_the_oldest_send_it_covers(
    start: MetricModel,
    events: Exchange,
    d: Direction,
    base: TcpSeq,
    places: Seq<int>,
    low: int,
    n: int,
    edge: int,
    oldest: int,
    cfg: EngineConfig,
)
    requires
        start.of(d) == DirModel::silent(),
        placed(events, d, base, places, low),
        in_order(events, d, places),
        acks(events, d, n),
        acknowledged_edge(events, d, places, n, edge),
        takes_places(events, d, oldest) && oldest < n && edge < places[oldest] + span(
            events[oldest].0,
        ),
        forall|k: int| #[trigger]
            takes_places(events, d, k) && edge < places[k] + span(events[k].0) ==> k >= oldest,
    ensures
        heard(start, events, n, cfg).sample(events[n].0, events[n].1, cfg).rtt == (if places[oldest]
            + span(events[oldest].0) > places[n] {
            None
        } else if events[n].0.ts.0 >= events[oldest].0.ts.0 {
            Some(Nanos((events[n].0.ts.0 - events[oldest].0.ts.0) as u64))
        } else {
            Some(Nanos(0))
        }),
{
    let seg = events[n].0;
    let place = places[n];
    let peer = heard(start, events, n, cfg).of(d);
    assert(events[n].1.reverse() == d);
    assert(n > 0);
    let waiting = lemma_waiting(start, events, d, base, places, low, n, edge, cfg);
    let (_, e) = lemma_edges(start, events, d, base, places, low, n, cfg);
    lemma_places_compare(base, edge, place);
    let covered = law_an_ack_forgets_what_it_covers(peer, seg);
    assert(waiting.contains(oldest));
    assert(waiting[0] == oldest) by {
        let a = choose|a: int| 0 <= a < waiting.len() && waiting[a] == oldest;
        let k = waiting[0];
        assert(takes_places(events, d, k));
    }
    if place > edge {
        lemma_covered_sends(
            events,
            d,
            base,
            places,
            low,
            n,
            edge,
            waiting,
            peer.pending,
            place,
            covered,
        );
    }
}

/// No time is measured where everything sent is acknowledged already.
pub proof fn law_no_send_waits_no_time_is_measured(
    start: MetricModel,
    events: Exchange,
    d: Direction,
    base: TcpSeq,
    places: Seq<int>,
    low: int,
    n: int,
    edge: int,
    cfg: EngineConfig,
)
    requires
        start.of(d) == DirModel::silent(),
        placed(events, d, base, places, low),
        in_order(events, d, places),
        acks(events, d, n),
        acknowledged_edge(events, d, places, n, edge),
        forall|k: int| #[trigger]
            takes_places(events, d, k) && k < n ==> places[k] + span(events[k].0) <= edge,
    ensures
        heard(start, events, n, cfg).sample(events[n].0, events[n].1, cfg).rtt is None,
{
    let peer = heard(start, events, n, cfg).of(d);
    assert(events[n].1.reverse() == d);
    let waiting = lemma_waiting(start, events, d, base, places, low, n, edge, cfg);
    if waiting.len() > 0 {
        assert(takes_places(events, d, waiting[0]));
    }
    let covered = law_an_ack_forgets_what_it_covers(peer, events[n].0);
}

/// The event at `j` is a send in `d` that takes up places and was no retransmission, and nothing
/// was retransmitted in `d` from there to `n`.
pub open spec fn measurable(
    start: MetricModel,
    events: Exchange,
    d: Direction,
    j: int,
    n: int,
    cfg: EngineConfig,
) -> bool {
    &&& takes_places(events, d, j)
    &&& j < n
    &&& forall|k: int|
        j <= k < n && #[trigger] sent(events, d, k) ==> !heard(start, events, k, cfg).sample(
            events[k].0,
            d,
            cfg,
        ).retransmit
}

/// Karn's rule: whatever goes back and forth, a round trip is the time since a send that the
/// acknowledgement covers, of the other direction, and since which nothing was retransmitted in that
/// direction.
pub proof fn law_round_trips_are_unambiguous(
    start: MetricModel,
    events: Exchange,
    n: int,
    cfg: EngineConfig,
)
    requires
        start == MetricModel::fresh(),
        0 <= n < events.len(),
    ensures
        ({
            let (seg, dir) = events[n];
            heard(start, events, n, cfg).sample(seg, dir, cfg).rtt matches Some(rtt) ==> {
                &&& seg.flags.has(TcpFlags::ACK)
                &&& exists|j: int|
                    {
                        let other = events[j].0;
                        &&& #[trigger] measurable(start, events, dir.reverse(), j, n, cfg)
                        &&& other.end() == seg.ack || crate::seq::precedes(other.end(), seg.ack)
                        &&& rtt == crate::time::elapsed(seg.ts, other.ts)
                    }
            }
        }),
{
    let (seg, dir) = events[n];
    let d = dir.reverse();
    let peer = heard(start, events, n, cfg).of(d);
    lemma_pending_is_measurable(start, events, d, n, cfg);
    let covered = law_an_ack_forgets_what_it_covers(peer, seg);
    if covered > 0 {
        let entry = peer.pending[0];
        let j = choose|j: int| #[trigger]
            measurable(start, events, d, j, n, cfg) && entry == (events[j].0.end(), events[j].0.ts);
        assert(measurable(start, events, d, j, n, cfg));
    }
}

/// The pending entry stands for a send that can be measured at `n`.
spec fn stands_for_a_send(
    start: MetricModel,
    events: Exchange,
    d: Direction,
    n: int,
    cfg: EngineConfig,
    entry: (TcpSeq, Nanos),
) -> bool {
    exists|j: int| #[trigger]
        measurable(start, events, d, j, n, cfg) && entry == (events[j].0.end(), events[j].0.ts)
}

proof fn lemma_entry_still_stands(
    start: MetricModel,
    events: Exchange,
    d: Direction,
    n: int,
    cfg: EngineConfig,
    entry: (TcpSeq, Nanos),
)
    requires
        stands_for_a_send(start, events, d, n, cfg, entry),
        sent(events, d, n) ==> !heard(start, events, n, cfg).sample(
            events[n].0,
            d,
            cfg,
        ).retransmit,
    ensures
        stands_for_a_send(start, events, d, n + 1, cfg, entry),
{
    let j = choose|j: int| #[trigger]
        measurable(start, events, d, j, n, cfg) && entry == (events[j].0.end(), events[j].0.ts);
    assert(measurable(start, events, d, j, n + 1, cfg));
}

proof fn lemma_pending_is_measurable(
    start: MetricModel,
    events: Exchange,
    d: Direction,
    n: int,
    cfg: EngineConfig,
)
    requires
        start == MetricModel::fresh(),
        0 <= n <= events.len(),
    ensures
        forall|a: int|
            0 <= a < heard(start, events, n, cfg).of(d).pending.len() ==> stands_for_a_send(
                start,
                events,
                d,
                n,
                cfg,
                #[trigger] heard(start, events, n, cfg).of(d).pending[a],
            ),
    decreases n,
{
    if n > 0 {
        let last = n - 1;
        let (seg, dir) = events[last];
        let model = heard(start, events, last, cfg);
        let before = model.of(d);
        let own = heard(start, events, n, cfg).of(d);
        lemma_pending_is_measurable(start, events, d, last, cfg);
        if dir == d {
            assert(own == crate::metrics::after_sending(before, seg, cfg));
            let again = crate::metrics::is_retransmit(before, seg, cfg);
            assert(model.sample(seg, d, cfg).retransmit == again);
            assert(seg.consumes_sequence() ==> span(seg) > 0);
            assert forall|a: int| 0 <= a < own.pending.len() implies stands_for_a_send(
                start,
                events,
                d,
                n,
                cfg,
                #[trigger] own.pending[a],
            ) by {
                if a < before.pending.len() {
                    assert(own.pending[a] == before.pending[a]);
                    lemma_entry_still_stands(start, events, d, last, cfg, before.pending[a]);
                } else {
                    assert(sent(events, d, last));
                    assert(measurable(start, events, d, last, n, cfg));
                }
            }
        } else {
            assert(own == crate::metrics::after_acking(before, seg));
            let covered = law_an_ack_forgets_what_it_covers(before, seg);
            assert forall|a: int| 0 <= a < own.pending.len() implies stands_for_a_send(
                start,
                events,
                d,
                n,
                cfg,
                #[trigger] own.pending[a],
            ) by {
                assert(own.pending[a] == before.pending[a + covered]);
                lemma_entry_still_stands(start, events, d, last, cfg, before.pending[a + covered]);
            }
        }
    }
}

} // verus!
