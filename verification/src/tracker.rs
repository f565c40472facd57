//! The connection tracker: items in, connections out.

use vstd::prelude::*;

use crate::config::{EngineConfig, RetentionPolicy};
use crate::conn::{ConnId, Connection, Direction, EndpointPair};
use crate::endpoint::Endpoint;
use crate::index::PairIndex;
use crate::metric::{MetricSample, SampleDir};
use crate::metrics::{ConnectionMetrics, MetricError, MetricModel, MetricState};
use crate::retention::{earliest, keep_recent};
use crate::segment::{is_bare_syn, is_syn_ack, Item, Segment, TcpFlags};
use crate::seq::{serial_max, TcpSeq};
use crate::sort::{pick, stable_order, SortKey};
use crate::state::ConnState;
use crate::time::Nanos;
use crate::timeline::{
    InFlightSample, Recording, RecordingModel, RttSample, SeqKind, SeqSample, StateSample,
    ThroughputSample, Timeline,
};

verus! {

/// `seq` lies behind `baseline` by more than `threshold`: a fresh initial number rather than a
/// retransmission, a reordering or a wrap.
pub open spec fn backward_reset(baseline: TcpSeq, seq: TcpSeq, threshold: u32) -> bool {
    crate::seq::precedes(seq, baseline) && crate::seq::forward_distance(seq, baseline) > threshold
}

/// Whether `seq` lies behind `baseline` by more than `threshold`.
#[must_use]
pub fn is_backward_reset(baseline: TcpSeq, seq: TcpSeq, threshold: u32) -> (res: bool)
    ensures
        res == backward_reset(baseline, seq, threshold),
{
    seq.serial_lt(baseline) && baseline.serial_diff(seq) > threshold
}

/// How many samples may be kept and how many are. A sample beyond the limit is a failure where
/// `strict`, and is only left out where not.
#[derive(Clone, Copy, PartialEq, Eq, Structural)]
pub struct Budget {
    pub limit: usize,
    pub collected: usize,
    pub overflowed: bool,
    pub strict: bool,
}

impl Budget {
    /// The budget of a configuration before anything was kept: strict where no sample ages out.
    pub open spec fn fresh(config: EngineConfig) -> Budget {
        Budget {
            limit: config.max_samples,
            collected: 0,
            overflowed: false,
            strict: config.retention == RetentionPolicy::FailFast,
        }
    }

    /// The budget of a configuration before anything was kept.
    fn new(config: EngineConfig) -> (res: Budget)
        ensures
            res == Budget::fresh(config),
    {
        Budget {
            limit: config.max_samples,
            collected: 0,
            overflowed: false,
            strict: config.retention == RetentionPolicy::FailFast,
        }
    }

    /// How many of `n` further samples can be kept.
    pub open spec fn fitting(self, n: nat) -> nat {
        if self.overflowed || self.collected >= self.limit {
            0
        } else if n <= self.limit - self.collected {
            n
        } else {
            (self.limit - self.collected) as nat
        }
    }

    /// The budget after `n` further samples were due. A strict one overflows with the first that
    /// cannot be kept, and keeps nothing from then on.
    pub open spec fn charged(self, n: nat) -> Budget {
        Budget {
            limit: self.limit,
            collected: (self.collected + self.fitting(n)) as usize,
            overflowed: self.overflowed || (self.strict && n > self.fitting(n)),
            strict: self.strict,
        }
    }

    /// The budget after `n` samples aged out.
    pub open spec fn released(self, n: nat) -> Budget {
        Budget {
            collected: if n <= self.collected {
                (self.collected - n) as usize
            } else {
                0
            },
            ..self
        }
    }

    /// Gives back the room of `n` samples that aged out.
    fn release(&mut self, n: usize)
        ensures
            *final(self) == old(self).released(n as nat),
    {
        self.collected = self.collected.saturating_sub(n);
    }

    /// Whether one more sample can be kept; it then counts.
    fn take_one(&mut self) -> (res: bool)
        ensures
            *final(self) == old(self).charged(1),
            res == (old(self).fitting(1) == 1),
    {
        if self.overflowed {
            return false;
        }
        if self.collected >= self.limit {
            self.overflowed = self.strict;
            return false;
        }
        self.collected = self.collected + 1;
        true
    }
}

/// Charging samples one after the other or all at once comes to the same, and so does releasing
/// them; releasing what was charged and kept gives the budget back as it was.
pub proof fn law_budget_charges_add_up(budget: Budget, a: nat, b: nat)
    requires
        budget.collected <= budget.limit,
    ensures
        budget.charged(a).charged(b) == budget.charged(a + b),
        budget.fitting(a) + budget.charged(a).fitting(b) == budget.fitting(a + b),
        budget.charged(a).collected <= budget.limit,
        budget.released(a).released(b) == budget.released(a + b),
        budget.fitting(a) == a ==> budget.charged(a).released(a) == budget,
{
}

/// The furthest number unfolded so far and its offset from the first one seen.
pub type Frontier = Option<(TcpSeq, i64)>;

/// The offset of `seq` from the first number seen, unfolded over wraps.
pub open spec fn unfolded(frontier: Frontier, seq: TcpSeq) -> int {
    match frontier {
        None => 0,
        Some((far, rel)) => if crate::seq::precedes(far, seq) {
            rel + crate::seq::forward_distance(far, seq)
        } else if seq == far {
            rel as int
        } else {
            rel - crate::seq::forward_distance(seq, far)
        },
    }
}

/// The frontier after `seq`.
pub open spec fn frontier_after(frontier: Frontier, seq: TcpSeq) -> Frontier {
    match frontier {
        None => Some((seq, 0)),
        Some((far, rel)) => if crate::seq::precedes(far, seq) {
            Some((seq, unfolded(frontier, seq) as i64))
        } else {
            frontier
        },
    }
}

/// The offset of `seq` can be held.
pub open spec fn unfolding_fits(frontier: Frontier, seq: TcpSeq) -> bool {
    i64::MIN <= unfolded(frontier, seq) <= i64::MAX
}

/// The frontier after the left edges of `blocks`.
pub open spec fn frontier_after_blocks(
    frontier: Frontier,
    blocks: Seq<(TcpSeq, TcpSeq)>,
) -> Frontier
    decreases blocks.len(),
{
    if blocks.len() == 0 {
        frontier
    } else {
        frontier_after(frontier_after_blocks(frontier, blocks.drop_last()), blocks.last().0)
    }
}

/// The offsets of the left edges of `blocks` can be held.
pub open spec fn blocks_fit(frontier: Frontier, blocks: Seq<(TcpSeq, TcpSeq)>) -> bool
    decreases blocks.len(),
{
    if blocks.len() == 0 {
        true
    } else {
        blocks_fit(frontier, blocks.drop_last()) && unfolding_fits(
            frontier_after_blocks(frontier, blocks.drop_last()),
            blocks.last().0,
        )
    }
}

/// One mark per selective acknowledgement, at its left edge.
pub open spec fn sack_points(
    frontier: Frontier,
    blocks: Seq<(TcpSeq, TcpSeq)>,
    t: Nanos,
    dir: SampleDir,
) -> Seq<SeqSample>
    decreases blocks.len(),
{
    if blocks.len() == 0 {
        Seq::empty()
    } else {
        sack_points(frontier, blocks.drop_last(), t, dir).push(
            SeqSample {
                t,
                dir,
                rel: unfolded(
                    frontier_after_blocks(frontier, blocks.drop_last()),
                    blocks.last().0,
                ) as i64,
                len: 0,
                kind: SeqKind::Sack,
            },
        )
    }
}

/// The smoothed round trip after the measurement `rtt`: an eighth of the way to it from the
/// estimate before, or the measurement itself where there was none.
pub open spec fn smoothed(before: Option<Nanos>, rtt: Nanos) -> Nanos {
    match before {
        None => rtt,
        Some(srtt) => Nanos(((srtt.0 * 7 + rtt.0) / 8) as u64),
    }
}

/// What is known of one connection instance.
#[verifier::ext_equal]
pub ghost struct TrackModel {
    pub conn: Connection,
    pub fin_o2r: bool,
    pub fin_r2o: bool,
    /// The furthest sequence number seen in each direction.
    pub base_o2r: Option<TcpSeq>,
    pub base_r2o: Option<TcpSeq>,
    pub metrics: MetricModel,
    pub series: Seq<MetricSample>,
    pub states: Seq<StateSample>,
    pub seq: Seq<SeqSample>,
    pub inflight: Seq<InFlightSample>,
    pub rtt: Seq<RttSample>,
    pub throughput: Seq<ThroughputSample>,
    pub frontier_o2r: Frontier,
    pub frontier_r2o: Frontier,
    pub srtt_o2r: Option<Nanos>,
    pub srtt_r2o: Option<Nanos>,
}

/// The direction of a segment that `src` sent.
pub open spec fn direction_from(conn: Connection, src: Endpoint) -> Direction {
    if src == conn.origin {
        Direction::OriginToResponder
    } else {
        Direction::ResponderToOrigin
    }
}

impl TrackModel {
    /// The furthest sequence number seen in `dir`.
    pub open spec fn base(self, dir: Direction) -> Option<TcpSeq> {
        match dir {
            Direction::OriginToResponder => self.base_o2r,
            Direction::ResponderToOrigin => self.base_r2o,
        }
    }

    /// The unfolding frontier of `dir`.
    pub open spec fn frontier(self, dir: Direction) -> Frontier {
        match dir {
            Direction::OriginToResponder => self.frontier_o2r,
            Direction::ResponderToOrigin => self.frontier_r2o,
        }
    }

    /// The smoothed round trip of `dir`.
    pub open spec fn srtt(self, dir: Direction) -> Option<Nanos> {
        match dir {
            Direction::OriginToResponder => self.srtt_o2r,
            Direction::ResponderToOrigin => self.srtt_r2o,
        }
    }

    /// The counters have room for `seg` in direction `dir`.
    pub open spec fn has_room(self, seg: Segment, dir: Direction, cfg: EngineConfig) -> bool {
        &&& self.conn.segments < u64::MAX
        &&& match dir {
            Direction::OriginToResponder => self.conn.bytes_o2r + seg.payload_len <= u64::MAX,
            Direction::ResponderToOrigin => self.conn.bytes_r2o + seg.payload_len <= u64::MAX,
        }
        &&& cfg.collect_seq_timeline ==> {
            &&& seg.payload_len > 0 ==> unfolding_fits(self.frontier(dir), seg.seq)
            &&& blocks_fit(self.frontier(dir.reverse()), seg.options.sack_blocks@)
        }
    }

    /// After the counters took `seg` in: time of last activity, segments, bytes and the furthest
    /// sequence number.
    #[verifier::opaque]
    pub open spec fn accounted(self, seg: Segment, dir: Direction) -> TrackModel {
        let conn = Connection {
            last_at: crate::time::later(self.conn.last_at, seg.ts),
            segments: (self.conn.segments + 1) as u64,
            ..self.conn
        };
        match dir {
            Direction::OriginToResponder => TrackModel {
                conn: Connection {
                    bytes_o2r: (self.conn.bytes_o2r + seg.payload_len) as u64,
                    ..conn
                },
                base_o2r: Some(crate::seq::furthest(self.base_o2r, seg.seq)),
                ..self
            },
            Direction::ResponderToOrigin => TrackModel {
                conn: Connection {
                    bytes_r2o: (self.conn.bytes_r2o + seg.payload_len) as u64,
                    ..conn
                },
                base_r2o: Some(crate::seq::furthest(self.base_r2o, seg.seq)),
                ..self
            },
        }
    }

    /// After a FIN in direction `dir` was noted.
    pub open spec fn with_fin(self, dir: Direction) -> TrackModel {
        match dir {
            Direction::OriginToResponder => TrackModel { fin_o2r: true, ..self },
            Direction::ResponderToOrigin => TrackModel { fin_r2o: true, ..self },
        }
    }

    /// A FIN in direction `dir` was noted.
    pub open spec fn fin_seen(self, dir: Direction) -> bool {
        match dir {
            Direction::OriginToResponder => self.fin_o2r,
            Direction::ResponderToOrigin => self.fin_r2o,
        }
    }

    /// With the lifecycle at `state`.
    pub open spec fn in_state(self, state: ConnState) -> TrackModel {
        TrackModel { conn: Connection { state, ..self.conn }, ..self }
    }

    /// The lifecycle after `seg`. A reset is final and comes from any state. Otherwise the
    /// handshake moves on with a SYN-ACK, or with a SYN of the responder when both sides opened
    /// at once; an acknowledgement or payload completes it, but not the SYN-ACK that only answers
    /// the first SYN; one FIN starts and two complete the close. Nothing moves backward.
    #[verifier::opaque]
    pub open spec fn lifecycle(self, seg: Segment, dir: Direction) -> TrackModel {
        let f = seg.flags;
        let state = self.conn.state;
        if f.has(TcpFlags::RST) {
            self.in_state(ConnState::Reset)
        } else if state == ConnState::Reset {
            self
        } else {
            let answered = if state == ConnState::SynSent && (f.is_syn_ack() || (f.is_bare_syn()
                && dir == Direction::ResponderToOrigin)) {
                ConnState::SynReceived
            } else {
                state
            };
            let answers = state == ConnState::SynSent && f.is_syn_ack();
            let opened = if answered == ConnState::SynReceived && !answers && (f.has(TcpFlags::ACK)
                || seg.payload_len > 0) {
                ConnState::Established
            } else {
                answered
            };
            if f.has(TcpFlags::FIN) {
                let closing = self.with_fin(dir);
                closing.in_state(
                    opened.advanced(
                        if closing.fin_o2r && closing.fin_r2o {
                            ConnState::Closed
                        } else {
                            ConnState::FinWait
                        },
                    ),
                )
            } else {
                self.in_state(opened)
            }
        }
    }

    /// The state sample at `t`.
    pub open spec fn state_sample(self, t: Nanos) -> StateSample {
        StateSample {
            t,
            state: self.conn.state,
            bytes_o2r: self.conn.bytes_o2r,
            bytes_r2o: self.conn.bytes_r2o,
        }
    }

    /// The time/sequence points of `seg`: one in its own direction for its payload and one in
    /// the acknowledged direction for each selective acknowledgement.
    pub open spec fn seq_points(self, seg: Segment, dir: Direction, sample: MetricSample) -> Seq<
        SeqSample,
    > {
        (if seg.payload_len > 0 {
            seq![
                SeqSample {
                    t: seg.ts,
                    dir: dir.as_sample(),
                    rel: unfolded(self.frontier(dir), seg.seq) as i64,
                    len: seg.payload_len,
                    kind: SeqKind::Data {
                        retransmit: sample.retransmit,
                        out_of_order: sample.out_of_order,
                    },
                },
            ]
        } else {
            Seq::empty()
        }) + sack_points(
            self.frontier(dir.reverse()),
            seg.options.sack_blocks@,
            seg.ts,
            dir.reverse().as_sample(),
        )
    }

    /// After the frontiers moved over the numbers that `seg` carries.
    pub open spec fn frontiers_moved(self, seg: Segment, dir: Direction) -> TrackModel {
        let own = if seg.payload_len > 0 {
            frontier_after(self.frontier(dir), seg.seq)
        } else {
            self.frontier(dir)
        };
        let peer = frontier_after_blocks(
            self.frontier(dir.reverse()),
            seg.options.sack_blocks@,
        );
        match dir {
            Direction::OriginToResponder => TrackModel {
                frontier_o2r: own,
                frontier_r2o: peer,
                ..self
            },
            Direction::ResponderToOrigin => TrackModel {
                frontier_o2r: peer,
                frontier_r2o: own,
                ..self
            },
        }
    }

    /// The bytes outstanding at `t` in each direction in which anything was sent.
    pub open spec fn inflight_points(self, t: Nanos) -> Seq<InFlightSample> {
        inflight_point(self.metrics, Direction::OriginToResponder, t) + inflight_point(
            self.metrics,
            Direction::ResponderToOrigin,
            t,
        )
    }

    /// The rates at `t` of each direction in which payload was sent.
    pub open spec fn throughput_points(self, t: Nanos, window: Nanos) -> Seq<ThroughputSample> {
        throughput_point(self.metrics, Direction::OriginToResponder, t, window) + throughput_point(
            self.metrics,
            Direction::ResponderToOrigin,
            t,
            window,
        )
    }

    /// Without the samples before `horizon`.
    pub open spec fn aged(self, horizon: Nanos) -> TrackModel {
        TrackModel {
            series: crate::retention::recent(self.series, horizon),
            states: crate::retention::recent(self.states, horizon),
            seq: crate::retention::recent(self.seq, horizon),
            inflight: crate::retention::recent(self.inflight, horizon),
            rtt: crate::retention::recent(self.rtt, horizon),
            throughput: crate::retention::recent(self.throughput, horizon),
            ..self
        }
    }

    /// The recording for a timeline.
    pub open spec fn recording(self) -> RecordingModel {
        RecordingModel {
            conn: self.conn,
            states: self.states,
            seq: self.seq,
            inflight: self.inflight,
            rtt: self.rtt,
            throughput: self.throughput,
        }
    }
}

/// The in-flight sample of `dir` at `t`, if anything was sent in it.
pub open spec fn inflight_point(metrics: MetricModel, dir: Direction, t: Nanos) -> Seq<
    InFlightSample,
> {
    match metrics.of(dir).outstanding() {
        Some(bytes) => seq![InFlightSample { t, dir: dir.as_sample(), bytes }],
        None => Seq::empty(),
    }
}

/// The throughput sample of `dir` at `t`, if payload was sent in it.
pub open spec fn throughput_point(
    metrics: MetricModel,
    dir: Direction,
    t: Nanos,
    window: Nanos,
) -> Seq<ThroughputSample> {
    match metrics.of(dir).rates(t, window) {
        Some((throughput_bps, goodput_bps)) => seq![
            ThroughputSample { t, dir: dir.as_sample(), throughput_bps, goodput_bps },
        ],
        None => Seq::empty(),
    }
}

/// One connection and the budget its samples are charged to.
#[verifier::ext_equal]
pub ghost struct Ledger {
    pub track: TrackModel,
    pub budget: Budget,
}

/// The items of `more` that the budget allows, behind those of `kept`.
pub open spec fn kept<T>(budget: Budget, kept: Seq<T>, more: Seq<T>) -> Seq<T> {
    kept + more.take(budget.fitting(more.len()) as int)
}

impl Ledger {
    /// After the state at `t` was recorded, where that is asked for.
    #[verifier::opaque]
    pub open spec fn with_state(self, t: Nanos, cfg: EngineConfig) -> Ledger {
        if cfg.collect_state_timeline {
            let more = seq![self.track.state_sample(t)];
            Ledger {
                track: TrackModel {
                    states: kept(self.budget, self.track.states, more),
                    ..self.track
                },
                budget: self.budget.charged(1),
            }
        } else {
            self
        }
    }

    /// After the metric sample was recorded, where the connection's series is asked for.
    pub open spec fn with_sample(self, sample: MetricSample, cfg: EngineConfig) -> Ledger {
        if cfg.series_collection.covers(self.track.conn.id) {
            Ledger {
                track: TrackModel {
                    series: kept(self.budget, self.track.series, seq![sample]),
                    ..self.track
                },
                budget: self.budget.charged(1),
            }
        } else {
            self
        }
    }

    /// After the time/sequence points of `seg` were recorded, where they are asked for.
    pub open spec fn with_seq_points(
        self,
        seg: Segment,
        dir: Direction,
        sample: MetricSample,
        cfg: EngineConfig,
    ) -> Ledger {
        if cfg.collect_seq_timeline && !self.budget.overflowed {
            let more = self.track.seq_points(seg, dir, sample);
            Ledger {
                track: TrackModel {
                    seq: kept(self.budget, self.track.seq, more),
                    ..self.track.frontiers_moved(seg, dir)
                },
                budget: self.budget.charged(more.len()),
            }
        } else {
            self
        }
    }

    /// After the bytes outstanding were recorded, where they are asked for.
    pub open spec fn with_inflight(self, t: Nanos, cfg: EngineConfig) -> Ledger {
        if cfg.collect_inflight_timeline {
            let more = self.track.inflight_points(t);
            Ledger {
                track: TrackModel {
                    inflight: kept(self.budget, self.track.inflight, more),
                    ..self.track
                },
                budget: self.budget.charged(more.len()),
            }
        } else {
            self
        }
    }

    /// After the round trip that `sample` carries was recorded for the acknowledged direction,
    /// where round trips are asked for.
    pub open spec fn with_rtt(self, dir: Direction, sample: MetricSample, cfg: EngineConfig) -> Ledger {
        match sample.rtt {
            Some(rtt) if cfg.collect_rtt_timeline => {
                let acked = dir.reverse();
                let srtt = smoothed(self.track.srtt(acked), rtt);
                let more = seq![RttSample { t: sample.t, dir: acked.as_sample(), rtt, srtt }];
                let track = TrackModel {
                    rtt: kept(self.budget, self.track.rtt, more),
                    ..self.track
                };
                Ledger {
                    track: match acked {
                        Direction::OriginToResponder => TrackModel {
                            srtt_o2r: Some(srtt),
                            ..track
                        },
                        Direction::ResponderToOrigin => TrackModel {
                            srtt_r2o: Some(srtt),
                            ..track
                        },
                    },
                    budget: self.budget.charged(1),
                }
            },
            _ => self,
        }
    }

    /// After the rates were recorded, where they are asked for.
    pub open spec fn with_throughput(self, t: Nanos, cfg: EngineConfig) -> Ledger {
        if cfg.collect_throughput_timeline {
            let more = self.track.throughput_points(t, cfg.throughput_window);
            Ledger {
                track: TrackModel {
                    throughput: kept(self.budget, self.track.throughput, more),
                    ..self.track
                },
                budget: self.budget.charged(more.len()),
            }
        } else {
            self
        }
    }

    /// After metrics were derived from `seg` and everything asked for was recorded. Nothing is
    /// derived where nothing is asked for, nor once the budget has overflowed.
    #[verifier::opaque]
    pub open spec fn with_metrics(self, seg: Segment, dir: Direction, cfg: EngineConfig) -> Ledger {
        if self.budget.overflowed || !derives(cfg, self.track.conn.id) {
            self
        } else {
            let sample = self.track.metrics.sample(seg, dir, cfg);
            let derived = Ledger {
                track: TrackModel {
                    metrics: self.track.metrics.after(seg, dir, cfg),
                    ..self.track
                },
                budget: self.budget,
            };
            derived.with_sample(sample, cfg).with_seq_points(seg, dir, sample, cfg).with_inflight(
                seg.ts,
                cfg,
            ).with_rtt(dir, sample, cfg).with_throughput(seg.ts, cfg)
        }
    }
}

/// Metrics are derived for the connection `id`.
pub open spec fn derives(cfg: EngineConfig, id: ConnId) -> bool {
    cfg.series_collection.covers(id) || cfg.collect_seq_timeline || cfg.collect_inflight_timeline
        || cfg.collect_rtt_timeline || cfg.collect_throughput_timeline
}

/// `seg` opens a new instance instead of joining `track`: a SYN on a connection that is over or
/// has been idle for too long, or a number far behind what an established one has sent.
pub open spec fn splits(track: TrackModel, seg: Segment, cfg: EngineConfig) -> bool {
    if seg.flags.is_bare_syn() {
        track.conn.state.is_over() || crate::time::elapsed(seg.ts, track.conn.last_at).0
            > cfg.dead_after.0
    } else {
        track.conn.state == ConnState::Established && match track.base(
            direction_from(track.conn, seg.flow.source_spec()),
        ) {
            Some(base) => backward_reset(base, seg.seq, cfg.reset_threshold),
            None => false,
        }
    }
}

/// The instance that `seg` opens. A SYN shows who opened the connection; a SYN-ACK shows that
/// the receiver did; for any other segment the sender is taken for the origin.
pub open spec fn opened(pair: EndpointPair, instance: u32, seg: Segment) -> TrackModel {
    let src = seg.flow.source_spec();
    let dst = seg.flow.destination_spec();
    let f = seg.flags;
    let (origin, responder, origin_inferred, state) = if f.is_bare_syn() {
        (src, dst, false, ConnState::SynSent)
    } else if f.is_syn_ack() {
        (dst, src, false, ConnState::SynReceived)
    } else if f.has(TcpFlags::RST) {
        (src, dst, true, ConnState::Reset)
    } else if f.has(TcpFlags::FIN) {
        (src, dst, true, ConnState::FinWait)
    } else {
        (src, dst, true, ConnState::Established)
    };
    TrackModel {
        conn: Connection {
            id: ConnId { pair, instance },
            state,
            origin,
            responder,
            origin_inferred,
            opened_at: seg.ts,
            last_at: seg.ts,
            bytes_o2r: 0,
            bytes_r2o: 0,
            segments: 0,
        },
        fin_o2r: false,
        fin_r2o: false,
        base_o2r: None,
        base_r2o: None,
        metrics: MetricModel::fresh(),
        series: Seq::empty(),
        states: Seq::empty(),
        seq: Seq::empty(),
        inflight: Seq::empty(),
        rtt: Seq::empty(),
        throughput: Seq::empty(),
        frontier_o2r: None,
        frontier_r2o: None,
        srtt_o2r: None,
        srtt_r2o: None,
    }
}

/// The newest place in `pairs` that holds `pair`.
pub open spec fn newest(pairs: Seq<EndpointPair>, pair: EndpointPair) -> Option<int>
    decreases pairs.len(),
{
    if pairs.len() == 0 {
        None
    } else if pairs.last() == pair {
        Some(pairs.len() - 1)
    } else {
        newest(pairs.drop_last(), pair)
    }
}

/// The samples kept for one instance.
pub open spec fn samples_of(track: TrackModel) -> nat {
    track.series.len() + track.states.len() + track.seq.len() + track.inflight.len()
        + track.rtt.len() + track.throughput.len()
}

/// The samples kept over all instances.
pub open spec fn samples_kept(conns: Seq<TrackModel>) -> nat
    decreases conns.len(),
{
    if conns.len() == 0 {
        0
    } else {
        samples_kept(conns.drop_last()) + samples_of(conns.last())
    }
}

/// How many samples of `conns` lie before `horizon`.
pub open spec fn outdated(conns: Seq<TrackModel>, horizon: Nanos) -> nat
    decreases conns.len(),
{
    if conns.len() == 0 {
        0
    } else {
        let track = conns.last();
        outdated(conns.drop_last(), horizon) + (samples_of(track) - samples_of(
            track.aged(horizon),
        )) as nat
    }
}

/// The contents of a tracker.
#[verifier::ext_equal]
pub ghost struct TrackerModel {
    pub config: EngineConfig,
    /// Every instance, in the order in which they were opened.
    pub conns: Seq<TrackModel>,
    pub budget: Budget,
}

impl TrackerModel {
    /// A tracker that has seen nothing.
    pub open spec fn fresh(config: EngineConfig) -> TrackerModel {
        TrackerModel {
            config,
            conns: Seq::empty(),
            budget: Budget::fresh(config),
        }
    }

    /// The pair of each instance.
    pub open spec fn pairs(self) -> Seq<EndpointPair> {
        self.conns.map_values(|t: TrackModel| t.conn.id.pair)
    }

    /// The instance that `seg` joins.
    pub open spec fn joined(self, seg: Segment) -> Option<int> {
        match newest(
            self.pairs(),
            EndpointPair::of(seg.flow.source_spec(), seg.flow.destination_spec()),
        ) {
            Some(i) if !splits(self.conns[i], seg, self.config) => Some(i),
            _ => None,
        }
    }

    /// The instance number that a connection opened by `seg` gets: one more than that of the
    /// instance before it on the same pair.
    pub open spec fn next_instance(self, seg: Segment) -> int {
        match newest(
            self.pairs(),
            EndpointPair::of(seg.flow.source_spec(), seg.flow.destination_spec()),
        ) {
            Some(i) => self.conns[i].conn.id.instance + 1,
            None => 0,
        }
    }

    /// The instance that `seg` opens here.
    pub open spec fn newcomer(self, seg: Segment) -> TrackModel {
        opened(
            EndpointPair::of(seg.flow.source_spec(), seg.flow.destination_spec()),
            self.next_instance(seg) as u32,
            seg,
        )
    }

    /// The counters have room for `item`.
    pub open spec fn has_room(self, item: Item) -> bool {
        match item {
            Item::Tick(_) => true,
            Item::Segment(seg) => match self.joined(seg) {
                Some(i) => self.conns[i].has_room(
                    seg,
                    direction_from(self.conns[i].conn, seg.flow.source_spec()),
                    self.config,
                ),
                None => {
                    &&& self.next_instance(seg) <= u32::MAX
                    &&& self.newcomer(seg).has_room(
                        seg,
                        direction_from(self.newcomer(seg).conn, seg.flow.source_spec()),
                        self.config,
                    )
                },
            },
        }
    }

    /// After `seg` joined the instance at `i`.
    pub open spec fn after_joining(self, i: int, seg: Segment) -> TrackerModel {
        let track = self.conns[i];
        let dir = direction_from(track.conn, seg.flow.source_spec());
        let ledger = Ledger {
            track: track.accounted(seg, dir).lifecycle(seg, dir),
            budget: self.budget,
        }.with_state(seg.ts, self.config).with_metrics(seg, dir, self.config);
        TrackerModel {
            config: self.config,
            conns: self.conns.update(i, ledger.track),
            budget: ledger.budget,
        }
    }

    /// After `seg` opened a new instance.
    pub open spec fn after_opening(self, seg: Segment) -> TrackerModel {
        let track = self.newcomer(seg);
        let dir = direction_from(track.conn, seg.flow.source_spec());
        let accounted = track.accounted(seg, dir);
        let ledger = Ledger {
            track: if seg.flags.has(TcpFlags::FIN) {
                accounted.with_fin(dir)
            } else {
                accounted
            },
            budget: self.budget,
        }.with_metrics(seg, dir, self.config).with_state(seg.ts, self.config);
        TrackerModel {
            config: self.config,
            conns: self.conns.push(ledger.track),
            budget: ledger.budget,
        }
    }

    /// After everything that `item` shows was taken in. A tick shows nothing.
    pub open spec fn recorded(self, item: Item) -> TrackerModel {
        match item {
            Item::Tick(_) => self,
            Item::Segment(seg) => match self.joined(seg) {
                Some(i) => self.after_joining(i, seg),
                None => self.after_opening(seg),
            },
        }
    }

    /// Once it is `now`: where samples age out, those before the horizon are gone from every
    /// instance and their room is free again.
    pub open spec fn aged(self, now: Nanos) -> TrackerModel {
        match self.config.retention.horizon_spec(now) {
            Some(horizon) => TrackerModel {
                config: self.config,
                conns: self.conns.map_values(|t: TrackModel| t.aged(horizon)),
                budget: self.budget.released(outdated(self.conns, horizon)),
            },
            None => self,
        }
    }

    /// After `item`: its time lets samples age out, and then what it shows is taken in.
    pub open spec fn after(self, item: Item) -> TrackerModel {
        self.aged(item.time()).recorded(item)
    }

    /// After each of `items` in turn.
    pub open spec fn after_all(self, items: Seq<Item>) -> TrackerModel
        decreases items.len(),
    {
        if items.len() == 0 {
            self
        } else {
            self.after_all(items.drop_last()).after(items.last())
        }
    }

    /// The counters have room for each of `items` in turn.
    pub open spec fn has_room_for_all(self, items: Seq<Item>) -> bool
        decreases items.len(),
    {
        if items.len() == 0 {
            true
        } else {
            self.has_room_for_all(items.drop_last()) && self.after_all(items.drop_last()).has_room(
                items.last(),
            )
        }
    }

    /// The instances as reported.
    pub open spec fn connections(self) -> Seq<Connection> {
        self.conns.map_values(|t: TrackModel| t.conn)
    }

    /// The order in which instances are reported: by opening time, pair and instance.
    pub open spec fn report_order(self) -> Seq<usize> {
        crate::sort::sorted_indices(self.connections())
    }
}

impl SortKey for Connection {
    open spec fn at_most(self, other: Connection) -> bool {
        !other.listed_before(self)
    }

    proof fn lemma_total(a: Connection, b: Connection) {
    }

    proof fn lemma_transitive(a: Connection, b: Connection, c: Connection) {
    }

    fn le(&self, other: &Connection) -> (res: bool) {
        !other.lists_before(self)
    }
}

/// Tracking state of one connection instance.
struct ConnTrack {
    conn: Connection,
    fin_o2r: bool,
    fin_r2o: bool,
    base_o2r: Option<TcpSeq>,
    base_r2o: Option<TcpSeq>,
    metrics: MetricState,
    series: Vec<MetricSample>,
    states: Vec<StateSample>,
    seq: Vec<SeqSample>,
    inflight: Vec<InFlightSample>,
    rtt: Vec<RttSample>,
    throughput: Vec<ThroughputSample>,
    frontier_o2r: Frontier,
    frontier_r2o: Frontier,
    srtt_o2r: Option<Nanos>,
    srtt_r2o: Option<Nanos>,
    /// No sample was taken before this.
    oldest: Nanos,
}

impl View for ConnTrack {
    type V = TrackModel;

    closed spec fn view(&self) -> TrackModel {
        TrackModel {
            conn: self.conn,
            fin_o2r: self.fin_o2r,
            fin_r2o: self.fin_r2o,
            base_o2r: self.base_o2r,
            base_r2o: self.base_r2o,
            metrics: self.metrics@,
            series: self.series@,
            states: self.states@,
            seq: self.seq@,
            inflight: self.inflight@,
            rtt: self.rtt@,
            throughput: self.throughput@,
            frontier_o2r: self.frontier_o2r,
            frontier_r2o: self.frontier_r2o,
            srtt_o2r: self.srtt_o2r,
            srtt_r2o: self.srtt_r2o,
        }
    }
}

/// Unfolds `seq` against `frontier` and moves the frontier over it.
fn unfold(frontier: &mut Frontier, seq: TcpSeq) -> (res: i64)
    requires
        unfolding_fits(*old(frontier), seq),
    ensures
        res == unfolded(*old(frontier), seq),
        *final(frontier) == frontier_after(*old(frontier), seq),
{
    match *frontier {
        None => {
            *frontier = Some((seq, 0));
            0
        },
        Some((far, rel)) => {
            if seq.serial_gt(far) {
                let offset: i64 = (rel as i128 + seq.serial_diff(far) as i128) as i64;
                *frontier = Some((seq, offset));
                offset
            } else if seq == far {
                rel
            } else {
                (rel as i128 - far.serial_diff(seq) as i128) as i64
            }
        },
    }
}

/// Whether the offset of `seq` can be held.
fn can_unfold(frontier: Frontier, seq: TcpSeq) -> (res: bool)
    ensures
        res == unfolding_fits(frontier, seq),
{
    match frontier {
        None => true,
        Some((far, rel)) => {
            let offset: i128 = if seq.serial_gt(far) {
                rel as i128 + seq.serial_diff(far) as i128
            } else if seq == far {
                rel as i128
            } else {
                rel as i128 - far.serial_diff(seq) as i128
            };
            i64::MIN as i128 <= offset && offset <= i64::MAX as i128
        },
    }
}

/// The opening state and orientation that a first segment shows.
fn orientation(seg: &Segment, src: Endpoint, dst: Endpoint) -> (res: (
    Endpoint,
    Endpoint,
    bool,
    ConnState,
))
    requires
        src == seg.flow.source_spec(),
        dst == seg.flow.destination_spec(),
    ensures
        forall|pair: EndpointPair, instance: u32|
            {
                let conn = (#[trigger] opened(pair, instance, *seg)).conn;
                res == (conn.origin, conn.responder, conn.origin_inferred, conn.state)
            },
{
    let flags = seg.flags;
    if is_bare_syn(flags) {
        (src, dst, false, ConnState::SynSent)
    } else if is_syn_ack(flags) {
        (dst, src, false, ConnState::SynReceived)
    } else if flags.rst() {
        (src, dst, true, ConnState::Reset)
    } else if flags.fin() {
        (src, dst, true, ConnState::FinWait)
    } else {
        (src, dst, true, ConnState::Established)
    }
}

impl ConnTrack {
    /// A new instance as its first segment shows it; the segment is not yet accounted for.
    fn open(pair: EndpointPair, instance: u32, seg: &Segment, src: Endpoint, dst: Endpoint) -> (res:
        ConnTrack)
        requires
            src == seg.flow.source_spec(),
            dst == seg.flow.destination_spec(),
        ensures
            res@ == opened(pair, instance, *seg),
            res.dated(),
    {
        let (origin, responder, origin_inferred, state) = orientation(seg, src, dst);
        let res = ConnTrack {
            conn: Connection {
                id: ConnId { pair, instance },
                state,
                origin,
                responder,
                origin_inferred,
                opened_at: seg.ts,
                last_at: seg.ts,
                bytes_o2r: 0,
                bytes_r2o: 0,
                segments: 0,
            },
            fin_o2r: false,
            fin_r2o: false,
            base_o2r: None,
            base_r2o: None,
            metrics: MetricState::new(),
            series: Vec::new(),
            states: Vec::new(),
            seq: Vec::new(),
            inflight: Vec::new(),
            rtt: Vec::new(),
            throughput: Vec::new(),
            frontier_o2r: None,
            frontier_r2o: None,
            srtt_o2r: None,
            srtt_r2o: None,
            oldest: Nanos(u64::MAX),
        };
        proof {
            let model = opened(pair, instance, *seg);
            assert(res@.conn == model.conn);
            assert(res@ =~= model);
        }
        res
    }

    /// The direction of a segment that `src` sent.
    fn direction_of(&self, src: Endpoint) -> (res: Direction)
        ensures
            res == direction_from(self@.conn, src),
    {
        if src == self.conn.origin {
            Direction::OriginToResponder
        } else {
            Direction::ResponderToOrigin
        }
    }

    /// The furthest sequence number seen in `dir`.
    fn baseline(&self, dir: Direction) -> (res: Option<TcpSeq>)
        ensures
            res == self@.base(dir),
    {
        match dir {
            Direction::OriginToResponder => self.base_o2r,
            Direction::ResponderToOrigin => self.base_r2o,
        }
    }

    /// Whether the counters have room for `seg`.
    fn can_take(&self, seg: &Segment, dir: Direction, cfg: &EngineConfig) -> (res: bool)
        ensures
            res == self@.has_room(*seg, dir, *cfg),
    {
        let (bytes, own, peer) = match dir {
            Direction::OriginToResponder => {
                (self.conn.bytes_o2r, self.frontier_o2r, self.frontier_r2o)
            },
            Direction::ResponderToOrigin => {
                (self.conn.bytes_r2o, self.frontier_r2o, self.frontier_o2r)
            },
        };
        if self.conn.segments == u64::MAX {
            return false;
        }
        if bytes > u64::MAX - seg.payload_len as u64 {
            return false;
        }
        if !cfg.collect_seq_timeline {
            return true;
        }
        if seg.payload_len > 0 && !can_unfold(own, seg.seq) {
            return false;
        }
        let blocks = &seg.options.sack_blocks;
        let mut frontier = peer;
        let mut i: usize = 0;
        while i < blocks.len()
            invariant
                i <= blocks@.len(),
                blocks@ == seg.options.sack_blocks@,
                peer == self@.frontier(dir.reverse()),
                cfg.collect_seq_timeline,
                frontier == frontier_after_blocks(peer, blocks@.take(i as int)),
                blocks_fit(peer, blocks@.take(i as int)),
            decreases blocks@.len() - i,
        {
            proof {
                assert(blocks@.take(i + 1).drop_last() =~= blocks@.take(i as int));
            }
            if !can_unfold(frontier, blocks[i].0) {
                proof {
                    if blocks_fit(peer, blocks@) {
                        lemma_blocks_fit_prefix(peer, blocks@, i + 1);
                    }
                }
                return false;
            }
            let _ = unfold(&mut frontier, blocks[i].0);
            i = i + 1;
        }
        proof {
            assert(blocks@.take(i as int) =~= blocks@);
        }
        true
    }

    /// Counts `seg` in.
    fn account(&mut self, seg: &Segment, dir: Direction)
        requires
            old(self)@.conn.segments < u64::MAX,
            dir is OriginToResponder ==> old(self)@.conn.bytes_o2r + seg.payload_len <= u64::MAX,
            dir is ResponderToOrigin ==> old(self)@.conn.bytes_r2o + seg.payload_len <= u64::MAX,
        ensures
            final(self)@ == old(self)@.accounted(*seg, dir),
    {
        proof {
            reveal(TrackModel::accounted);
        }
        self.conn.last_at = self.conn.last_at.latest(seg.ts);
        self.conn.segments = self.conn.segments + 1;
        match dir {
            Direction::OriginToResponder => {
                self.conn.bytes_o2r = self.conn.bytes_o2r + seg.payload_len as u64;
                self.base_o2r = Some(serial_max(self.base_o2r, seg.seq));
            },
            Direction::ResponderToOrigin => {
                self.conn.bytes_r2o = self.conn.bytes_r2o + seg.payload_len as u64;
                self.base_r2o = Some(serial_max(self.base_r2o, seg.seq));
            },
        }
        proof {
            assert(self@ =~= old(self)@.accounted(*seg, dir));
        }
    }

    /// Notes a FIN in direction `dir`.
    fn note_fin(&mut self, dir: Direction)
        ensures
            final(self)@ == old(self)@.with_fin(dir),
    {
        match dir {
            Direction::OriginToResponder => self.fin_o2r = true,
            Direction::ResponderToOrigin => self.fin_r2o = true,
        }
    }

    /// Moves the lifecycle on.
    fn apply_state(&mut self, seg: &Segment, dir: Direction)
        ensures
            final(self)@ == old(self)@.lifecycle(*seg, dir),
    {
        proof {
            reveal(TrackModel::lifecycle);
        }
        let f = seg.flags;
        if f.rst() {
            self.conn.state = ConnState::Reset;
            return ;
        }
        if self.conn.state == ConnState::Reset {
            return ;
        }
        let answers = self.conn.state == ConnState::SynSent && is_syn_ack(f);
        if answers {
            self.conn.state = self.conn.state.advance_to(ConnState::SynReceived);
        } else if is_bare_syn(f) {
            // From the responder this is the second leg of a simultaneous open; from the origin
            // it only repeats the first.
            if self.conn.state == ConnState::SynSent && dir == Direction::ResponderToOrigin {
                self.conn.state = self.conn.state.advance_to(ConnState::SynReceived);
            }
        }
        // The SYN-ACK that answers the first SYN does not complete the handshake by itself.
        if self.conn.state == ConnState::SynReceived && !answers && (f.ack() || seg.payload_len
            > 0) {
            self.conn.state = self.conn.state.advance_to(ConnState::Established);
        }
        if f.fin() {
            self.note_fin(dir);
            if self.fin_o2r && self.fin_r2o {
                self.conn.state = self.conn.state.advance_to(ConnState::Closed);
            } else {
                self.conn.state = self.conn.state.advance_to(ConnState::FinWait);
            }
        }
    }

    /// Records the state at `t`, where that is asked for.
    fn record_state(&mut self, t: Nanos, cfg: &EngineConfig, budget: &mut Budget)
        ensures
            (Ledger { track: final(self)@, budget: *final(budget) }) == (Ledger {
                track: old(self)@,
                budget: *old(budget),
            }).with_state(t, *cfg),
    {
        proof {
            reveal(Ledger::with_state);
        }
        if cfg.collect_state_timeline {
            let sample = StateSample {
                t,
                state: self.conn.state,
                bytes_o2r: self.conn.bytes_o2r,
                bytes_r2o: self.conn.bytes_r2o,
            };
            let ghost before = self.states@;
            if budget.take_one() {
                self.states.push(sample);
            }
            proof {
                assert(self.states@ =~= kept(*old(budget), before, seq![sample]));
                assert(self@ =~= (Ledger { track: old(self)@, budget: *old(budget) }).with_state(
                    t,
                    *cfg,
                ).track);
            }
        }
    }

    /// Records the metric sample, where the series is asked for.
    fn record_sample(&mut self, sample: MetricSample, cfg: &EngineConfig, budget: &mut Budget)
        ensures
            (Ledger { track: final(self)@, budget: *final(budget) }) == (Ledger {
                track: old(self)@,
                budget: *old(budget),
            }).with_sample(sample, *cfg),
    {
        if cfg.series_collection.collects(self.conn.id) {
            let ghost before = self.series@;
            if budget.take_one() {
                self.series.push(sample);
            }
            proof {
                assert(self.series@ =~= kept(*old(budget), before, seq![sample]));
                assert(self@ =~= (Ledger { track: old(self)@, budget: *old(budget) }).with_sample(
                    sample,
                    *cfg,
                ).track);
            }
        }
    }
}

impl ConnTrack {
    /// The unfolding frontiers of `dir` and of the other direction.
    fn frontiers(&self, dir: Direction) -> (res: (Frontier, Frontier))
        ensures
            res == (self@.frontier(dir), self@.frontier(dir.reverse())),
    {
        match dir {
            Direction::OriginToResponder => (self.frontier_o2r, self.frontier_r2o),
            Direction::ResponderToOrigin => (self.frontier_r2o, self.frontier_o2r),
        }
    }

    /// The time/sequence points of `seg`; moves the frontiers over the numbers it carries.
    fn push_seq_points(&mut self, seg: &Segment, dir: Direction, sample: &MetricSample) -> (out:
        Vec<SeqSample>)
        requires
            seg.payload_len > 0 ==> unfolding_fits(old(self)@.frontier(dir), seg.seq),
            blocks_fit(old(self)@.frontier(dir.reverse()), seg.options.sack_blocks@),
        ensures
            out@ == old(self)@.seq_points(*seg, dir, *sample),
            final(self)@ == old(self)@.frontiers_moved(*seg, dir),
    {
        let mut out: Vec<SeqSample> = Vec::new();
        let (mut own, mut peer) = self.frontiers(dir);
        let ghost peer_before = peer;
        if seg.payload_len > 0 {
            let rel: i64 = unfold(&mut own, seg.seq);
            out.push(
                SeqSample {
                    t: seg.ts,
                    dir: dir.sample_dir(),
                    rel,
                    len: seg.payload_len,
                    kind: SeqKind::Data {
                        retransmit: sample.retransmit,
                        out_of_order: sample.out_of_order,
                    },
                },
            );
        }
        let ghost data = out@;
        let acked = dir.opposite().sample_dir();
        let blocks = &seg.options.sack_blocks;
        let mut i: usize = 0;
        while i < blocks.len()
            invariant
                i <= blocks@.len(),
                blocks@ == seg.options.sack_blocks@,
                blocks_fit(peer_before, blocks@),
                peer == frontier_after_blocks(peer_before, blocks@.take(i as int)),
                out@ == data + sack_points(peer_before, blocks@.take(i as int), seg.ts, acked),
            decreases blocks@.len() - i,
        {
            proof {
                assert(blocks@.take(i + 1).drop_last() =~= blocks@.take(i as int));
                lemma_blocks_fit_prefix(peer_before, blocks@, i + 1);
            }
            let rel: i64 = unfold(&mut peer, blocks[i].0);
            out.push(SeqSample { t: seg.ts, dir: acked, rel, len: 0, kind: SeqKind::Sack });
            i = i + 1;
            proof {
                assert(out@ =~= data + sack_points(
                    peer_before,
                    blocks@.take(i as int),
                    seg.ts,
                    acked,
                ));
            }
        }
        proof {
            assert(blocks@.take(i as int) =~= blocks@);
        }
        match dir {
            Direction::OriginToResponder => {
                self.frontier_o2r = own;
                self.frontier_r2o = peer;
            },
            Direction::ResponderToOrigin => {
                self.frontier_r2o = own;
                self.frontier_o2r = peer;
            },
        }
        proof {
            assert(out@ =~= old(self)@.seq_points(*seg, dir, *sample));
            assert(self@ =~= old(self)@.frontiers_moved(*seg, dir));
        }
        out
    }

    /// Records the time/sequence points of `seg`, where they are asked for.
    fn collect_seq_points(
        &mut self,
        seg: &Segment,
        dir: Direction,
        sample: &MetricSample,
        cfg: &EngineConfig,
        budget: &mut Budget,
    )
        requires
            old(budget).collected <= old(budget).limit,
            cfg.collect_seq_timeline ==> {
                &&& seg.payload_len > 0 ==> unfolding_fits(old(self)@.frontier(dir), seg.seq)
                &&& blocks_fit(old(self)@.frontier(dir.reverse()), seg.options.sack_blocks@)
            },
        ensures
            (Ledger { track: final(self)@, budget: *final(budget) }) == (Ledger {
                track: old(self)@,
                budget: *old(budget),
            }).with_seq_points(*seg, dir, *sample, *cfg),
    {
        if budget.overflowed || !cfg.collect_seq_timeline {
            return ;
        }
        let points = self.push_seq_points(seg, dir, sample);
        let ghost moved = self@;
        keep(&mut self.seq, &points, budget);
        proof {
            assert(self@ =~= (TrackModel { seq: self.seq@, ..moved }));
        }
    }

    /// Records the bytes outstanding in both directions, where they are asked for.
    fn record_inflight(&mut self, t: Nanos, cfg: &EngineConfig, budget: &mut Budget)
        requires
            old(budget).collected <= old(budget).limit,
        ensures
            (Ledger { track: final(self)@, budget: *final(budget) }) == (Ledger {
                track: old(self)@,
                budget: *old(budget),
            }).with_inflight(t, *cfg),
    {
        if !cfg.collect_inflight_timeline {
            return ;
        }
        let mut points: Vec<InFlightSample> = Vec::new();
        if let Some(bytes) = self.metrics.in_flight(Direction::OriginToResponder) {
            points.push(InFlightSample { t, dir: SampleDir::OriginToResponder, bytes });
        }
        if let Some(bytes) = self.metrics.in_flight(Direction::ResponderToOrigin) {
            points.push(InFlightSample { t, dir: SampleDir::ResponderToOrigin, bytes });
        }
        proof {
            assert(points@ =~= self@.inflight_points(t));
        }
        let ghost before = self@;
        keep(&mut self.inflight, &points, budget);
        proof {
            assert(self@ =~= (TrackModel { inflight: self.inflight@, ..before }));
        }
    }

    /// Records the round trip that `sample` carries, where round trips are asked for.
    fn record_rtt(
        &mut self,
        dir: Direction,
        sample: &MetricSample,
        cfg: &EngineConfig,
        budget: &mut Budget,
    )
        requires
            old(budget).collected <= old(budget).limit,
        ensures
            (Ledger { track: final(self)@, budget: *final(budget) }) == (Ledger {
                track: old(self)@,
                budget: *old(budget),
            }).with_rtt(dir, *sample, *cfg),
    {
        if !cfg.collect_rtt_timeline {
            return ;
        }
        if let Some(rtt) = sample.rtt {
            let acked = dir.opposite();
            let before = match acked {
                Direction::OriginToResponder => self.srtt_o2r,
                Direction::ResponderToOrigin => self.srtt_r2o,
            };
            let srtt = match before {
                None => rtt,
                Some(s) => Nanos(((s.0 as u128 * 7 + rtt.0 as u128) / 8) as u64),
            };
            let point = RttSample { t: sample.t, dir: acked.sample_dir(), rtt, srtt };
            let mut points: Vec<RttSample> = Vec::new();
            points.push(point);
            proof {
                assert(points@ =~= seq![point]);
            }
            let ghost track = self@;
            keep(&mut self.rtt, &points, budget);
            match acked {
                Direction::OriginToResponder => self.srtt_o2r = Some(srtt),
                Direction::ResponderToOrigin => self.srtt_r2o = Some(srtt),
            }
            proof {
                assert(self@ =~= (Ledger { track: old(self)@, budget: *old(budget) }).with_rtt(
                    dir,
                    *sample,
                    *cfg,
                ).track);
            }
        }
    }

    /// Records the rates of both directions, where they are asked for.
    fn record_throughput(&mut self, t: Nanos, cfg: &EngineConfig, budget: &mut Budget)
        requires
            old(budget).collected <= old(budget).limit,
        ensures
            (Ledger { track: final(self)@, budget: *final(budget) }) == (Ledger {
                track: old(self)@,
                budget: *old(budget),
            }).with_throughput(t, *cfg),
    {
        if !cfg.collect_throughput_timeline {
            return ;
        }
        let mut points: Vec<ThroughputSample> = Vec::new();
        if let Some((throughput_bps, goodput_bps)) = self.metrics.throughput_at(
            Direction::OriginToResponder,
            t,
            cfg,
        ) {
            let dir = SampleDir::OriginToResponder;
            points.push(ThroughputSample { t, dir, throughput_bps, goodput_bps });
        }
        if let Some((throughput_bps, goodput_bps)) = self.metrics.throughput_at(
            Direction::ResponderToOrigin,
            t,
            cfg,
        ) {
            let dir = SampleDir::ResponderToOrigin;
            points.push(ThroughputSample { t, dir, throughput_bps, goodput_bps });
        }
        proof {
            assert(points@ =~= self@.throughput_points(t, cfg.throughput_window));
        }
        let ghost before = self@;
        keep(&mut self.throughput, &points, budget);
        proof {
            assert(self@ =~= (TrackModel { throughput: self.throughput@, ..before }));
        }
    }

    /// Derives metrics from `seg` and records everything asked for.
    fn record_metrics(
        &mut self,
        seg: &Segment,
        dir: Direction,
        cfg: &EngineConfig,
        budget: &mut Budget,
    )
        requires
            old(budget).collected <= old(budget).limit,
            cfg.collect_seq_timeline ==> {
                &&& seg.payload_len > 0 ==> unfolding_fits(old(self)@.frontier(dir), seg.seq)
                &&& blocks_fit(old(self)@.frontier(dir.reverse()), seg.options.sack_blocks@)
            },
        ensures
            (Ledger { track: final(self)@, budget: *final(budget) }) == (Ledger {
                track: old(self)@,
                budget: *old(budget),
            }).with_metrics(*seg, dir, *cfg),
    {
        proof {
            reveal(Ledger::with_metrics);
        }
        let wanted = cfg.series_collection.collects(self.conn.id) || cfg.collect_seq_timeline
            || cfg.collect_inflight_timeline || cfg.collect_rtt_timeline
            || cfg.collect_throughput_timeline;
        if budget.overflowed || !wanted {
            return ;
        }
        let sample = self.metrics.observe(seg, dir, cfg);
        proof {
            assert(self@ =~= (TrackModel {
                metrics: old(self)@.metrics.after(*seg, dir, *cfg),
                ..old(self)@
            }));
        }
        self.record_sample(sample, cfg, budget);
        self.collect_seq_points(seg, dir, &sample, cfg, budget);
        self.record_inflight(seg.ts, cfg, budget);
        self.record_rtt(dir, &sample, cfg, budget);
        self.record_throughput(seg.ts, cfg, budget);
    }
}

impl ConnTrack {
    /// Folds `seg` into this instance.
    fn join(&mut self, seg: &Segment, dir: Direction, cfg: &EngineConfig, budget: &mut Budget)
        requires
            old(budget).collected <= old(budget).limit,
            old(self)@.has_room(*seg, dir, *cfg),
            old(self).dated(),
        ensures
            final(self).dated(),
            (Ledger { track: final(self)@, budget: *final(budget) }) == (Ledger {
                track: old(self)@.accounted(*seg, dir).lifecycle(*seg, dir),
                budget: *old(budget),
            }).with_state(seg.ts, *cfg).with_metrics(*seg, dir, *cfg),
            final(self)@.conn.id == old(self)@.conn.id,
            final(budget).collected <= final(budget).limit,
    {
        proof {
            lemma_counting_keeps_frontiers(self@, *seg, dir);
            lemma_ledger_keeps_identity(
                Ledger {
                    track: self@.accounted(*seg, dir).lifecycle(*seg, dir),
                    budget: *budget,
                },
                *seg,
                dir,
                *cfg,
            );
            lemma_ledger_keeps_identity(
                (Ledger {
                    track: self@.accounted(*seg, dir).lifecycle(*seg, dir),
                    budget: *budget,
                }).with_state(seg.ts, *cfg),
                *seg,
                dir,
                *cfg,
            );
        }
        let ghost (before, room) = (*self, *budget);
        let oldest = self.oldest;
        self.account(seg, dir);
        self.apply_state(seg, dir);
        self.record_state(seg.ts, cfg, budget);
        self.record_metrics(seg, dir, cfg, budget);
        self.oldest = if seg.ts.0 < oldest.0 {
            seg.ts
        } else {
            oldest
        };
        proof {
            crate::recording::lemma_joining_extends(before@, room, *seg, dir, *cfg);
            crate::recording::lemma_extending_keeps_bound(before@, self@, seg.ts, oldest);
        }
    }

    /// Accounts for the segment that opened this instance.
    fn start(&mut self, seg: &Segment, dir: Direction, cfg: &EngineConfig, budget: &mut Budget)
        requires
            old(budget).collected <= old(budget).limit,
            old(self)@.has_room(*seg, dir, *cfg),
            old(self).dated(),
        ensures
            final(self).dated(),
            (Ledger { track: final(self)@, budget: *final(budget) }) == (Ledger {
                track: if seg.flags.has(TcpFlags::FIN) {
                    old(self)@.accounted(*seg, dir).with_fin(dir)
                } else {
                    old(self)@.accounted(*seg, dir)
                },
                budget: *old(budget),
            }).with_metrics(*seg, dir, *cfg).with_state(seg.ts, *cfg),
            final(self)@.conn.id == old(self)@.conn.id,
            final(budget).collected <= final(budget).limit,
    {
        proof {
            lemma_counting_keeps_frontiers(self@, *seg, dir);
        }
        let ghost (before, room) = (*self, *budget);
        let oldest = self.oldest;
        self.account(seg, dir);
        if seg.flags.fin() {
            self.note_fin(dir);
        }
        proof {
            let ledger = Ledger { track: self@, budget: *budget };
            lemma_ledger_keeps_identity(ledger, *seg, dir, *cfg);
            lemma_ledger_keeps_identity(ledger.with_metrics(*seg, dir, *cfg), *seg, dir, *cfg);
        }
        self.record_metrics(seg, dir, cfg, budget);
        self.record_state(seg.ts, cfg, budget);
        self.oldest = if seg.ts.0 < oldest.0 {
            seg.ts
        } else {
            oldest
        };
        proof {
            crate::recording::lemma_opening_extends(before@, room, *seg, dir, *cfg);
            crate::recording::lemma_extending_keeps_bound(before@, self@, seg.ts, oldest);
        }
    }

    /// The bound on the times of the samples holds.
    spec fn dated(&self) -> bool {
        crate::recording::none_before(self@, self.oldest)
    }

    /// Drops the samples before `horizon` and gives their room back.
    fn age(&mut self, horizon: Nanos, budget: &mut Budget)
        requires
            old(self).dated(),
        ensures
            final(self).dated(),
            final(self)@ == old(self)@.aged(horizon),
            *final(budget) == old(budget).released(
                (samples_of(old(self)@) - samples_of(old(self)@.aged(horizon))) as nat,
            ),
    {
        let ghost before = self@;
        if self.oldest.0 >= horizon.0 {
            proof {
                crate::recording::law_recent_instances_stay(before, horizon);
            }
            return ;
        }
        proof {
            crate::retention::law_only_old_samples_age_out(self.series@, horizon);
            crate::retention::law_only_old_samples_age_out(self.states@, horizon);
            crate::retention::law_only_old_samples_age_out(self.seq@, horizon);
            crate::retention::law_only_old_samples_age_out(self.inflight@, horizon);
            crate::retention::law_only_old_samples_age_out(self.rtt@, horizon);
            crate::retention::law_only_old_samples_age_out(self.throughput@, horizon);
        }
        budget.release(keep_recent(&mut self.series, horizon));
        budget.release(keep_recent(&mut self.states, horizon));
        budget.release(keep_recent(&mut self.seq, horizon));
        budget.release(keep_recent(&mut self.inflight, horizon));
        budget.release(keep_recent(&mut self.rtt, horizon));
        budget.release(keep_recent(&mut self.throughput, horizon));
        let latest = Nanos(u64::MAX);
        let in_series = earliest(&self.series, latest);
        let in_states = earliest(&self.states, in_series);
        let in_seq = earliest(&self.seq, in_states);
        let in_inflight = earliest(&self.inflight, in_seq);
        let in_rtt = earliest(&self.rtt, in_inflight);
        self.oldest = earliest(&self.throughput, in_rtt);
        proof {
            assert(self@ =~= before.aged(horizon));
        }
    }
}

proof fn lemma_counting_keeps_frontiers(track: TrackModel, seg: Segment, dir: Direction)
    ensures
        track.accounted(seg, dir).conn.id == track.conn.id,
        track.accounted(seg, dir).frontier_o2r == track.frontier_o2r,
        track.accounted(seg, dir).frontier_r2o == track.frontier_r2o,
        track.accounted(seg, dir).lifecycle(seg, dir).conn.id == track.conn.id,
        track.accounted(seg, dir).lifecycle(seg, dir).frontier_o2r == track.frontier_o2r,
        track.accounted(seg, dir).lifecycle(seg, dir).frontier_r2o == track.frontier_r2o,
{
    reveal(TrackModel::accounted);
    reveal(TrackModel::lifecycle);
}

/// Recording changes neither what a connection is nor its counters, and stays within the limit.
proof fn lemma_ledger_keeps_identity(
    ledger: Ledger,
    seg: Segment,
    dir: Direction,
    cfg: EngineConfig,
)
    requires
        ledger.budget.collected <= ledger.budget.limit,
    ensures
        ledger.with_state(seg.ts, cfg).track.conn == ledger.track.conn,
        ledger.with_state(seg.ts, cfg).track.frontier_o2r == ledger.track.frontier_o2r,
        ledger.with_state(seg.ts, cfg).track.frontier_r2o == ledger.track.frontier_r2o,
        ledger.with_state(seg.ts, cfg).budget.collected <= ledger.with_state(
            seg.ts,
            cfg,
        ).budget.limit,
        ledger.with_metrics(seg, dir, cfg).track.conn == ledger.track.conn,
        ledger.with_metrics(seg, dir, cfg).budget.collected <= ledger.with_metrics(
            seg,
            dir,
            cfg,
        ).budget.limit,
{
    reveal(Ledger::with_state);
    reveal(Ledger::with_metrics);
}

/// Appends the items that the budget allows.
fn keep<T: Copy>(list: &mut Vec<T>, more: &Vec<T>, budget: &mut Budget)
    requires
        old(budget).collected <= old(budget).limit,
    ensures
        final(list)@ == kept(*old(budget), old(list)@, more@),
        *final(budget) == old(budget).charged(more@.len()),
{
    let ghost start = *budget;
    let mut i: usize = 0;
    while i < more.len()
        invariant
            i <= more@.len(),
            start.collected <= start.limit,
            *budget == start.charged(i as nat),
            list@ == kept(start, old(list)@, more@.take(i as int)),
        decreases more@.len() - i,
    {
        let ghost before = list@;
        proof {
            law_budget_charges_add_up(start, i as nat, 1);
        }
        if budget.take_one() {
            list.push(more[i]);
        }
        i = i + 1;
        proof {
            assert(list@ =~= kept(start, old(list)@, more@.take(i as int)));
        }
    }
    proof {
        assert(more@.take(i as int) =~= more@);
    }
}

proof fn lemma_blocks_fit_prefix(frontier: Frontier, blocks: Seq<(TcpSeq, TcpSeq)>, n: int)
    requires
        0 <= n <= blocks.len(),
        blocks_fit(frontier, blocks),
    ensures
        blocks_fit(frontier, blocks.take(n)),
    decreases blocks.len() - n,
{
    if n == blocks.len() {
        assert(blocks.take(n) =~= blocks);
    } else {
        lemma_blocks_fit_prefix(frontier, blocks, n + 1);
        assert(blocks.take(n + 1).drop_last() =~= blocks.take(n));
    }
}

/// Tracks connections: items go in, connections come out.
pub struct Tracker {
    config: EngineConfig,
    conns: Vec<ConnTrack>,
    live: PairIndex,
    budget: Budget,
}

impl View for Tracker {
    type V = TrackerModel;

    closed spec fn view(&self) -> TrackerModel {
        TrackerModel {
            config: self.config,
            conns: self.conns@.map_values(|t: ConnTrack| t@),
            budget: self.budget,
        }
    }
}

/// The newest place of a pair holds it.
pub proof fn lemma_newest(pairs: Seq<EndpointPair>, pair: EndpointPair)
    ensures
        newest(pairs, pair) matches Some(i) ==> 0 <= i < pairs.len() && pairs[i] == pair,
    decreases pairs.len(),
{
    if pairs.len() > 0 && pairs.last() != pair {
        lemma_newest(pairs.drop_last(), pair);
    }
}

impl Tracker {
    /// The index leads to the newest instance of every pair, and the budget is within its limit.
    pub closed spec fn wf(&self) -> bool {
        &&& self.budget.collected <= self.budget.limit
        &&& forall|i: int| 0 <= i < self.conns@.len() ==> (#[trigger] self.conns@[i]).dated()
        &&& forall|pair: EndpointPair|
            {
                &&& #[trigger] self.live@.contains_key(pair) <==> newest(self@.pairs(), pair) is Some
                &&& self.live@.contains_key(pair) ==> newest(self@.pairs(), pair) == Some(
                    self.live@[pair] as int,
                )
            }
    }

    /// A tracker that has seen nothing.
    #[must_use]
    pub fn new(config: EngineConfig) -> (res: Tracker)
        ensures
            res.wf(),
            res@ == TrackerModel::fresh(config),
    {
        let res = Tracker {
            config,
            conns: Vec::new(),
            live: PairIndex::new(),
            budget: Budget::new(config),
        };
        proof {
            assert(res@.conns =~= Seq::<TrackModel>::empty());
            assert(res@ =~= TrackerModel::fresh(config));
        }
        res
    }

    /// The instance that `seg` joins, if it joins one.
    fn find_live(&self, seg: &Segment, pair: EndpointPair, src: Endpoint) -> (res: Option<usize>)
        requires
            self.wf(),
            src == seg.flow.source_spec(),
            pair == EndpointPair::of(seg.flow.source_spec(), seg.flow.destination_spec()),
        ensures
            match res {
                Some(i) => i < self@.conns.len() && self@.joined(*seg) == Some(i as int),
                None => self@.joined(*seg) is None,
            },
    {
        match self.live.get(pair) {
            None => None,
            Some(i) => {
                proof {
                    assert(self.live@.contains_key(pair));
                    lemma_newest(self@.pairs(), pair);
                }
                if self.should_split(i, seg, src) {
                    None
                } else {
                    Some(i)
                }
            },
        }
    }

    /// Whether `seg` opens a new instance instead of joining the one at `i`.
    fn should_split(&self, i: usize, seg: &Segment, src: Endpoint) -> (res: bool)
        requires
            i < self@.conns.len(),
            src == seg.flow.source_spec(),
        ensures
            res == splits(self@.conns[i as int], *seg, self@.config),
    {
        let track = &self.conns[i];
        if is_bare_syn(seg.flags) {
            return track.conn.state.is_terminal() || seg.ts.since(track.conn.last_at).0
                > self.config.dead_after.0;
        }
        if track.conn.state == ConnState::Established {
            let dir = track.direction_of(src);
            if let Some(base) = track.baseline(dir) {
                return is_backward_reset(base, seg.seq, self.config.reset_threshold);
            }
        }
        false
    }

    /// The number of the next instance of `pair`, unless every number is taken.
    fn instance_number(&self, seg: &Segment, pair: EndpointPair) -> (res: Option<u32>)
        requires
            self.wf(),
            pair == EndpointPair::of(seg.flow.source_spec(), seg.flow.destination_spec()),
        ensures
            match res {
                Some(n) => n == self@.next_instance(*seg),
                None => self@.next_instance(*seg) > u32::MAX,
            },
    {
        match self.live.get(pair) {
            None => Some(0),
            Some(i) => {
                proof {
                    assert(self.live@.contains_key(pair));
                    lemma_newest(self@.pairs(), pair);
                }
                let last: u32 = self.conns[i].conn.id.instance;
                if last == u32::MAX {
                    None
                } else {
                    Some(last + 1)
                }
            },
        }
    }

    /// Whether the counters have room for `item`; `law_counters_have_room` says when they always do.
    #[must_use]
    pub fn can_observe(&self, item: &Item) -> (res: bool)
        requires
            self.wf(),
        ensures
            res == self@.has_room(*item),
    {
        match item {
            Item::Tick(_) => true,
            Item::Segment(seg) => {
                let src = seg.flow.source();
                let dst = seg.flow.destination();
                let pair = EndpointPair::new(src, dst);
                match self.find_live(seg, pair, src) {
                    Some(i) => {
                        let track = &self.conns[i];
                        track.can_take(seg, track.direction_of(src), &self.config)
                    },
                    None => match self.instance_number(seg, pair) {
                        None => false,
                        Some(instance) => {
                            let track = ConnTrack::open(pair, instance, seg, src, dst);
                            track.can_take(seg, track.direction_of(src), &self.config)
                        },
                    },
                }
            },
        }
    }

    /// Folds one item in, once its time has let samples age out where the configuration says so.
    pub fn observe(&mut self, item: &Item)
        requires
            old(self).wf(),
            old(self)@.has_room(*item),
        ensures
            final(self).wf(),
            final(self)@ == old(self)@.after(*item),
    {
        match item {
            Item::Tick(t) => self.age(*t),
            Item::Segment(seg) => {
                proof {
                    lemma_ageing_keeps_room(self@, seg.ts, *item);
                }
                self.age(seg.ts);
                self.observe_segment(seg);
            },
        }
    }

    /// Lets samples age out once it is `now`.
    fn age(&mut self, now: Nanos)
        requires
            old(self).wf(),
        ensures
            final(self).wf(),
            final(self)@ == old(self)@.aged(now),
    {
        let ghost before = *self;
        if let Some(horizon) = self.config.retention.horizon(now) {
            let ghost aged = before@.conns.map_values(|t: TrackModel| t.aged(horizon));
            let mut i: usize = 0;
            while i < self.conns.len()
                invariant
                    i <= self.conns@.len() == before.conns@.len(),
                    before.wf(),
                    self.config == before.config,
                    self.live == before.live,
                    aged == before@.conns.map_values(|t: TrackModel| t.aged(horizon)),
                    self.budget == before.budget.released(
                        outdated(before@.conns.take(i as int), horizon),
                    ),
                    forall|k: int|
                        0 <= k < i ==> (#[trigger] self.conns@[k])@ == aged[k]
                            && self.conns@[k].dated(),
                    forall|k: int|
                        i <= k < self.conns@.len() ==> #[trigger] self.conns@[k]
                            == before.conns@[k],
                decreases self.conns@.len() - i,
            {
                proof {
                    assert(before@.conns.take(i + 1).drop_last() =~= before@.conns.take(i as int));
                    assert(before@.conns.take(i + 1).last() == self.conns@[i as int]@);
                    law_budget_charges_add_up(
                        before.budget,
                        outdated(before@.conns.take(i as int), horizon),
                        (samples_of(self.conns@[i as int]@) - samples_of(
                            self.conns@[i as int]@.aged(horizon),
                        )) as nat,
                    );
                }
                self.conns[i].age(horizon, &mut self.budget);
                i = i + 1;
            }
            proof {
                assert(before@.conns.take(i as int) =~= before@.conns);
                assert(self@.conns =~= aged);
                assert(self@.pairs() =~= before@.pairs());
            }
        }
    }

    fn observe_segment(&mut self, seg: &Segment)
        requires
            old(self).wf(),
            old(self)@.has_room(Item::Segment(*seg)),
        ensures
            final(self).wf(),
            final(self)@ == old(self)@.recorded(Item::Segment(*seg)),
    {
        let src = seg.flow.source();
        let dst = seg.flow.destination();
        let pair = EndpointPair::new(src, dst);
        match self.find_live(seg, pair, src) {
            Some(i) => self.join_instance(i, seg, src),
            None => self.create_instance(pair, seg, src, dst),
        }
    }

    /// Folds `seg` into the instance at `i`.
    fn join_instance(&mut self, i: usize, seg: &Segment, src: Endpoint)
        requires
            old(self).wf(),
            i < old(self)@.conns.len(),
            src == seg.flow.source_spec(),
            old(self)@.conns[i as int].has_room(
                *seg,
                direction_from(old(self)@.conns[i as int].conn, src),
                old(self)@.config,
            ),
        ensures
            final(self).wf(),
            final(self)@ == old(self)@.after_joining(i as int, *seg),
    {
        let ghost before = *self;
        let dir = self.conns[i].direction_of(src);
        self.conns[i].join(seg, dir, &self.config, &mut self.budget);
        proof {
            assert(self@.conns =~= before@.after_joining(i as int, *seg).conns);
            assert(self@.pairs() =~= before@.pairs());
        }
    }

    /// Opens a new instance with `seg`.
    fn create_instance(&mut self, pair: EndpointPair, seg: &Segment, src: Endpoint, dst: Endpoint)
        requires
            old(self).wf(),
            old(self)@.joined(*seg) is None,
            old(self)@.has_room(Item::Segment(*seg)),
            src == seg.flow.source_spec(),
            dst == seg.flow.destination_spec(),
            pair == EndpointPair::of(src, dst),
        ensures
            final(self).wf(),
            final(self)@ == old(self)@.after_opening(*seg),
    {
        let ghost before = *self;
        let instance: u32 = match self.instance_number(seg, pair) {
            Some(n) => n,
            None => 0,
        };
        let mut track = ConnTrack::open(pair, instance, seg, src, dst);
        let dir = track.direction_of(src);
        track.start(seg, dir, &self.config, &mut self.budget);
        let position: usize = self.conns.len();
        self.conns.push(track);
        self.live.insert(pair, position);
        proof {
            assert(self@.conns =~= before@.after_opening(*seg).conns);
            assert(self@.pairs() =~= before@.pairs().push(pair));
            assert(before@.pairs().push(pair).drop_last() =~= before@.pairs());
        }
    }

    /// The instances in report order.
    #[must_use]
    pub fn into_connections(self) -> (res: Vec<Connection>)
        ensures
            res@ == crate::sort::stably_sorted(self@.connections(), self@.connections()),
            crate::sort::is_stable_order(self@.connections(), self@.report_order()),
    {
        let all = self.all_connections();
        let order = stable_order(&all);
        pick(&all, &order)
    }

    /// The instances in the order in which they were opened.
    fn all_connections(&self) -> (res: Vec<Connection>)
        ensures
            res@ == self@.connections(),
    {
        let mut out: Vec<Connection> = Vec::new();
        let mut i: usize = 0;
        while i < self.conns.len()
            invariant
                i <= self.conns@.len(),
                out@ == self@.connections().take(i as int),
            decreases self.conns@.len() - i,
        {
            out.push(self.conns[i].conn);
            i = i + 1;
            proof {
                assert(out@ =~= self@.connections().take(i as int));
            }
        }
        proof {
            assert(self@.connections().take(i as int) =~= self@.connections());
        }
        out
    }

    /// The failure to report once more samples were due than may be kept.
    fn ceiling(&self) -> (res: Option<MetricError>)
        ensures
            res == (if self@.budget.overflowed {
                Some(ceiling_error(self@.budget))
            } else {
                None
            }),
    {
        if self.budget.overflowed {
            Some(
                MetricError::SampleCeiling {
                    samples: self.budget.collected.saturating_add(1),
                    limit: self.budget.limit,
                },
            )
        } else {
            None
        }
    }

    /// The instances and their metric series in report order, or the failure where more samples
    /// were due than may be kept.
    pub fn into_metrics(self) -> (res: Result<Vec<ConnectionMetrics>, MetricError>)
        ensures
            match res {
                Err(e) => self@.budget.overflowed && e == ceiling_error(self@.budget),
                Ok(list) => {
                    &&& !self@.budget.overflowed
                    &&& crate::sort::is_stable_order(self@.connections(), self@.report_order())
                    &&& list@.len() == self@.conns.len()
                    &&& forall|i: int|
                        0 <= i < list@.len() ==> {
                            let track = self@.conns[self@.report_order()[i] as int];
                            (#[trigger] list@[i]).conn == track.conn && list@[i].series@
                                == track.series
                        }
                },
            },
    {
        if let Some(e) = self.ceiling() {
            return Err(e);
        }
        let all = self.all_connections();
        let order = stable_order(&all);
        let mut out: Vec<ConnectionMetrics> = Vec::new();
        let mut i: usize = 0;
        while i < order.len()
            invariant
                i <= order@.len(),
                order@ == self@.report_order(),
                crate::sort::is_stable_order(self@.connections(), order@),
                forall|k: int| 0 <= k < order@.len() ==> (#[trigger] order@[k]) < self@.conns.len(),
                order@.len() == self@.conns.len(),
                out@.len() == i,
                forall|k: int|
                    0 <= k < i ==> {
                        let track = self@.conns[order@[k] as int];
                        (#[trigger] out@[k]).conn == track.conn && out@[k].series@ == track.series
                    },
            decreases order@.len() - i,
        {
            let track = &self.conns[order[i]];
            out.push(ConnectionMetrics { conn: track.conn, series: copied(&track.series) });
            i = i + 1;
        }
        Ok(out)
    }

    /// The timeline of everything recorded, or the failure where more samples were due than may
    /// be kept.
    pub fn into_timeline(self) -> (res: Result<Timeline, MetricError>)
        ensures
            match res {
                Err(e) => self@.budget.overflowed && e == ceiling_error(self@.budget),
                Ok(timeline) => {
                    let recordings = self@.conns.map_values(|t: TrackModel| t.recording());
                    &&& !self@.budget.overflowed
                    &&& timeline@.shows(
                        recordings,
                        crate::timeline::last_activity(recordings),
                    )
                },
            },
    {
        if let Some(e) = self.ceiling() {
            return Err(e);
        }
        let ghost all = self@.conns;
        let mut recordings: Vec<Recording> = Vec::new();
        for track in it: self.conns
            invariant
                all == it.seq().map_values(|t: ConnTrack| t@),
                recordings@.len() == it.index(),
                forall|k: int|
                    0 <= k < it.index() ==> RecordingModel::of(#[trigger] recordings@[k])
                        == all[k].recording(),
        {
            let recording: Recording = (
                track.conn,
                track.states,
                track.seq,
                track.inflight,
                track.rtt,
                track.throughput,
            );
            proof {
                assert(RecordingModel::of(recording) =~= all[it.index()].recording());
            }
            recordings.push(recording);
        }
        proof {
            assert(recordings@.map_values(|r: Recording| RecordingModel::of(r)) =~= all.map_values(
                |t: TrackModel| t.recording(),
            ));
        }
        Ok(Timeline::with_seq(recordings))
    }
}

/// The failure that an overflowed budget stands for: one sample more than was kept.
pub open spec fn ceiling_error(budget: Budget) -> MetricError {
    MetricError::SampleCeiling {
        samples: if budget.collected < usize::MAX {
            (budget.collected + 1) as usize
        } else {
            usize::MAX
        },
        limit: budget.limit,
    }
}

/// A copy of a list.
fn copied<T: Copy>(list: &Vec<T>) -> (out: Vec<T>)
    ensures
        out@ == list@,
{
    let mut out: Vec<T> = Vec::new();
    let mut i: usize = 0;
    while i < list.len()
        invariant
            i <= list@.len(),
            out@ == list@.take(i as int),
        decreases list@.len() - i,
    {
        out.push(list[i]);
        i = i + 1;
        proof {
            assert(out@ =~= list@.take(i as int));
        }
    }
    proof {
        assert(list@.take(i as int) =~= list@);
    }
    out
}

/// A tracker that has seen `items`.
#[must_use]
pub fn run(items: &[Item], config: EngineConfig) -> (res: Tracker)
    requires
        TrackerModel::fresh(config).has_room_for_all(items@),
    ensures
        res.wf(),
        res@ == TrackerModel::fresh(config).after_all(items@),
{
    let mut tracker = Tracker::new(config);
    let mut i: usize = 0;
    while i < items.len()
        invariant
            i <= items@.len(),
            tracker.wf(),
            TrackerModel::fresh(config).has_room_for_all(items@),
            tracker@ == TrackerModel::fresh(config).after_all(items@.take(i as int)),
        decreases items@.len() - i,
    {
        proof {
            lemma_room_for_prefix(TrackerModel::fresh(config), items@, i + 1);
            assert(items@.take(i + 1).drop_last() =~= items@.take(i as int));
        }
        tracker.observe(&items[i]);
        i = i + 1;
    }
    proof {
        assert(items@.take(i as int) =~= items@);
    }
    tracker
}

/// Tracks every connection in `items` and reports them.
#[must_use]
pub fn track(items: &[Item], config: EngineConfig) -> (res: Vec<Connection>)
    requires
        TrackerModel::fresh(config).has_room_for_all(items@),
    ensures
        ({
            let conns = TrackerModel::fresh(config).after_all(items@).connections();
            res@ == crate::sort::stably_sorted(conns, conns)
        }),
{
    run(items, config).into_connections()
}

/// Where there is room for all of `items`, there is room for the first `n` of them.
pub proof fn lemma_room_for_prefix(tracker: TrackerModel, items: Seq<Item>, n: int)
    requires
        0 <= n <= items.len(),
        tracker.has_room_for_all(items),
    ensures
        tracker.has_room_for_all(items.take(n)),
    decreases items.len() - n,
{
    if n == items.len() {
        assert(items.take(n) =~= items);
    } else {
        lemma_room_for_prefix(tracker, items, n + 1);
        assert(items.take(n + 1).drop_last() =~= items.take(n));
    }
}

/// A tick changes no connection, and leaves a tracker from which no sample ages out as it is.
pub proof fn law_ticks_are_inert(tracker: TrackerModel, t: Nanos)
    ensures
        tracker.has_room(Item::Tick(t)),
        tracker.after(Item::Tick(t)) == tracker.aged(t),
        tracker.after(Item::Tick(t)).connections() == tracker.connections(),
        tracker.config.retention == RetentionPolicy::FailFast ==> tracker.after(Item::Tick(t))
            == tracker,
{
    lemma_ageing_drops_samples_only(tracker, t);
}

/// The two instances differ in their samples at most.
pub open spec fn alike_but_for_samples(a: TrackModel, b: TrackModel) -> bool {
    a == (TrackModel {
        series: a.series,
        states: a.states,
        seq: a.seq,
        inflight: a.inflight,
        rtt: a.rtt,
        throughput: a.throughput,
        ..b
    })
}

/// Ageing drops samples and gives back their room; all else stays.
pub proof fn lemma_ageing_drops_samples_only(tracker: TrackerModel, now: Nanos)
    ensures
        ({
            let next = tracker.aged(now);
            &&& next.config == tracker.config
            &&& next.pairs() == tracker.pairs()
            &&& next.connections() == tracker.connections()
            &&& next.conns.len() == tracker.conns.len()
            &&& forall|i: int|
                0 <= i < next.conns.len() ==> alike_but_for_samples(
                    #[trigger] next.conns[i],
                    tracker.conns[i],
                )
            &&& next.budget == (Budget { collected: next.budget.collected, ..tracker.budget })
            &&& next.budget.collected <= tracker.budget.collected
        }),
{
    assert(tracker.aged(now).pairs() =~= tracker.pairs());
    assert(tracker.aged(now).connections() =~= tracker.connections());
}

/// Ageing changes neither which instance a segment joins nor whether the counters have room for
/// it.
pub proof fn lemma_ageing_keeps_room(tracker: TrackerModel, now: Nanos, item: Item)
    ensures
        tracker.aged(now).has_room(item) == tracker.has_room(item),
        item matches Item::Segment(seg) ==> tracker.aged(now).joined(seg) == tracker.joined(seg)
            && tracker.aged(now).next_instance(seg) == tracker.next_instance(seg),
{
    let next = tracker.aged(now);
    lemma_ageing_drops_samples_only(tracker, now);
    if let Item::Segment(seg) = item {
        let pair = EndpointPair::of(seg.flow.source_spec(), seg.flow.destination_spec());
        lemma_newest(tracker.pairs(), pair);
        if let Some(i) = newest(tracker.pairs(), pair) {
            assert(alike_but_for_samples(next.conns[i], tracker.conns[i]));
        }
    }
}

/// Ageing gives back as much room as it drops samples.
proof fn lemma_ageing_releases_what_it_drops(conns: Seq<TrackModel>, horizon: Nanos)
    ensures
        samples_kept(conns.map_values(|t: TrackModel| t.aged(horizon))) + outdated(conns, horizon)
            == samples_kept(conns),
    decreases conns.len(),
{
    let aged = conns.map_values(|t: TrackModel| t.aged(horizon));
    if conns.len() > 0 {
        let track = conns.last();
        lemma_ageing_releases_what_it_drops(conns.drop_last(), horizon);
        assert(aged.drop_last() =~= conns.drop_last().map_values(
            |t: TrackModel| t.aged(horizon),
        ));
        crate::retention::law_only_old_samples_age_out(track.series, horizon);
        crate::retention::law_only_old_samples_age_out(track.states, horizon);
        crate::retention::law_only_old_samples_age_out(track.seq, horizon);
        crate::retention::law_only_old_samples_age_out(track.inflight, horizon);
        crate::retention::law_only_old_samples_age_out(track.rtt, horizon);
        crate::retention::law_only_old_samples_age_out(track.throughput, horizon);
    }
}

/// A number ahead of the baseline, even across a wrap, is never a reset; a number `back` behind
/// it is one exactly if `back` is more than the threshold.
pub proof fn law_only_far_backward_numbers_reset(baseline: TcpSeq, step: u32, threshold: u32)
    requires
        0 < step < crate::seq::HALF,
    ensures
        !backward_reset(baseline, crate::seq::advanced(baseline, step as int), threshold),
        backward_reset(crate::seq::advanced(baseline, step as int), baseline, threshold) <==> step
            > threshold,
{
}

/// From half the sequence space on, a threshold is never exceeded.
pub proof fn law_threshold_of_half_space_never_splits(
    baseline: TcpSeq,
    seq: TcpSeq,
    threshold: u32,
)
    requires
        threshold >= crate::seq::HALF - 1,
    ensures
        !backward_reset(baseline, seq, threshold),
{
}

/// The lifecycle never goes back; a connection is reset exactly if it was or a RST says so. Short
/// of that a FIN closes it if the other side's FIN was seen, and else leads at least into the
/// close.
pub proof fn law_lifecycle_never_goes_back(track: TrackModel, seg: Segment, dir: Direction)
    ensures
        track.lifecycle(seg, dir).conn.state.position() >= track.conn.state.position(),
        track.conn.state == ConnState::Reset ==> track.lifecycle(seg, dir) == track,
        track.lifecycle(seg, dir).conn.state == ConnState::Reset <==> track.conn.state
            == ConnState::Reset || seg.flags.has(TcpFlags::RST),
        track.conn.state != ConnState::Reset && !seg.flags.has(TcpFlags::RST) && seg.flags.has(
            TcpFlags::FIN,
        ) ==> ({
            let after = track.lifecycle(seg, dir).conn.state;
            if track.fin_seen(dir.reverse()) {
                after == ConnState::Closed
            } else {
                after.position() >= ConnState::FinWait.position()
            }
        }),
{
    reveal(TrackModel::lifecycle);
}

/// The answer to a SYN does not complete the handshake: a connection of which only a SYN was seen
/// is not established by a SYN-ACK, but by the first acknowledgement or payload after it.
pub proof fn law_answer_does_not_complete_the_handshake(
    track: TrackModel,
    answer: Segment,
    back: Direction,
    next: Segment,
    dir: Direction,
)
    requires
        track.conn.state == ConnState::SynSent,
        answer.flags.is_syn_ack(),
        !answer.flags.has(TcpFlags::RST) && !answer.flags.has(TcpFlags::FIN),
        !next.flags.has(TcpFlags::RST) && !next.flags.has(TcpFlags::FIN),
    ensures
        track.lifecycle(answer, back).conn.state == ConnState::SynReceived,
        track.lifecycle(answer, back).lifecycle(next, dir).conn.state == (if next.flags.has(
            TcpFlags::ACK,
        ) || next.payload_len > 0 {
            ConnState::Established
        } else {
            ConnState::SynReceived
        }),
{
    reveal(TrackModel::lifecycle);
}

/// Both sides of an exchange reach the same instance: the answer to a segment is looked up
/// under the same pair.
pub proof fn law_answers_reach_the_same_pair(tracker: TrackerModel, one: Segment, other: Segment)
    requires
        other.flow.source_spec() == one.flow.destination_spec(),
        other.flow.destination_spec() == one.flow.source_spec(),
    ensures
        newest(
            tracker.pairs(),
            EndpointPair::of(one.flow.source_spec(), one.flow.destination_spec()),
        ) == newest(
            tracker.pairs(),
            EndpointPair::of(other.flow.source_spec(), other.flow.destination_spec()),
        ),
        tracker.next_instance(one) == tracker.next_instance(other),
{
    crate::conn::law_both_directions_share_a_pair(
        one.flow.source_spec(),
        one.flow.destination_spec(),
    );
}

/// The frontier after each of `numbers` in turn.
pub open spec fn frontier_after_all(frontier: Frontier, numbers: Seq<TcpSeq>) -> Frontier
    decreases numbers.len(),
{
    if numbers.len() == 0 {
        frontier
    } else {
        frontier_after(frontier_after_all(frontier, numbers.drop_last()), numbers.last())
    }
}

/// The sum of the steps.
pub open spec fn step_sum(steps: Seq<u32>) -> nat
    decreases steps.len(),
{
    if steps.len() == 0 {
        0
    } else {
        step_sum(steps.drop_last()) + steps.last() as nat
    }
}

proof fn lemma_forward_step_moves_frontier(far: TcpSeq, rel: i64, step: u32)
    requires
        0 < step < crate::seq::HALF,
        rel + step <= i64::MAX,
    ensures
        frontier_after(Some((far, rel)), crate::seq::advanced(far, step as int)) == Some(
            (crate::seq::advanced(far, step as int), (rel + step) as i64),
        ),
{
    crate::seq::law_forward_step_precedes(far, step);
}

/// A stream that advances by steps of less than half the sequence space unfolds to the sum of
/// its steps, however often it wraps: offsets rise and never fold.
pub proof fn law_unfolding_never_folds(base: TcpSeq, steps: Seq<u32>)
    requires
        forall|i: int| 0 <= i < steps.len() ==> 0 < (#[trigger] steps[i]) < crate::seq::HALF,
        step_sum(steps) <= i64::MAX,
    ensures
        frontier_after_all(
            None,
            Seq::new(
                steps.len() + 1,
                |i: int| crate::seq::advanced(base, step_sum(steps.take(i)) as int),
            ),
        ) == Some((crate::seq::advanced(base, step_sum(steps) as int), step_sum(steps) as i64)),
    decreases steps.len(),
{
    let numbers = Seq::new(
        steps.len() + 1,
        |i: int| crate::seq::advanced(base, step_sum(steps.take(i)) as int),
    );
    assert(steps.take(steps.len() as int) =~= steps);
    if steps.len() == 0 {
        assert(numbers.drop_last() =~= Seq::empty());
        assert(crate::seq::advanced(base, 0) == base);
        assert(numbers.last() == base);
        assert(frontier_after_all(None, numbers.drop_last()) == None::<(TcpSeq, i64)>);
    } else {
        let rest = steps.drop_last();
        assert(rest =~= steps.take(steps.len() - 1));
        assert forall|i: int| 0 <= i < rest.len() implies 0 < (#[trigger] rest[i])
            < crate::seq::HALF by {
            assert(rest[i] == steps[i]);
        }
        law_unfolding_never_folds(base, rest);
        let before = Seq::new(
            rest.len() + 1,
            |i: int| crate::seq::advanced(base, step_sum(rest.take(i)) as int),
        );
        assert forall|i: int| 0 <= i < before.len() implies before[i] == numbers.drop_last()[i] by {
            assert(rest.take(i) =~= steps.take(i));
        }
        assert(before =~= numbers.drop_last());
        let far = crate::seq::advanced(base, step_sum(rest) as int);
        let next = crate::seq::advanced(base, step_sum(steps) as int);
        assert(0 < steps[steps.len() - 1] < crate::seq::HALF);
        crate::seq::law_advances_add_up(base, step_sum(rest) as int, steps.last() as int);
        lemma_forward_step_moves_frontier(far, step_sum(rest) as i64, steps.last());
        assert(numbers.last() == next);
    }
}

/// The offsets that `numbers` get in turn can all be held.
pub open spec fn unfolding_fits_all(numbers: Seq<TcpSeq>) -> bool {
    forall|i: int|
        0 <= i < numbers.len() ==> unfolding_fits(
            frontier_after_all(None, #[trigger] numbers.take(i)),
            numbers[i],
        )
}

/// The offset that the number at place `i` of `numbers` gets.
pub open spec fn offset_at(numbers: Seq<TcpSeq>, i: int) -> int {
    unfolded(frontier_after_all(None, numbers.take(i)), numbers[i])
}

proof fn lemma_frontier_is_greatest(numbers: Seq<TcpSeq>)
    requires
        numbers.len() > 0,
        unfolding_fits_all(numbers),
    ensures
        ({
            let frontier = frontier_after_all(None, numbers);
            &&& frontier is Some
            &&& frontier.unwrap().1 >= 0
            &&& frontier.unwrap().0 == crate::seq::advanced(numbers[0], frontier.unwrap().1 as int)
            &&& forall|i: int|
                0 <= i < numbers.len() ==> #[trigger] offset_at(numbers, i) <= frontier.unwrap().1
            &&& exists|i: int|
                0 <= i < numbers.len() && #[trigger] offset_at(numbers, i) == frontier.unwrap().1
        }),
    decreases numbers.len(),
{
    let rest = numbers.drop_last();
    let last = numbers.len() - 1;
    assert(rest =~= numbers.take(last));
    let before = frontier_after_all(None, rest);
    let after = frontier_after_all(None, numbers);
    assert(unfolding_fits(frontier_after_all(None, numbers.take(last)), numbers[last]));
    assert(offset_at(numbers, last) == unfolded(before, numbers[last]));
    if rest.len() == 0 {
        assert(before == None::<(TcpSeq, i64)>);
        assert(crate::seq::advanced(numbers[0], 0) == numbers[0]);
    } else {
        assert forall|i: int| 0 <= i < rest.len() implies unfolding_fits(
            frontier_after_all(None, #[trigger] rest.take(i)),
            rest[i],
        ) by {
            assert(rest.take(i) =~= numbers.take(i));
        }
        lemma_frontier_is_greatest(rest);
        assert forall|i: int| 0 <= i < rest.len() implies #[trigger] offset_at(numbers, i)
            == offset_at(rest, i) by {
            assert(rest.take(i) =~= numbers.take(i));
        }
        let (far, rel) = before->0;
        if crate::seq::precedes(far, numbers[last]) {
            let step = crate::seq::forward_distance(far, numbers[last]);
            crate::seq::law_distance_reaches_target(far, numbers[last]);
            crate::seq::law_advances_add_up(numbers[0], rel as int, step as int);
            assert(after == Some((numbers[last], (rel + step) as i64)));
            assert forall|i: int| 0 <= i < numbers.len() implies #[trigger] offset_at(numbers, i)
                <= after.unwrap().1 by {
                if i < last {
                    assert(offset_at(rest, i) <= rel);
                }
            }
        } else {
            assert(after == before);
            let w = choose|i: int| 0 <= i < rest.len() && #[trigger] offset_at(rest, i) == rel;
            assert(offset_at(numbers, w) == rel);
            assert forall|i: int| 0 <= i < numbers.len() implies #[trigger] offset_at(numbers, i)
                <= after.unwrap().1 by {
                if i < last {
                    assert(offset_at(rest, i) <= rel);
                }
            }
        }
    }
}

proof fn lemma_offset_is_distance(first: TcpSeq, far: TcpSeq, rel: i64, seq: TcpSeq)
    requires
        far == crate::seq::advanced(first, rel as int),
    ensures
        ({
            let offset = unfolded(Some((far, rel)), seq);
            &&& offset % 0x1_0000_0000 == crate::seq::forward_distance(first, seq)
            &&& rel - crate::seq::HALF <= offset < rel + crate::seq::HALF
        }),
{
    let offset = unfolded(Some((far, rel)), seq);
    assert(far.0 == (first.0 + rel) % 0x1_0000_0000);
    assert(seq.0 == (first.0 + offset) % 0x1_0000_0000);
}

/// Whatever numbers came before, a number unfolds to the one offset that is its distance from the
/// first number up to whole turns of the sequence space, and lies within half the space of the
/// greatest offset so far; the first number is at zero.
pub proof fn law_offsets_are_distances(numbers: Seq<TcpSeq>, seq: TcpSeq)
    requires
        numbers.len() > 0,
        unfolding_fits_all(numbers),
    ensures
        offset_at(numbers, 0) == 0,
        ({
            let greatest = frontier_after_all(None, numbers).unwrap().1;
            let offset = unfolded(frontier_after_all(None, numbers), seq);
            &&& forall|i: int|
                0 <= i < numbers.len() ==> #[trigger] offset_at(numbers, i) <= greatest
            &&& exists|i: int|
                0 <= i < numbers.len() && #[trigger] offset_at(numbers, i) == greatest
            &&& offset % 0x1_0000_0000 == crate::seq::forward_distance(numbers[0], seq)
            &&& greatest - crate::seq::HALF <= offset < greatest + crate::seq::HALF
        }),
{
    lemma_frontier_is_greatest(numbers);
    assert(numbers.take(0) =~= Seq::empty());
    assert(frontier_after_all(None, numbers.take(0)) == None::<(TcpSeq, i64)>);
    let (far, rel) = frontier_after_all(None, numbers)->0;
    lemma_offset_is_distance(numbers[0], far, rel, seq);
}

/// How many places of `pairs` hold `pair`.
pub open spec fn occurrences(pairs: Seq<EndpointPair>, pair: EndpointPair) -> nat
    decreases pairs.len(),
{
    if pairs.len() == 0 {
        0
    } else {
        occurrences(pairs.drop_last(), pair) + if pairs.last() == pair {
            1nat
        } else {
            0
        }
    }
}

/// Each instance carries the number of instances of its pair that came before it.
pub open spec fn numbered(tracker: TrackerModel) -> bool {
    forall|i: int|
        0 <= i < tracker.conns.len() ==> (#[trigger] tracker.conns[i]).conn.id.instance
            == occurrences(tracker.pairs().take(i), tracker.conns[i].conn.id.pair)
}

proof fn lemma_newest_counts(pairs: Seq<EndpointPair>, pair: EndpointPair)
    ensures
        match newest(pairs, pair) {
            Some(i) => 0 <= i < pairs.len() && pairs[i] == pair && occurrences(pairs, pair)
                == occurrences(pairs.take(i), pair) + 1,
            None => occurrences(pairs, pair) == 0,
        },
    decreases pairs.len(),
{
    if pairs.len() > 0 {
        let rest = pairs.drop_last();
        if pairs.last() == pair {
            assert(pairs.take(pairs.len() - 1) =~= rest);
        } else {
            lemma_newest_counts(rest, pair);
            if let Some(i) = newest(rest, pair) {
                assert(pairs.take(i) =~= rest.take(i));
            }
        }
    }
}

/// The shape of one step: either one instance takes the segment in, keeping its identity, or a
/// new instance is appended; either way the segment is counted once.
proof fn lemma_step_shape(tracker: TrackerModel, seg: Segment)
    requires
        tracker.has_room(Item::Segment(seg)),
        tracker.budget.collected <= tracker.budget.limit,
    ensures
        ({
            let next = tracker.recorded(Item::Segment(seg));
            &&& next.config == tracker.config
            &&& next.budget.collected <= next.budget.limit == tracker.budget.limit
            &&& next.budget.strict == tracker.budget.strict
            &&& !tracker.budget.strict ==> next.budget.overflowed == tracker.budget.overflowed
            &&& match tracker.joined(seg) {
                Some(i) => {
                    let old_conn = tracker.conns[i].conn;
                    let new_conn = next.conns[i].conn;
                    &&& 0 <= i < tracker.conns.len()
                    &&& next.conns == tracker.conns.update(i, next.conns[i])
                    &&& new_conn.id == old_conn.id
                    &&& new_conn.segments == old_conn.segments + 1
                    &&& new_conn.bytes_o2r + new_conn.bytes_r2o == old_conn.bytes_o2r
                        + old_conn.bytes_r2o + seg.payload_len
                },
                None => {
                    let conn = next.conns.last().conn;
                    &&& next.conns.len() == tracker.conns.len() + 1
                    &&& next.conns.drop_last() == tracker.conns
                    &&& conn.id.pair == EndpointPair::of(
                        seg.flow.source_spec(),
                        seg.flow.destination_spec(),
                    )
                    &&& conn.id.instance == tracker.next_instance(seg)
                    &&& conn.segments == 1
                    &&& conn.bytes_o2r + conn.bytes_r2o == seg.payload_len
                },
            }
        }),
{
    let cfg = tracker.config;
    let next = tracker.recorded(Item::Segment(seg));
    match tracker.joined(seg) {
        Some(i) => {
            lemma_newest(
                tracker.pairs(),
                EndpointPair::of(seg.flow.source_spec(), seg.flow.destination_spec()),
            );
            let track = tracker.conns[i];
            let dir = direction_from(track.conn, seg.flow.source_spec());
            let ledger = Ledger {
                track: track.accounted(seg, dir).lifecycle(seg, dir),
                budget: tracker.budget,
            };
            lemma_ledger_keeps_identity(ledger, seg, dir, cfg);
            lemma_ledger_keeps_identity(ledger.with_state(seg.ts, cfg), seg, dir, cfg);
            lemma_ledger_keeps_limit(ledger, seg, dir, cfg);
            lemma_ledger_keeps_limit(ledger.with_state(seg.ts, cfg), seg, dir, cfg);
            lemma_counting_counts(track, seg, dir, cfg);
            assert(next.conns =~= tracker.conns.update(i, next.conns[i]));
        },
        None => {
            let track = tracker.newcomer(seg);
            let dir = direction_from(track.conn, seg.flow.source_spec());
            let accounted = track.accounted(seg, dir);
            let ledger = Ledger {
                track: if seg.flags.has(TcpFlags::FIN) {
                    accounted.with_fin(dir)
                } else {
                    accounted
                },
                budget: tracker.budget,
            };
            lemma_ledger_keeps_identity(ledger, seg, dir, cfg);
            lemma_ledger_keeps_identity(ledger.with_metrics(seg, dir, cfg), seg, dir, cfg);
            lemma_ledger_keeps_limit(ledger, seg, dir, cfg);
            lemma_ledger_keeps_limit(ledger.with_metrics(seg, dir, cfg), seg, dir, cfg);
            lemma_counting_counts(track, seg, dir, cfg);
            assert(next.conns.drop_last() =~= tracker.conns);
        },
    }
}

proof fn lemma_ledger_keeps_limit(ledger: Ledger, seg: Segment, dir: Direction, cfg: EngineConfig)
    ensures
        ledger.with_state(seg.ts, cfg).budget.limit == ledger.budget.limit,
        ledger.with_state(seg.ts, cfg).budget.strict == ledger.budget.strict,
        !ledger.budget.strict ==> ledger.with_state(seg.ts, cfg).budget.overflowed
            == ledger.budget.overflowed,
        ledger.with_metrics(seg, dir, cfg).budget.limit == ledger.budget.limit,
        ledger.with_metrics(seg, dir, cfg).budget.strict == ledger.budget.strict,
        !ledger.budget.strict ==> ledger.with_metrics(seg, dir, cfg).budget.overflowed
            == ledger.budget.overflowed,
{
    reveal(Ledger::with_state);
    reveal(Ledger::with_metrics);
}

proof fn lemma_counting_counts(
    track: TrackModel,
    seg: Segment,
    dir: Direction,
    cfg: EngineConfig,
)
    requires
        track.has_room(seg, dir, cfg),
    ensures
        ({
            let counted = track.accounted(seg, dir);
            let moved = counted.lifecycle(seg, dir);
            &&& counted.conn.id == track.conn.id
            &&& counted.conn.segments == track.conn.segments + 1
            &&& counted.conn.bytes_o2r + counted.conn.bytes_r2o == track.conn.bytes_o2r
                + track.conn.bytes_r2o + seg.payload_len
            &&& moved.conn.id == track.conn.id
            &&& moved.conn.segments == track.conn.segments + 1
            &&& moved.conn.bytes_o2r + moved.conn.bytes_r2o == track.conn.bytes_o2r
                + track.conn.bytes_r2o + seg.payload_len
        }),
{
    reveal(TrackModel::accounted);
    reveal(TrackModel::lifecycle);
}

proof fn lemma_step_keeps_numbering(tracker: TrackerModel, item: Item)
    requires
        numbered(tracker),
        tracker.has_room(item),
        tracker.budget.collected <= tracker.budget.limit,
    ensures
        numbered(tracker.after(item)),
{
    let aged = tracker.aged(item.time());
    lemma_ageing_drops_samples_only(tracker, item.time());
    lemma_ageing_keeps_room(tracker, item.time(), item);
    assert forall|i: int| 0 <= i < aged.conns.len() implies (
    #[trigger] aged.conns[i]).conn.id.instance == occurrences(
        aged.pairs().take(i),
        aged.conns[i].conn.id.pair,
    ) by {
        assert(alike_but_for_samples(aged.conns[i], tracker.conns[i]));
    }
    lemma_recording_keeps_numbering(aged, item);
}

proof fn lemma_recording_keeps_numbering(tracker: TrackerModel, item: Item)
    requires
        numbered(tracker),
        tracker.has_room(item),
        tracker.budget.collected <= tracker.budget.limit,
    ensures
        numbered(tracker.recorded(item)),
{
    if let Item::Segment(seg) = item {
        lemma_step_shape(tracker, seg);
        let next = tracker.recorded(item);
        match tracker.joined(seg) {
            Some(_) => {
                assert(next.pairs() =~= tracker.pairs());
            },
            None => {
                let pair = EndpointPair::of(seg.flow.source_spec(), seg.flow.destination_spec());
                lemma_newest_counts(tracker.pairs(), pair);
                assert(next.pairs().drop_last() =~= tracker.pairs());
                assert forall|i: int| 0 <= i < next.conns.len() implies (
                #[trigger] next.conns[i]).conn.id.instance == occurrences(
                    next.pairs().take(i),
                    next.conns[i].conn.id.pair,
                ) by {
                    if i < tracker.conns.len() {
                        assert(next.conns.drop_last()[i] == next.conns[i]);
                        assert(next.pairs().take(i) =~= tracker.pairs().take(i));
                    } else {
                        assert(next.pairs().take(i) =~= tracker.pairs());
                    }
                }
            },
        }
    }
}

/// The instances of a pair are numbered from zero in the order in which they were opened.
pub proof fn law_instances_are_numbered_in_order(config: EngineConfig, items: Seq<Item>)
    requires
        TrackerModel::fresh(config).has_room_for_all(items),
    ensures
        numbered(TrackerModel::fresh(config).after_all(items)),
        TrackerModel::fresh(config).after_all(items).budget.collected <= config.max_samples,
        TrackerModel::fresh(config).after_all(items).budget.limit == config.max_samples,
        TrackerModel::fresh(config).after_all(items).config == config,
    decreases items.len(),
{
    if items.len() > 0 {
        law_instances_are_numbered_in_order(config, items.drop_last());
        let before = TrackerModel::fresh(config).after_all(items.drop_last());
        lemma_step_keeps_numbering(before, items.last());
        lemma_ageing_drops_samples_only(before, items.last().time());
        lemma_ageing_keeps_room(before, items.last().time(), items.last());
        if let Item::Segment(seg) = items.last() {
            lemma_step_shape(before.aged(seg.ts), seg);
        }
    }
}

proof fn lemma_occurrences_monotone(pairs: Seq<EndpointPair>, i: int, j: int)
    requires
        0 <= i < j <= pairs.len(),
    ensures
        occurrences(pairs.take(j), pairs[i]) > occurrences(pairs.take(i), pairs[i]),
    decreases j,
{
    let upto = pairs.take(j);
    assert(upto.drop_last() =~= pairs.take(j - 1));
    if i < j - 1 {
        lemma_occurrences_monotone(pairs, i, j - 1);
    }
}

/// A segment that opens an instance adds exactly one connection, of its own pair and numbered by
/// the instances of that pair so far; all connections before it stay as they were.
pub proof fn law_opening_adds_one_connection(
    config: EngineConfig,
    items: Seq<Item>,
    seg: Segment,
)
    requires
        TrackerModel::fresh(config).has_room_for_all(items.push(Item::Segment(seg))),
        TrackerModel::fresh(config).after_all(items).joined(seg) is None,
    ensures
        ({
            let before = TrackerModel::fresh(config).after_all(items);
            let after = before.after(Item::Segment(seg));
            let pair = EndpointPair::of(seg.flow.source_spec(), seg.flow.destination_spec());
            let id = after.conns.last().conn.id;
            &&& after == TrackerModel::fresh(config).after_all(items.push(Item::Segment(seg)))
            &&& after.conns.len() == before.conns.len() + 1
            &&& after.connections().drop_last() == before.connections()
            &&& config.retention == RetentionPolicy::FailFast ==> after.conns.drop_last()
                == before.conns
            &&& id.pair == pair
            &&& id.instance == occurrences(before.pairs(), pair)
            &&& forall|i: int|
                0 <= i < before.conns.len() ==> (#[trigger] before.conns[i]).conn.id != id
        }),
{
    let all = items.push(Item::Segment(seg));
    assert(all.drop_last() =~= items);
    let before = TrackerModel::fresh(config).after_all(items);
    let after = before.after(Item::Segment(seg));
    let pair = EndpointPair::of(seg.flow.source_spec(), seg.flow.destination_spec());
    law_instances_are_numbered_in_order(config, items);
    let aged = before.aged(seg.ts);
    lemma_ageing_drops_samples_only(before, seg.ts);
    lemma_ageing_keeps_room(before, seg.ts, Item::Segment(seg));
    lemma_step_shape(aged, seg);
    lemma_newest_counts(before.pairs(), pair);
    let last = before.conns.len() as int;
    assert forall|i: int| 0 <= i < before.conns.len() implies (
    #[trigger] before.conns[i]).conn.id != after.conns.last().conn.id by {
        law_connection_ids_are_unique(config, all, i, last);
        assert(alike_but_for_samples(aged.conns[i], before.conns[i]));
        assert(after.conns.drop_last()[i] == aged.conns[i]);
    }
    assert forall|i: int| 0 <= i < before.conns.len() implies #[trigger] after.connections()[i]
        == before.connections()[i] by {
        assert(aged.connections()[i] == aged.conns[i].conn);
        assert(after.conns.drop_last()[i] == aged.conns[i]);
    }
    assert(after.connections().drop_last() =~= before.connections());
}

/// No two instances share an id.
pub proof fn law_connection_ids_are_unique(config: EngineConfig, items: Seq<Item>, i: int, j: int)
    requires
        TrackerModel::fresh(config).has_room_for_all(items),
        0 <= i < j < TrackerModel::fresh(config).after_all(items).conns.len(),
    ensures
        ({
            let conns = TrackerModel::fresh(config).after_all(items).conns;
            conns[i].conn.id != conns[j].conn.id
        }),
{
    let tracker = TrackerModel::fresh(config).after_all(items);
    law_instances_are_numbered_in_order(config, items);
    lemma_occurrences_monotone(tracker.pairs(), i, j);
    assert(tracker.conns[i].conn.id.pair == tracker.pairs()[i]);
    assert(tracker.conns[j].conn.id.pair == tracker.pairs()[j]);
}

/// The segments counted over all instances.
pub open spec fn segments_counted(conns: Seq<TrackModel>) -> nat
    decreases conns.len(),
{
    if conns.len() == 0 {
        0
    } else {
        segments_counted(conns.drop_last()) + conns.last().conn.segments as nat
    }
}

/// The payload bytes counted over all instances and both directions.
pub open spec fn bytes_counted(conns: Seq<TrackModel>) -> nat
    decreases conns.len(),
{
    if conns.len() == 0 {
        0
    } else {
        bytes_counted(conns.drop_last()) + conns.last().conn.bytes_o2r as nat
            + conns.last().conn.bytes_r2o as nat
    }
}

/// The segments among `items`.
pub open spec fn segments_given(items: Seq<Item>) -> nat
    decreases items.len(),
{
    if items.len() == 0 {
        0
    } else {
        segments_given(items.drop_last()) + match items.last() {
            Item::Segment(_) => 1nat,
            Item::Tick(_) => 0,
        }
    }
}

/// The payload bytes of all segments among `items`.
pub open spec fn bytes_given(items: Seq<Item>) -> nat
    decreases items.len(),
{
    if items.len() == 0 {
        0
    } else {
        bytes_given(items.drop_last()) + match items.last() {
            Item::Segment(seg) => seg.payload_len as nat,
            Item::Tick(_) => 0,
        }
    }
}

proof fn lemma_counts_after_update(conns: Seq<TrackModel>, i: int, track: TrackModel)
    requires
        0 <= i < conns.len(),
    ensures
        segments_counted(conns.update(i, track)) == segments_counted(conns)
            - conns[i].conn.segments + track.conn.segments,
        bytes_counted(conns.update(i, track)) == bytes_counted(conns) - conns[i].conn.bytes_o2r
            - conns[i].conn.bytes_r2o + track.conn.bytes_o2r + track.conn.bytes_r2o,
    decreases conns.len(),
{
    if i == conns.len() - 1 {
        assert(conns.update(i, track).drop_last() =~= conns.drop_last());
    } else {
        lemma_counts_after_update(conns.drop_last(), i, track);
        assert(conns.update(i, track).drop_last() =~= conns.drop_last().update(i, track));
    }
}

proof fn lemma_counts_go_by_connection(a: Seq<TrackModel>, b: Seq<TrackModel>)
    requires
        a.len() == b.len(),
        forall|i: int| 0 <= i < a.len() ==> (#[trigger] a[i]).conn == b[i].conn,
    ensures
        segments_counted(a) == segments_counted(b),
        bytes_counted(a) == bytes_counted(b),
    decreases a.len(),
{
    if a.len() > 0 {
        assert(a[a.len() - 1].conn == b[b.len() - 1].conn);
        lemma_counts_go_by_connection(a.drop_last(), b.drop_last());
    }
}

/// Every segment is counted exactly once: over all instances the segment and byte counters add
/// up to what went in.
pub proof fn law_every_segment_is_counted_once(config: EngineConfig, items: Seq<Item>)
    requires
        TrackerModel::fresh(config).has_room_for_all(items),
    ensures
        segments_counted(TrackerModel::fresh(config).after_all(items).conns) == segments_given(
            items,
        ),
        bytes_counted(TrackerModel::fresh(config).after_all(items).conns) == bytes_given(items),
    decreases items.len(),
{
    if items.len() > 0 {
        law_every_segment_is_counted_once(config, items.drop_last());
        law_instances_are_numbered_in_order(config, items.drop_last());
        let before = TrackerModel::fresh(config).after_all(items.drop_last());
        let aged = before.aged(items.last().time());
        let next = before.after(items.last());
        lemma_ageing_drops_samples_only(before, items.last().time());
        lemma_ageing_keeps_room(before, items.last().time(), items.last());
        assert forall|i: int| 0 <= i < aged.conns.len() implies (#[trigger] aged.conns[i]).conn
            == before.conns[i].conn by {
            assert(alike_but_for_samples(aged.conns[i], before.conns[i]));
        }
        lemma_counts_go_by_connection(aged.conns, before.conns);
        if let Item::Segment(seg) = items.last() {
            lemma_step_shape(aged, seg);
            if let Some(i) = aged.joined(seg) {
                lemma_counts_after_update(aged.conns, i, next.conns[i]);
            }
        }
    }
}

/// How much `item` can add to the counters: one for the item and one for each selective
/// acknowledgement.
pub open spec fn weight(item: Item) -> nat {
    match item {
        Item::Segment(seg) => 1 + seg.options.sack_blocks@.len(),
        Item::Tick(_) => 1,
    }
}

/// The weight of all of `items`.
pub open spec fn total_weight(items: Seq<Item>) -> nat
    decreases items.len(),
{
    if items.len() == 0 {
        0
    } else {
        total_weight(items.drop_last()) + weight(items.last())
    }
}

/// A frontier that items of weight `w` can have led to.
spec fn frontier_within(frontier: Frontier, w: nat) -> bool {
    frontier matches Some((_, rel)) ==> 0 <= rel <= w * 0x8000_0000
}

/// Counters that items of weight `w` can have led to.
spec fn track_within(track: TrackModel, w: nat) -> bool {
    &&& track.conn.segments <= w
    &&& track.conn.bytes_o2r <= w * 0xffff_ffff
    &&& track.conn.bytes_r2o <= w * 0xffff_ffff
    &&& frontier_within(track.frontier_o2r, w)
    &&& frontier_within(track.frontier_r2o, w)
}

proof fn lemma_frontier_step(frontier: Frontier, seq: TcpSeq, w: nat)
    requires
        frontier_within(frontier, w),
        w < 0x7fff_ffff,
    ensures
        unfolding_fits(frontier, seq),
        frontier_within(frontier_after(frontier, seq), w + 1),
{
}

proof fn lemma_frontier_blocks(frontier: Frontier, blocks: Seq<(TcpSeq, TcpSeq)>, w: nat)
    requires
        frontier_within(frontier, w),
        w + blocks.len() < 0x8000_0000,
    ensures
        blocks_fit(frontier, blocks),
        frontier_within(frontier_after_blocks(frontier, blocks), w + blocks.len()),
    decreases blocks.len(),
{
    if blocks.len() > 0 {
        lemma_frontier_blocks(frontier, blocks.drop_last(), w);
        lemma_frontier_step(
            frontier_after_blocks(frontier, blocks.drop_last()),
            blocks.last().0,
            (w + blocks.len() - 1) as nat,
        );
    }
}

proof fn lemma_room_within(
    track: TrackModel,
    seg: Segment,
    dir: Direction,
    cfg: EngineConfig,
    w: nat,
)
    requires
        track_within(track, w),
        w + weight(Item::Segment(seg)) < 0x8000_0000,
    ensures
        track.has_room(seg, dir, cfg),
        frontier_within(
            track.frontiers_moved(seg, dir).frontier_o2r,
            w + weight(Item::Segment(seg)),
        ),
        frontier_within(
            track.frontiers_moved(seg, dir).frontier_r2o,
            w + weight(Item::Segment(seg)),
        ),
{
    lemma_frontier_step(track.frontier(dir), seg.seq, w);
    lemma_frontier_blocks(track.frontier(dir.reverse()), seg.options.sack_blocks@, w);
}

/// Recording moves the frontiers at most over the numbers of the segment.
proof fn lemma_ledger_frontiers(ledger: Ledger, seg: Segment, dir: Direction, cfg: EngineConfig)
    ensures
        ({
            let before = ledger.track;
            let after = ledger.with_metrics(seg, dir, cfg).track;
            let moved = before.frontiers_moved(seg, dir);
            ||| after.frontier_o2r == before.frontier_o2r && after.frontier_r2o
                == before.frontier_r2o
            ||| after.frontier_o2r == moved.frontier_o2r && after.frontier_r2o
                == moved.frontier_r2o
        }),
        ledger.with_state(seg.ts, cfg).track.frontier_o2r == ledger.track.frontier_o2r,
        ledger.with_state(seg.ts, cfg).track.frontier_r2o == ledger.track.frontier_r2o,
{
    reveal(Ledger::with_state);
    reveal(Ledger::with_metrics);
}

proof fn lemma_counting_within(
    track: TrackModel,
    seg: Segment,
    dir: Direction,
    cfg: EngineConfig,
    w: nat,
)
    requires
        track_within(track, w),
        track.has_room(seg, dir, cfg),
    ensures
        ({
            let counted = track.accounted(seg, dir);
            let moved = counted.lifecycle(seg, dir);
            let noted = counted.with_fin(dir);
            &&& counted.conn.segments <= w + 1
            &&& counted.conn.bytes_o2r <= (w + 1) * 0xffff_ffff
            &&& counted.conn.bytes_r2o <= (w + 1) * 0xffff_ffff
            &&& moved.conn.segments == counted.conn.segments
            &&& moved.conn.bytes_o2r == counted.conn.bytes_o2r
            &&& moved.conn.bytes_r2o == counted.conn.bytes_r2o
            &&& noted.conn == counted.conn
            &&& noted.frontier_o2r == track.frontier_o2r
            &&& noted.frontier_r2o == track.frontier_r2o
        }),
{
    reveal(TrackModel::accounted);
    reveal(TrackModel::lifecycle);
}

proof fn lemma_step_within(tracker: TrackerModel, item: Item, w: nat)
    requires
        forall|i: int| 0 <= i < tracker.conns.len() ==> track_within(#[trigger] tracker.conns[i], w),
        tracker.conns.len() <= w,
        numbered(tracker),
        tracker.budget.collected <= tracker.budget.limit,
        w + weight(item) < 0x8000_0000,
    ensures
        tracker.has_room(item),
        ({
            let next = tracker.after(item);
            &&& next.conns.len() <= w + weight(item)
            &&& forall|i: int|
                0 <= i < next.conns.len() ==> track_within(
                    #[trigger] next.conns[i],
                    w + weight(item),
                )
        }),
{
    let aged = tracker.aged(item.time());
    lemma_ageing_drops_samples_only(tracker, item.time());
    lemma_ageing_keeps_room(tracker, item.time(), item);
    assert forall|i: int| 0 <= i < aged.conns.len() implies track_within(
        #[trigger] aged.conns[i],
        w,
    ) && aged.conns[i].conn.id.instance == occurrences(
        aged.pairs().take(i),
        aged.conns[i].conn.id.pair,
    ) by {
        assert(alike_but_for_samples(aged.conns[i], tracker.conns[i]));
    }
    lemma_recording_within(aged, item, w);
}

proof fn lemma_recording_within(tracker: TrackerModel, item: Item, w: nat)
    requires
        forall|i: int| 0 <= i < tracker.conns.len() ==> track_within(#[trigger] tracker.conns[i], w),
        tracker.conns.len() <= w,
        numbered(tracker),
        tracker.budget.collected <= tracker.budget.limit,
        w + weight(item) < 0x8000_0000,
    ensures
        tracker.has_room(item),
        ({
            let next = tracker.recorded(item);
            &&& next.conns.len() <= w + weight(item)
            &&& forall|i: int|
                0 <= i < next.conns.len() ==> track_within(
                    #[trigger] next.conns[i],
                    w + weight(item),
                )
        }),
{
    if let Item::Segment(seg) = item {
        let cfg = tracker.config;
        let pair = EndpointPair::of(seg.flow.source_spec(), seg.flow.destination_spec());
        lemma_newest_counts(tracker.pairs(), pair);
        lemma_occurrences_bounded(tracker.pairs(), pair);
        let (track, known) = match tracker.joined(seg) {
            Some(i) => (tracker.conns[i], true),
            None => (tracker.newcomer(seg), false),
        };
        let dir = direction_from(track.conn, seg.flow.source_spec());
        assert(track_within(track, w));
        lemma_room_within(track, seg, dir, cfg, w);
        if let Some(i) = newest(tracker.pairs(), pair) {
            lemma_occurrences_bounded(tracker.pairs().take(i), pair);
            assert(tracker.conns[i].conn.id.pair == tracker.pairs()[i]);
        }
        lemma_step_shape(tracker, seg);
        lemma_counting_within(track, seg, dir, cfg, w);
        lemma_counting_keeps_frontiers(track, seg, dir);
        let counted = track.accounted(seg, dir);
        let more = w + weight(item);
        let next = tracker.recorded(item);
        assert((w + 1) * 0xffff_ffff <= more * 0xffff_ffff);
        if known {
            let i = tracker.joined(seg).unwrap();
            let ledger = Ledger { track: counted.lifecycle(seg, dir), budget: tracker.budget };
            lemma_ledger_keeps_identity(ledger, seg, dir, cfg);
            lemma_ledger_keeps_identity(ledger.with_state(seg.ts, cfg), seg, dir, cfg);
            lemma_ledger_frontiers(ledger, seg, dir, cfg);
            lemma_ledger_frontiers(ledger.with_state(seg.ts, cfg), seg, dir, cfg);
            assert(track_within(next.conns[i], more));
        } else {
            let ledger = Ledger {
                track: if seg.flags.has(TcpFlags::FIN) {
                    counted.with_fin(dir)
                } else {
                    counted
                },
                budget: tracker.budget,
            };
            lemma_ledger_keeps_identity(ledger, seg, dir, cfg);
            lemma_ledger_keeps_identity(ledger.with_metrics(seg, dir, cfg), seg, dir, cfg);
            lemma_ledger_frontiers(ledger, seg, dir, cfg);
            lemma_ledger_frontiers(ledger.with_metrics(seg, dir, cfg), seg, dir, cfg);
            assert(track_within(next.conns.last(), more));
        }
        assert forall|i: int| 0 <= i < next.conns.len() implies track_within(
            #[trigger] next.conns[i],
            more,
        ) by {
            if known {
                if i != tracker.joined(seg).unwrap() {
                    assert(next.conns[i] == tracker.conns[i]);
                }
            } else if i < tracker.conns.len() {
                assert(next.conns.drop_last()[i] == tracker.conns[i]);
            }
        }
    }
}

proof fn lemma_occurrences_bounded(pairs: Seq<EndpointPair>, pair: EndpointPair)
    ensures
        occurrences(pairs, pair) <= pairs.len(),
    decreases pairs.len(),
{
    if pairs.len() > 0 {
        lemma_occurrences_bounded(pairs.drop_last(), pair);
    }
}

proof fn lemma_run_within(config: EngineConfig, items: Seq<Item>)
    requires
        total_weight(items) < 0x8000_0000,
    ensures
        TrackerModel::fresh(config).has_room_for_all(items),
        ({
            let tracker = TrackerModel::fresh(config).after_all(items);
            &&& tracker.conns.len() <= total_weight(items)
            &&& forall|i: int|
                0 <= i < tracker.conns.len() ==> track_within(
                    #[trigger] tracker.conns[i],
                    total_weight(items),
                )
        }),
    decreases items.len(),
{
    if items.len() > 0 {
        let rest = items.drop_last();
        lemma_run_within(config, rest);
        law_instances_are_numbered_in_order(config, rest);
        lemma_step_within(
            TrackerModel::fresh(config).after_all(rest),
            items.last(),
            total_weight(rest),
        );
    }
}

/// The counters have room for every capture of fewer than 2^31 items and selective
/// acknowledgements, whatever the items hold.
pub proof fn law_counters_have_room(config: EngineConfig, items: Seq<Item>)
    requires
        total_weight(items) < 0x8000_0000,
    ensures
        TrackerModel::fresh(config).has_room_for_all(items),
{
    lemma_run_within(config, items);
}

proof fn lemma_samples_after_update(conns: Seq<TrackModel>, i: int, track: TrackModel)
    requires
        0 <= i < conns.len(),
    ensures
        samples_kept(conns.update(i, track)) == samples_kept(conns) - samples_of(conns[i])
            + samples_of(track),
    decreases conns.len(),
{
    if i == conns.len() - 1 {
        assert(conns.update(i, track).drop_last() =~= conns.drop_last());
    } else {
        lemma_samples_after_update(conns.drop_last(), i, track);
        assert(conns.update(i, track).drop_last() =~= conns.drop_last().update(i, track));
    }
}

/// From `before` to `after` as many samples were charged as were kept, if `before` was within its
/// limit.
#[verifier::opaque]
spec fn charged_as_kept(before: Ledger, after: Ledger) -> bool {
    before.budget.collected <= before.budget.limit ==> {
        &&& samples_of(after.track) - samples_of(before.track) == after.budget.collected
            - before.budget.collected
        &&& after.budget.collected <= after.budget.limit
    }
}

proof fn lemma_charges_add_up(a: Ledger, b: Ledger, c: Ledger)
    requires
        charged_as_kept(a, b),
        charged_as_kept(b, c),
    ensures
        charged_as_kept(a, c),
{
    reveal(charged_as_kept);
}

proof fn lemma_each_recording_charges_what_it_keeps(
    ledger: Ledger,
    seg: Segment,
    dir: Direction,
    sample: MetricSample,
    cfg: EngineConfig,
)
    ensures
        charged_as_kept(ledger, ledger.with_sample(sample, cfg)),
        charged_as_kept(ledger, ledger.with_seq_points(seg, dir, sample, cfg)),
        charged_as_kept(ledger, ledger.with_inflight(seg.ts, cfg)),
        charged_as_kept(ledger, ledger.with_rtt(dir, sample, cfg)),
        charged_as_kept(ledger, ledger.with_throughput(seg.ts, cfg)),
{
    reveal(charged_as_kept);
}

proof fn lemma_metrics_charge_what_they_keep(
    ledger: Ledger,
    seg: Segment,
    dir: Direction,
    cfg: EngineConfig,
)
    ensures
        charged_as_kept(ledger, ledger.with_metrics(seg, dir, cfg)),
{
    reveal(Ledger::with_metrics);
    let sample = ledger.track.metrics.sample(seg, dir, cfg);
    let a = Ledger {
        track: TrackModel {
            metrics: ledger.track.metrics.after(seg, dir, cfg),
            ..ledger.track
        },
        budget: ledger.budget,
    };
    assert(charged_as_kept(ledger, ledger) && charged_as_kept(ledger, a)) by {
        reveal(charged_as_kept);
    }
    let b = a.with_sample(sample, cfg);
    lemma_each_recording_charges_what_it_keeps(a, seg, dir, sample, cfg);
    lemma_charges_add_up(ledger, a, b);
    let c = b.with_seq_points(seg, dir, sample, cfg);
    lemma_each_recording_charges_what_it_keeps(b, seg, dir, sample, cfg);
    lemma_charges_add_up(ledger, b, c);
    let d = c.with_inflight(seg.ts, cfg);
    lemma_each_recording_charges_what_it_keeps(c, seg, dir, sample, cfg);
    lemma_charges_add_up(ledger, c, d);
    let e = d.with_rtt(dir, sample, cfg);
    lemma_each_recording_charges_what_it_keeps(d, seg, dir, sample, cfg);
    lemma_charges_add_up(ledger, d, e);
    lemma_each_recording_charges_what_it_keeps(e, seg, dir, sample, cfg);
    lemma_charges_add_up(ledger, e, e.with_throughput(seg.ts, cfg));
}

proof fn lemma_ledger_charges_what_it_keeps(
    ledger: Ledger,
    seg: Segment,
    dir: Direction,
    cfg: EngineConfig,
)
    requires
        ledger.budget.collected <= ledger.budget.limit,
    ensures
        ({
            let after = ledger.with_state(seg.ts, cfg);
            samples_of(after.track) - samples_of(ledger.track) == after.budget.collected
                - ledger.budget.collected
        }),
        ({
            let after = ledger.with_metrics(seg, dir, cfg);
            samples_of(after.track) - samples_of(ledger.track) == after.budget.collected
                - ledger.budget.collected
        }),
{
    reveal(Ledger::with_state);
    reveal(charged_as_kept);
    lemma_metrics_charge_what_they_keep(ledger, seg, dir, cfg);
}

proof fn lemma_step_charges_what_it_keeps(tracker: TrackerModel, seg: Segment)
    requires
        tracker.has_room(Item::Segment(seg)),
        tracker.budget.collected <= tracker.budget.limit,
    ensures
        ({
            let next = tracker.recorded(Item::Segment(seg));
            samples_kept(next.conns) - samples_kept(tracker.conns) == next.budget.collected
                - tracker.budget.collected
        }),
{
    lemma_step_shape(tracker, seg);
    let cfg = tracker.config;
    let next = tracker.recorded(Item::Segment(seg));
    match tracker.joined(seg) {
        Some(i) => {
            let track = tracker.conns[i];
            let dir = direction_from(track.conn, seg.flow.source_spec());
            let ledger = Ledger {
                track: track.accounted(seg, dir).lifecycle(seg, dir),
                budget: tracker.budget,
            };
            lemma_ledger_keeps_identity(ledger, seg, dir, cfg);
            lemma_ledger_charges_what_it_keeps(ledger, seg, dir, cfg);
            lemma_ledger_charges_what_it_keeps(ledger.with_state(seg.ts, cfg), seg, dir, cfg);
            lemma_counting_keeps_samples(track, seg, dir);
            lemma_samples_after_update(tracker.conns, i, next.conns[i]);
        },
        None => {
            let track = tracker.newcomer(seg);
            let dir = direction_from(track.conn, seg.flow.source_spec());
            let counted = track.accounted(seg, dir);
            let ledger = Ledger {
                track: if seg.flags.has(TcpFlags::FIN) {
                    counted.with_fin(dir)
                } else {
                    counted
                },
                budget: tracker.budget,
            };
            lemma_ledger_keeps_identity(ledger, seg, dir, cfg);
            lemma_ledger_charges_what_it_keeps(ledger, seg, dir, cfg);
            lemma_ledger_charges_what_it_keeps(
                ledger.with_metrics(seg, dir, cfg),
                seg,
                dir,
                cfg,
            );
            lemma_counting_keeps_samples(track, seg, dir);
        },
    }
}

proof fn lemma_counting_keeps_samples(track: TrackModel, seg: Segment, dir: Direction)
    ensures
        samples_of(track.accounted(seg, dir)) == samples_of(track),
        samples_of(track.accounted(seg, dir).with_fin(dir)) == samples_of(track),
        samples_of(track.accounted(seg, dir).lifecycle(seg, dir)) == samples_of(track),
{
    reveal(TrackModel::accounted);
    reveal(TrackModel::lifecycle);
}

/// The ceiling holds over everything collected: the samples kept over all instances are those
/// counted, and never more than the configuration allows.
pub proof fn law_samples_stay_within_ceiling(config: EngineConfig, items: Seq<Item>)
    requires
        TrackerModel::fresh(config).has_room_for_all(items),
    ensures
        samples_kept(TrackerModel::fresh(config).after_all(items).conns)
            == TrackerModel::fresh(config).after_all(items).budget.collected,
        samples_kept(TrackerModel::fresh(config).after_all(items).conns) <= config.max_samples,
    decreases items.len(),
{
    law_instances_are_numbered_in_order(config, items);
    if items.len() > 0 {
        law_samples_stay_within_ceiling(config, items.drop_last());
        law_instances_are_numbered_in_order(config, items.drop_last());
        let before = TrackerModel::fresh(config).after_all(items.drop_last());
        let now = items.last().time();
        lemma_ageing_drops_samples_only(before, now);
        lemma_ageing_keeps_room(before, now, items.last());
        if let Some(horizon) = config.retention.horizon_spec(now) {
            lemma_ageing_releases_what_it_drops(before.conns, horizon);
        }
        if let Item::Segment(seg) = items.last() {
            lemma_step_charges_what_it_keeps(before.aged(now), seg);
        }
    }
}

/// Where samples age out the ceiling is no failure, whatever is observed: a sample that finds no
/// room is left out, and room comes back as others age out.
pub proof fn law_ageing_out_never_fails(config: EngineConfig, items: Seq<Item>)
    requires
        config.retention is Evict,
        TrackerModel::fresh(config).has_room_for_all(items),
    ensures
        !TrackerModel::fresh(config).after_all(items).budget.overflowed,
        !TrackerModel::fresh(config).after_all(items).budget.strict,
    decreases items.len(),
{
    if items.len() > 0 {
        let rest = items.drop_last();
        let before = TrackerModel::fresh(config).after_all(rest);
        law_ageing_out_never_fails(config, rest);
        law_instances_are_numbered_in_order(config, rest);
        lemma_ageing_drops_samples_only(before, items.last().time());
        lemma_ageing_keeps_room(before, items.last().time(), items.last());
        if let Item::Segment(seg) = items.last() {
            lemma_step_shape(before.aged(seg.ts), seg);
        }
    }
}

} // verus!
