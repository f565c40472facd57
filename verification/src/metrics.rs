//! Metric derivation: one `MetricSample` per processed segment.

use std::collections::VecDeque;

use vstd::prelude::*;

use crate::config::EngineConfig;
use crate::conn::{ConnId, Connection, Direction};
use crate::metric::MetricSample;
use crate::segment::{seq_end, Segment};
use crate::seq::{serial_max, TcpSeq};
use crate::text::append_decimal;
use crate::time::Nanos;

verus! {

/// A tracked connection with its metric series.
#[derive(Debug, Clone, PartialEq, Eq)]
pub struct ConnectionMetrics {
    pub conn: Connection,
    pub series: Vec<MetricSample>,
}

/// Which tracked instances buffer a metric series.
#[derive(Debug, Clone, Copy, PartialEq, Eq, Structural)]
pub enum SeriesCollection {
    /// Lifecycle and counters only; no sample is kept.
    Off,
    /// Every instance buffers a series.
    All,
    /// Only the named instance buffers a series.
    Only(ConnId),
}

impl SeriesCollection {
    /// The instance `id` buffers a series.
    pub open spec fn covers(self, id: ConnId) -> bool {
        match self {
            SeriesCollection::Off => false,
            SeriesCollection::All => true,
            SeriesCollection::Only(target) => target == id,
        }
    }

    /// Whether the instance `id` buffers a series.
    #[must_use]
    pub fn collects(self, id: ConnId) -> (res: bool)
        ensures
            res == self.covers(id),
    {
        match self {
            SeriesCollection::Off => false,
            SeriesCollection::All => true,
            SeriesCollection::Only(target) => target == id,
        }
    }
}

impl Default for SeriesCollection {
    fn default() -> (res: SeriesCollection)
        ensures
            res == SeriesCollection::Off,
    {
        SeriesCollection::Off
    }
}

/// Failures of a whole derivation.
#[derive(Debug, PartialEq, Eq, Structural)]
pub enum MetricError {
    /// More samples were due than the configuration allows.
    SampleCeiling { samples: usize, limit: usize },
}

impl MetricError {
    /// The message shown to the user.
    pub open spec fn message_spec(self) -> Seq<char> {
        match self {
            MetricError::SampleCeiling { samples, limit } => {
                "metric series exceeded the sample ceiling ("@ + crate::text::decimal(
                    samples as nat,
                ) + " samples > "@ + crate::text::decimal(limit as nat)
                    + "); raise it with --max-samples or analyze a smaller capture"@
            },
        }
    }

    /// The message shown to the user.
    #[must_use]
    pub fn message(&self) -> (res: String)
        ensures
            res@ == self.message_spec(),
    {
        match self {
            MetricError::SampleCeiling { samples, limit } => {
                let mut out = "metric series exceeded the sample ceiling (".to_owned();
                append_decimal(&mut out, *samples as u64);
                out.append(" samples > ");
                append_decimal(&mut out, *limit as u64);
                out.append("); raise it with --max-samples or analyze a smaller capture");
                out
            },
        }
    }
}

/// What one direction has sent and had acknowledged.
pub struct DirState {
    snd_nxt: Option<TcpSeq>,
    acked: Option<TcpSeq>,
    frontier: Option<TcpSeq>,
    last_data_ts: Option<Nanos>,
    pending_rtt: VecDeque<(TcpSeq, Nanos)>,
    tput: VecDeque<(Nanos, u32, bool)>,
    tput_max_ts: Option<Nanos>,
}

/// The contents of a `DirState`.
#[verifier::ext_equal]
pub ghost struct DirModel {
    /// One past the furthest byte sent.
    pub snd_nxt: Option<TcpSeq>,
    /// The acknowledged edge; the first number sent until an acknowledgement moves it.
    pub acked: Option<TcpSeq>,
    /// One past the furthest payload byte sent.
    pub frontier: Option<TcpSeq>,
    /// When payload was last sent.
    pub last_data_ts: Option<Nanos>,
    /// Sends that wait for an acknowledgement: the end of each and when it was sent.
    pub pending: Seq<(TcpSeq, Nanos)>,
    /// Payload sent of late: when, how many bytes, and whether it was a retransmit.
    pub window: Seq<(Nanos, u32, bool)>,
    /// The latest time at which payload was sent.
    pub latest: Option<Nanos>,
}

impl DirModel {
    /// A direction in which nothing was sent.
    pub open spec fn silent() -> DirModel {
        DirModel {
            snd_nxt: None,
            acked: None,
            frontier: None,
            last_data_ts: None,
            pending: Seq::empty(),
            window: Seq::empty(),
            latest: None,
        }
    }

    /// Bytes sent and not acknowledged; zero where the acknowledged edge is ahead.
    pub open spec fn outstanding(self) -> Option<u64> {
        match (self.snd_nxt, self.acked) {
            (Some(snd), Some(acked)) => Some(
                if crate::seq::precedes_or_equal(acked, snd) {
                    crate::seq::forward_distance(acked, snd) as u64
                } else {
                    0
                },
            ),
            _ => None,
        }
    }

    /// Throughput and goodput over the window that ends at `t`, in bits per second.
    pub open spec fn rates(self, t: Nanos, window: Nanos) -> Option<(u64, u64)> {
        if self.latest is None {
            None
        } else if window.0 == 0 {
            Some((0, 0))
        } else {
            Some(
                (
                    bits_per_second(windowed_bytes(self.window, t, window, false), window.0 as nat),
                    bits_per_second(windowed_bytes(self.window, t, window, true), window.0 as nat),
                ),
            )
        }
    }
}

/// An entry sent at `ts` lies in the half-open window `(t - window, t]`.
pub open spec fn in_window(ts: Nanos, t: Nanos, window: Nanos) -> bool {
    t.0 - window.0 < ts.0 <= t.0
}

/// The bytes of `entries` sent within the window that ends at `t`; with `fresh_only`, those that
/// were not retransmitted.
pub open spec fn windowed_bytes(
    entries: Seq<(Nanos, u32, bool)>,
    t: Nanos,
    window: Nanos,
    fresh_only: bool,
) -> nat
    decreases entries.len(),
{
    if entries.len() == 0 {
        0
    } else {
        let last = entries.last();
        windowed_bytes(entries.drop_last(), t, window, fresh_only) + if in_window(
            last.0,
            t,
            window,
        ) && !(fresh_only && last.2) {
            last.1 as nat
        } else {
            0
        }
    }
}

/// `bytes` over `window` nanoseconds as bits per second, at most what 64 bits hold.
pub open spec fn bits_per_second(bytes: nat, window: nat) -> u64 {
    if bytes * 8_000_000_000 / window > u64::MAX {
        u64::MAX
    } else {
        (bytes * 8_000_000_000 / window) as u64
    }
}

/// How many sends from the front are acknowledged by `ack`.
pub open spec fn acknowledged(pending: Seq<(TcpSeq, Nanos)>, ack: TcpSeq) -> nat
    decreases pending.len(),
{
    if pending.len() > 0 && crate::seq::precedes_or_equal(pending[0].0, ack) {
        1 + acknowledged(pending.drop_first(), ack)
    } else {
        0
    }
}

/// How many entries from the front are older than any window that ends at `latest` or later.
pub open spec fn expired(entries: Seq<(Nanos, u32, bool)>, latest: Nanos, window: Nanos) -> nat
    decreases entries.len(),
{
    if entries.len() > 0 && entries[0].0.0 + window.0 <= latest.0 {
        1 + expired(entries.drop_first(), latest, window)
    } else {
        0
    }
}

/// The acknowledgement that `seg` carries moves the peer's acknowledged edge forward. An
/// acknowledgement of a direction in which nothing was seen moves nothing.
pub open spec fn ack_advances(peer: DirModel, seg: Segment) -> bool {
    &&& seg.flags.has(crate::segment::TcpFlags::ACK)
    &&& peer.snd_nxt is Some
    &&& match peer.acked {
        None => true,
        Some(acked) => crate::seq::precedes(acked, seg.ack),
    }
}

/// `seg` carries payload that starts before the payload frontier.
pub open spec fn behind_frontier(own: DirModel, seg: Segment) -> bool {
    &&& seg.payload_len > 0
    &&& match own.frontier {
        None => false,
        Some(frontier) => crate::seq::precedes(seg.seq, frontier),
    }
}

/// `seg` is late but came so soon after the last payload that it was only reordered.
pub open spec fn is_out_of_order(own: DirModel, seg: Segment, cfg: EngineConfig) -> bool {
    &&& behind_frontier(own, seg)
    &&& match own.last_data_ts {
        None => false,
        Some(previous) => crate::time::elapsed(seg.ts, previous).0 < cfg.reorder_window.0,
    }
}

/// `seg` is late and was not merely reordered.
pub open spec fn is_retransmit(own: DirModel, seg: Segment, cfg: EngineConfig) -> bool {
    behind_frontier(own, seg) && !is_out_of_order(own, seg, cfg)
}

/// The sending direction after `seg`.
pub open spec fn after_sending(own: DirModel, seg: Segment, cfg: EngineConfig) -> DirModel {
    let retransmit = is_retransmit(own, seg, cfg);
    let data = seg.payload_len > 0;
    let latest = if data {
        Some(
            match own.latest {
                Some(m) => crate::time::later(m, seg.ts),
                None => seg.ts,
            },
        )
    } else {
        own.latest
    };
    let window = if data {
        own.window.push((seg.ts, seg.payload_len, retransmit))
    } else {
        own.window
    };
    DirModel {
        snd_nxt: Some(crate::seq::furthest(own.snd_nxt, seg.end())),
        acked: match own.acked {
            Some(acked) => Some(acked),
            None => Some(seg.seq),
        },
        frontier: if data {
            Some(crate::seq::furthest(own.frontier, seg.end()))
        } else {
            own.frontier
        },
        last_data_ts: if data {
            Some(seg.ts)
        } else {
            own.last_data_ts
        },
        pending: if retransmit {
            Seq::empty()
        } else if seg.consumes_sequence() {
            own.pending.push((seg.end(), seg.ts))
        } else {
            own.pending
        },
        window: match latest {
            Some(m) if cfg.throughput_window.0 > 0 => window.skip(
                expired(window, m, cfg.throughput_window) as int,
            ),
            _ => window,
        },
        latest,
    }
}

/// The acknowledged direction after `seg`.
pub open spec fn after_acking(peer: DirModel, seg: Segment) -> DirModel {
    if ack_advances(peer, seg) {
        DirModel {
            acked: Some(seg.ack),
            pending: peer.pending.skip(acknowledged(peer.pending, seg.ack) as int),
            ..peer
        }
    } else {
        peer
    }
}

/// The round trip that `seg` completes: from the oldest send it newly acknowledges. A
/// retransmission forgets the sends before it, so an ambiguous one is never measured.
pub open spec fn round_trip(peer: DirModel, seg: Segment) -> Option<Nanos> {
    if ack_advances(peer, seg) && acknowledged(peer.pending, seg.ack) > 0 {
        Some(crate::time::elapsed(seg.ts, peer.pending[0].1))
    } else {
        None
    }
}

/// Metric derivation state of both directions of a connection.
#[verifier::ext_equal]
pub ghost struct MetricModel {
    pub o2r: DirModel,
    pub r2o: DirModel,
}

impl MetricModel {
    /// Nothing seen in either direction.
    pub open spec fn fresh() -> MetricModel {
        MetricModel { o2r: DirModel::silent(), r2o: DirModel::silent() }
    }

    /// The state of one direction.
    pub open spec fn of(self, dir: Direction) -> DirModel {
        match dir {
            Direction::OriginToResponder => self.o2r,
            Direction::ResponderToOrigin => self.r2o,
        }
    }

    /// The state after `seg` was sent in direction `dir`.
    pub open spec fn after(self, seg: Segment, dir: Direction, cfg: EngineConfig) -> MetricModel {
        let own = after_sending(self.of(dir), seg, cfg);
        let peer = after_acking(self.of(dir.reverse()), seg);
        match dir {
            Direction::OriginToResponder => MetricModel { o2r: own, r2o: peer },
            Direction::ResponderToOrigin => MetricModel { o2r: peer, r2o: own },
        }
    }

    /// The sample that `seg` gives when it is sent in direction `dir`.
    pub open spec fn sample(self, seg: Segment, dir: Direction, cfg: EngineConfig) -> MetricSample {
        let own = self.of(dir);
        let sent = after_sending(own, seg, cfg);
        MetricSample {
            t: seg.ts,
            dir: dir.as_sample(),
            in_flight_bytes: sent.outstanding().unwrap(),
            throughput_bps: match sent.rates(seg.ts, cfg.throughput_window) {
                Some(rates) => rates.0,
                None => 0,
            },
            rtt: round_trip(self.of(dir.reverse()), seg),
            retransmit: is_retransmit(own, seg, cfg),
            out_of_order: is_out_of_order(own, seg, cfg),
            sack: seg.options.sack_blocks@.len() > 0,
        }
    }
}

impl View for DirState {
    type V = DirModel;

    closed spec fn view(&self) -> DirModel {
        DirModel {
            snd_nxt: self.snd_nxt,
            acked: self.acked,
            frontier: self.frontier,
            last_data_ts: self.last_data_ts,
            pending: self.pending_rtt@,
            window: self.tput@,
            latest: self.tput_max_ts,
        }
    }
}

impl DirState {
    fn new() -> (res: DirState)
        ensures
            res@ == DirModel::silent(),
    {
        let res = DirState {
            snd_nxt: None,
            acked: None,
            frontier: None,
            last_data_ts: None,
            pending_rtt: VecDeque::new(),
            tput: VecDeque::new(),
            tput_max_ts: None,
        };
        proof {
            assert(res@ =~= DirModel::silent());
        }
        res
    }

    /// The bytes outstanding, if anything was sent.
    fn outstanding(&self) -> (res: Option<u64>)
        ensures
            res == self@.outstanding(),
    {
        match (self.snd_nxt, self.acked) {
            (Some(snd), Some(acked)) => {
                if acked.serial_le(snd) {
                    Some(snd.serial_diff(acked) as u64)
                } else {
                    Some(0)
                }
            },
            _ => None,
        }
    }

    /// Whether `seg` is a retransmit, and whether it is out of order.
    fn classify(&self, seg: &Segment, cfg: &EngineConfig) -> (res: (bool, bool))
        ensures
            res.0 == is_retransmit(self@, *seg, *cfg),
            res.1 == is_out_of_order(self@, *seg, *cfg),
    {
        if seg.payload_len == 0 {
            return (false, false);
        }
        match self.frontier {
            None => (false, false),
            Some(frontier) => {
                if !seg.seq.serial_lt(frontier) {
                    return (false, false);
                }
                match self.last_data_ts {
                    None => (true, false),
                    Some(previous) => {
                        let soon = seg.ts.since(previous).0 < cfg.reorder_window.0;
                        (!soon, soon)
                    },
                }
            },
        }
    }

    /// Puts the payload of `seg` into the window and drops entries that no window that ends at
    /// the latest payload or after it can hold.
    fn window_push_and_evict(&mut self, seg: &Segment, retransmit: bool, cfg: &EngineConfig)
        requires
            retransmit == is_retransmit(old(self)@, *seg, *cfg),
        ensures
            final(self)@ == (DirModel {
                window: after_sending(old(self)@, *seg, *cfg).window,
                latest: after_sending(old(self)@, *seg, *cfg).latest,
                ..old(self)@
            }),
    {
        if seg.payload_len > 0 {
            self.tput.push_back((seg.ts, seg.payload_len, retransmit));
            self.tput_max_ts = Some(
                match self.tput_max_ts {
                    Some(m) => m.latest(seg.ts),
                    None => seg.ts,
                },
            );
        }
        let window: u64 = cfg.throughput_window.0;
        if window == 0 {
            return ;
        }
        if let Some(latest) = self.tput_max_ts {
            let ghost all = self.tput@;
            let ghost before = *self;
            let ghost mut dropped: int = 0;
            while self.tput.len() > 0 && self.tput[0].0.0 as u128 + window as u128
                <= latest.0 as u128
                invariant
                    window == cfg.throughput_window.0,
                    0 <= dropped <= all.len(),
                    self.tput@ == all.skip(dropped),
                    expired(all, latest, cfg.throughput_window) == dropped + expired(
                        self.tput@,
                        latest,
                        cfg.throughput_window,
                    ),
                    *self == (DirState { tput: self.tput, ..before }),
                decreases self.tput@.len(),
            {
                let ghost rest = self.tput@;
                let _ = self.tput.pop_front();
                proof {
                    assert(rest.drop_first() =~= self.tput@);
                    dropped = dropped + 1;
                    assert(self.tput@ =~= all.skip(dropped));
                }
            }
        }
    }

    /// The throughput and goodput over the window that ends at `t`.
    fn rates(&self, t: Nanos, cfg: &EngineConfig) -> (res: Option<(u64, u64)>)
        ensures
            res == self@.rates(t, cfg.throughput_window),
    {
        if self.tput_max_ts.is_none() {
            return None;
        }
        let window: u64 = cfg.throughput_window.0;
        if window == 0 {
            return Some((0, 0));
        }
        let mut total: u128 = 0;
        let mut good: u128 = 0;
        let mut i: usize = 0;
        let ghost entries = self.tput@;
        while i < self.tput.len()
            invariant
                i <= entries.len(),
                entries == self.tput@,
                window == cfg.throughput_window.0,
                total <= i * u32::MAX,
                good <= total,
                total == windowed_bytes(
                    entries.take(i as int),
                    t,
                    cfg.throughput_window,
                    false,
                ),
                good == windowed_bytes(entries.take(i as int), t, cfg.throughput_window, true),
            decreases entries.len() - i,
        {
            let (ts, len, retransmit) = self.tput[i];
            proof {
                assert(entries.take(i + 1).drop_last() =~= entries.take(i as int));
                assert(entries.take(i + 1).last() == entries[i as int]);
                assert((i + 1) * u32::MAX == i * u32::MAX + u32::MAX) by (nonlinear_arith);
                assert(i * u32::MAX <= 0xffff_ffff_ffff_ffff * u32::MAX) by (nonlinear_arith)
                    requires
                        i <= 0xffff_ffff_ffff_ffff,
                ;
            }
            if ts.0 as u128 + window as u128 > t.0 as u128 && ts.0 <= t.0 {
                total = total + len as u128;
                if !retransmit {
                    good = good + len as u128;
                }
            }
            i = i + 1;
        }
        proof {
            assert(entries.take(i as int) =~= entries);
        }
        Some((scale_bps(total, window), scale_bps(good, window)))
    }

    /// Folds in a segment of this direction; returns the retransmit and out-of-order marks.
    fn send(&mut self, seg: &Segment, cfg: &EngineConfig) -> (res: (bool, bool))
        ensures
            final(self)@ == after_sending(old(self)@, *seg, *cfg),
            res.0 == is_retransmit(old(self)@, *seg, *cfg),
            res.1 == is_out_of_order(old(self)@, *seg, *cfg),
    {
        let ghost before = self@;
        let end = seq_end(seg);
        let (retransmit, out_of_order) = self.classify(seg, cfg);
        self.window_push_and_evict(seg, retransmit, cfg);
        if self.acked.is_none() {
            self.acked = Some(seg.seq);
        }
        self.snd_nxt = Some(serial_max(self.snd_nxt, end));
        if seg.payload_len > 0 {
            self.frontier = Some(serial_max(self.frontier, end));
            self.last_data_ts = Some(seg.ts);
        }
        if retransmit {
            self.pending_rtt.clear();
        } else if seg.payload_len > 0 || seg.flags.syn() || seg.flags.fin() {
            self.pending_rtt.push_back((end, seg.ts));
        }
        proof {
            assert(self@ =~= after_sending(before, *seg, *cfg));
        }
        (retransmit, out_of_order)
    }

    /// Folds in an acknowledgement from the other direction; returns the round trip it completes.
    fn acknowledge(&mut self, seg: &Segment) -> (res: Option<Nanos>)
        ensures
            final(self)@ == after_acking(old(self)@, *seg),
            res == round_trip(old(self)@, *seg),
    {
        let ghost before = self@;
        let advances = seg.flags.ack() && self.snd_nxt.is_some() && match self.acked {
            None => true,
            Some(acked) => seg.ack.serial_gt(acked),
        };
        if !advances {
            return None;
        }
        self.acked = Some(seg.ack);
        let mut oldest: Option<Nanos> = None;
        let ghost all = self.pending_rtt@;
        let ghost kept = *self;
        let ghost mut popped: int = 0;
        while self.pending_rtt.len() > 0 && self.pending_rtt[0].0.serial_le(seg.ack)
            invariant
                0 <= popped <= all.len(),
                self.pending_rtt@ == all.skip(popped),
                acknowledged(all, seg.ack) == popped + acknowledged(self.pending_rtt@, seg.ack),
                oldest == (if popped == 0 {
                    None
                } else {
                    Some(all[0].1)
                }),
                *self == (DirState { pending_rtt: self.pending_rtt, ..kept }),
            decreases self.pending_rtt@.len(),
        {
            let ghost rest = self.pending_rtt@;
            if oldest.is_none() {
                oldest = Some(self.pending_rtt[0].1);
            }
            let _ = self.pending_rtt.pop_front();
            proof {
                assert(rest.drop_first() =~= self.pending_rtt@);
                popped = popped + 1;
                assert(self.pending_rtt@ =~= all.skip(popped));
            }
        }
        proof {
            assert(self@ =~= after_acking(before, *seg));
        }
        match oldest {
            None => None,
            Some(sent) => Some(seg.ts.since(sent)),
        }
    }
}

/// `bytes` over `window` nanoseconds as bits per second, saturating.
fn scale_bps(bytes: u128, window: u64) -> (res: u64)
    requires
        window > 0,
    ensures
        res == bits_per_second(bytes as nat, window as nat),
{
    let ceiling: u128 = u128::MAX / 8_000_000_000;
    if bytes > ceiling {
        proof {
            assert(bytes * 8_000_000_000 >= 0x1_0000_0000_0000_0000_0000_0000_0000_0000int);
            assert(bytes * 8_000_000_000 / (window as int) > u64::MAX) by (nonlinear_arith)
                requires
                    bytes * 8_000_000_000 >= 0x1_0000_0000_0000_0000_0000_0000_0000_0000int,
                    0 < window <= 0xffff_ffff_ffff_ffff,
            ;
        }
        return u64::MAX;
    }
    let rate: u128 = bytes * 8_000_000_000 / (window as u128);
    if rate > u64::MAX as u128 {
        u64::MAX
    } else {
        rate as u64
    }
}

/// Metric derivation state of one connection.
pub struct MetricState {
    o2r: DirState,
    r2o: DirState,
}

impl View for MetricState {
    type V = MetricModel;

    closed spec fn view(&self) -> MetricModel {
        MetricModel { o2r: self.o2r@, r2o: self.r2o@ }
    }
}

impl MetricState {
    /// Nothing seen yet.
    #[must_use]
    pub fn new() -> (res: MetricState)
        ensures
            res@ == MetricModel::fresh(),
    {
        MetricState { o2r: DirState::new(), r2o: DirState::new() }
    }

    /// Folds one segment in and produces its sample.
    pub fn observe(&mut self, seg: &Segment, dir: Direction, cfg: &EngineConfig) -> (res:
        MetricSample)
        ensures
            final(self)@ == old(self)@.after(*seg, dir, *cfg),
            res == old(self)@.sample(*seg, dir, *cfg),
    {
        let ((retransmit, out_of_order), rtt) = match dir {
            Direction::OriginToResponder => {
                let marks = self.o2r.send(seg, cfg);
                (marks, self.r2o.acknowledge(seg))
            },
            Direction::ResponderToOrigin => {
                let marks = self.r2o.send(seg, cfg);
                (marks, self.o2r.acknowledge(seg))
            },
        };
        let in_flight_bytes: u64 = match self.in_flight(dir) {
            Some(bytes) => bytes,
            None => 0,
        };
        let throughput_bps: u64 = match self.throughput_at(dir, seg.ts, cfg) {
            Some((total, _)) => total,
            None => 0,
        };
        MetricSample {
            t: seg.ts,
            dir: dir.sample_dir(),
            in_flight_bytes,
            throughput_bps,
            rtt,
            retransmit,
            out_of_order,
            sack: seg.options.sack_blocks.len() > 0,
        }
    }

    /// The bytes outstanding in `dir`, or `None` if nothing was sent in it.
    #[must_use]
    pub fn in_flight(&self, dir: Direction) -> (res: Option<u64>)
        ensures
            res == self@.of(dir).outstanding(),
    {
        match dir {
            Direction::OriginToResponder => self.o2r.outstanding(),
            Direction::ResponderToOrigin => self.r2o.outstanding(),
        }
    }

    /// Throughput and goodput of `dir` over the window that ends at `t`, or `None` if no payload
    /// was ever sent in it.
    #[must_use]
    pub fn throughput_at(&self, dir: Direction, t: Nanos, cfg: &EngineConfig) -> (res: Option<
        (u64, u64),
    >)
        ensures
            res == self@.of(dir).rates(t, cfg.throughput_window),
    {
        match dir {
            Direction::OriginToResponder => self.o2r.rates(t, cfg),
            Direction::ResponderToOrigin => self.r2o.rates(t, cfg),
        }
    }
}

/// A direction after it sent each of `segs` in turn.
pub open spec fn after_sending_all(own: DirModel, segs: Seq<Segment>, cfg: EngineConfig) -> DirModel
    decreases segs.len(),
{
    if segs.len() == 0 {
        own
    } else {
        after_sending(after_sending_all(own, segs.drop_last(), cfg), segs.last(), cfg)
    }
}

/// The payload of all of `segs`.
pub open spec fn payload_sum(segs: Seq<Segment>) -> nat
    decreases segs.len(),
{
    if segs.len() == 0 {
        0
    } else {
        payload_sum(segs.drop_last()) + segs.last().payload_len as nat
    }
}

/// Every payload that `segs` put on the wire from state `own`, with its classification.
pub open spec fn payload_history(own: DirModel, segs: Seq<Segment>, cfg: EngineConfig) -> Seq<
    (Nanos, u32, bool),
>
    decreases segs.len(),
{
    if segs.len() == 0 {
        Seq::empty()
    } else {
        let earlier = payload_history(own, segs.drop_last(), cfg);
        let seg = segs.last();
        if seg.payload_len > 0 {
            earlier.push(
                (
                    seg.ts,
                    seg.payload_len,
                    is_retransmit(after_sending_all(own, segs.drop_last(), cfg), seg, cfg),
                ),
            )
        } else {
            earlier
        }
    }
}

proof fn lemma_advance_twice(base: TcpSeq, x: int, d: int)
    requires
        0 <= x,
        0 <= d,
        x + d < crate::seq::HALF,
    ensures
        crate::seq::advanced(crate::seq::advanced(base, x), d) == crate::seq::advanced(base, x + d),
        crate::seq::forward_distance(base, crate::seq::advanced(base, x + d)) == x + d,
        d > 0 ==> !crate::seq::precedes(
            crate::seq::advanced(base, x + d),
            crate::seq::advanced(base, x),
        ),
{
}

proof fn lemma_send_extends(own: DirModel, base: TcpSeq, x: nat, seg: Segment, cfg: EngineConfig)
    requires
        x + seg.payload_len < crate::seq::HALF,
        seg.payload_len > 0,
        !seg.flags.has(crate::segment::TcpFlags::SYN),
        !seg.flags.has(crate::segment::TcpFlags::FIN),
        seg.seq == crate::seq::advanced(base, x as int),
        x == 0 ==> own.snd_nxt is None && own.acked is None,
        x > 0 ==> own.snd_nxt == Some(seg.seq) && own.acked == Some(base),
    ensures
        after_sending(own, seg, cfg).acked == Some(base),
        after_sending(own, seg, cfg).snd_nxt == Some(
            crate::seq::advanced(base, x + seg.payload_len),
        ),
        after_sending(own, seg, cfg).outstanding() == Some((x + seg.payload_len) as u64),
{
    lemma_advance_twice(base, x as int, seg.payload_len as int);
}

/// While nothing is acknowledged, back-to-back payload is outstanding in full, wherever the
/// sequence numbers start and even if they wrap.
pub proof fn law_unacknowledged_payload_is_in_flight(
    base: TcpSeq,
    segs: Seq<Segment>,
    cfg: EngineConfig,
)
    requires
        segs.len() > 0,
        payload_sum(segs) < crate::seq::HALF,
        forall|i: int|
            0 <= i < segs.len() ==> {
                &&& (#[trigger] segs[i]).payload_len > 0
                &&& !segs[i].flags.has(crate::segment::TcpFlags::SYN)
                &&& !segs[i].flags.has(crate::segment::TcpFlags::FIN)
                &&& segs[i].seq == crate::seq::advanced(base, payload_sum(segs.take(i)) as int)
            },
    ensures
        after_sending_all(DirModel::silent(), segs, cfg).outstanding() == Some(
            payload_sum(segs) as u64,
        ),
        after_sending_all(DirModel::silent(), segs, cfg).acked == Some(base),
        after_sending_all(DirModel::silent(), segs, cfg).snd_nxt == Some(
            crate::seq::advanced(base, payload_sum(segs) as int),
        ),
    decreases segs.len(),
{
    let rest = segs.drop_last();
    let last = segs.last();
    let own = after_sending_all(DirModel::silent(), rest, cfg);
    assert(rest =~= segs.take(segs.len() - 1));
    assert(last == segs[segs.len() - 1]);
    if rest.len() > 0 {
        assert forall|i: int| 0 <= i < rest.len() implies {
            &&& (#[trigger] rest[i]).payload_len > 0
            &&& !rest[i].flags.has(crate::segment::TcpFlags::SYN)
            &&& !rest[i].flags.has(crate::segment::TcpFlags::FIN)
            &&& rest[i].seq == crate::seq::advanced(base, payload_sum(rest.take(i)) as int)
        } by {
            assert(rest[i] == segs[i]);
            assert(rest.take(i) =~= segs.take(i));
        }
        law_unacknowledged_payload_is_in_flight(base, rest, cfg);
        assert(rest[rest.len() - 1].payload_len > 0);
        assert(payload_sum(rest) > 0);
    }
    lemma_send_extends(own, base, payload_sum(rest), last, cfg);
}

proof fn lemma_windowed_bytes_fresh_at_most_all(
    entries: Seq<(Nanos, u32, bool)>,
    t: Nanos,
    window: Nanos,
)
    ensures
        windowed_bytes(entries, t, window, true) <= windowed_bytes(entries, t, window, false),
    decreases entries.len(),
{
    if entries.len() > 0 {
        lemma_windowed_bytes_fresh_at_most_all(entries.drop_last(), t, window);
    }
}

/// Goodput never exceeds throughput.
pub proof fn law_goodput_at_most_throughput(own: DirModel, t: Nanos, window: Nanos)
    ensures
        own.rates(t, window) matches Some(rates) ==> rates.1 <= rates.0,
{
    lemma_windowed_bytes_fresh_at_most_all(own.window, t, window);
    let good = windowed_bytes(own.window, t, window, true);
    let all = windowed_bytes(own.window, t, window, false);
    if window.0 > 0 {
        assert(good * 8_000_000_000 / (window.0 as nat) <= all * 8_000_000_000 / (window.0 as nat))
            by (nonlinear_arith)
            requires
                good <= all,
                window.0 > 0,
        ;
    }
}

proof fn lemma_windowed_bytes_split(
    entries: Seq<(Nanos, u32, bool)>,
    t: Nanos,
    window: Nanos,
    fresh_only: bool,
)
    requires
        entries.len() > 0,
    ensures
        windowed_bytes(entries, t, window, fresh_only) == windowed_bytes(
            entries.drop_first(),
            t,
            window,
            fresh_only,
        ) + windowed_bytes(seq![entries[0]], t, window, fresh_only),
    decreases entries.len(),
{
    if entries.len() == 1 {
        assert(entries =~= seq![entries[0]]);
        assert(entries.drop_first() =~= Seq::empty());
    } else {
        lemma_windowed_bytes_split(entries.drop_last(), t, window, fresh_only);
        assert(entries.drop_first().drop_last() =~= entries.drop_last().drop_first());
        assert(entries.drop_first().last() == entries.last());
    }
}

/// Entries older than any window from `latest` on count in none.
pub proof fn lemma_expired_entries_do_not_count(
    entries: Seq<(Nanos, u32, bool)>,
    latest: Nanos,
    t: Nanos,
    window: Nanos,
    fresh_only: bool,
)
    requires
        latest.0 <= t.0,
    ensures
        expired(entries, latest, window) <= entries.len(),
        windowed_bytes(
            entries.skip(expired(entries, latest, window) as int),
            t,
            window,
            fresh_only,
        ) == windowed_bytes(entries, t, window, fresh_only),
    decreases entries.len(),
{
    if entries.len() > 0 && entries[0].0.0 + window.0 <= latest.0 {
        let rest = entries.drop_first();
        lemma_expired_entries_do_not_count(rest, latest, t, window, fresh_only);
        lemma_windowed_bytes_split(entries, t, window, fresh_only);
        let n = expired(rest, latest, window) as int;
        assert(entries.skip(n + 1) =~= rest.skip(n));
        assert(seq![entries[0]].drop_last() =~= Seq::empty());
        assert(windowed_bytes(seq![entries[0]], t, window, fresh_only) == 0) by {
            reveal_with_fuel(windowed_bytes, 2);
        }
    } else {
        assert(entries.skip(0) =~= entries);
    }
}

/// Dropping old entries is never seen: for a window that ends at the latest payload or later,
/// the bytes counted are those of everything ever sent.
pub proof fn law_dropped_entries_never_count(
    segs: Seq<Segment>,
    cfg: EngineConfig,
    t: Nanos,
    fresh_only: bool,
)
    requires
        after_sending_all(DirModel::silent(), segs, cfg).latest matches Some(m) ==> m.0 <= t.0,
    ensures
        windowed_bytes(
            after_sending_all(DirModel::silent(), segs, cfg).window,
            t,
            cfg.throughput_window,
            fresh_only,
        ) == windowed_bytes(
            payload_history(DirModel::silent(), segs, cfg),
            t,
            cfg.throughput_window,
            fresh_only,
        ),
    decreases segs.len(),
{
    if segs.len() > 0 {
        let own = after_sending_all(DirModel::silent(), segs.drop_last(), cfg);
        let seg = segs.last();
        let next = after_sending(own, seg, cfg);
        law_dropped_entries_never_count(segs.drop_last(), cfg, t, fresh_only);
        let entry = (seg.ts, seg.payload_len, is_retransmit(own, seg, cfg));
        let window = if seg.payload_len > 0 {
            own.window.push(entry)
        } else {
            own.window
        };
        let history = payload_history(DirModel::silent(), segs.drop_last(), cfg);
        assert(own.window.push(entry).drop_last() =~= own.window);
        assert(history.push(entry).drop_last() =~= history);
        if next.latest is Some {
            lemma_expired_entries_do_not_count(
                window,
                next.latest.unwrap(),
                t,
                cfg.throughput_window,
                fresh_only,
            );
        }
    }
}

/// A segment is never both a retransmit and out of order, and only payload is either.
pub proof fn law_retransmit_excludes_out_of_order(own: DirModel, seg: Segment, cfg: EngineConfig)
    ensures
        !(is_retransmit(own, seg, cfg) && is_out_of_order(own, seg, cfg)),
        seg.payload_len == 0 ==> !is_retransmit(own, seg, cfg) && !is_out_of_order(own, seg, cfg),
{
}

/// No round trip is measured across a retransmission: until something else is sent, no
/// acknowledgement gives one.
pub proof fn law_no_round_trip_after_retransmit(
    own: DirModel,
    seg: Segment,
    ack: Segment,
    cfg: EngineConfig,
)
    requires
        is_retransmit(own, seg, cfg),
    ensures
        round_trip(after_sending(own, seg, cfg), ack) is None,
{
}

/// An acknowledgement that repeats the one before it gives no round trip and changes nothing.
pub proof fn law_duplicate_ack_is_inert(peer: DirModel, first: Segment, second: Segment)
    requires
        ack_advances(peer, first),
        second.ack == first.ack,
    ensures
        round_trip(after_acking(peer, first), second) is None,
        after_acking(after_acking(peer, first), second) == after_acking(peer, first),
{
}

} // verus!
