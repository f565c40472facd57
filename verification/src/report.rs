//! Reports on a capture: the lines the commands print, and the record of one connection's
//! metrics.

use vstd::prelude::*;

use crate::app::{App, AppModel, LiveStatus, PlayModel};
use crate::config::{EngineConfig, RetentionPolicy};
use crate::conn::{ConnId, Connection};
use crate::ingest::SkipCounts;
use crate::live::{InterfaceInfo, LiveEvent};
use crate::metric::{MetricSample, SampleDir};
use crate::metrics::{ConnectionMetrics, MetricError, SeriesCollection};
use crate::name::{NameObservation, NameTable, NameTableModel};
use crate::segment::{Item, Segment};
use crate::text::append_decimal;
use crate::time::{clamped_product, Nanos};
use crate::tracker::{run, TrackModel, Tracker, TrackerModel};
use crate::transport::TransportModel;

verus! {

/// The line for a segment: time, flow, flags, numbers and length.
pub open spec fn segment_text(s: Segment) -> Seq<char> {
    s.ts.text_spec() + " "@ + s.flow.text_spec() + " "@ + s.flags.text_spec() + " seq="@
        + crate::text::decimal(s.seq.0 as nat) + " ack="@ + crate::text::decimal(s.ack.0 as nat)
        + " win="@ + crate::text::decimal(s.window as nat) + " len="@ + crate::text::decimal(
        s.payload_len as nat,
    )
}

/// The line for a segment.
#[must_use]
pub fn segment_line(s: &Segment) -> (res: String)
    ensures
        res@ == segment_text(*s),
{
    let mut out = s.ts.text();
    let flow = s.flow.text();
    let flags = s.flags.text();
    out.append(" ");
    out.append(flow.as_str());
    out.append(" ");
    out.append(flags.as_str());
    out.append(" seq=");
    append_decimal(&mut out, s.seq.0 as u64);
    out.append(" ack=");
    append_decimal(&mut out, s.ack.0 as u64);
    out.append(" win=");
    append_decimal(&mut out, s.window as u64);
    out.append(" len=");
    append_decimal(&mut out, s.payload_len as u64);
    out
}

/// The reasons with their counts, a comma between them.
pub open spec fn reasons_text(reasons: Seq<(Seq<char>, u64)>) -> Seq<char>
    decreases reasons.len(),
{
    if reasons.len() == 0 {
        Seq::empty()
    } else {
        let (name, n) = reasons.last();
        let last = name + "="@ + crate::text::decimal(n as nat);
        if reasons.len() == 1 {
            last
        } else {
            reasons_text(reasons.drop_last()) + ", "@ + last
        }
    }
}

/// The reasons for which anything was skipped, in brackets; nothing if nothing was.
pub open spec fn breakdown_text(skipped: SkipCounts) -> Seq<char> {
    let reasons = skipped.nonzero_spec(6);
    if reasons.len() == 0 {
        Seq::empty()
    } else {
        " ("@ + reasons_text(reasons) + ")"@
    }
}

/// The reasons for which anything was skipped, in brackets.
#[must_use]
pub fn skip_breakdown(skipped: &SkipCounts) -> (res: String)
    ensures
        res@ == breakdown_text(*skipped),
{
    let reasons = skipped.nonzero();
    let ghost all = skipped.nonzero_spec(6);
    proof {
        assert(all.len() == reasons@.len());
    }
    if reasons.len() == 0 {
        return String::new();
    }
    let mut list = String::new();
    let mut i: usize = 0;
    while i < reasons.len()
        invariant
            i <= reasons@.len(),
            all.len() == reasons@.len(),
            forall|k: int|
                0 <= k < all.len() ==> #[trigger] all[k] == (reasons@[k].0@, reasons@[k].1),
            list@ == reasons_text(all.take(i as int)),
        decreases reasons@.len() - i,
    {
        let ghost before = list@;
        proof {
            assert(all.take(i + 1).drop_last() =~= all.take(i as int));
            assert(all.take(i + 1).last() == all[i as int]);
        }
        if i > 0 {
            list.append(", ");
        }
        let (name, n) = reasons[i];
        list.append(name);
        list.append("=");
        append_decimal(&mut list, n);
        i = i + 1;
        proof {
            assert(list@ =~= reasons_text(all.take(i as int)));
        }
    }
    proof {
        assert(all.take(i as int) =~= all);
    }
    let mut out = " (".to_owned();
    out.append(list.as_str());
    out.append(")");
    out
}

/// The last line of a report on `count` things.
pub open spec fn summary_text(count: nat, things: Seq<char>, skipped: SkipCounts) -> Seq<char> {
    crate::text::decimal(count) + " "@ + things + ", skipped: "@ + crate::text::decimal(
        skipped.sum(),
    ) + " total"@ + breakdown_text(skipped)
}

/// The last line of a report on `count` things.
#[must_use]
pub fn summary_line(count: u64, things: &str, skipped: &SkipCounts) -> (res: String)
    requires
        skipped.sum() <= u64::MAX,
    ensures
        res@ == summary_text(count as nat, things@, *skipped),
{
    let breakdown = skip_breakdown(skipped);
    let mut out = String::new();
    append_decimal(&mut out, count);
    out.append(" ");
    out.append(things);
    out.append(", skipped: ");
    append_decimal(&mut out, skipped.total());
    out.append(" total");
    out.append(breakdown.as_str());
    proof {
        assert(out@ =~= summary_text(count as nat, things@, *skipped));
    }
    out
}

/// The line for a connection. One that was joined mid-stream is marked.
pub open spec fn connection_text(c: Connection) -> Seq<char> {
    c.origin.text_spec() + " -> "@ + c.responder.text_spec() + "  state="@ + c.state.label_spec()
        + "  inst="@ + crate::text::decimal(c.id.instance as nat) + "  bytes="@
        + crate::text::decimal(c.bytes_o2r as nat) + "/"@ + crate::text::decimal(
        c.bytes_r2o as nat,
    ) + "  segs="@ + crate::text::decimal(c.segments as nat) + "  dur="@ + crate::time::elapsed(
        c.last_at,
        c.opened_at,
    ).text_spec() + (if c.origin_inferred {
        " (mid-stream)"@
    } else {
        Seq::empty()
    })
}

/// The line for a connection.
#[must_use]
pub fn connection_line(c: &Connection) -> (res: String)
    ensures
        res@ == connection_text(*c),
{
    let mut out = c.origin.text();
    let responder = c.responder.text();
    let duration = c.duration().text();
    out.append(" -> ");
    out.append(responder.as_str());
    out.append("  state=");
    out.append(c.state.label());
    out.append("  inst=");
    append_decimal(&mut out, c.id.instance as u64);
    out.append("  bytes=");
    append_decimal(&mut out, c.bytes_o2r);
    out.append("/");
    append_decimal(&mut out, c.bytes_r2o);
    out.append("  segs=");
    append_decimal(&mut out, c.segments);
    out.append("  dur=");
    out.append(duration.as_str());
    if c.origin_inferred {
        out.append(" (mid-stream)");
    }
    proof {
        assert(out@ =~= connection_text(*c));
    }
    out
}

/// The connections in `items`, in the order in which they are reported.
pub open spec fn reported(items: Seq<Item>, config: EngineConfig) -> Seq<Connection> {
    let conns = TrackerModel::fresh(config).after_all(items).connections();
    crate::sort::stably_sorted(conns, conns)
}

/// The tracker with the configuration `config` has room for `items`.
pub open spec fn trackable(items: Seq<Item>, config: EngineConfig) -> bool {
    TrackerModel::fresh(config).has_room_for_all(items)
}

/// Whether a tracker with the configuration `config` has room for `items`.
#[must_use]
pub fn can_track(items: &[Item], config: EngineConfig) -> (res: bool)
    ensures
        res == trackable(items@, config),
{
    let mut tracker = Tracker::new(config);
    let mut i: usize = 0;
    while i < items.len()
        invariant
            i <= items@.len(),
            tracker.wf(),
            trackable(items@.take(i as int), config),
            tracker@ == TrackerModel::fresh(config).after_all(items@.take(i as int)),
        decreases items@.len() - i,
    {
        proof {
            assert(items@.take(i + 1).drop_last() =~= items@.take(i as int));
        }
        if !tracker.can_observe(&items[i]) {
            proof {
                if trackable(items@, config) {
                    crate::tracker::lemma_room_for_prefix(
                        TrackerModel::fresh(config),
                        items@,
                        i + 1,
                    );
                }
            }
            return false;
        }
        tracker.observe(&items[i]);
        i = i + 1;
    }
    proof {
        assert(items@.take(i as int) =~= items@);
    }
    true
}

/// The lines of the report on connections: one per connection and a summary.
pub open spec fn connections_report(items: Seq<Item>, skipped: SkipCounts) -> Seq<Seq<char>> {
    let conns = reported(items, EngineConfig::standard());
    conns.map_values(|c: Connection| connection_text(c)).push(
        summary_text(conns.len(), "connections"@, skipped),
    )
}

/// The lines of the report on connections: one per connection and a summary.
#[must_use]
pub fn conns_lines(items: &[Item], skipped: &SkipCounts) -> (res: Vec<String>)
    requires
        trackable(items@, EngineConfig::standard()),
        skipped.sum() <= u64::MAX,
    ensures
        res@.map_values(|s: String| s@) == connections_report(items@, *skipped),
{
    let tracker = run(items, EngineConfig::default());
    let conns = tracker.into_connections();
    let mut lines: Vec<String> = Vec::new();
    let mut i: usize = 0;
    while i < conns.len()
        invariant
            i <= conns@.len(),
            lines@.len() == i,
            forall|k: int| 0 <= k < i ==> (#[trigger] lines@[k])@ == connection_text(conns@[k]),
        decreases conns@.len() - i,
    {
        lines.push(connection_line(&conns[i]));
        i = i + 1;
    }
    lines.push(summary_line(conns.len() as u64, "connections", skipped));
    proof {
        assert(lines@.map_values(|s: String| s@) =~= connections_report(items@, *skipped));
    }
    lines
}

/// The name of a direction in a record.
pub open spec fn dir_text(d: SampleDir) -> Seq<char> {
    match d {
        SampleDir::OriginToResponder => "o2r"@,
        SampleDir::ResponderToOrigin => "r2o"@,
    }
}

/// The name of a direction in a record.
#[must_use]
pub fn dir_str(d: SampleDir) -> (res: &'static str)
    ensures
        res@ == dir_text(d),
{
    match d {
        SampleDir::OriginToResponder => "o2r",
        SampleDir::ResponderToOrigin => "r2o",
    }
}

/// The record of a metric sample.
#[derive(Debug, Clone, PartialEq, Eq)]
pub struct SampleRecord {
    pub t_ns: u64,
    pub dir: &'static str,
    pub in_flight: u64,
    pub throughput_bps: u64,
    pub rtt_ns: Option<u64>,
    pub retransmit: bool,
    pub out_of_order: bool,
    pub sack: bool,
}

impl SampleRecord {
    /// This is the record of `s`.
    pub open spec fn records(self, s: MetricSample) -> bool {
        &&& self.t_ns == s.t.0
        &&& self.dir@ == dir_text(s.dir)
        &&& self.in_flight == s.in_flight_bytes
        &&& self.throughput_bps == s.throughput_bps
        &&& self.rtt_ns == (match s.rtt {
            Some(rtt) => Some(rtt.0),
            None => None,
        })
        &&& self.retransmit == s.retransmit
        &&& self.out_of_order == s.out_of_order
        &&& self.sack == s.sack
    }
}

/// The record of a metric sample.
#[must_use]
pub fn sample_record(s: &MetricSample) -> (res: SampleRecord)
    ensures
        res.records(*s),
{
    SampleRecord {
        t_ns: s.t.0,
        dir: dir_str(s.dir),
        in_flight: s.in_flight_bytes,
        throughput_bps: s.throughput_bps,
        rtt_ns: match s.rtt {
            Some(rtt) => Some(rtt.0),
            None => None,
        },
        retransmit: s.retransmit,
        out_of_order: s.out_of_order,
        sack: s.sack,
    }
}

/// The record of a connection.
#[derive(Debug, Clone, PartialEq, Eq)]
pub struct ConnectionRecord {
    pub index: usize,
    pub origin: String,
    pub responder: String,
    pub instance: u32,
    pub state: String,
    pub origin_inferred: bool,
    pub opened_at_ns: u64,
    pub last_at_ns: u64,
}

impl ConnectionRecord {
    /// This is the record of `c`, which is reported at place `index`.
    pub open spec fn records(self, c: Connection, index: usize) -> bool {
        &&& self.index == index
        &&& self.origin@ == c.origin.text_spec()
        &&& self.responder@ == c.responder.text_spec()
        &&& self.instance == c.id.instance
        &&& self.state@ == c.state.label_spec()
        &&& self.origin_inferred == c.origin_inferred
        &&& self.opened_at_ns == c.opened_at.0
        &&& self.last_at_ns == c.last_at.0
    }
}

/// The record of a connection's metrics.
#[derive(Debug, PartialEq, Eq)]
pub struct MetricsRecord {
    pub connection: ConnectionRecord,
    pub throughput_window_ns: u64,
    pub reorder_window_ns: u64,
    pub samples: Vec<SampleRecord>,
}

impl MetricsRecord {
    /// This is the record of `c`, which is reported at place `index` and has the samples `series`.
    pub open spec fn records(
        self,
        c: Connection,
        series: Seq<MetricSample>,
        index: usize,
        cfg: EngineConfig,
    ) -> bool {
        &&& self.connection.records(c, index)
        &&& self.throughput_window_ns == cfg.throughput_window.0
        &&& self.reorder_window_ns == cfg.reorder_window.0
        &&& self.samples@.len() == series.len()
        &&& forall|i: int|
            0 <= i < series.len() ==> (#[trigger] self.samples@[i]).records(series[i])
    }
}

/// The record of a connection's metrics.
#[must_use]
pub fn metrics_record(metrics: &ConnectionMetrics, index: usize, cfg: &EngineConfig) -> (res:
    MetricsRecord)
    ensures
        res.records(metrics.conn, metrics.series@, index, *cfg),
{
    let c = &metrics.conn;
    let mut samples: Vec<SampleRecord> = Vec::new();
    let mut i: usize = 0;
    while i < metrics.series.len()
        invariant
            i <= metrics.series@.len(),
            samples@.len() == i,
            forall|k: int| 0 <= k < i ==> (#[trigger] samples@[k]).records(metrics.series@[k]),
        decreases metrics.series@.len() - i,
    {
        samples.push(sample_record(&metrics.series[i]));
        i = i + 1;
    }
    MetricsRecord {
        connection: ConnectionRecord {
            index,
            origin: c.origin.text(),
            responder: c.responder.text(),
            instance: c.id.instance,
            state: c.state.label().to_owned(),
            origin_inferred: c.origin_inferred,
            opened_at_ns: c.opened_at.0,
            last_at_ns: c.last_at.0,
        },
        throughput_window_ns: cfg.throughput_window.0,
        reorder_window_ns: cfg.reorder_window.0,
        samples,
    }
}

/// Why a command cannot do what it is asked for.
#[derive(Debug, PartialEq, Eq)]
pub enum CommandError {
    NoSubcommand,
    NotATerminal,
    ZeroThroughputWindow,
    ZeroMaxSamples,
    OutOfRange { conn: usize, count: usize, file: String },
    Metric(MetricError),
    NoInterface,
    NoLiveSupport,
}

impl CommandError {
    /// The message shown to the user.
    pub open spec fn message_spec(self) -> Seq<char> {
        match self {
            CommandError::NoSubcommand => "no subcommand given; run `tcp-visr --help`"@,
            CommandError::NotATerminal =>
                "replay requires an interactive terminal (stdout is not a tty)"@,
            CommandError::ZeroThroughputWindow =>
                "--throughput-window-ms must be at least 1 (got 0)"@,
            CommandError::ZeroMaxSamples => "--max-samples must be at least 1 (got 0)"@,
            CommandError::OutOfRange { conn, count, file } => "connection index "@
                + crate::text::decimal(conn as nat) + " out of range (capture has "@
                + crate::text::decimal(count as nat) + " connections, 0.."@ + crate::text::decimal(
                (if count > 0 {
                    count - 1
                } else {
                    0
                }) as nat,
            ) + "); run `tcp-visr conns "@ + file@ + "` to list them"@,
            CommandError::Metric(error) => error.message_spec(),
            CommandError::NoInterface => "live requires -i <iface> (or --list-interfaces)"@,
            CommandError::NoLiveSupport =>
                "live capture: this binary was built without live support; rebuild with --features live"@,
        }
    }

    /// The message shown to the user.
    #[must_use]
    pub fn message(&self) -> (res: String)
        ensures
            res@ == self.message_spec(),
    {
        match self {
            CommandError::NoSubcommand => "no subcommand given; run `tcp-visr --help`".to_owned(),
            CommandError::NotATerminal => {
                "replay requires an interactive terminal (stdout is not a tty)".to_owned()
            },
            CommandError::ZeroThroughputWindow => {
                "--throughput-window-ms must be at least 1 (got 0)".to_owned()
            },
            CommandError::ZeroMaxSamples => "--max-samples must be at least 1 (got 0)".to_owned(),
            CommandError::OutOfRange { conn, count, file } => {
                let mut out = "connection index ".to_owned();
                append_decimal(&mut out, *conn as u64);
                out.append(" out of range (capture has ");
                append_decimal(&mut out, *count as u64);
                out.append(" connections, 0..");
                append_decimal(&mut out, (*count as u64).saturating_sub(1));
                out.append("); run `tcp-visr conns ");
                out.append(file.as_str());
                out.append("` to list them");
                out
            },
            CommandError::Metric(error) => error.message(),
            CommandError::NoInterface => {
                "live requires -i <iface> (or --list-interfaces)".to_owned()
            },
            CommandError::NoLiveSupport => {
                "live capture: this binary was built without live support; rebuild with --features live".to_owned()
            },
        }
    }
}

/// The configuration of a metrics run, without a target yet.
pub open spec fn metrics_base(
    throughput_window_ms: u64,
    reorder_window_ms: u64,
    max_samples: usize,
) -> EngineConfig {
    EngineConfig {
        throughput_window: Nanos(crate::time::clamped(throughput_window_ms * 1_000_000)),
        reorder_window: Nanos(crate::time::clamped(reorder_window_ms * 1_000_000)),
        max_samples,
        ..EngineConfig::standard()
    }
}

/// The configuration of a metrics run, without a target yet.
#[must_use]
pub fn metrics_config(throughput_window_ms: u64, reorder_window_ms: u64, max_samples: usize) -> (res:
    EngineConfig)
    ensures
        res == metrics_base(throughput_window_ms, reorder_window_ms, max_samples),
{
    let mut cfg = EngineConfig::default();
    cfg.throughput_window = Nanos(clamped_product(throughput_window_ms, 1_000_000));
    cfg.reorder_window = Nanos(clamped_product(reorder_window_ms, 1_000_000));
    cfg.max_samples = max_samples;
    cfg
}

/// The configuration that records the series of connection `id` alone.
pub open spec fn targeted(base: EngineConfig, id: ConnId) -> EngineConfig {
    EngineConfig { series_collection: SeriesCollection::Only(id), ..base }
}

/// What the metrics command comes to over `items`.
pub open spec fn is_metrics_report(
    res: Result<MetricsRecord, CommandError>,
    file: Seq<char>,
    items: Seq<Item>,
    conn: usize,
    throughput_window_ms: u64,
    reorder_window_ms: u64,
    max_samples: usize,
) -> bool {
    let base = metrics_base(throughput_window_ms, reorder_window_ms, max_samples);
    let conns = reported(items, base);
    if throughput_window_ms == 0 {
        res == Err::<MetricsRecord, CommandError>(CommandError::ZeroThroughputWindow)
    } else if max_samples == 0 {
        res == Err::<MetricsRecord, CommandError>(CommandError::ZeroMaxSamples)
    } else if conn >= conns.len() {
        res matches Err(CommandError::OutOfRange { conn: asked, count, file: name }) && asked == conn
            && count == conns.len() && name@ == file
    } else {
        let cfg = targeted(base, conns[conn as int].id);
        let run = TrackerModel::fresh(cfg).after_all(items);
        let track = run.conns[run.report_order()[conn as int] as int];
        if run.budget.overflowed {
            res == Err::<MetricsRecord, CommandError>(
                CommandError::Metric(crate::tracker::ceiling_error(run.budget)),
            )
        } else {
            res matches Ok(record) && track.conn == conns[conn as int] && record.records(
                track.conn,
                track.series,
                conn,
                cfg,
            )
        }
    }
}

/// The place of the first entry of connection `id` in `list`.
fn metrics_place(list: &Vec<ConnectionMetrics>, id: ConnId) -> (res: usize)
    requires
        exists|k: int| 0 <= k < list@.len() && (#[trigger] list@[k]).conn.id == id,
    ensures
        res < list@.len(),
        list@[res as int].conn.id == id,
        forall|k: int| 0 <= k < res ==> (#[trigger] list@[k]).conn.id != id,
{
    let len: usize = list.len();
    let mut i: usize = 0;
    while list[i].conn.id != id
        invariant
            i < len == list@.len(),
            exists|k: int| i <= k < list@.len() && (#[trigger] list@[k]).conn.id == id,
            forall|k: int| 0 <= k < i ==> (#[trigger] list@[k]).conn.id != id,
        decreases list@.len() - i,
    {
        i = i + 1;
    }
    i
}

/// Checks what a metrics run is asked for before anything is read.
///
/// # Errors
///
/// A throughput window or a ceiling of zero.
pub fn check_metrics(throughput_window_ms: u64, max_samples: usize) -> (res: Result<
    (),
    CommandError,
>)
    ensures
        res == (if throughput_window_ms == 0 {
            Err(CommandError::ZeroThroughputWindow)
        } else if max_samples == 0 {
            Err(CommandError::ZeroMaxSamples)
        } else {
            Ok(())
        }),
{
    if throughput_window_ms == 0 {
        Err(CommandError::ZeroThroughputWindow)
    } else if max_samples == 0 {
        Err(CommandError::ZeroMaxSamples)
    } else {
        Ok(())
    }
}

/// The metrics of the connection reported at place `conn`: a first pass over the items finds the
/// connection, a second records the series of that one alone.
///
/// # Errors
///
/// A window or a ceiling of zero, a place with no connection, and more samples than the ceiling.
pub fn metrics_report(
    file: &str,
    items: &[Item],
    conn: usize,
    throughput_window_ms: u64,
    reorder_window_ms: u64,
    max_samples: usize,
) -> (res: Result<MetricsRecord, CommandError>)
    requires
        trackable(items@, metrics_base(throughput_window_ms, reorder_window_ms, max_samples)),
    ensures
        is_metrics_report(
            res,
            file@,
            items@,
            conn,
            throughput_window_ms,
            reorder_window_ms,
            max_samples,
        ),
{
    if let Err(error) = check_metrics(throughput_window_ms, max_samples) {
        return Err(error);
    }
    let base = metrics_config(throughput_window_ms, reorder_window_ms, max_samples);
    let first = run(items, base);
    let conns = first.into_connections();
    if conn >= conns.len() {
        return Err(
            CommandError::OutOfRange { conn, count: conns.len(), file: file.to_owned() },
        );
    }
    let id = conns[conn].id;
    let mut cfg = base;
    cfg.series_collection = SeriesCollection::Only(id);
    proof {
        crate::passes::law_recording_takes_no_room(base, cfg, items@);
        crate::passes::law_recording_never_changes_tracking(base, cfg, items@);
    }
    let second = run(items, cfg);
    let ghost run = second@;
    match second.into_metrics() {
        Err(error) => Err(CommandError::Metric(error)),
        Ok(list) => {
            proof {
                let order = run.report_order();
                assert(run.conns[order[conn as int] as int].conn == conns@[conn as int]);
                assert(list@[conn as int].conn.id == id);
                assert forall|k: int| 0 <= k < list@.len() && k != conn implies (
                #[trigger] list@[k]).conn.id != id by {
                    let (a, b) = (order[k] as int, order[conn as int] as int);
                    if k < conn {
                        assert(crate::sort::placed_before(
                            run.connections(),
                            order[k],
                            order[conn as int],
                        ));
                    } else {
                        assert(crate::sort::placed_before(
                            run.connections(),
                            order[conn as int],
                            order[k],
                        ));
                    }
                    assert(a != b);
                    if a < b {
                        crate::tracker::law_connection_ids_are_unique(cfg, items@, a, b);
                    } else {
                        crate::tracker::law_connection_ids_are_unique(cfg, items@, b, a);
                    }
                }
            }
            let i: usize = metrics_place(&list, id);
            Ok(metrics_record(&list[i], conn, &cfg))
        },
    }
}

/// The configuration of a replay: every graph is recorded, up to a ceiling.
pub open spec fn replay_config(max_samples: usize) -> EngineConfig {
    EngineConfig {
        collect_state_timeline: true,
        collect_seq_timeline: true,
        collect_inflight_timeline: true,
        collect_rtt_timeline: true,
        collect_throughput_timeline: true,
        max_samples,
        ..EngineConfig::standard()
    }
}

/// The configuration of a replay: every graph is recorded, up to a ceiling.
#[must_use]
pub fn replay_engine_config(max_samples: usize) -> (res: EngineConfig)
    ensures
        res == replay_config(max_samples),
{
    let mut cfg = EngineConfig::default();
    cfg.collect_state_timeline = true;
    cfg.collect_seq_timeline = true;
    cfg.collect_inflight_timeline = true;
    cfg.collect_rtt_timeline = true;
    cfg.collect_throughput_timeline = true;
    cfg.max_samples = max_samples;
    cfg
}

/// Checks what a replay is asked for before anything is read.
///
/// # Errors
///
/// A ceiling of zero, and output that is not a terminal.
pub fn check_replay(max_samples: usize, terminal: bool) -> (res: Result<(), CommandError>)
    ensures
        res == (if max_samples == 0 {
            Err(CommandError::ZeroMaxSamples)
        } else if !terminal {
            Err(CommandError::NotATerminal)
        } else {
            Ok(())
        }),
{
    if max_samples == 0 {
        Err(CommandError::ZeroMaxSamples)
    } else if !terminal {
        Err(CommandError::NotATerminal)
    } else {
        Ok(())
    }
}

/// The title of a replay: the file, and how many connections, names and skipped packets there
/// are; names that did not fit are pointed out.
pub open spec fn replay_title_text(
    file: Seq<char>,
    connections: nat,
    names: nat,
    skipped: nat,
    capped: bool,
) -> Seq<char> {
    "tcp-visr \u{2014} "@ + file + "  ("@ + crate::text::decimal(connections) + " connections, "@
        + crate::text::decimal(names) + " names, skipped "@ + crate::text::decimal(skipped) + (
    if capped {
        ", names capped"@
    } else {
        Seq::empty()
    }) + ")"@
}

fn replay_title(file: &str, connections: usize, names: usize, skipped: u64, capped: bool) -> (res:
    String)
    ensures
        res@ == replay_title_text(
            file@,
            connections as nat,
            names as nat,
            skipped as nat,
            capped,
        ),
{
    let mut out = "tcp-visr \u{2014} ".to_owned();
    out.append(file);
    out.append("  (");
    append_decimal(&mut out, connections as u64);
    out.append(" connections, ");
    append_decimal(&mut out, names as u64);
    out.append(" names, skipped ");
    append_decimal(&mut out, skipped);
    if capped {
        out.append(", names capped");
    }
    out.append(")");
    proof {
        assert(out@ =~= replay_title_text(
            file@,
            connections as nat,
            names as nat,
            skipped as nat,
            capped,
        ));
    }
    out
}

/// The names in a table once all of `list` have been observed.
pub open spec fn names_after(list: Seq<NameObservation>) -> NameTableModel {
    NameTableModel::fresh().after_all(list.map_values(|o: NameObservation| o@))
}

fn collect_names(list: Vec<NameObservation>) -> (res: NameTable)
    ensures
        res@ == names_after(list@),
{
    let ghost all = list@;
    let ghost models = all.map_values(|o: NameObservation| o@);
    let mut table = NameTable::new();
    let count: usize = list.len();
    for obs in it: list
        invariant
            it.seq() == all,
            all.len() == count,
            models == all.map_values(|o: NameObservation| o@),
            table@ == NameTableModel::fresh().after_all(models.take(it.index() as int)),
            table@.dropped <= it.index(),
    {
        proof {
            let n = it.index() as int;
            assert(models.take(n + 1).drop_last() =~= models.take(n));
        }
        table.observe(obs);
    }
    proof {
        assert(models.take(all.len() as int) =~= models);
    }
    table
}

/// `app` is the replay of the connections that `run` has seen, with the given names and title.
pub open spec fn is_replay_of(
    app: AppModel,
    run: TrackerModel,
    names: NameTableModel,
    title: Seq<char>,
) -> bool {
    let recordings = run.conns.map_values(|t: TrackModel| t.recording());
    let timeline = app.play->0.timeline;
    &&& app.play is Some
    &&& timeline.shows(recordings, crate::timeline::last_activity(recordings))
    &&& app == AppModel::over(
        crate::app::rows_of(
            crate::timeline::connections_as_of(timeline.entries, timeline.start),
            names,
        ),
        title,
        Some(
            PlayModel {
                timeline,
                transport: TransportModel::fresh(timeline.start, timeline.end),
                names,
                live: None,
            },
        ),
    )
    &&& app.wf()
}

/// The interactive replay of a capture: its timeline from the start, with the names observed in
/// it and a title that sums it up.
///
/// # Errors
///
/// More samples than the configuration allows.
pub fn build_replay_app(
    file: &str,
    items: &[Item],
    names: Vec<NameObservation>,
    skipped: &SkipCounts,
    cfg: EngineConfig,
) -> (res: Result<App, MetricError>)
    requires
        trackable(items@, cfg),
        skipped.sum() <= u64::MAX,
    ensures
        ({
            let run = TrackerModel::fresh(cfg).after_all(items@);
            let table = names_after(names@);
            match res {
                Err(error) => run.budget.overflowed && error == crate::tracker::ceiling_error(
                    run.budget,
                ),
                Ok(app) => !run.budget.overflowed && is_replay_of(
                    app@,
                    run,
                    table,
                    replay_title_text(
                        file@,
                        run.conns.len(),
                        table.size,
                        skipped.sum(),
                        table.dropped > 0,
                    ),
                ),
            }
        }),
{
    let tracker = run(items, cfg);
    let ghost run = tracker@;
    let timeline = match tracker.into_timeline() {
        Ok(timeline) => timeline,
        Err(error) => return Err(error),
    };
    proof {
        crate::passes::law_timelines_run_forward(cfg, items@, timeline@);
        crate::name::law_name_table_stays_within_cap(
            names@.map_values(|o: NameObservation| o@),
        );
    }
    let table = collect_names(names);
    let title = replay_title(
        file,
        timeline.connection_count(),
        table.len(),
        skipped.total(),
        table.dropped() > 0,
    );
    Ok(App::new_with_names(timeline, table, title))
}

/// The ceiling on samples of a live capture.
pub const LIVE_MAX_SAMPLES: usize = 2_000_000;

/// The configuration of a live capture: every graph and every series is recorded, to be kept for
/// `retention_secs` seconds and up to a ceiling.
pub open spec fn live_config(retention_secs: u64) -> EngineConfig {
    EngineConfig {
        collect_state_timeline: true,
        collect_seq_timeline: true,
        collect_inflight_timeline: true,
        collect_rtt_timeline: true,
        collect_throughput_timeline: true,
        series_collection: SeriesCollection::All,
        max_samples: LIVE_MAX_SAMPLES,
        retention: RetentionPolicy::Evict {
            window: Nanos(crate::time::clamped(retention_secs * 1_000_000_000)),
        },
        ..EngineConfig::standard()
    }
}

/// The configuration of a live capture.
#[must_use]
pub fn live_engine_config(retention_secs: u64) -> (res: EngineConfig)
    ensures
        res == live_config(retention_secs),
{
    let mut cfg = replay_engine_config(LIVE_MAX_SAMPLES);
    cfg.series_collection = SeriesCollection::All;
    cfg.retention = RetentionPolicy::Evict {
        window: Nanos(clamped_product(retention_secs, 1_000_000_000)),
    };
    cfg
}

/// How long a live capture may see nothing before that is pointed out, in nanoseconds.
pub const LIVE_GRACE_NS: u64 = 5_000_000_000;

/// The hint on a live capture that has seen nothing for too long; none once a packet has come.
#[must_use]
pub fn grace_hint(first_packet_seen: bool, elapsed: Nanos) -> (res: Option<&'static str>)
    ensures
        (first_packet_seen || elapsed.0 < LIVE_GRACE_NS) <==> res is None,
        res matches Some(hint) ==> hint@
            == "no packets yet \u{2014} check privileges, interface, or filter"@,
{
    if first_packet_seen || elapsed.0 < LIVE_GRACE_NS {
        None
    } else {
        Some("no packets yet \u{2014} check privileges, interface, or filter")
    }
}

/// The title of a live capture, with a hint if there is one.
pub open spec fn live_title_text(iface: Seq<char>, hint: Option<Seq<char>>) -> Seq<char> {
    "tcp-visr \u{2014} live "@ + iface + (match hint {
        Some(text) => "  ["@ + text + "]"@,
        None => Seq::empty(),
    })
}

/// The title of a live capture, with a hint if there is one.
#[must_use]
pub fn live_title(iface: &str, hint: Option<&str>) -> (res: String)
    ensures
        res@ == live_title_text(
            iface@,
            match hint {
                Some(text) => Some(text@),
                None => None,
            },
        ),
{
    let mut out = "tcp-visr \u{2014} live ".to_owned();
    out.append(iface);
    if let Some(text) = hint {
        out.append("  [");
        out.append(text);
        out.append("]");
        proof {
            assert(out@ =~= live_title_text(iface@, Some(text@)));
        }
    }
    out
}

/// The program and the tracker behind it after an event of a live capture: a segment or a tick goes
/// to the tracker, a name to the program.
pub open spec fn after_live_event(
    tracker: TrackerModel,
    app: AppModel,
    event: LiveEvent,
) -> (TrackerModel, AppModel) {
    match event {
        LiveEvent::Item(item) => (tracker.after(item), app),
        LiveEvent::Name(obs) => (tracker, app.named(obs@)),
    }
}

/// The counters of the tracker and of the names have room for an event.
pub open spec fn has_room_for_event(
    tracker: TrackerModel,
    app: AppModel,
    event: LiveEvent,
) -> bool {
    match event {
        LiveEvent::Item(item) => tracker.has_room(item),
        LiveEvent::Name(obs) => app.has_room_for_name(obs@),
    }
}

/// Whether the counters of the tracker and of the names have room for an event.
#[must_use]
pub fn can_take_live_event(tracker: &Tracker, app: &App, event: &LiveEvent) -> (res: bool)
    requires
        tracker.wf(),
    ensures
        res == has_room_for_event(tracker@, app@, *event),
{
    match event {
        LiveEvent::Item(item) => tracker.can_observe(item),
        LiveEvent::Name(obs) => app.can_observe_name(obs),
    }
}

/// Takes an event of a live capture, and says whether it was a segment.
pub fn take_live_event(tracker: &mut Tracker, app: &mut App, event: LiveEvent) -> (res: bool)
    requires
        old(tracker).wf(),
        has_room_for_event(old(tracker)@, old(app)@, event),
    ensures
        final(tracker).wf(),
        (final(tracker)@, final(app)@) == after_live_event(old(tracker)@, old(app)@, event),
        old(app)@.wf() ==> final(app)@.wf(),
        res <==> (event matches LiveEvent::Item(Item::Segment(_))),
{
    match event {
        LiveEvent::Item(item) => {
            tracker.observe(&item);
            match item {
                Item::Segment(_) => true,
                Item::Tick(_) => false,
            }
        },
        LiveEvent::Name(obs) => {
            app.observe_name(obs);
            false
        },
    }
}

/// How complete a live capture is that dropped `dropped` events.
#[must_use]
pub fn live_status_after(dropped: u64) -> (res: LiveStatus)
    ensures
        res == (LiveStatus { dropped, approximate: dropped > 0 }),
{
    LiveStatus { dropped, approximate: dropped > 0 }
}

/// The line for an interface: its name, and its description if it has one.
pub open spec fn interface_text(info: InterfaceInfo) -> Seq<char> {
    match info.description {
        Some(text) => info.name@ + "  "@ + text@,
        None => info.name@,
    }
}

/// The line for an interface.
#[must_use]
pub fn interface_line(info: &InterfaceInfo) -> (res: String)
    ensures
        res@ == interface_text(*info),
{
    let mut out = info.name.as_str().to_owned();
    if let Some(text) = &info.description {
        out.append("  ");
        out.append(text.as_str());
    }
    out
}

/// The interface of a live capture.
///
/// # Errors
///
/// No interface is given.
pub fn chosen_interface(iface: Option<String>) -> (res: Result<String, CommandError>)
    ensures
        match (iface, res) {
            (Some(name), Ok(chosen)) => chosen == name,
            (None, Err(error)) => error == CommandError::NoInterface,
            _ => false,
        },
{
    match iface {
        Some(name) => Ok(name),
        None => Err(CommandError::NoInterface),
    }
}

} // verus!
