//! What the lines, records and settings of the commands say.

use vstd::prelude::*;

use crate::app::AppModel;
use crate::config::{EngineConfig, RetentionPolicy};
use crate::conn::{ConnId, Connection};
use crate::ingest::{IngestError, SkipCounts};
use crate::live::{LiveError, LiveEvent};
use crate::metric::{MetricSample, SampleDir};
use crate::metrics::{MetricError, SeriesCollection};
use crate::report::{CommandError, ConnectionRecord, SampleRecord};
use crate::segment::{Item, Segment};
use crate::time::Nanos;
use crate::tracker::TrackerModel;

verus! {

/// The line for a connection tells both ends, then by their labels the state, the count, the bytes
/// of both directions, the segments and the time from the first segment to the last, in this order.
/// A connection that was joined mid-stream is marked at the end.
pub proof fn law_connection_lines_tell(c: Connection)
    requires
        c.opened_at.0 <= c.last_at.0,
    ensures
        ({
            let line = crate::report::connection_text(c);
            let bare = crate::report::connection_text(Connection { origin_inferred: false, ..c });
            let ends = c.origin.text_spec() + " -> "@ + c.responder.text_spec();
            let state = ends + "  state="@ + c.state.label_spec();
            let count = state + "  inst="@ + crate::text::decimal(c.id.instance as nat);
            let up = count + "  bytes="@ + crate::text::decimal(c.bytes_o2r as nat);
            let down = up + "/"@ + crate::text::decimal(c.bytes_r2o as nat);
            let segments = down + "  segs="@ + crate::text::decimal(c.segments as nat);
            let time = Nanos((c.last_at.0 - c.opened_at.0) as u64);
            &&& bare == segments + "  dur="@ + time.text_spec()
            &&& line == (if c.origin_inferred {
                bare + " (mid-stream)"@
            } else {
                bare
            })
        }),
{
    let bare = crate::report::connection_text(Connection { origin_inferred: false, ..c });
    assert(bare + Seq::<char>::empty() =~= bare);
    assert(crate::report::connection_text(c) =~= if c.origin_inferred {
        bare + " (mid-stream)"@
    } else {
        bare
    });
}

/// The line for a segment tells its time, its flow from the source to the destination, its bits,
/// and by their labels the sequence number, the acknowledgment number, the window and the length of
/// the payload, in this order.
pub proof fn law_segment_lines_tell(s: Segment)
    ensures
        ({
            let line = crate::report::segment_text(s);
            let flow = s.ts.text_spec() + " "@ + s.flow.text_spec();
            let flags = flow + " "@ + s.flags.text_spec();
            let seq = flags + " seq="@ + crate::text::decimal(s.seq.0 as nat);
            let ack = seq + " ack="@ + crate::text::decimal(s.ack.0 as nat);
            let window = ack + " win="@ + crate::text::decimal(s.window as nat);
            line == window + " len="@ + crate::text::decimal(s.payload_len as nat)
        }),
{
}

/// A reason with its count, after a comma where something is listed before it; nothing where the
/// reason never occurred.
pub open spec fn with_reason(before: Seq<char>, name: Seq<char>, n: u64) -> Seq<char> {
    if n == 0 {
        before
    } else if before.len() == 0 {
        name + "="@ + crate::text::decimal(n as nat)
    } else {
        before + ", "@ + (name + "="@ + crate::text::decimal(n as nat))
    }
}

/// The last line of a report tells how many things there are, how many packets were skipped, and in
/// brackets for each reason that occurred how many.
pub proof fn law_summaries_add_up(count: nat, things: Seq<char>, skipped: SkipCounts)
    ensures
        ({
            let line = crate::report::summary_text(count, things, skipped);
            let total = (skipped.non_tcp + skipped.malformed + skipped.unsupported_link_type
                + skipped.ipv6_fragment + skipped.unsupported_ext_chain
                + skipped.truncated) as nat;
            let a = with_reason(Seq::empty(), "non_tcp"@, skipped.non_tcp);
            let b = with_reason(a, "malformed"@, skipped.malformed);
            let c = with_reason(b, "unsupported_link_type"@, skipped.unsupported_link_type);
            let d = with_reason(c, "ipv6_fragment"@, skipped.ipv6_fragment);
            let e = with_reason(d, "unsupported_ext_chain"@, skipped.unsupported_ext_chain);
            let reasons = with_reason(e, "truncated"@, skipped.truncated);
            let bare = crate::text::decimal(count) + " "@ + things + ", skipped: "@
                + crate::text::decimal(total) + " total"@;
            line == (if total == 0 {
                bare
            } else {
                bare + (" ("@ + reasons + ")"@)
            })
        }),
{
    lemma_reason(skipped, 0);
    lemma_reason(skipped, 1);
    lemma_reason(skipped, 2);
    lemma_reason(skipped, 3);
    lemma_reason(skipped, 4);
    lemma_reason(skipped, 5);
    let bare = crate::text::decimal(count) + " "@ + things + ", skipped: "@ + crate::text::decimal(
        skipped.sum(),
    ) + " total"@;
    assert(bare + Seq::<char>::empty() =~= bare);
}

proof fn lemma_reason(skipped: SkipCounts, i: nat)
    ensures
        ({
            let (reason, name) = SkipCounts::listed(i as int);
            let (before, after) = (skipped.nonzero_spec(i), skipped.nonzero_spec(i + 1));
            &&& crate::report::reasons_text(after) == with_reason(
                crate::report::reasons_text(before),
                name,
                skipped.count(reason),
            )
            &&& after.len() == before.len() + (if skipped.count(reason) > 0 {
                1int
            } else {
                0int
            })
            &&& (crate::report::reasons_text(before).len() == 0) == (before.len() == 0)
            &&& i == 0 ==> before.len() == 0
        }),
    decreases i,
{
    let (reason, name) = SkipCounts::listed(i as int);
    let (before, after) = (skipped.nonzero_spec(i), skipped.nonzero_spec(i + 1));
    lemma_reasons_are_text(before);
    if skipped.count(reason) > 0 {
        assert(after.drop_last() =~= before);
    }
}

proof fn lemma_reasons_are_text(reasons: Seq<(Seq<char>, u64)>)
    ensures
        (crate::report::reasons_text(reasons).len() == 0) == (reasons.len() == 0),
{
    if reasons.len() > 0 {
        reveal_strlit("=");
    }
}

/// Connections are reported in the order in which they were opened; those opened at the same time
/// by their ends, the lower first, and by their count. Every one is reported once.
pub proof fn law_reports_are_in_order_of_opening(
    items: Seq<Item>,
    config: EngineConfig,
    i: int,
    j: int,
)
    requires
        TrackerModel::fresh(config).after_all(items).conns.len() <= usize::MAX,
        0 <= i < j < crate::report::reported(items, config).len(),
    ensures
        crate::report::reported(items, config).to_multiset() == TrackerModel::fresh(
            config,
        ).after_all(items).connections().to_multiset(),
        ({
            let (a, b) = (
                crate::report::reported(items, config)[i],
                crate::report::reported(items, config)[j],
            );
            let (p, q) = (a.id.pair, b.id.pair);
            &&& a.opened_at.0 <= b.opened_at.0
            &&& a.opened_at == b.opened_at ==> crate::screen::end_place(p.low)
                <= crate::screen::end_place(q.low)
            &&& a.opened_at == b.opened_at && p.low == q.low ==> crate::screen::end_place(p.high)
                <= crate::screen::end_place(q.high)
            &&& a.opened_at == b.opened_at && p == q ==> a.id.instance <= b.id.instance
        }),
{
    let conns = TrackerModel::fresh(config).after_all(items).connections();
    crate::sort::law_every_list_has_a_stable_order(conns);
    crate::sort::law_sorting_keeps_the_items(conns, conns);
    let order = crate::sort::sorted_indices(conns);
    assert(crate::sort::placed_before(conns, order[i], order[j]));
    let (a, b) = (conns[order[i] as int], conns[order[j] as int]);
    crate::screen::lemma_end_order(b.id.pair.low, a.id.pair.low);
    crate::screen::lemma_end_order(b.id.pair.high, a.id.pair.high);
}

/// A record of a sample holds what was measured: times in nanoseconds and the direction by its name.
pub proof fn law_sample_records_hold_what_was_measured(record: SampleRecord, s: MetricSample)
    ensures
        record.records(s) <==> {
            &&& record.t_ns == s.t.0
            &&& record.dir@ == (if s.dir == SampleDir::OriginToResponder {
                "o2r"@
            } else {
                "r2o"@
            })
            &&& record.in_flight == s.in_flight_bytes
            &&& record.throughput_bps == s.throughput_bps
            &&& record.rtt_ns is Some <==> s.rtt is Some
            &&& s.rtt matches Some(rtt) ==> record.rtt_ns == Some(rtt.0)
            &&& record.retransmit == s.retransmit
            &&& record.out_of_order == s.out_of_order
            &&& record.sack == s.sack
        },
{
}

/// A record of a connection holds its place in the report, its ends and state as they are written,
/// its count, and when it was opened and last seen in nanoseconds.
pub proof fn law_connection_records_hold_the_connection(
    record: ConnectionRecord,
    c: Connection,
    index: usize,
)
    ensures
        record.records(c, index) <==> {
            &&& record.index == index
            &&& record.origin@ == c.origin.text_spec()
            &&& record.responder@ == c.responder.text_spec()
            &&& record.instance == c.id.instance
            &&& record.state@ == c.state.label_spec()
            &&& record.origin_inferred == c.origin_inferred
            &&& record.opened_at_ns == c.opened_at.0
            &&& record.last_at_ns == c.last_at.0
        },
{
}

/// A span given in a larger unit is that many nanoseconds, or the longest that can be told.
pub open spec fn is_span(span: Nanos, n: u64, unit: nat) -> bool {
    span.0 == n * unit || (n * unit > u64::MAX && span.0 == u64::MAX)
}

/// The settings that nothing is said about: a pair is dead after two minutes, a quarter of the
/// sequence space back is a fresh start, throughput is taken over a second, three milliseconds are
/// reordering, ten million samples are kept and more is a failure.
pub proof fn law_settings_nothing_is_said_about(cfg: EngineConfig)
    requires
        cfg == EngineConfig::standard(),
    ensures
        is_span(cfg.dead_after, 120, 1_000_000_000),
        cfg.reset_threshold * 4 == 0x1_0000_0000,
        is_span(cfg.throughput_window, 1, 1_000_000_000),
        is_span(cfg.reorder_window, 3, 1_000_000),
        cfg.max_samples == 10_000_000,
        cfg.retention == RetentionPolicy::FailFast,
        cfg.series_collection == SeriesCollection::Off,
        !cfg.collect_state_timeline && !cfg.collect_seq_timeline && !cfg.collect_inflight_timeline,
        !cfg.collect_rtt_timeline && !cfg.collect_throughput_timeline,
{
}

/// The settings of a metrics run are the windows in milliseconds and the ceiling that were asked
/// for, and the one connection whose series is recorded.
pub proof fn law_settings_of_a_metrics_run(
    throughput_ms: u64,
    reorder_ms: u64,
    max_samples: usize,
    id: ConnId,
)
    ensures
        ({
            let cfg = crate::report::targeted(
                crate::report::metrics_base(throughput_ms, reorder_ms, max_samples),
                id,
            );
            &&& is_span(cfg.throughput_window, throughput_ms, 1_000_000)
            &&& is_span(cfg.reorder_window, reorder_ms, 1_000_000)
            &&& cfg.max_samples == max_samples
            &&& cfg.series_collection == SeriesCollection::Only(id)
            &&& cfg == (EngineConfig {
                throughput_window: cfg.throughput_window,
                reorder_window: cfg.reorder_window,
                max_samples,
                series_collection: SeriesCollection::Only(id),
                ..EngineConfig::standard()
            })
        }),
{
}

/// A replay records every graph and no series, and fails above the ceiling asked for. A live capture
/// records every graph and every series, and lets samples go that are older than the seconds asked
/// for.
pub proof fn law_settings_of_the_screens(max_samples: usize, retention_secs: u64)
    ensures
        ({
            let (replay, live) = (
                crate::report::replay_config(max_samples),
                crate::report::live_config(retention_secs),
            );
            let graphs = EngineConfig {
                collect_state_timeline: true,
                collect_seq_timeline: true,
                collect_inflight_timeline: true,
                collect_rtt_timeline: true,
                collect_throughput_timeline: true,
                ..EngineConfig::standard()
            };
            &&& replay == (EngineConfig { max_samples, ..graphs })
            &&& live.retention matches RetentionPolicy::Evict { window } && is_span(
                window,
                retention_secs,
                1_000_000_000,
            )
            &&& live == (EngineConfig {
                series_collection: SeriesCollection::All,
                max_samples: 2_000_000,
                retention: live.retention,
                ..graphs
            })
        }),
{
}

/// The title of a replay tells the file and how many connections, names and skipped packets there
/// are, and that names were left out where some were.
pub proof fn law_titles_sum_up(
    file: Seq<char>,
    connections: nat,
    names: nat,
    skipped: nat,
    iface: Seq<char>,
    hint: Seq<char>,
)
    ensures
        ({
            let told = "tcp-visr \u{2014} "@ + file + "  ("@ + crate::text::decimal(connections)
                + " connections, "@ + crate::text::decimal(names) + " names, skipped "@
                + crate::text::decimal(skipped);
            &&& crate::report::replay_title_text(file, connections, names, skipped, false) == told
                + ")"@
            &&& crate::report::replay_title_text(file, connections, names, skipped, true) == told
                + ", names capped"@ + ")"@
        }),
        crate::report::live_title_text(iface, None) == "tcp-visr \u{2014} live "@ + iface,
        crate::report::live_title_text(iface, Some(hint)) == "tcp-visr \u{2014} live "@ + iface + (
        "  ["@ + hint + "]"@),
{
    let told = "tcp-visr \u{2014} "@ + file + "  ("@ + crate::text::decimal(connections)
        + " connections, "@ + crate::text::decimal(names) + " names, skipped "@
        + crate::text::decimal(skipped);
    assert(told + Seq::<char>::empty() =~= told);
    let bare = "tcp-visr \u{2014} live "@ + iface;
    assert(bare + Seq::<char>::empty() =~= bare);
}

/// A place that no connection is reported at is refused with the place, how many connections there
/// are and the places they are reported at.
pub proof fn law_refused_places_are_told(conn: usize, count: usize, file: String)
    requires
        count > 0,
    ensures
        (CommandError::OutOfRange { conn, count, file }).message_spec() == "connection index "@
            + crate::text::decimal(conn as nat) + " out of range (capture has "@
            + crate::text::decimal(count as nat) + " connections, 0.."@ + crate::text::decimal(
            (count - 1) as nat,
        ) + "); run `tcp-visr conns "@ + file@ + "` to list them"@,
{
}

/// Of the events of a live capture the packets and the ticks change what is tracked and nothing on
/// the screen, and the names the screen alone.
pub proof fn law_live_events_go_where_they_belong(
    tracker: TrackerModel,
    app: AppModel,
    event: LiveEvent,
)
    ensures
        ({
            let (kept, shown) = crate::report::after_live_event(tracker, app, event);
            &&& event matches LiveEvent::Item(item) ==> kept == tracker.after(item) && shown
                == app
            &&& event matches LiveEvent::Name(obs) ==> kept == tracker && shown == app.named(
                obs@,
            )
        }),
{
}

/// A name that is seen is in the table from there on, and everything else on the screen but the list
/// stays.
pub proof fn law_names_reach_the_list(app: AppModel, obs: crate::name::NameModel)
    requires
        app.play is Some,
    ensures
        ({
            let after = app.named(obs);
            &&& after.play matches Some(p) && p.names == app.play->0.names.after(obs)
                && p.timeline == app.play->0.timeline && p.transport == app.play->0.transport
                && p.live == app.play->0.live
            &&& after.query == app.query && after.field == app.field && after.dir == app.dir
            &&& after.mode == app.mode && after.detail_open == app.detail_open && after.view
                == app.view && after.title == app.title
        }),
{
}

/// The messages of a failed reading name the file, what went wrong and the number that is not
/// known.
pub proof fn law_reading_failures_are_explained(path: String, detail: String, dlt: u16)
    ensures
        ({
            let open = IngestError::Open { path, source: detail };
            let broken = IngestError::Container { path, detail };
            let unknown = IngestError::UnknownLinkType { dlt };
            &&& open.message_spec() == "opening capture "@ + path@ + ": "@ + detail@
                + " (check the path and read permissions)"@
            &&& broken.message_spec() == "parsing capture container "@ + path@ + ": "@ + detail@
            &&& crate::text::contains(
                unknown.message_spec(),
                "unsupported link type "@ + crate::text::decimal(dlt as nat),
            )
        }),
{
    let told = "unsupported link type "@ + crate::text::decimal(dlt as nat);
    let rest = " (M1 supports Ethernet, SLL, SLL2, raw IP, null)"@;
    crate::screen::lemma_stands_between(told + rest, Seq::empty(), told, rest);
}

/// The messages of a failed capture name the interface or the filter and what went wrong.
pub proof fn law_capture_failures_are_explained(
    iface: String,
    detail: String,
    expr: String,
    dlt: u16,
)
    ensures
        ({
            let privilege = (LiveError::Privilege { iface }).message_spec();
            let unknown = (LiveError::UnsupportedLinkType { dlt }).message_spec();
            &&& (LiveError::Open { iface, detail }).message_spec() == "opening interface "@ + iface@
                + " for capture: "@ + detail@
            &&& (LiveError::Activate { iface, detail }).message_spec() == "activating capture on "@
                + iface@ + ": "@ + detail@
            &&& (LiveError::Filter { expr, detail }).message_spec() == "installing BPF filter `"@
                + expr@ + "`: "@ + detail@
            &&& (LiveError::Interfaces { detail }).message_spec()
                == "enumerating capture interfaces: "@ + detail@
            &&& crate::text::contains(
                privilege,
                "insufficient privilege to capture on "@ + iface@,
            )
            &&& crate::text::contains(
                unknown,
                "unsupported link type "@ + crate::text::decimal(dlt as nat),
            )
        }),
{
    let told = "insufficient privilege to capture on "@ + iface@;
    let rest =
        "; grant it with `sudo setcap cap_net_raw,cap_net_admin+eip $(command -v tcp-visr)` or run as root"@;
    crate::screen::lemma_stands_between(told + rest, Seq::empty(), told, rest);
    let number = "unsupported link type "@ + crate::text::decimal(dlt as nat);
    let list = " on the interface (supports Ethernet, SLL, SLL2, raw IP, null)"@;
    crate::screen::lemma_stands_between(number + list, Seq::empty(), number, list);
}

/// The message on too many samples tells how many there were and how many are allowed.
pub proof fn law_the_ceiling_message_tells_both_numbers(samples: usize, limit: usize)
    ensures
        crate::text::contains(
            (MetricError::SampleCeiling { samples, limit }).message_spec(),
            crate::text::decimal(samples as nat) + " samples > "@ + crate::text::decimal(
                limit as nat,
            ),
        ),
{
    let front = "metric series exceeded the sample ceiling ("@;
    let told = crate::text::decimal(samples as nat) + " samples > "@ + crate::text::decimal(
        limit as nat,
    );
    let rest = "); raise it with --max-samples or analyze a smaller capture"@;
    let whole = (MetricError::SampleCeiling { samples, limit }).message_spec();
    assert(whole =~= front + told + rest);
    crate::screen::lemma_stands_between(whole, front, told, rest);
}

} // verus!
