//! The reports on a capture, and the replay built from one.

use etherparse::{PacketBuilder, TcpOptionElement};
use pcap_parser::{create_reader, Block, PcapBlockOwned, PcapError};
use simple_dns::rdata::{RData, A};
use simple_dns::{Name, Packet, ResourceRecord, CLASS};
use tcpvisr::app::App;
use tcpvisr::config::{EngineConfig, RetentionPolicy};
use tcpvisr::ingest::{IngestError, ReplayParse, SkipCounts, SkipReason};
use tcpvisr::live::{InterfaceInfo, LiveEvent};
use tcpvisr::metric::SampleDir;
use tcpvisr::metrics::{MetricError, SeriesCollection};
use tcpvisr::name::{HostName, NameTable};
use tcpvisr::replay::{CaptureBlock, Emitted, ReadAction, ReadEvent, Replay};
use tcpvisr::report::{
    build_replay_app, can_take_live_event, can_track, check_metrics, check_replay,
    chosen_interface, conns_lines, grace_hint, interface_line, live_engine_config, live_status_after, live_title,
    metrics_config, metrics_report, replay_engine_config, segment_line, summary_line,
    take_live_event, CommandError, MetricsRecord,
};
use tcpvisr::segment::Item;
use tcpvisr::time::Nanos;
use tcpvisr::timeline::{StateSample, Timeline};
use tcpvisr::tracker::Tracker;

const PATH: &str = "capture.pcap";
const DLT_EN10MB: u16 = 1;
const C: [u8; 4] = [10, 0, 0, 1]; // client
const S: [u8; 4] = [10, 0, 0, 2]; // server

// TCP flag bits, OR-combined.
const FIN: u16 = 0x01;
const SYN: u16 = 0x02;
const RST: u16 = 0x04;
const ACK: u16 = 0x10;

/// The block as the library takes it.
fn convert<'a>(block: &'a PcapBlockOwned<'_>) -> CaptureBlock<'a> {
    match block {
        PcapBlockOwned::LegacyHeader(h) => CaptureBlock::LegacyHeader {
            network: h.network.0,
            magic: h.magic_number,
        },
        PcapBlockOwned::Legacy(b) => CaptureBlock::Legacy {
            ts_sec: b.ts_sec,
            ts_usec: b.ts_usec,
            origlen: b.origlen,
            data: b.data,
        },
        PcapBlockOwned::NG(Block::InterfaceDescription(idb)) => CaptureBlock::Interface {
            linktype: idb.linktype.0,
            tsresol: idb.if_tsresol,
        },
        PcapBlockOwned::NG(Block::EnhancedPacket(epb)) => CaptureBlock::Enhanced {
            ts_high: epb.ts_high,
            ts_low: epb.ts_low,
            origlen: epb.origlen,
            data: epb.data,
        },
        PcapBlockOwned::NG(_) => CaptureBlock::Other,
    }
}

/// Reads a whole capture.
fn parse_bytes(bytes: &[u8]) -> Result<ReplayParse, IngestError> {
    let mut reader = create_reader(65_536, bytes).map_err(|e| IngestError::Container {
        path: PATH.to_owned(),
        detail: format!("{e:?}"),
    })?;
    let mut replay = Replay::new();
    let mut items = Vec::new();
    let mut names = Vec::new();
    loop {
        let (action, offset) = match reader.next() {
            Ok((offset, block)) => {
                let event = ReadEvent::Block(convert(&block));
                (replay.step(PATH, event), offset)
            }
            Err(PcapError::Eof) => (replay.step(PATH, ReadEvent::Eof), 0),
            Err(PcapError::Incomplete(_)) => (replay.step(PATH, ReadEvent::Incomplete), 0),
            Err(e) => (replay.step(PATH, ReadEvent::Failed(format!("{e:?}"))), 0),
        };
        match action {
            ReadAction::Consume(emitted) => {
                match emitted {
                    Emitted::Segment(seg) => items.push(Item::Segment(seg)),
                    Emitted::Names(list) => names.extend(list),
                    Emitted::Nothing => {}
                }
                reader.consume(offset);
            }
            ReadAction::Refill => reader.refill().map_err(|e| IngestError::Container {
                path: PATH.to_owned(),
                detail: format!("{e:?}"),
            })?,
            ReadAction::Finish(link_type, skipped) => {
                return Ok(ReplayParse {
                    items,
                    skipped,
                    link_type,
                    names,
                });
            }
            ReadAction::Fail(error) => return Err(error),
        }
    }
}

fn read_capture(bytes: &[u8]) -> ReplayParse {
    parse_bytes(bytes).expect("a readable capture")
}

fn capture(name: &str) -> Vec<u8> {
    fixture_set()
        .into_iter()
        .chain(metrics_fixture_set())
        .find(|(n, _)| *n == name)
        .map(|(_, bytes)| bytes)
        .expect("a capture of that name")
}

fn conns(name: &str) -> String {
    let parsed = read_capture(&capture(name));
    assert!(can_track(&parsed.items, EngineConfig::default()));
    conns_lines(&parsed.items, &parsed.skipped).join("\n")
}

fn replay_of(bytes: &[u8], cfg: EngineConfig) -> Result<App, MetricError> {
    let parsed = read_capture(bytes);
    assert!(can_track(&parsed.items, cfg));
    build_replay_app(PATH, &parsed.items, parsed.names, &parsed.skipped, cfg)
}

/// A DNS answer for `example.com`, then a connection to the address it named.
fn name_resolution() -> Vec<u8> {
    let server = [93, 184, 216, 34];
    let mut packet = Packet::new_reply(1);
    packet.answers.push(ResourceRecord::new(
        Name::new("example.com").expect("a valid name"),
        CLASS::IN,
        60,
        RData::A(A {
            address: u32::from_be_bytes(server),
        }),
    ));
    let payload = packet.build_bytes_vec().expect("build dns answer");
    let mut answer = Vec::new();
    PacketBuilder::ethernet2([2, 0, 0, 0, 0, 1], [2, 0, 0, 0, 0, 2])
        .ipv4([10, 0, 0, 53], C, 64)
        .udp(53, 40_000)
        .write(&mut answer, &payload)
        .expect("build udp frame");
    legacy_pcap(&[
        (1_000, answer),
        (2_000, tcp(C, server, 1234, 443, SYN, 1000, 0, 0)),
        (3_000, tcp(server, C, 443, 1234, SYN | ACK, 5000, 1001, 0)),
    ])
}

#[test]
fn mid_stream_is_one_established_inferred_connection() {
    let o = conns("mid_stream.pcap");
    assert!(o.contains("state=Established"), "{o}");
    assert!(o.contains("(mid-stream)"), "{o}");
    assert!(o.contains("1 connections"), "{o}");
}

#[test]
fn sim_open_reaches_established_not_inferred() {
    let o = conns("sim_open.pcap");
    assert!(o.contains("state=Established"), "{o}");
    assert!(!o.contains("(mid-stream)"), "{o}");
}

#[test]
fn mid_rst_is_reset() {
    assert!(conns("mid_rst.pcap").contains("state=Reset"));
}

#[test]
fn tuple_reuse_lists_two_instances() {
    let o = conns("tuple_reuse.pcap");
    assert!(o.contains("inst=0"), "{o}");
    assert!(o.contains("inst=1"), "{o}");
    assert!(o.contains("2 connections"), "{o}");
}

#[test]
fn seq_wrap_stays_one_connection() {
    assert!(conns("seq_wrap.pcap").contains("1 connections"));
}

#[test]
fn build_replay_app_resolves_and_counts_names() {
    let cfg = replay_engine_config(10_000_000);
    let app = replay_of(&name_resolution(), cfg).expect("build");
    // The responder (93.184.216.34:443) resolves to the fixture's DNS host name.
    let row = app
        .visible()
        .into_iter()
        .find(|r| r.host.is_some())
        .expect("a resolved row");
    assert_eq!(
        row.host.as_ref().map(HostName::as_str),
        Some("example.com")
    );
    // The title reports the resolved-name count.
    assert!(app.title().contains("1 names"), "title: {}", app.title());
}

#[test]
fn build_replay_app_reports_zero_names_without_dns() {
    let cfg = replay_engine_config(10_000_000);
    let app = replay_of(&capture("metrics_basic.pcap"), cfg).expect("build");
    assert!(app.title().contains("0 names"), "title: {}", app.title());
}

#[test]
fn builds_a_timeline_app_with_rows() {
    let cfg = EngineConfig {
        collect_state_timeline: true,
        ..EngineConfig::default()
    };
    let app = replay_of(&capture("metrics_basic.pcap"), cfg).expect("build");
    assert!(
        !app.visible().is_empty(),
        "fixture has connections active at the initial cursor"
    );
}

#[test]
fn sample_ceiling_is_fatal() {
    let cfg = EngineConfig {
        collect_state_timeline: true,
        max_samples: 1,
        ..EngineConfig::default()
    };
    let err = replay_of(&capture("metrics_basic.pcap"), cfg).expect_err("ceiling");
    let msg = err.message();
    assert!(msg.contains("--max-samples"), "actionable: {msg}");
}

#[test]
fn run_replay_config_enables_inflight_collection() {
    // The replay path must turn the flag on; guard against a regression that drops it.
    let cfg = replay_engine_config(10_000_000);
    assert!(
        cfg.collect_inflight_timeline,
        "replay must collect the in-flight timeline"
    );
    assert!(
        cfg.collect_seq_timeline && cfg.collect_state_timeline,
        "the state and sequence series still on"
    );
}

#[test]
fn run_replay_config_enables_rtt_collection() {
    let cfg = replay_engine_config(10_000_000);
    assert!(
        cfg.collect_rtt_timeline,
        "replay must collect the RTT timeline"
    );
}

#[test]
fn run_replay_config_enables_throughput_collection() {
    let cfg = replay_engine_config(10_000_000);
    assert!(
        cfg.collect_throughput_timeline,
        "replay must collect the throughput timeline"
    );
}

#[test]
fn build_replay_app_collects_throughput_series_for_the_focus_connection() {
    // metrics_basic connection 0: focus dir O2R (SYN + 100 B data >> 1-B SYN-ACK). The 100 B
    // O2R data at t=2ms is not a retransmit, so the O2R throughput sample there is
    // throughput_bps == goodput_bps == 800 (100 B * 8 / 1s window).
    let cfg = replay_engine_config(10_000_000);
    let app = replay_of(&capture("metrics_basic.pcap"), cfg).expect("build");
    let focus = app
        .focus()
        .expect("a connection is selected at the initial cursor");
    assert!(
        !focus.throughput.is_empty(),
        "fixture with sent data yields a non-empty focus throughput series"
    );
    let at_2ms = focus
        .throughput
        .iter()
        .find(|s| {
            s.dir == SampleDir::OriginToResponder && s.t == Nanos(2_000_000)
        })
        .expect("an O2R throughput sample at t=2ms (the 100 B data send)");
    assert_eq!(at_2ms.throughput_bps, 800, "100 B over the 1s window");
    assert_eq!(at_2ms.goodput_bps, 800, "the 100 B is not a retransmit");
}

#[test]
fn build_replay_app_collects_rtt_series_for_the_focus_connection() {
    // metrics_basic connection 0: focus dir O2R (SYN + 100 B data >> 1-B SYN-ACK) has RTT
    // samples at t=1ms and t=3ms (SYN-ACK acking the SYN; final ACK acking the O2R data).
    let cfg = replay_engine_config(10_000_000);
    let app = replay_of(&capture("metrics_basic.pcap"), cfg).expect("build");
    let focus = app
        .focus()
        .expect("a connection is selected at the initial cursor");
    assert!(
        !focus.rtt.is_empty(),
        "fixture with acked data yields a non-empty focus RTT series"
    );
}

#[test]
fn build_replay_app_collects_inflight_series_for_the_focus_connection() {
    let cfg = EngineConfig {
        collect_state_timeline: true,
        collect_seq_timeline: true,
        collect_inflight_timeline: true,
        ..EngineConfig::default()
    };
    let app = replay_of(&capture("metrics_basic.pcap"), cfg).expect("build");
    let focus = app
        .focus()
        .expect("a connection is selected at the initial cursor");
    assert!(
        !focus.inflight.is_empty(),
        "fixture with data segments yields a non-empty focus in-flight series"
    );
}

#[test]
fn build_replay_app_collects_seq_series_for_the_focus_connection() {
    let cfg = EngineConfig {
        collect_state_timeline: true,
        collect_seq_timeline: true,
        ..EngineConfig::default()
    };
    let app = replay_of(&capture("metrics_basic.pcap"), cfg).expect("build");
    let focus = app
        .focus()
        .expect("a connection is selected at the initial cursor");
    assert!(
        !focus.series.is_empty(),
        "fixture with data segments yields a non-empty focus seq series"
    );
}

#[test]
fn grace_hint_is_advisory_only_while_silent_past_the_window() {
    assert!(
        grace_hint(false, Nanos(1_000_000_000)).is_none(),
        "quiet but within the grace window is not yet a hint"
    );
    assert!(
        grace_hint(true, Nanos(30_000_000_000)).is_none(),
        "a packet was seen -> no hint"
    );
    assert!(
        grace_hint(false, Nanos(6_000_000_000)).is_some(),
        "silent past the window -> advisory hint"
    );
}

#[test]
fn live_engine_config_uses_evict_over_the_retention_window() {
    let cfg = live_engine_config(120);
    assert_eq!(
        cfg.retention,
        RetentionPolicy::Evict {
            window: Nanos(120_000_000_000),
        }
    );
    assert_eq!(cfg.max_samples, 2_000_000);
    assert!(cfg.collect_throughput_timeline && cfg.collect_state_timeline);
    assert_eq!(cfg.series_collection, SeriesCollection::All);
}

#[test]
fn retention_too_long_for_the_clock_is_clamped() {
    assert_eq!(
        live_engine_config(u64::MAX).retention,
        RetentionPolicy::Evict {
            window: Nanos(u64::MAX),
        }
    );
    assert_eq!(
        replay_engine_config(7).retention,
        RetentionPolicy::FailFast
    );
}

#[test]
fn live_without_feature_errors_clearly() {
    let err = CommandError::NoLiveSupport.message();
    assert!(err.contains("without live support"), "{err}");
}

#[test]
fn titles_of_live_captures_carry_the_hint() {
    assert_eq!(live_title("eth0", None), "tcp-visr \u{2014} live eth0");
    assert_eq!(
        live_title("eth0", Some("quiet")),
        "tcp-visr \u{2014} live eth0  [quiet]"
    );
}

#[test]
fn live_events_go_to_the_tracker_or_to_the_names() {
    let parsed = read_capture(&name_resolution());
    let mut tracker = Tracker::new(EngineConfig::default());
    let mut app = App::new_live(NameTable::default(), live_title("eth0", None));
    let mut segments = 0;
    let names = parsed.names.into_iter().map(LiveEvent::Name);
    let items = parsed.items.into_iter().map(LiveEvent::Item);
    let tick = LiveEvent::Item(Item::Tick(Nanos(9)));
    for event in names.chain(items).chain([tick]) {
        assert!(can_take_live_event(&tracker, &app, &event));
        if take_live_event(&mut tracker, &mut app, event) {
            segments += 1;
        }
    }
    assert_eq!(segments, 2);
    let conns = tracker.into_connections();
    assert_eq!(conns.len(), 1);
    app.retarget(
        Timeline::with_seq_ending(
            vec![(
                conns[0],
                vec![StateSample {
                    t: conns[0].opened_at,
                    state: conns[0].state,
                    bytes_o2r: 0,
                    bytes_r2o: 0,
                }],
                vec![],
                vec![],
                vec![],
                vec![],
            )],
            conns[0].last_at,
        ),
        Nanos(0),
        conns[0].last_at,
        live_status_after(0),
    );
    let rows = app.visible();
    assert_eq!(
        rows[0].host.as_ref().map(HostName::as_str),
        Some("example.com")
    );
}

#[test]
fn a_capture_that_dropped_something_is_approximate() {
    assert!(!live_status_after(0).approximate);
    let status = live_status_after(7);
    assert!(status.approximate);
    assert_eq!(status.dropped, 7);
}

#[test]
fn interfaces_are_listed_with_their_description() {
    let mut info = InterfaceInfo {
        name: "eth0".to_string(),
        description: None,
    };
    assert_eq!(interface_line(&info), "eth0");
    info.description = Some("Ethernet".to_string());
    assert_eq!(interface_line(&info), "eth0  Ethernet");
}

#[test]
fn a_live_capture_needs_an_interface() {
    assert_eq!(
        chosen_interface(Some("eth0".to_string())),
        Ok("eth0".to_string())
    );
    let error = chosen_interface(None).unwrap_err();
    assert_eq!(error, CommandError::NoInterface);
    assert_eq!(
        error.message(),
        "live requires -i <iface> (or --list-interfaces)"
    );
}

#[test]
fn segments_are_printed_on_one_line() {
    let parsed = read_capture(&capture("metrics_basic.pcap"));
    let lines: Vec<String> = parsed
        .items
        .iter()
        .map(|item| match item {
            Item::Segment(seg) => segment_line(seg),
            Item::Tick(_) => panic!("a capture has no ticks"),
        })
        .collect();
    assert_eq!(lines.len(), 4);
    assert_eq!(
        lines[2],
        "0.002000000s 10.0.0.1:1234 -> 10.0.0.2:80 ACK seq=1001 ack=5001 win=64240 len=100"
    );
    assert_eq!(
        summary_line(4, "segments", &parsed.skipped),
        "4 segments, skipped: 0 total"
    );
}

#[test]
fn summaries_break_the_skips_down() {
    let mut skipped = SkipCounts::default();
    skipped.record(SkipReason::NonTcp);
    skipped.record(SkipReason::NonTcp);
    skipped.record(SkipReason::Truncated);
    assert_eq!(
        summary_line(7, "segments", &skipped),
        "7 segments, skipped: 3 total (non_tcp=2, truncated=1)"
    );
}

#[test]
fn connections_are_printed_on_one_line() {
    let lines = conns("mid_stream.pcap");
    assert_eq!(
        lines,
        "10.0.0.1:1234 -> 10.0.0.2:80  state=Established  inst=0  bytes=40/20  segs=3  \
         dur=0.002000000s (mid-stream)\n1 connections, skipped: 0 total"
    );
}

fn metrics_of(name: &str, conn: usize) -> Result<MetricsRecord, CommandError> {
    let parsed = read_capture(&capture(name));
    metrics_report(name, &parsed.items, conn, 1_000, 3, 10_000_000)
}

#[test]
fn metrics_follow_a_handshake_and_data() {
    let record = metrics_of("metrics_basic.pcap", 0).expect("metrics");
    assert_eq!(record.throughput_window_ns, 1_000_000_000);
    assert_eq!(record.reorder_window_ns, 3_000_000);
    let c = &record.connection;
    assert_eq!(c.index, 0);
    assert_eq!(c.origin, "10.0.0.1:1234");
    assert_eq!(c.responder, "10.0.0.2:80");
    assert_eq!(c.state, "Established");
    assert!(!c.origin_inferred);
    assert_eq!((c.opened_at_ns, c.last_at_ns), (0, 3_000_000));
    let rtts: Vec<(u64, &str, u64)> = record
        .samples
        .iter()
        .filter_map(|s| s.rtt_ns.map(|rtt| (s.t_ns, s.dir, rtt)))
        .collect();
    assert_eq!(
        rtts,
        vec![
            (1_000_000, "r2o", 1_000_000),
            (2_000_000, "o2r", 1_000_000),
            (3_000_000, "r2o", 1_000_000),
        ]
    );
    let data = record
        .samples
        .iter()
        .find(|s| s.t_ns == 2_000_000 && s.dir == "o2r")
        .expect("a sample of the data");
    assert_eq!(data.in_flight, 100);
    assert_eq!(data.throughput_bps, 800);
}

#[test]
fn metrics_tell_loss_from_reordering() {
    let lost = metrics_of("metrics_retransmit.pcap", 0).expect("metrics");
    let again = lost.samples.last().expect("a sample");
    assert!(again.retransmit && !again.out_of_order);
    let reordered = metrics_of("metrics_ooo.pcap", 0).expect("metrics");
    let late = reordered.samples.last().expect("a sample");
    assert!(late.out_of_order && !late.retransmit);
    let sacked = metrics_of("metrics_sack.pcap", 0).expect("metrics");
    assert!(sacked.samples.iter().any(|s| s.sack));
    assert!(!lost.samples.iter().any(|s| s.sack));
}

#[test]
fn metrics_of_a_missing_connection_point_to_the_list() {
    let error = metrics_of("seq_wrap.pcap", 99).unwrap_err();
    assert_eq!(
        error,
        CommandError::OutOfRange {
            conn: 99,
            count: 1,
            file: "seq_wrap.pcap".to_string(),
        }
    );
    assert_eq!(
        error.message(),
        "connection index 99 out of range (capture has 1 connections, 0..0); \
         run `tcp-visr conns seq_wrap.pcap` to list them"
    );
}

#[test]
fn metrics_need_a_window_and_a_ceiling() {
    let error = metrics_report("f", &[], 0, 0, 3, 1).unwrap_err();
    assert_eq!(error, CommandError::ZeroThroughputWindow);
    assert!(error.message().contains("throughput-window-ms"));
    assert_eq!(check_metrics(0, 0), Err(CommandError::ZeroThroughputWindow));
    assert_eq!(check_metrics(1, 0), Err(CommandError::ZeroMaxSamples));
    assert_eq!(check_metrics(1, 1), Ok(()));
    let error = metrics_report("f", &[], 0, 1, 3, 0).unwrap_err();
    assert_eq!(error, CommandError::ZeroMaxSamples);
    assert_eq!(
        error.message(),
        "--max-samples must be at least 1 (got 0)"
    );
}

#[test]
fn metrics_stop_at_the_ceiling() {
    let parsed = read_capture(&capture("metrics_basic.pcap"));
    let error = metrics_report("f", &parsed.items, 0, 1_000, 3, 1).unwrap_err();
    assert!(matches!(error, CommandError::Metric(_)));
    assert!(error.message().contains("--max-samples"));
}

#[test]
fn windows_too_large_for_the_clock_are_clamped() {
    let cfg = metrics_config(u64::MAX, 7, 1);
    assert_eq!(cfg.throughput_window, Nanos(u64::MAX));
    assert_eq!(cfg.reorder_window, Nanos(7_000_000));
}

#[test]
fn replays_are_refused_before_anything_is_read() {
    assert_eq!(check_replay(0, true), Err(CommandError::ZeroMaxSamples));
    assert_eq!(check_replay(0, false), Err(CommandError::ZeroMaxSamples));
    let error = check_replay(1, false).unwrap_err();
    assert_eq!(
        error.message(),
        "replay requires an interactive terminal (stdout is not a tty)"
    );
    assert_eq!(check_replay(1, true), Ok(()));
    assert_eq!(
        CommandError::NoSubcommand.message(),
        "no subcommand given; run `tcp-visr --help`"
    );
}

#[test]
fn recording_every_graph_tracks_the_same() {
    let parsed = read_capture(&capture("tuple_reuse.pcap"));
    let plain = {
        let mut tracker = Tracker::new(EngineConfig::default());
        for item in &parsed.items {
            tracker.observe(item);
        }
        tracker.into_connections()
    };
    let recorded = {
        let mut tracker = Tracker::new(replay_engine_config(1_000));
        for item in &parsed.items {
            tracker.observe(item);
        }
        tracker.into_connections()
    };
    assert_eq!(plain, recorded);
}

/// One built Ethernet+IPv4+TCP frame with `n` payload bytes.
fn tcp(
    src: [u8; 4],
    dst: [u8; 4],
    sp: u16,
    dp: u16,
    flags: u16,
    seq: u32,
    ack: u32,
    n: usize,
) -> Vec<u8> {
    let mut b = PacketBuilder::ethernet2([2, 0, 0, 0, 0, 1], [2, 0, 0, 0, 0, 2])
        .ipv4(src, dst, 64)
        .tcp(sp, dp, seq, 64240);
    if flags & SYN != 0 {
        b = b.syn();
    }
    if flags & ACK != 0 {
        b = b.ack(ack);
    }
    if flags & FIN != 0 {
        b = b.fin();
    }
    if flags & RST != 0 {
        b = b.rst();
    }
    let mut buf = Vec::new();
    b.write(&mut buf, &vec![0xab; n]).expect("build tcp frame");
    buf
}

/// One Ethernet+IPv4+TCP frame carrying a single SACK block `[left,right)`, `n` payload bytes.
fn tcp_with_sack(
    src: [u8; 4],
    dst: [u8; 4],
    sp: u16,
    dp: u16,
    seq: u32,
    ack: u32,
    left: u32,
    right: u32,
    n: usize,
) -> Vec<u8> {
    let builder = PacketBuilder::ethernet2([2, 0, 0, 0, 0, 1], [2, 0, 0, 0, 0, 2])
        .ipv4(src, dst, 64)
        .tcp(sp, dp, seq, 64240)
        .ack(ack)
        .options(&[TcpOptionElement::SelectiveAcknowledgement(
            (left, right),
            [None, None, None],
        )])
        .expect("valid SACK option");
    let mut buf = Vec::new();
    builder
        .write(&mut buf, &vec![0xab; n])
        .expect("build sack frame");
    buf
}

/// A legacy `.pcap` (microsecond magic, little-endian). `frames[i] = (ts_us, bytes)`.
fn legacy_pcap(frames: &[(u64, Vec<u8>)]) -> Vec<u8> {
    let mut out = Vec::new();
    out.extend_from_slice(&0xa1b2_c3d4u32.to_le_bytes());
    out.extend_from_slice(&2u16.to_le_bytes());
    out.extend_from_slice(&4u16.to_le_bytes());
    out.extend_from_slice(&0i32.to_le_bytes());
    out.extend_from_slice(&0u32.to_le_bytes());
    out.extend_from_slice(&65_535u32.to_le_bytes());
    out.extend_from_slice(&u32::from(DLT_EN10MB).to_le_bytes());
    for (ts_us, data) in frames {
        out.extend_from_slice(&((ts_us / 1_000_000) as u32).to_le_bytes());
        out.extend_from_slice(&((ts_us % 1_000_000) as u32).to_le_bytes());
        out.extend_from_slice(&(data.len() as u32).to_le_bytes());
        out.extend_from_slice(&(data.len() as u32).to_le_bytes());
        out.extend_from_slice(data);
    }
    out
}

/// Captures of connections and how they end, with strictly increasing timestamps.
fn fixture_set() -> Vec<(&'static str, Vec<u8>)> {
    let (cp, sp) = (1234u16, 80u16);
    vec![
        // 1 connection, Established, origin_inferred (no SYN seen).
        (
            "mid_stream.pcap",
            legacy_pcap(&[
                (1_000, tcp(C, S, cp, sp, ACK, 100, 1, 10)),
                (2_000, tcp(S, C, sp, cp, ACK, 1, 110, 20)),
                (3_000, tcp(C, S, cp, sp, ACK, 110, 21, 30)),
            ]),
        ),
        // 1 connection reaching Established, NOT origin_inferred (simultaneous open).
        (
            "sim_open.pcap",
            legacy_pcap(&[
                (1_000, tcp(C, S, cp, sp, SYN, 10, 0, 0)),
                (2_000, tcp(S, C, sp, cp, SYN, 20, 0, 0)),
                (3_000, tcp(C, S, cp, sp, ACK, 11, 21, 0)),
                (4_000, tcp(S, C, sp, cp, ACK, 21, 11, 0)),
            ]),
        ),
        // 1 connection, terminal Reset (mid-stream then RST).
        (
            "mid_rst.pcap",
            legacy_pcap(&[
                (1_000, tcp(C, S, cp, sp, ACK, 100, 1, 40)),
                (2_000, tcp(S, C, sp, cp, ACK, 1, 140, 0)),
                (3_000, tcp(S, C, sp, cp, RST, 1, 0, 0)),
            ]),
        ),
        // 2 connections (instance 0 then 1) for one pair: close, then a new SYN reuse.
        (
            "tuple_reuse.pcap",
            legacy_pcap(&[
                (1_000, tcp(C, S, cp, sp, SYN, 100, 0, 0)),
                (2_000, tcp(S, C, sp, cp, SYN | ACK, 500, 101, 0)),
                (3_000, tcp(C, S, cp, sp, ACK, 101, 501, 0)),
                (4_000, tcp(C, S, cp, sp, FIN | ACK, 101, 501, 0)),
                (5_000, tcp(S, C, sp, cp, FIN | ACK, 501, 102, 0)),
                (6_000, tcp(C, S, cp, sp, SYN, 9000, 0, 0)),
            ]),
        ),
        // 1 connection, 1 instance: seq advances across the u32 boundary (forward wrap).
        (
            "seq_wrap.pcap",
            legacy_pcap(&[
                (1_000, tcp(C, S, cp, sp, ACK, u32::MAX - 100, 1, 50)),
                (2_000, tcp(C, S, cp, sp, ACK, 200, 1, 50)),
                (3_000, tcp(S, C, sp, cp, ACK, 1, 300, 10)),
            ]),
        ),
    ]
}

/// Captures with data, loss and reordering; where segments are reordered, time still goes on.
fn metrics_fixture_set() -> Vec<(&'static str, Vec<u8>)> {
    let (cp, sp) = (1234u16, 80u16);
    vec![
        // SYN handshake + data + ACKs: in-flight, handshake RTT, data RTT, throughput.
        (
            "metrics_basic.pcap",
            legacy_pcap(&[
                (1_000, tcp(C, S, cp, sp, SYN, 1000, 0, 0)), // SYN seq=1000
                (2_000, tcp(S, C, sp, cp, SYN | ACK, 5000, 1001, 0)), // SYN-ACK
                (3_000, tcp(C, S, cp, sp, ACK, 1001, 5001, 100)), // data 100B o2r
                (4_000, tcp(S, C, sp, cp, ACK, 5001, 1101, 0)), // ACK of o2r data
            ]),
        ),
        // data, then a retransmit of the same range after a long gap (>= reorder_window).
        (
            "metrics_retransmit.pcap",
            legacy_pcap(&[
                (1_000, tcp(C, S, cp, sp, ACK, 100, 1, 100)), // data 100..200
                (3_001_000, tcp(C, S, cp, sp, ACK, 100, 1, 100)), // retransmit (gap 3.0001s)
            ]),
        ),
        // out-of-order: a behind-frontier segment within reorder_window (1us gap).
        (
            "metrics_ooo.pcap",
            legacy_pcap(&[
                (1_000, tcp(C, S, cp, sp, ACK, 200, 1, 100)), // frontier 300
                (1_001, tcp(C, S, cp, sp, ACK, 100, 1, 100)), // behind, gap 1us -> OOO
            ]),
        ),
        // a segment carrying a SACK block.
        (
            "metrics_sack.pcap",
            legacy_pcap(&[
                (1_000, tcp(C, S, cp, sp, ACK, 100, 1, 50)),
                (2_000, tcp_with_sack(S, C, sp, cp, 1, 151, 200, 260, 0)), // SACK [200,260)
            ]),
        ),
    ]
}
