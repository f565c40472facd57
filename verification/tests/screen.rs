//! What is on the screen.

use tcpvisr::app::App;
use tcpvisr::conn::{ConnId, Connection, EndpointPair};
use tcpvisr::endpoint::Endpoint;
use tcpvisr::format::{fmt_rate, fmt_rtt, fmt_seconds, fmt_seq};
use tcpvisr::keys::{handle_key, KeyCode, KeyPress};
use tcpvisr::metric::SampleDir;
use tcpvisr::net::{IpAddr, Ipv4Addr};
use tcpvisr::rows::SortField;
use tcpvisr::state::ConnState;
use tcpvisr::time::Nanos;
use tcpvisr::timeline::{
    InFlightSample, RttSample, SeqKind, SeqSample, StateSample, ThroughputSample, Timeline,
};
use tcpvisr::view::{
    can_show_detail, detail_pane, footer_text, header_cells, main_pane, sort_label,
    transport_status, DetailPane, MainPane, RowCells, GUTTER, SELECTED_MARK,
};

fn ep(a: u8, port: u16) -> Endpoint {
    Endpoint {
        ip: IpAddr::V4(Ipv4Addr::new(10, 0, 0, a)),
        port,
    }
}

fn entry(
    origin: Endpoint,
    responder: Endpoint,
    inferred: bool,
) -> (Connection, Vec<StateSample>) {
    let c = Connection {
        id: ConnId {
            pair: EndpointPair::new(origin, responder),
            instance: 0,
        },
        state: ConnState::Established,
        origin,
        responder,
        origin_inferred: inferred,
        opened_at: Nanos(0),
        last_at: Nanos(1),
        bytes_o2r: 10,
        bytes_r2o: 20,
        segments: 1,
    };
    let s = StateSample {
        t: Nanos(0),
        state: ConnState::Established,
        bytes_o2r: 10,
        bytes_r2o: 20,
    };
    (c, vec![s])
}

fn app_of(entries: Vec<(Connection, Vec<StateSample>)>, title: &str) -> App {
    App::replaying(Timeline::new(entries), title.to_string())
}

fn ss(t: u64, up: u64, down: u64) -> StateSample {
    StateSample {
        t: Nanos(t),
        state: ConnState::Established,
        bytes_o2r: up,
        bytes_r2o: down,
    }
}

fn conn_span(
    origin: Endpoint,
    responder: Endpoint,
    opened: u64,
    last: u64,
    state: ConnState,
) -> Connection {
    Connection {
        id: ConnId {
            pair: EndpointPair::new(origin, responder),
            instance: 0,
        },
        state,
        origin,
        responder,
        origin_inferred: false,
        opened_at: Nanos(opened),
        last_at: Nanos(last),
        bytes_o2r: 0,
        bytes_r2o: 0,
        segments: 1,
    }
}

/// A single connection open on `[0, end_ns]` with one sample at t=0.
fn app_span(end_ns: u64) -> App {
    let c = conn_span(ep(1, 5), ep(2, 443), 0, end_ns, ConnState::Established);
    App::replaying(
        Timeline::new(vec![(c, vec![ss(0, 10, 20)])]),
        "t".to_string(),
    )
}

/// Two connections with a gap: A closed on `[0,100]`, B open on `[200,300]`. Between them
/// no connection is active.
fn gapped_app() -> App {
    let a = conn_span(ep(1, 1), ep(2, 80), 0, 100, ConnState::Closed);
    let a_s = vec![
        ss(0, 0, 0),
        StateSample {
            t: Nanos(100),
            state: ConnState::Closed,
            bytes_o2r: 0,
            bytes_r2o: 0,
        },
    ];
    let b = conn_span(ep(1, 2), ep(3, 80), 200, 300, ConnState::Established);
    let b_s = vec![ss(200, 0, 0), ss(300, 0, 0)];
    App::replaying(Timeline::new(vec![(a, a_s), (b, b_s)]), "t".to_string())
}

#[test]
fn header_shows_transport_status() {
    let app = app_span(2_000_000_000); // 2.000s total
    let s = draw(&app, 100, 8);
    assert!(s.contains("⏸"), "paused glyph: {s}");
    assert!(s.contains("1.0x"), "speed: {s}");
    assert!(s.contains("t=0.000s / 2.000s"), "cursor readout: {s}");
}

#[test]
fn header_shows_playing_glyph_after_toggle() {
    let mut app = app_span(2_000_000_000);
    app.toggle_play();
    let s = draw(&app, 100, 8);
    assert!(s.contains("▶"), "playing glyph: {s}");
}

#[test]
fn footer_shows_transport_hints() {
    let app = app_span(1_000_000_000);
    let s = draw(&app, 120, 8);
    assert!(s.contains("space"), "play/pause hint: {s}");
    assert!(s.contains("seek"), "seek hint: {s}");
    assert!(s.contains("speed"), "speed hint: {s}");
    assert!(s.contains("q quit"), "quit hint: {s}");
}

#[test]
fn empty_active_set_shows_gap_message() {
    let mut app = gapped_app();
    app.step_forward(); // cursor 100 (A still active at its close)
    app.seek(true); // cursor 106 -> in the gap, nothing active
    assert!(app.visible().is_empty(), "cursor is in the gap");
    let s = draw(&app, 60, 6);
    assert!(s.contains("no connections active"), "{s}");
}

fn line(marker: char, row: &RowCells) -> String {
    format!(
        "{marker}{} {} {} {} {}",
        row.peer, row.service, row.state, row.up, row.down
    )
}

/// The text in the right half of a screen of `w` by `h`.
fn draw_detail(app: &App, w: u16, h: u16) -> String {
    assert!(can_show_detail(app));
    let (width, height) = (w - w / 2 - 2, h - 3);
    let pane = detail_pane(app, width, height);
    let mut out: Vec<String> = pane.notice().map(str::to_string).into_iter().collect();
    match pane {
        DetailPane::NoConnection => {}
        DetailPane::TooSmall(title) => out.push(title),
        DetailPane::Graph(title, pane) => {
            out.push(title);
            out.push(pane.legend);
            for draw in pane.draws {
                assert!(draw.x < width && draw.y < height);
                out.push(draw.text);
            }
        }
    }
    out.join("\n")
}

/// The text on a screen of `w` by `h`: the list, the detail pane beside it when it is open, and
/// the footer.
fn draw(app: &App, w: u16, h: u16) -> String {
    let mut out = vec![app.title().to_string(), transport_status(app)];
    match main_pane(app) {
        MainPane::Message(text) => out.push(text),
        MainPane::Table(rows, selected) => {
            out.push(line(' ', &header_cells()));
            for (i, row) in rows.iter().enumerate() {
                let marker = if selected == Some(i) { SELECTED_MARK } else { ' ' };
                out.push(line(marker, row));
            }
        }
    }
    if app.is_detail_open() {
        out.push(draw_detail(app, w, h));
    }
    out.push(footer_text(app));
    out.join("\n")
}

fn key(code: KeyCode) -> KeyPress {
    KeyPress {
        code,
        control: false,
    }
}

#[test]
fn renders_header_columns_selection_and_footer() {
    let app = app_of(
        vec![entry(ep(1, 5), ep(2, 443), false)],
        "tcp-visr — c.pcap  (1 connections, skipped 0)",
    );
    let s = draw(&app, 120, 10);
    assert!(s.contains("tcp-visr — c.pcap"), "{s}");
    assert!(s.contains("PEER"), "{s}");
    assert!(s.contains("SERVICE"), "{s}");
    assert!(s.contains("https"), "{s}");
    assert!(s.contains("▸"), "selection marker: {s}");
    assert!(s.contains("q quit"), "footer: {s}");
    assert!(s.contains("sort:peer▲"), "sort indicator: {s}");
}

#[test]
fn renders_mid_stream_marker() {
    let app = app_of(vec![entry(ep(1, 5), ep(2, 443), true)], "t");
    let s = draw(&app, 80, 6);
    assert!(s.contains("Established~"), "{s}");
}

#[test]
fn filter_mode_shows_query_line() {
    let mut app = app_of(vec![entry(ep(1, 5), ep(2, 443), false)], "t");
    handle_key(&mut app, key(KeyCode::Char('/')));
    handle_key(&mut app, key(KeyCode::Char('h')));
    let s = draw(&app, 80, 6);
    assert!(s.contains("/h"), "{s}");
}

#[test]
fn empty_capture_shows_placeholder() {
    let app = app_of(vec![], "t");
    let s = draw(&app, 40, 6);
    assert!(s.contains("no connections in capture"), "{s}");
}

#[test]
fn detail_closed_still_renders_full_master() {
    let app = app_span(2_000_000_000);
    let s = draw(&app, 100, 10);
    assert!(
        s.contains("PEER"),
        "master header present when detail closed: {s}"
    );
    assert!(!s.contains("DETAIL"), "no detail pane when closed");
}

#[test]
fn detail_open_shows_title_legend_and_a_mark() {
    // A connection with one O2R data segment so the focus series is non-empty.
    let c = conn_span(ep(1, 5), ep(2, 443), 0, 1_000, ConnState::Established);
    let sq = SeqSample {
        t: Nanos(0),
        dir: SampleDir::OriginToResponder,
        rel: 0,
        len: 100,
        kind: SeqKind::Data {
            retransmit: false,
            out_of_order: false,
        },
    };
    let mut c2 = c;
    c2.bytes_o2r = 100;
    let tl = Timeline::with_seq(vec![(
        c2,
        vec![ss(0, 100, 0)],
        vec![sq],
        Vec::new(),
        Vec::new(),
        Vec::new(),
    )]);
    let mut app = App::replaying(tl, "t".to_string());
    app.open_detail();
    let s = draw(&app, 120, 14);
    assert!(s.contains("DETAIL"), "detail title: {s}");
    assert!(
        s.contains("retrans") && s.contains("sack"),
        "mark legend: {s}"
    );
    assert!(s.contains('#'), "at least one plotted data glyph: {s}");
}

#[test]
fn inflight_view_open_shows_graph() {
    let c = conn_span(ep(1, 5), ep(2, 443), 0, 1_000, ConnState::Established);
    let mut c2 = c;
    c2.bytes_o2r = 100;
    let inflight = vec![
        InFlightSample {
            t: Nanos(0),
            dir: SampleDir::OriginToResponder,
            bytes: 50,
        },
        InFlightSample {
            t: Nanos(1_000),
            dir: SampleDir::OriginToResponder,
            bytes: 100,
        },
    ];
    let tl = Timeline::with_seq(vec![(
        c2,
        vec![ss(0, 100, 0)],
        vec![],
        inflight,
        Vec::new(),
        Vec::new(),
    )]);
    let mut app = App::replaying(tl, "t".to_string());
    app.open_detail();
    app.cycle_detail_view(); // -> InFlight
    let s = draw(&app, 120, 14);
    assert!(s.contains("DETAIL"), "detail title: {s}");
    assert!(s.contains("In-flight"), "in-flight legend: {s}");
    assert!(s.contains('#'), "at least one wire glyph: {s}");
    assert!(s.contains("0.000s"), "an axis time label: {s}");
}

#[test]
fn footer_advertises_view_switch() {
    let app = app_span(1_000_000_000);
    let s = draw(&app, 120, 8);
    assert!(s.contains("view"), "footer view-switch hint: {s}");
}

#[test]
fn rtt_view_open_shows_graph() {
    let c = conn_span(ep(1, 5), ep(2, 443), 0, 1_000, ConnState::Established);
    let mut c2 = c;
    c2.bytes_o2r = 100;
    // One RTT sample at t=0 (revealed at the initial cursor = bounds.start = 0) with rtt !=
    // srtt so it emits a Raw '.' and a Smoothed '#' in distinct cells. max_rtt = 3 ms.
    let rtt = vec![RttSample {
        t: Nanos(0),
        dir: SampleDir::OriginToResponder,
        rtt: Nanos(3_000_000),
        srtt: Nanos(1_500_000),
    }];
    let tl = Timeline::with_seq(vec![(c2, vec![ss(0, 100, 0)], vec![], vec![], rtt, vec![])]);
    let mut app = App::replaying(tl, "t".to_string());
    app.open_detail();
    app.cycle_detail_view(); // -> InFlight
    app.cycle_detail_view(); // -> Rtt
    let s = draw(&app, 120, 14);
    assert!(s.contains("DETAIL"), "detail title: {s}");
    assert!(s.contains("RTT"), "rtt legend: {s}");
    assert!(s.contains("0.000s"), "an axis time label: {s}");
    assert!(s.contains("ms"), "ms axis unit (max_rtt = 3.000ms): {s}");
    // A plotted data glyph must appear. The RTT legend already contains one '#'
    // ("# smoothed"), so require at least TWO — the extra one is the plotted smoothed mark.
    let hashes = s.matches('#').count();
    assert!(
        hashes >= 2,
        "at least one plotted smoothed glyph beyond the legend: {hashes} in {s}"
    );
}

#[test]
fn fmt_rtt_adapts_units() {
    assert_eq!(fmt_rtt(Nanos(450)), "450ns");
    assert_eq!(fmt_rtt(Nanos(1_500_000)), "1.500ms");
    assert_eq!(fmt_rtt(Nanos(2_000_000_000)), "2.000s");
}

// A sub-Mbps rate stays informative rather than collapsing to 0.000Mbps.
#[test]
fn fmt_rate_adapts_units() {
    assert_eq!(fmt_rate(0), "0bps");
    assert_eq!(fmt_rate(800), "800bps");
    assert_eq!(fmt_rate(1_500_000), "1.500Mbps");
    assert_eq!(fmt_rate(2_000_000_000), "2.000Gbps");
}

// The Throughput view renders title, legend, an axis label, a bits/sec unit, and a
// plotted goodput glyph. The goodput glyph '#' appears once in the legend ('# goodput'), so
// require at least TWO '#' — the extra one is the plotted goodput mark. The '.' total glyph is
// not usable as evidence (it appears in the time labels and fmt_rate output).
#[test]
fn throughput_view_open_shows_graph() {
    let c = conn_span(ep(1, 5), ep(2, 443), 0, 1_000, ConnState::Established);
    let mut c2 = c;
    c2.bytes_o2r = 100;
    // One sample at t=0 (revealed at the initial cursor = 0) with goodput < throughput so the
    // goodput mark plots below the total. max_rate = 3 Mbps.
    let throughput = vec![ThroughputSample {
        t: Nanos(0),
        dir: SampleDir::OriginToResponder,
        throughput_bps: 3_000_000,
        goodput_bps: 1_500_000,
    }];
    let tl = Timeline::with_seq(vec![(
        c2,
        vec![ss(0, 100, 0)],
        vec![],
        vec![],
        vec![],
        throughput,
    )]);
    let mut app = App::replaying(tl, "t".to_string());
    app.open_detail();
    app.cycle_detail_view(); // -> InFlight
    app.cycle_detail_view(); // -> Rtt
    app.cycle_detail_view(); // -> Throughput
    let s = draw(&app, 120, 14);
    assert!(s.contains("DETAIL"), "detail title: {s}");
    assert!(s.contains("Throughput"), "throughput legend: {s}");
    assert!(s.contains("0.000s"), "an axis time label: {s}");
    assert!(
        s.contains("Mbps"),
        "bits/sec axis unit (max_rate = 3.000Mbps): {s}"
    );
    let hashes = s.matches('#').count();
    assert!(
        hashes >= 2,
        "at least one plotted goodput glyph beyond the legend: {hashes} in {s}"
    );
}

#[test]
fn throughput_view_too_narrow_shows_widen_message() {
    let c = conn_span(ep(1, 5), ep(2, 443), 0, 1_000, ConnState::Established);
    let mut c2 = c;
    c2.bytes_o2r = 100;
    let throughput = vec![ThroughputSample {
        t: Nanos(0),
        dir: SampleDir::OriginToResponder,
        throughput_bps: 800,
        goodput_bps: 800,
    }];
    let tl = Timeline::with_seq(vec![(
        c2,
        vec![ss(0, 100, 0)],
        vec![],
        vec![],
        vec![],
        throughput,
    )]);
    let mut app = App::replaying(tl, "t".to_string());
    app.open_detail();
    app.cycle_detail_view(); // InFlight
    app.cycle_detail_view(); // Rtt
    app.cycle_detail_view(); // Throughput
    let s = draw(&app, 34, 12); // right pane inner plot < MIN_W after the gutter
    assert!(
        s.contains("widen terminal"),
        "narrow throughput guidance: {s}"
    );
}

#[test]
fn inflight_view_too_narrow_shows_widen_message() {
    let c = conn_span(ep(1, 5), ep(2, 443), 0, 1_000, ConnState::Established);
    let mut c2 = c;
    c2.bytes_o2r = 100;
    let inflight = vec![InFlightSample {
        t: Nanos(0),
        dir: SampleDir::OriginToResponder,
        bytes: 100,
    }];
    let tl = Timeline::with_seq(vec![(
        c2,
        vec![ss(0, 100, 0)],
        vec![],
        inflight,
        Vec::new(),
        Vec::new(),
    )]);
    let mut app = App::replaying(tl, "t".to_string());
    app.open_detail();
    app.cycle_detail_view();
    let s = draw(&app, 34, 12); // right pane inner plot < MIN_W after the gutter
    assert!(
        s.contains("widen terminal"),
        "narrow in-flight guidance: {s}"
    );
}

#[test]
fn detail_pane_too_narrow_shows_widen_message() {
    let c = conn_span(ep(1, 5), ep(2, 443), 0, 1_000, ConnState::Established);
    let mut c2 = c;
    c2.bytes_o2r = 100;
    let sq = SeqSample {
        t: Nanos(0),
        dir: SampleDir::OriginToResponder,
        rel: 0,
        len: 100,
        kind: SeqKind::Data {
            retransmit: false,
            out_of_order: false,
        },
    };
    let tl = Timeline::with_seq(vec![(
        c2,
        vec![ss(0, 100, 0)],
        vec![sq],
        Vec::new(),
        Vec::new(),
        Vec::new(),
    )]);
    let mut app = App::replaying(tl, "t".to_string());
    app.open_detail();
    // Width 34 -> right pane 17, inner 15, plot_w = 15 - 8 gutter = 7 < MIN_W(8) -> the guard
    // fires, and the 15-wide inner still fits the "widen terminal" message.
    let s = draw(&app, 34, 12);
    assert!(s.contains("widen terminal"), "narrow detail guidance: {s}");
}

#[test]
fn large_seq_axis_label_is_abbreviated_not_raw() {
    // Two O2R data points 5 GB apart -> max_rel ~5e9. The Y label must be SI-abbreviated
    // (e.g. "5.0G") so it fits the gutter, never the raw 10-digit number (which would
    // overflow into the plot columns).
    let c = conn_span(ep(1, 5), ep(2, 443), 0, 1_000, ConnState::Established);
    let mut c2 = c;
    c2.bytes_o2r = 5_000_000_000;
    let d = |t: u64, rel: i64| SeqSample {
        t: Nanos(t),
        dir: SampleDir::OriginToResponder,
        rel,
        len: 100,
        kind: SeqKind::Data {
            retransmit: false,
            out_of_order: false,
        },
    };
    let tl = Timeline::with_seq(vec![(
        c2,
        vec![ss(0, 5_000_000_000, 0)],
        vec![d(0, 0), d(1_000, 5_000_000_000)],
        Vec::new(),
        Vec::new(),
        Vec::new(),
    )]);
    let mut app = App::replaying(tl, "t".to_string());
    app.open_detail();
    let s = draw_detail(&app, 120, 14);
    assert!(s.contains('G'), "Y axis label is SI-abbreviated: {s}");
    assert!(
        !s.contains("5000000000"),
        "raw 10-digit seq number must not be printed into the gutter: {s}"
    );
}

#[test]
fn footer_advertises_open_and_close() {
    let app = app_span(1_000_000_000);
    let s = draw(&app, 120, 8);
    assert!(s.contains("open"), "open hint: {s}");
    assert!(s.contains("close"), "close hint: {s}");
}

#[test]
fn offsets_are_abbreviated() {
    assert_eq!(fmt_seq(0), "0");
    assert_eq!(fmt_seq(999), "999");
    assert_eq!(fmt_seq(5_000_000_000), "5.0G");
    assert_eq!(fmt_seq(-42), "-42");
}

#[test]
fn seconds_have_three_decimals() {
    assert_eq!(fmt_seconds(Nanos(0)), "0.000");
    assert_eq!(fmt_seconds(Nanos(1_234_567_890)), "1.234");
    assert_eq!(fmt_seconds(Nanos(u64::MAX)), "18446744073.709");
}

#[test]
fn small_times_and_rates_keep_their_unit() {
    assert_eq!(fmt_rtt(Nanos(0)), "0ns");
    assert_eq!(fmt_rtt(Nanos(999)), "999ns");
    assert_eq!(fmt_rate(999), "999bps");
}

#[test]
fn speeds_below_one_have_a_decimal() {
    let mut app = app_span(2_000_000_000);
    app.slower();
    assert_eq!(transport_status(&app), "[ \u{23f8} 0.5x  t=0.000s / 2.000s ]");
    app.slower();
    assert_eq!(transport_status(&app), "[ \u{23f8} 0.1x  t=0.000s / 2.000s ]");
}

#[test]
fn rows_show_what_is_known() {
    let app = app_of(vec![entry(ep(1, 5), ep(2, 40_000), false)], "t");
    match main_pane(&app) {
        MainPane::Table(rows, selected) => {
            assert_eq!(selected, Some(0));
            assert_eq!(
                rows,
                vec![RowCells {
                    peer: "10.0.0.2:40000".to_string(),
                    service: String::new(),
                    state: "Established".to_string(),
                    up: "10".to_string(),
                    down: "20".to_string(),
                }]
            );
        }
        other => panic!("expected rows, got {other:?}"),
    }
}

#[test]
fn the_footer_names_the_order() {
    let mut app = app_span(1_000);
    for (label, arrow) in [
        ("peer", '\u{25b2}'),
        ("state", '\u{25b2}'),
        ("up", '\u{25bc}'),
        ("down", '\u{25bc}'),
    ] {
        let text = format!("sort:{label}{arrow}");
        assert!(footer_text(&app).contains(&text), "{text}");
        app.cycle_sort();
    }
    assert_eq!(sort_label(SortField::BytesUp), "up");
}

#[test]
fn graphs_have_marks_and_labels_in_their_places() {
    let mut c = conn_span(ep(1, 5), ep(2, 443), 0, 1_000, ConnState::Established);
    c.bytes_o2r = 100;
    let data = SeqSample {
        t: Nanos(0),
        dir: SampleDir::OriginToResponder,
        rel: 0,
        len: 100,
        kind: SeqKind::Data {
            retransmit: false,
            out_of_order: false,
        },
    };
    let tl = Timeline::with_seq(vec![(
        c,
        vec![ss(0, 100, 0)],
        vec![data],
        vec![],
        vec![],
        vec![],
    )]);
    let mut app = App::replaying(tl, "t".to_string());
    app.open_detail();
    match detail_pane(&app, 40, 10) {
        DetailPane::Graph(title, pane) => {
            assert_eq!(title, "DETAIL 10.0.0.1:5 \u{2192} 10.0.0.2:443");
            let marks: Vec<_> = pane.draws.iter().filter(|d| d.text == "#").collect();
            assert!(!marks.is_empty());
            for mark in marks {
                assert!(mark.x >= GUTTER && mark.x < 40);
                assert!(mark.y >= 1 && mark.y < 9);
            }
            let start = pane.draws.iter().find(|d| d.text == "0.000s");
            assert_eq!(start.map(|d| (d.x, d.y)), Some((GUTTER, 9)));
        }
        other => panic!("expected a graph, got {other:?}"),
    }
    assert!(matches!(detail_pane(&app, 15, 10), DetailPane::TooSmall(_)));
    assert!(matches!(detail_pane(&app, 40, 2), DetailPane::TooSmall(_)));
}

#[test]
fn without_a_selection_there_is_no_graph() {
    let mut app = app_of(vec![], "t");
    app.open_detail();
    let pane = detail_pane(&app, 40, 10);
    assert_eq!(pane, DetailPane::NoConnection);
    assert_eq!(pane.notice(), Some("no connection selected"));
}
