//! What is on the screen: the texts of the list, the status and the footer, and what is drawn
//! where in the detail pane. The caller puts it on a terminal.

use vstd::prelude::*;

use crate::app::{App, AppModel, DetailView, FocusConn, Mode};
use crate::detail::{RETRANS_GLYPH, SACK_GLYPH};
use crate::format::{fmt_rate, fmt_rtt, fmt_seconds, fmt_seq};
use crate::inflight::WIRE_GLYPH;
use crate::metric::SampleDir;
use crate::plot::{Frame, MIN_H, MIN_W};
use crate::rows::{ConnRow, RowModel, SortDir, SortField};
use crate::rtt::{RAW_GLYPH, SMOOTHED_GLYPH};
use crate::text::{append_decimal, append_right_aligned};
use crate::throughput::{GOODPUT_GLYPH, THROUGHPUT_GLYPH};
use crate::time::Nanos;
use crate::timeline::{InFlightSample, RttSample, SeqSample, ThroughputSample};

verus! {

/// Columns left of a graph for the labels of its vertical axis.
pub const GUTTER: u16 = 8;

/// The width of those labels.
pub const LABEL_W: usize = 7;

/// The name of a column in the footer.
pub open spec fn sort_label_text(field: SortField) -> Seq<char> {
    match field {
        SortField::Peer => "peer"@,
        SortField::State => "state"@,
        SortField::BytesUp => "up"@,
        SortField::BytesDown => "down"@,
    }
}

/// The name of a column in the footer.
#[must_use]
pub fn sort_label(field: SortField) -> (res: &'static str)
    ensures
        res@ == sort_label_text(field),
{
    match field {
        SortField::Peer => "peer",
        SortField::State => "state",
        SortField::BytesUp => "up",
        SortField::BytesDown => "down",
    }
}

/// A speed with one decimal.
pub open spec fn speed_text(ratio: (u64, u64)) -> Seq<char> {
    crate::text::decimal((ratio.0 / ratio.1) as nat) + "."@ + crate::text::decimal(
        (ratio.0 % ratio.1 * 10 / ratio.1 as int) as nat,
    )
}

/// The status of playback: whether it runs, how fast, where the cursor is and where the end.
pub open spec fn status_text(app: AppModel) -> Seq<char> {
    let tr = app.transport();
    "[ "@ + (if tr.playing {
        "\u{25b6}"@
    } else {
        "\u{23f8}"@
    }) + " "@ + speed_text(crate::transport::rung_ratio(tr.rung)) + "x  t="@
        + crate::format::seconds_text(tr.cursor) + "s / "@ + crate::format::seconds_text(tr.end)
        + "s ]"@
}

/// The status of playback.
#[must_use]
pub fn transport_status(app: &App) -> (res: String)
    ensures
        res@ == status_text(app@),
{
    let (num, den) = app.speed();
    let (_, end) = app.bounds();
    let cursor = fmt_seconds(app.cursor());
    let total = fmt_seconds(end);
    let mut speed = String::new();
    append_decimal(&mut speed, num / den);
    speed.append(".");
    append_decimal(&mut speed, num % den * 10 / den);
    let mut out = "[ ".to_owned();
    if app.is_playing() {
        out.append("\u{25b6}");
    } else {
        out.append("\u{23f8}");
    }
    out.append(" ");
    out.append(speed.as_str());
    out.append("x  t=");
    out.append(cursor.as_str());
    out.append("s / ");
    out.append(total.as_str());
    out.append("s ]");
    out
}

/// The footer: the filter while it is typed, else what the keys do and how the list is ordered.
pub open spec fn footer_spec(app: AppModel) -> Seq<char> {
    match app.mode {
        Mode::Filter => "/"@ + app.query,
        Mode::Nav => {
            "space play/pause  \u{2190}\u{2192} seek  +/- speed  ,/. step  \u{23ce} open  esc close  \u{21e5} view  / filter  s sort:"@
                + sort_label_text(app.field) + (match app.dir {
                SortDir::Asc => "\u{25b2}"@,
                SortDir::Desc => "\u{25bc}"@,
            }) + "  q quit"@
        },
    }
}

/// The footer.
#[must_use]
pub fn footer_text(app: &App) -> (res: String)
    ensures
        res@ == footer_spec(app@),
{
    match app.mode() {
        Mode::Filter => {
            let mut out = "/".to_owned();
            out.append(app.query());
            out
        },
        Mode::Nav => {
            let mut out =
                "space play/pause  \u{2190}\u{2192} seek  +/- speed  ,/. step  \u{23ce} open  esc close  \u{21e5} view  / filter  s sort:".to_owned();
            out.append(sort_label(app.sort_field()));
            match app.sort_dir() {
                SortDir::Asc => out.append("\u{25b2}"),
                SortDir::Desc => out.append("\u{25bc}"),
            }
            out.append("  q quit");
            out
        },
    }
}

/// The texts of a row: peer, service, state, bytes up and bytes down.
#[derive(Debug, PartialEq, Eq)]
pub struct RowCells {
    pub peer: String,
    pub service: String,
    pub state: String,
    pub up: String,
    pub down: String,
}

/// The texts of a row, as characters.
#[verifier::ext_equal]
pub ghost struct CellsModel {
    pub peer: Seq<char>,
    pub service: Seq<char>,
    pub state: Seq<char>,
    pub up: Seq<char>,
    pub down: Seq<char>,
}

impl View for RowCells {
    type V = CellsModel;

    open spec fn view(&self) -> CellsModel {
        CellsModel {
            peer: self.peer@,
            service: self.service@,
            state: self.state@,
            up: self.up@,
            down: self.down@,
        }
    }
}

/// The texts of a row. A state whose origin was inferred is marked.
pub open spec fn cells_of(row: RowModel) -> CellsModel {
    CellsModel {
        peer: row.peer.text_spec(),
        service: match row.service {
            Some(name) => name,
            None => Seq::empty(),
        },
        state: if row.origin_inferred {
            row.state.label_spec() + "~"@
        } else {
            row.state.label_spec()
        },
        up: crate::text::decimal(row.bytes_up as nat),
        down: crate::text::decimal(row.bytes_down as nat),
    }
}

fn number_text(n: u64) -> (res: String)
    ensures
        res@ == crate::text::decimal(n as nat),
{
    let mut out = String::new();
    append_decimal(&mut out, n);
    proof {
        assert(out@ =~= crate::text::decimal(n as nat));
    }
    out
}

/// The texts of a row.
#[must_use]
pub fn row_cells(row: &ConnRow) -> (res: RowCells)
    ensures
        res@ == cells_of(row@),
{
    let service = match row.service {
        Some(name) => name.to_owned(),
        None => String::new(),
    };
    let mut state = row.state.label().to_owned();
    if row.origin_inferred {
        state.append("~");
    }
    RowCells {
        peer: row.peer.text(),
        service,
        state,
        up: number_text(row.bytes_up),
        down: number_text(row.bytes_down),
    }
}

/// What marks the selected row.
pub const SELECTED_MARK: char = '\u{25b8}';

/// The titles of the columns.
#[must_use]
pub fn header_cells() -> (res: RowCells)
    ensures
        res@ == (CellsModel {
            peer: "PEER"@,
            service: "SERVICE"@,
            state: "STATE"@,
            up: "\u{2191}BYTES"@,
            down: "\u{2193}BYTES"@,
        }),
{
    RowCells {
        peer: "PEER".to_owned(),
        service: "SERVICE".to_owned(),
        state: "STATE".to_owned(),
        up: "\u{2191}BYTES".to_owned(),
        down: "\u{2193}BYTES".to_owned(),
    }
}

/// The main pane: a message if no row is on screen, else the rows and which of them is selected.
#[derive(Debug, PartialEq, Eq)]
pub enum MainPane {
    Message(String),
    Table(Vec<RowCells>, Option<usize>),
}

/// The message in place of the list.
pub open spec fn empty_text(app: AppModel) -> Seq<char> {
    let nothing = match app.play {
        Some(p) => p.timeline.entries.len() == 0,
        None => app.rows.len() == 0,
    };
    if nothing {
        "no connections in capture"@
    } else {
        "no connections active at t="@ + crate::format::seconds_text(app.transport().cursor) + "s"@
    }
}

/// The place of the selected row on screen.
pub open spec fn selected_place(app: AppModel) -> Option<int> {
    match app.selected {
        Some(id) => crate::app::place_of(app.visible(), id),
        None => None,
    }
}

fn cells_of_rows(rows: &Vec<&ConnRow>) -> (res: Vec<RowCells>)
    ensures
        res@.map_values(|c: RowCells| c@) == crate::rows::pointed(rows@).map_values(
            |r: RowModel| cells_of(r),
        ),
{
    let mut out: Vec<RowCells> = Vec::new();
    let mut i: usize = 0;
    while i < rows.len()
        invariant
            i <= rows@.len(),
            out@.len() == i,
            forall|k: int|
                0 <= k < i ==> (#[trigger] out@[k])@ == cells_of(
                    crate::rows::pointed(rows@)[k],
                ),
        decreases rows@.len() - i,
    {
        out.push(row_cells(rows[i]));
        i = i + 1;
    }
    proof {
        assert(out@.map_values(|c: RowCells| c@) =~= crate::rows::pointed(rows@).map_values(
            |r: RowModel| cells_of(r),
        ));
    }
    out
}

/// The main pane of the program.
#[must_use]
pub fn main_pane(app: &App) -> (res: MainPane)
    ensures
        match res {
            MainPane::Message(text) => app@.visible().len() == 0 && text@ == empty_text(app@),
            MainPane::Table(cells, place) => {
                &&& app@.visible().len() > 0
                &&& cells@.map_values(|c: RowCells| c@) == app@.visible().map_values(
                    |r: RowModel| cells_of(r),
                )
                &&& match place {
                    Some(i) => selected_place(app@) == Some(i as int),
                    None => selected_place(app@) is None,
                }
            },
        },
{
    let rows = app.visible();
    proof {
        assert(crate::rows::pointed(rows@).len() == rows@.len());
    }
    if rows.len() == 0 {
        if app.is_capture_empty() {
            return MainPane::Message("no connections in capture".to_owned());
        }
        let cursor = fmt_seconds(app.cursor());
        let mut text = "no connections active at t=".to_owned();
        text.append(cursor.as_str());
        text.append("s");
        return MainPane::Message(text);
    }
    let place: Option<usize> = match app.selected() {
        Some(id) => crate::app::row_place(&rows, id),
        None => None,
    };
    MainPane::Table(cells_of_rows(&rows), place)
}

/// A colour.
#[derive(Debug, Clone, Copy, PartialEq, Eq, Structural)]
pub enum Tint {
    Plain,
    Cyan,
    Green,
    Red,
    Yellow,
}

/// A coloured mark of a graph, counted from the bottom left.
#[derive(Debug, Clone, Copy, PartialEq, Eq, Structural)]
pub struct Dot {
    pub col: u16,
    pub row: u16,
    pub glyph: char,
    pub tint: Tint,
}

/// A text at a place of the pane, counted from the top left.
#[derive(Debug, PartialEq, Eq)]
pub struct Draw {
    pub x: u16,
    pub y: u16,
    pub text: String,
    pub tint: Tint,
}

/// A text at a place of the pane, as characters.
#[verifier::ext_equal]
pub ghost struct DrawModel {
    pub x: u16,
    pub y: u16,
    pub text: Seq<char>,
    pub tint: Tint,
}

impl View for Draw {
    type V = DrawModel;

    open spec fn view(&self) -> DrawModel {
        DrawModel { x: self.x, y: self.y, text: self.text@, tint: self.tint }
    }
}

/// A graph: its legend, and what is drawn under it in turn.
#[derive(Debug, PartialEq, Eq)]
pub struct Pane {
    pub legend: String,
    pub draws: Vec<Draw>,
}

/// A graph, as characters.
#[verifier::ext_equal]
pub ghost struct PaneModel {
    pub legend: Seq<char>,
    pub draws: Seq<DrawModel>,
}

impl View for Pane {
    type V = PaneModel;

    open spec fn view(&self) -> PaneModel {
        PaneModel { legend: self.legend@, draws: self.draws@.map_values(|d: Draw| d@) }
    }
}

/// The pane has room for a gutter, a legend, a row of the graph and the labels of time.
pub open spec fn has_room(width: u16, height: u16) -> bool {
    height >= 3 && width > GUTTER
}

/// A mark in a pane of this height: right of the gutter and under the legend.
pub open spec fn dot_draw(dot: Dot, height: u16) -> DrawModel {
    DrawModel {
        x: (GUTTER + dot.col) as u16,
        y: (height - 2 - dot.row) as u16,
        text: seq![dot.glyph],
        tint: dot.tint,
    }
}

/// The labels of the axes: the top and the bottom of the vertical one, the start and the end of
/// time, the latter flush right.
pub open spec fn label_draws(
    top: Seq<char>,
    bottom: Seq<char>,
    x_span: (Nanos, Nanos),
    width: u16,
    height: u16,
) -> Seq<DrawModel> {
    let end = crate::format::seconds_text(x_span.1) + "s"@;
    seq![
        DrawModel {
            x: 0,
            y: 1,
            text: crate::text::right_aligned(top, LABEL_W as nat),
            tint: Tint::Plain,
        },
        DrawModel {
            x: 0,
            y: (height - 2) as u16,
            text: crate::text::right_aligned(bottom, LABEL_W as nat),
            tint: Tint::Plain,
        },
        DrawModel {
            x: GUTTER,
            y: (height - 1) as u16,
            text: crate::format::seconds_text(x_span.0) + "s"@,
            tint: Tint::Plain,
        },
        DrawModel {
            x: if end.len() < width {
                (width - end.len()) as u16
            } else {
                0
            },
            y: (height - 1) as u16,
            text: end,
            tint: Tint::Plain,
        },
    ]
}

/// A graph in a pane.
pub open spec fn pane_model(
    legend: Seq<char>,
    dots: Seq<Dot>,
    top: Seq<char>,
    bottom: Seq<char>,
    x_span: (Nanos, Nanos),
    width: u16,
    height: u16,
) -> PaneModel {
    PaneModel {
        legend,
        draws: dots.map_values(|d: Dot| dot_draw(d, height)) + label_draws(
            top,
            bottom,
            x_span,
            width,
            height,
        ),
    }
}

/// The marks lie on the graph of a pane of this size.
pub open spec fn dots_fit(dots: Seq<Dot>, width: u16, height: u16) -> bool {
    forall|i: int|
        0 <= i < dots.len() ==> (#[trigger] dots[i]).col < width - GUTTER && dots[i].row < height
            - 2
}

fn label_draw(x: u16, y: u16, label: &str) -> (res: Draw)
    ensures
        res@ == (DrawModel {
            x,
            y,
            text: crate::text::right_aligned(label@, LABEL_W as nat),
            tint: Tint::Plain,
        }),
{
    let mut text = String::new();
    append_right_aligned(&mut text, label, LABEL_W);
    proof {
        assert(text@ =~= crate::text::right_aligned(label@, LABEL_W as nat));
    }
    Draw { x, y, text, tint: Tint::Plain }
}

/// Lays out a graph in a pane.
#[must_use]
pub fn lay_out(
    legend: String,
    dots: &Vec<Dot>,
    top: &str,
    bottom: &str,
    x_span: (Nanos, Nanos),
    width: u16,
    height: u16,
) -> (res: Pane)
    requires
        has_room(width, height),
        dots_fit(dots@, width, height),
    ensures
        res@ == pane_model(legend@, dots@, top@, bottom@, x_span, width, height),
{
    let mut draws: Vec<Draw> = Vec::new();
    let mut i: usize = 0;
    while i < dots.len()
        invariant
            i <= dots@.len(),
            has_room(width, height),
            dots_fit(dots@, width, height),
            draws@.len() == i,
            forall|k: int|
                0 <= k < i ==> (#[trigger] draws@[k])@ == dot_draw(dots@[k], height),
        decreases dots@.len() - i,
    {
        let d = dots[i];
        let mut text = String::new();
        text.push(d.glyph);
        proof {
            assert(text@ =~= seq![d.glyph]);
        }
        draws.push(Draw { x: GUTTER + d.col, y: height - 2 - d.row, text, tint: d.tint });
        i = i + 1;
    }
    let ghost marks = draws@.map_values(|d: Draw| d@);
    proof {
        assert(marks =~= dots@.map_values(|d: Dot| dot_draw(d, height)));
    }
    let upper = label_draw(0, 1, top);
    let lower = label_draw(0, height - 2, bottom);
    let mut start = fmt_seconds(x_span.0);
    start.append("s");
    let mut end = fmt_seconds(x_span.1);
    end.append("s");
    let len: usize = end.as_str().unicode_len();
    let end_x: u16 = if len < width as usize {
        width - len as u16
    } else {
        0
    };
    let first = Draw { x: GUTTER, y: height - 1, text: start, tint: Tint::Plain };
    let last = Draw { x: end_x, y: height - 1, text: end, tint: Tint::Plain };
    let ghost labels = seq![upper@, lower@, first@, last@];
    draws.push(upper);
    draws.push(lower);
    draws.push(first);
    draws.push(last);
    proof {
        assert(draws@.map_values(|d: Draw| d@) =~= marks + labels);
        assert(labels =~= label_draws(top@, bottom@, x_span, width, height));
    }
    Pane { legend, draws }
}

/// The frame of a graph in a pane.
pub open spec fn graph_frame(x_span: (Nanos, Nanos), width: u16, height: u16) -> Frame {
    Frame {
        t0: x_span.0.0,
        t1: x_span.1.0,
        width: (width - GUTTER) as u16,
        height: (height - 2) as u16,
    }
}

/// The pane is large enough for a graph.
pub open spec fn graph_fits(width: u16, height: u16) -> bool {
    width >= GUTTER + MIN_W && height >= 2 + MIN_H
}

/// The coloured mark of the time/sequence graph.
pub open spec fn seq_dot(m: crate::detail::Mark) -> Dot {
    Dot {
        col: m.col,
        row: m.row,
        glyph: m.glyph,
        tint: if m.glyph == RETRANS_GLYPH {
            Tint::Red
        } else if m.glyph == SACK_GLYPH {
            Tint::Yellow
        } else {
            Tint::Plain
        },
    }
}

/// The pane with the time/sequence graph.
pub open spec fn seq_pane_model(
    series: Seq<SeqSample>,
    focus: SampleDir,
    x_span: (Nanos, Nanos),
    cursor: Nanos,
    width: u16,
    height: u16,
) -> PaneModel {
    pane_model(
        "Time/Sequence   "@ + seq![RETRANS_GLYPH] + " retrans  "@ + seq![SACK_GLYPH] + " sack"@,
        crate::detail::marks(
            graph_frame(x_span, width, height),
            series,
            focus,
            cursor,
        ).map_values(|m: crate::detail::Mark| seq_dot(m)),
        crate::format::offset_text(crate::detail::top(series, focus)),
        "0"@,
        x_span,
        width,
        height,
    )
}

/// The pane with the time/sequence graph, if it is large enough.
#[must_use]
pub fn seq_pane(
    series: &[SeqSample],
    focus: SampleDir,
    x_span: (Nanos, Nanos),
    cursor: Nanos,
    width: u16,
    height: u16,
) -> (res: Option<Pane>)
    requires
        graph_fits(width, height) ==> x_span.0.0 <= x_span.1.0 && crate::detail::span_fits(
            series@,
            focus,
        ),
    ensures
        match res {
            Some(pane) => graph_fits(width, height) && pane@ == seq_pane_model(
                series@,
                focus,
                x_span,
                cursor,
                width,
                height,
            ),
            None => !graph_fits(width, height),
        },
{
    if height < 3 || width <= GUTTER {
        return None;
    }
    let plot = match crate::detail::project(
        series,
        focus,
        x_span,
        cursor,
        width - GUTTER,
        height - 2,
    ) {
        Some(plot) => plot,
        None => return None,
    };
    let mut dots: Vec<Dot> = Vec::new();
    let mut i: usize = 0;
    while i < plot.marks.len()
        invariant
            i <= plot.marks@.len(),
            dots@ == plot.marks@.take(i as int).map_values(
                |m: crate::detail::Mark| seq_dot(m),
            ),
        decreases plot.marks@.len() - i,
    {
        let m = plot.marks[i];
        dots.push(
            Dot {
                col: m.col,
                row: m.row,
                glyph: m.glyph,
                tint: if m.glyph == RETRANS_GLYPH {
            Tint::Red
        } else if m.glyph == SACK_GLYPH {
            Tint::Yellow
        } else {
            Tint::Plain
        },
            },
        );
        i = i + 1;
        proof {
            assert(dots@ =~= plot.marks@.take(i as int).map_values(
                |m: crate::detail::Mark| seq_dot(m),
            ));
        }
    }
    proof {
        let frame = graph_frame(x_span, width, height);
        assert(plot.marks@.take(i as int) =~= plot.marks@);
        crate::plot::law_cells_lie_on_the_area(
            frame,
            crate::detail::hits(
                frame,
                series@,
                focus,
                crate::detail::bottom(series@, focus),
                crate::detail::top(series@, focus),
                cursor,
            ),
            cursor,
        );
        assert(dots_fit(dots@, width, height));
    }
    let mut legend = "Time/Sequence   ".to_owned();
    legend.push(RETRANS_GLYPH);
    legend.append(" retrans  ");
    legend.push(SACK_GLYPH);
    legend.append(" sack");
    let top = fmt_seq(plot.max_rel);
    Some(lay_out(legend, &dots, top.as_str(), "0", x_span, width, height))
}

/// `n`, or the largest offset there is.
pub open spec fn capped(n: u64) -> int {
    if n > i64::MAX {
        i64::MAX as int
    } else {
        n as int
    }
}

/// The coloured mark of the in-flight graph.
pub open spec fn inflight_dot(m: crate::inflight::Mark) -> Dot {
    Dot {
        col: m.col,
        row: m.row,
        glyph: m.glyph,
        tint: match m.series {
            crate::inflight::Series::Cwnd => Tint::Cyan,
            crate::inflight::Series::Wire => Tint::Plain,
        },
    }
}

/// The pane with the in-flight graph.
pub open spec fn inflight_pane_model(
    wire: Seq<InFlightSample>,
    focus: SampleDir,
    x_span: (Nanos, Nanos),
    cursor: Nanos,
    width: u16,
    height: u16,
) -> PaneModel {
    pane_model(
        "In-flight   "@ + seq![WIRE_GLYPH] + " wire"@,
        crate::inflight::marks(
            graph_frame(x_span, width, height),
            wire,
            Seq::empty(),
            focus,
            cursor,
        ).map_values(|m: crate::inflight::Mark| inflight_dot(m)),
        crate::format::offset_text(
            capped(crate::inflight::top(wire, Seq::empty(), focus)),
        ),
        "0"@,
        x_span,
        width,
        height,
    )
}

/// The pane with the in-flight graph, if it is large enough.
#[must_use]
pub fn inflight_pane(
    wire: &[InFlightSample],
    focus: SampleDir,
    x_span: (Nanos, Nanos),
    cursor: Nanos,
    width: u16,
    height: u16,
) -> (res: Option<Pane>)
    requires
        graph_fits(width, height) ==> x_span.0.0 <= x_span.1.0,
    ensures
        match res {
            Some(pane) => graph_fits(width, height) && pane@ == inflight_pane_model(
                wire@,
                focus,
                x_span,
                cursor,
                width,
                height,
            ),
            None => !graph_fits(width, height),
        },
{
    if height < 3 || width <= GUTTER {
        return None;
    }
    let plot = match crate::inflight::project(
        wire,
        &[],
        focus,
        x_span,
        cursor,
        width - GUTTER,
        height - 2,
    ) {
        Some(plot) => plot,
        None => return None,
    };
    let mut dots: Vec<Dot> = Vec::new();
    let mut i: usize = 0;
    while i < plot.marks.len()
        invariant
            i <= plot.marks@.len(),
            dots@ == plot.marks@.take(i as int).map_values(
                |m: crate::inflight::Mark| inflight_dot(m),
            ),
        decreases plot.marks@.len() - i,
    {
        let m = plot.marks[i];
        dots.push(
            Dot {
                col: m.col,
                row: m.row,
                glyph: m.glyph,
                tint: match m.series {
            crate::inflight::Series::Cwnd => Tint::Cyan,
            crate::inflight::Series::Wire => Tint::Plain,
        },
            },
        );
        i = i + 1;
        proof {
            assert(dots@ =~= plot.marks@.take(i as int).map_values(
                |m: crate::inflight::Mark| inflight_dot(m),
            ));
        }
    }
    proof {
        let frame = graph_frame(x_span, width, height);
        assert(plot.marks@.take(i as int) =~= plot.marks@);
        crate::plot::law_cells_lie_on_the_area(
            frame,
            crate::inflight::hits(frame, wire@, Seq::empty(), focus, cursor),
            cursor,
        );
        assert(dots_fit(dots@, width, height));
    }
    let mut legend = "In-flight   ".to_owned();
    legend.push(WIRE_GLYPH);
    legend.append(" wire");
    let top = fmt_seq(
        if plot.max_bytes > i64::MAX as u64 {
            i64::MAX
        } else {
            plot.max_bytes as i64
        },
    );
    Some(lay_out(legend, &dots, top.as_str(), "0", x_span, width, height))
}

/// The coloured mark of the round-trip graph.
pub open spec fn rtt_dot(m: crate::rtt::Mark) -> Dot {
    Dot {
        col: m.col,
        row: m.row,
        glyph: m.glyph,
        tint: match m.series {
            crate::rtt::Series::Kernel => Tint::Cyan,
            crate::rtt::Series::Smoothed => Tint::Green,
            crate::rtt::Series::Raw => Tint::Plain,
        },
    }
}

/// The pane with the round-trip graph.
pub open spec fn rtt_pane_model(
    wire: Seq<RttSample>,
    focus: SampleDir,
    x_span: (Nanos, Nanos),
    cursor: Nanos,
    width: u16,
    height: u16,
) -> PaneModel {
    pane_model(
        "RTT   "@ + seq![RAW_GLYPH] + " raw  "@ + seq![SMOOTHED_GLYPH] + " smoothed"@,
        crate::rtt::marks(
            graph_frame(x_span, width, height),
            wire,
            Seq::empty(),
            focus,
            cursor,
        ).map_values(|m: crate::rtt::Mark| rtt_dot(m)),
        crate::format::rtt_text(Nanos(crate::rtt::top(wire, Seq::empty(), focus))),
        crate::format::rtt_text(Nanos(0)),
        x_span,
        width,
        height,
    )
}

/// The pane with the round-trip graph, if it is large enough.
#[must_use]
pub fn rtt_pane(
    wire: &[RttSample],
    focus: SampleDir,
    x_span: (Nanos, Nanos),
    cursor: Nanos,
    width: u16,
    height: u16,
) -> (res: Option<Pane>)
    requires
        graph_fits(width, height) ==> x_span.0.0 <= x_span.1.0,
    ensures
        match res {
            Some(pane) => graph_fits(width, height) && pane@ == rtt_pane_model(
                wire@,
                focus,
                x_span,
                cursor,
                width,
                height,
            ),
            None => !graph_fits(width, height),
        },
{
    if height < 3 || width <= GUTTER {
        return None;
    }
    let plot = match crate::rtt::project(
        wire,
        &[],
        focus,
        x_span,
        cursor,
        width - GUTTER,
        height - 2,
    ) {
        Some(plot) => plot,
        None => return None,
    };
    let mut dots: Vec<Dot> = Vec::new();
    let mut i: usize = 0;
    while i < plot.marks.len()
        invariant
            i <= plot.marks@.len(),
            dots@ == plot.marks@.take(i as int).map_values(
                |m: crate::rtt::Mark| rtt_dot(m),
            ),
        decreases plot.marks@.len() - i,
    {
        let m = plot.marks[i];
        dots.push(
            Dot {
                col: m.col,
                row: m.row,
                glyph: m.glyph,
                tint: match m.series {
            crate::rtt::Series::Kernel => Tint::Cyan,
            crate::rtt::Series::Smoothed => Tint::Green,
            crate::rtt::Series::Raw => Tint::Plain,
        },
            },
        );
        i = i + 1;
        proof {
            assert(dots@ =~= plot.marks@.take(i as int).map_values(
                |m: crate::rtt::Mark| rtt_dot(m),
            ));
        }
    }
    proof {
        let frame = graph_frame(x_span, width, height);
        assert(plot.marks@.take(i as int) =~= plot.marks@);
        crate::plot::law_cells_lie_on_the_area(
            frame,
            crate::rtt::hits(frame, wire@, Seq::empty(), focus, cursor),
            cursor,
        );
        assert(dots_fit(dots@, width, height));
    }
    let mut legend = "RTT   ".to_owned();
    legend.push(RAW_GLYPH);
    legend.append(" raw  ");
    legend.push(SMOOTHED_GLYPH);
    legend.append(" smoothed");
    let top = fmt_rtt(Nanos(plot.max_rtt));
    let bottom = fmt_rtt(Nanos(0));
    Some(lay_out(legend, &dots, top.as_str(), bottom.as_str(), x_span, width, height))
}

/// The coloured mark of the throughput graph.
pub open spec fn throughput_dot(m: crate::throughput::Mark) -> Dot {
    Dot {
        col: m.col,
        row: m.row,
        glyph: m.glyph,
        tint: match m.series {
            crate::throughput::Series::Goodput => Tint::Green,
            crate::throughput::Series::Throughput => Tint::Plain,
        },
    }
}

/// The pane with the throughput graph.
pub open spec fn throughput_pane_model(
    wire: Seq<ThroughputSample>,
    focus: SampleDir,
    x_span: (Nanos, Nanos),
    cursor: Nanos,
    width: u16,
    height: u16,
) -> PaneModel {
    pane_model(
        "Throughput  "@ + seq![THROUGHPUT_GLYPH] + " total  "@ + seq![GOODPUT_GLYPH] + " goodput"@,
        crate::throughput::marks(
            graph_frame(x_span, width, height),
            wire,
            focus,
            cursor,
        ).map_values(|m: crate::throughput::Mark| throughput_dot(m)),
        crate::format::rate_text(crate::throughput::top(wire, focus)),
        crate::format::rate_text(0),
        x_span,
        width,
        height,
    )
}

/// The pane with the throughput graph, if it is large enough.
#[must_use]
pub fn throughput_pane(
    wire: &[ThroughputSample],
    focus: SampleDir,
    x_span: (Nanos, Nanos),
    cursor: Nanos,
    width: u16,
    height: u16,
) -> (res: Option<Pane>)
    requires
        graph_fits(width, height) ==> x_span.0.0 <= x_span.1.0,
    ensures
        match res {
            Some(pane) => graph_fits(width, height) && pane@ == throughput_pane_model(
                wire@,
                focus,
                x_span,
                cursor,
                width,
                height,
            ),
            None => !graph_fits(width, height),
        },
{
    if height < 3 || width <= GUTTER {
        return None;
    }
    let plot = match crate::throughput::project(
        wire,
        focus,
        x_span,
        cursor,
        width - GUTTER,
        height - 2,
    ) {
        Some(plot) => plot,
        None => return None,
    };
    let mut dots: Vec<Dot> = Vec::new();
    let mut i: usize = 0;
    while i < plot.marks.len()
        invariant
            i <= plot.marks@.len(),
            dots@ == plot.marks@.take(i as int).map_values(
                |m: crate::throughput::Mark| throughput_dot(m),
            ),
        decreases plot.marks@.len() - i,
    {
        let m = plot.marks[i];
        dots.push(
            Dot {
                col: m.col,
                row: m.row,
                glyph: m.glyph,
                tint: match m.series {
            crate::throughput::Series::Goodput => Tint::Green,
            crate::throughput::Series::Throughput => Tint::Plain,
        },
            },
        );
        i = i + 1;
        proof {
            assert(dots@ =~= plot.marks@.take(i as int).map_values(
                |m: crate::throughput::Mark| throughput_dot(m),
            ));
        }
    }
    proof {
        let frame = graph_frame(x_span, width, height);
        assert(plot.marks@.take(i as int) =~= plot.marks@);
        crate::plot::law_cells_lie_on_the_area(
            frame,
            crate::throughput::hits(frame, wire@, focus, cursor),
            cursor,
        );
        assert(dots_fit(dots@, width, height));
    }
    let mut legend = "Throughput  ".to_owned();
    legend.push(THROUGHPUT_GLYPH);
    legend.append(" total  ");
    legend.push(GOODPUT_GLYPH);
    legend.append(" goodput");
    let top = fmt_rate(plot.max_rate);
    let bottom = fmt_rate(0);
    Some(lay_out(legend, &dots, top.as_str(), bottom.as_str(), x_span, width, height))
}

/// The detail pane: nothing to show, no room to show it, or the graph; with the title of the
/// connection where there is one.
#[derive(Debug, PartialEq, Eq)]
pub enum DetailPane {
    NoConnection,
    TooSmall(String),
    Graph(String, Pane),
}

impl DetailPane {
    /// The message in place of a graph.
    pub open spec fn notice_spec(self) -> Option<Seq<char>> {
        match self {
            DetailPane::NoConnection => Some("no connection selected"@),
            DetailPane::TooSmall(_) => Some("widen terminal to view graph"@),
            DetailPane::Graph(..) => None,
        }
    }

    /// The message in place of a graph, if there is no graph.
    #[must_use]
    pub fn notice(&self) -> (res: Option<&'static str>)
        ensures
            match res {
                Some(text) => self.notice_spec() == Some(text@),
                None => self.notice_spec() is None,
            },
    {
        match self {
            DetailPane::NoConnection => Some("no connection selected"),
            DetailPane::TooSmall(_) => Some("widen terminal to view graph"),
            DetailPane::Graph(..) => None,
        }
    }
}

/// The title of the detail pane.
pub open spec fn detail_title(
    origin: crate::endpoint::Endpoint,
    responder: crate::endpoint::Endpoint,
) -> Seq<char> {
    "DETAIL "@ + origin.text_spec() + " \u{2192} "@ + responder.text_spec()
}

/// The connection in the detail pane, as the timeline has it.
pub open spec fn focus_entry(app: AppModel) -> crate::timeline::EntryModel {
    app.play->0.timeline.entries[crate::app::focus_place(app)->0]
}

/// The offsets of the connection in the detail pane can be put on an axis, if they are to be.
pub open spec fn focus_fits(app: AppModel) -> bool {
    crate::app::focus_place(app) is Some && app.view == DetailView::TimeSequence
        ==> crate::detail::span_fits(
        focus_entry(app).seq,
        crate::app::busier_direction(focus_entry(app).conn),
    )
}

/// The graph in the detail pane.
pub open spec fn graph_model(app: AppModel, width: u16, height: u16) -> PaneModel {
    let e = focus_entry(app);
    let dir = crate::app::busier_direction(e.conn);
    let span = (e.conn.opened_at, crate::time::later(e.conn.last_at, e.conn.opened_at));
    let cursor = app.transport().cursor;
    match app.view {
        DetailView::TimeSequence => seq_pane_model(e.seq, dir, span, cursor, width, height),
        DetailView::InFlight => inflight_pane_model(e.inflight, dir, span, cursor, width, height),
        DetailView::Rtt => rtt_pane_model(e.rtt, dir, span, cursor, width, height),
        DetailView::Throughput => throughput_pane_model(
            e.throughput,
            dir,
            span,
            cursor,
            width,
            height,
        ),
    }
}

/// Whether the offsets of the connection in the detail pane can be put on an axis, if they are to
/// be.
#[must_use]
pub fn can_show_detail(app: &App) -> (res: bool)
    ensures
        res == focus_fits(app@),
{
    match (app.detail_view(), app.focus()) {
        (DetailView::TimeSequence, Some(focus)) => crate::detail::can_project(
            focus.series,
            focus.focus_dir,
        ),
        _ => true,
    }
}

fn graph_of(view: DetailView, focus: &FocusConn<'_>, cursor: Nanos, width: u16, height: u16) -> (res:
    Option<Pane>)
    requires
        focus.x_span.0.0 <= focus.x_span.1.0,
        graph_fits(width, height) && view == DetailView::TimeSequence
            ==> crate::detail::span_fits(focus.series@, focus.focus_dir),
    ensures
        match res {
            Some(pane) => graph_fits(width, height) && pane@ == (match view {
                DetailView::TimeSequence => seq_pane_model(
                    focus.series@,
                    focus.focus_dir,
                    focus.x_span,
                    cursor,
                    width,
                    height,
                ),
                DetailView::InFlight => inflight_pane_model(
                    focus.inflight@,
                    focus.focus_dir,
                    focus.x_span,
                    cursor,
                    width,
                    height,
                ),
                DetailView::Rtt => rtt_pane_model(
                    focus.rtt@,
                    focus.focus_dir,
                    focus.x_span,
                    cursor,
                    width,
                    height,
                ),
                DetailView::Throughput => throughput_pane_model(
                    focus.throughput@,
                    focus.focus_dir,
                    focus.x_span,
                    cursor,
                    width,
                    height,
                ),
            }),
            None => !graph_fits(width, height),
        },
{
    let (dir, span) = (focus.focus_dir, focus.x_span);
    match view {
        DetailView::TimeSequence => seq_pane(focus.series, dir, span, cursor, width, height),
        DetailView::InFlight => inflight_pane(focus.inflight, dir, span, cursor, width, height),
        DetailView::Rtt => rtt_pane(focus.rtt, dir, span, cursor, width, height),
        DetailView::Throughput => throughput_pane(
            focus.throughput,
            dir,
            span,
            cursor,
            width,
            height,
        ),
    }
}

/// The detail pane of the program, of which the inside is `width` by `height`.
#[must_use]
pub fn detail_pane(app: &App, width: u16, height: u16) -> (res: DetailPane)
    requires
        graph_fits(width, height) ==> focus_fits(app@),
    ensures
        match res {
            DetailPane::NoConnection => crate::app::focus_place(app@) is None,
            DetailPane::TooSmall(title) => {
                &&& crate::app::focus_place(app@) is Some
                &&& !graph_fits(width, height)
                &&& title@ == detail_title(
                    focus_entry(app@).conn.origin,
                    focus_entry(app@).conn.responder,
                )
            },
            DetailPane::Graph(title, pane) => {
                &&& crate::app::focus_place(app@) is Some
                &&& graph_fits(width, height)
                &&& title@ == detail_title(
                    focus_entry(app@).conn.origin,
                    focus_entry(app@).conn.responder,
                )
                &&& pane@ == graph_model(app@, width, height)
            },
        },
{
    let focus = match app.focus() {
        Some(focus) => focus,
        None => return DetailPane::NoConnection,
    };
    let origin = focus.origin.text();
    let responder = focus.responder.text();
    let mut title = "DETAIL ".to_owned();
    title.append(origin.as_str());
    title.append(" \u{2192} ");
    title.append(responder.as_str());
    match graph_of(app.detail_view(), &focus, app.cursor(), width, height) {
        Some(pane) => DetailPane::Graph(title, pane),
        None => DetailPane::TooSmall(title),
    }
}

} // verus!
