//! What stands in the panes, and where.

use vstd::prelude::*;

use crate::app::{AppModel, DetailView, Mode};
use crate::metric::SampleDir;
use crate::rows::{RowModel, SortDir, SortField};
use crate::time::Nanos;
use crate::view::{Dot, Tint};

verus! {

/// The cells of a row read its peer, its service, its state and the bytes of both directions; a
/// state is marked where who opened the connection was only inferred.
pub proof fn law_cells_read_the_row(row: RowModel)
    ensures
        ({
            let cells = crate::view::cells_of(row);
            &&& cells.peer == row.peer.text_spec()
            &&& row.service matches Some(name) ==> cells.service == name
            &&& row.service is None ==> cells.service.len() == 0
            &&& row.origin_inferred ==> cells.state == row.state.label_spec() + "~"@
            &&& !row.origin_inferred ==> cells.state == row.state.label_spec()
            &&& crate::reading::is_number(cells.up, 10) && crate::reading::value_of(cells.up, 10)
                == row.bytes_up
            &&& crate::reading::is_number(cells.down, 10) && crate::reading::value_of(
                cells.down,
                10,
            ) == row.bytes_down
        }),
{
    crate::reading::law_numbers_read_back(row.bytes_up as nat, 0);
    crate::reading::law_numbers_read_back(row.bytes_down as nat, 0);
}

/// The speeds as they are shown, from the slowest to the fastest.
pub open spec fn shown_speed(rung: int) -> Seq<char> {
    if rung == 0 {
        "0.1"@
    } else if rung == 1 {
        "0.5"@
    } else if rung == 2 {
        "1.0"@
    } else if rung == 3 {
        "2.0"@
    } else if rung == 4 {
        "5.0"@
    } else {
        "10.0"@
    }
}

/// The status tells whether playback runs, how fast, where the cursor is and where the end, in
/// seconds.
pub proof fn law_the_status_tells_the_playback(app: AppModel)
    requires
        0 <= app.transport().rung < 6,
    ensures
        ({
            let tr = app.transport();
            let sign = if tr.playing {
                "\u{25b6}"@
            } else {
                "\u{23f8}"@
            };
            crate::view::status_text(app) == "[ "@ + sign + " "@ + shown_speed(tr.rung) + "x  t="@
                + crate::format::seconds_text(tr.cursor) + "s / "@ + crate::format::seconds_text(
                tr.end,
            ) + "s ]"@
        }),
{
    let tr = app.transport();
    reveal_strlit(".");
    reveal_strlit("0.1");
    reveal_strlit("0.5");
    reveal_strlit("1.0");
    reveal_strlit("2.0");
    reveal_strlit("5.0");
    reveal_strlit("10.0");
    reveal_with_fuel(crate::text::decimal, 3);
    assert(crate::view::speed_text(crate::transport::rung_ratio(tr.rung)) =~= shown_speed(tr.rung));
}

/// The footer is the filter behind a slash while that is typed, and the keys with the column and the
/// direction of the list otherwise.
pub proof fn law_the_footer_suits_the_mode(app: AppModel)
    ensures
        ({
            let column = match app.field {
                SortField::Peer => "peer"@,
                SortField::State => "state"@,
                SortField::BytesUp => "up"@,
                SortField::BytesDown => "down"@,
            };
            let arrow = if app.dir == SortDir::Asc {
                "\u{25b2}"@
            } else {
                "\u{25bc}"@
            };
            let footer = crate::view::footer_spec(app);
            &&& app.mode == Mode::Filter ==> footer == "/"@ + app.query
            &&& app.mode == Mode::Nav ==> footer
                == "space play/pause  \u{2190}\u{2192} seek  +/- speed  ,/. step  \u{23ce} open  esc close  \u{21e5} view  / filter  s sort:"@
                + column + arrow + "  q quit"@
        }),
{
}

/// The row that is marked is that of the selected connection.
pub proof fn law_the_mark_is_at_the_selection(app: AppModel)
    ensures
        match crate::view::selected_place(app) {
            Some(i) => 0 <= i < app.visible().len() && app.selected == Some(app.visible()[i].id),
            None => forall|k: int|
                0 <= k < app.visible().len() ==> Some((#[trigger] app.visible()[k]).id)
                    != app.selected,
        },
{
    if let Some(id) = app.selected {
        crate::app::law_places_are_rows(app.visible(), id);
    }
}

/// Where nothing is listed, that is said of the capture if it holds nothing, and of the moment
/// otherwise.
pub proof fn law_empty_lists_are_explained(app: AppModel)
    ensures
        ({
            let empty = match app.play {
                Some(p) => p.timeline.entries.len() == 0,
                None => app.rows.len() == 0,
            };
            &&& empty ==> crate::view::empty_text(app) == "no connections in capture"@
            &&& !empty ==> crate::view::empty_text(app) == "no connections active at t="@
                + crate::format::seconds_text(app.transport().cursor) + "s"@
        }),
{
}

/// Labels are filled with spaces on the left to their width, and stay whole where they are longer.
pub proof fn law_labels_are_flush_right(s: Seq<char>, width: nat)
    ensures
        ({
            let label = crate::text::right_aligned(s, width);
            &&& s.len() <= width ==> label.len() == width
            &&& s.len() > width ==> label == s
            &&& label.skip(label.len() - s.len()) == s
            &&& forall|i: int| 0 <= i < label.len() - s.len() ==> #[trigger] label[i] == ' '
        }),
{
    let label = crate::text::right_aligned(s, width);
    assert(label.skip(label.len() - s.len()) =~= s);
    if s.len() > width {
        assert(label =~= s);
    }
}

/// Marks stand eight columns from the left and one row from the top of the pane, the lowest of them
/// one row above the labels of time, the higher ones further up; each keeps its sign and its colour.
pub proof fn law_marks_stand_on_the_graph(dot: Dot, width: u16, height: u16)
    requires
        8 < width,
        3 <= height,
        dot.col < width - 8,
        dot.row < height - 2,
    ensures
        ({
            let draw = crate::view::dot_draw(dot, height);
            &&& draw.x == dot.col + 8 && draw.x < width
            &&& draw.y + dot.row == height - 2 && 1 <= draw.y
            &&& draw.text == seq![dot.glyph]
            &&& draw.tint == dot.tint
        }),
{
}

/// The labels of a graph: the top of the axis in its first row and the bottom in its last, left of
/// it; the start of time below its left end and the end of time flush with the right one.
pub proof fn law_labels_stand_at_the_ends(
    top: Seq<char>,
    bottom: Seq<char>,
    span: (Nanos, Nanos),
    width: u16,
    height: u16,
)
    requires
        8 < width,
        3 <= height,
    ensures
        ({
            let labels = crate::view::label_draws(top, bottom, span, width, height);
            let (first, last) = (
                crate::format::seconds_text(span.0) + "s"@,
                crate::format::seconds_text(span.1) + "s"@,
            );
            &&& labels.len() == 4
            &&& labels[0].x == 0 && labels[0].y == 1 && labels[0].text
                == crate::text::right_aligned(top, 7)
            &&& labels[1].x == 0 && labels[1].y == height - 2 && labels[1].text
                == crate::text::right_aligned(bottom, 7)
            &&& labels[2].x == 8 && labels[2].y == height - 1 && labels[2].text == first
            &&& labels[3].y == height - 1 && labels[3].text == last
            &&& last.len() <= width ==> labels[3].x + last.len() == width
            &&& last.len() > width ==> labels[3].x == 0
            &&& forall|i: int| 0 <= i < 4 ==> (#[trigger] labels[i]).tint == Tint::Plain
        }),
{
}

/// What is drawn in a pane: the marks in their order and the labels behind them, under the legend.
pub proof fn law_panes_hold_marks_and_labels(
    legend: Seq<char>,
    dots: Seq<Dot>,
    top: Seq<char>,
    bottom: Seq<char>,
    span: (Nanos, Nanos),
    width: u16,
    height: u16,
)
    ensures
        ({
            let pane = crate::view::pane_model(legend, dots, top, bottom, span, width, height);
            let labels = crate::view::label_draws(top, bottom, span, width, height);
            &&& pane.legend == legend
            &&& pane.draws.len() == dots.len() + labels.len()
            &&& forall|i: int|
                0 <= i < dots.len() ==> #[trigger] pane.draws[i] == crate::view::dot_draw(
                    dots[i],
                    height,
                )
            &&& forall|i: int|
                0 <= i < labels.len() ==> #[trigger] pane.draws[dots.len() + i] == labels[i]
        }),
{
}

/// A pane has a graph from sixteen columns and five rows on; eight columns go to the labels at its
/// left, a row to the legend and one to the labels of time.
pub proof fn law_graphs_need_room(span: (Nanos, Nanos), width: u16, height: u16)
    ensures
        crate::view::graph_fits(width, height) <==> width >= 16 && height >= 5,
        crate::view::graph_fits(width, height) ==> ({
            let frame = crate::view::graph_frame(span, width, height);
            &&& frame.width == width - 8
            &&& frame.height == height - 2
            &&& frame.t0 == span.0.0
            &&& frame.t1 == span.1.0
        }),
{
}

/// The colours: what was sent again is red, what was acknowledged out of order yellow, the smoothed
/// round trip and the goodput green, and what the kernel tells cyan. Nothing is moved.
pub proof fn law_colours_tell_marks_apart(
    s: crate::detail::Mark,
    f: crate::inflight::Mark,
    r: crate::rtt::Mark,
    t: crate::throughput::Mark,
)
    ensures
        crate::view::seq_dot(s).tint == (if s.glyph == '\u{b7}' {
            Tint::Red
        } else if s.glyph == '\u{254e}' {
            Tint::Yellow
        } else {
            Tint::Plain
        }),
        crate::view::inflight_dot(f).tint == (if f.series is Cwnd {
            Tint::Cyan
        } else {
            Tint::Plain
        }),
        crate::view::rtt_dot(r).tint == (if r.series is Kernel {
            Tint::Cyan
        } else if r.series is Smoothed {
            Tint::Green
        } else {
            Tint::Plain
        }),
        crate::view::throughput_dot(t).tint == (if t.series is Goodput {
            Tint::Green
        } else {
            Tint::Plain
        }),
        ({
            let (a, b, c, d) = (
                crate::view::seq_dot(s),
                crate::view::inflight_dot(f),
                crate::view::rtt_dot(r),
                crate::view::throughput_dot(t),
            );
            &&& a.col == s.col && a.row == s.row && a.glyph == s.glyph
            &&& b.col == f.col && b.row == f.row && b.glyph == f.glyph
            &&& c.col == r.col && c.row == r.row && c.glyph == r.glyph
            &&& d.col == t.col && d.row == t.row && d.glyph == t.glyph
        }),
{
}

/// The graph of the pane is that of the view, of the busier direction of the selected connection,
/// from its first segment to its last, up to the cursor. Its top label is the top of what it shows,
/// in the unit of the view, and its bottom label zero.
pub proof fn law_the_graph_is_of_the_selection(app: AppModel, width: u16, height: u16)
    requires
        crate::view::focus_entry(app).conn.opened_at.0 <= crate::view::focus_entry(
            app,
        ).conn.last_at.0,
    ensures
        ({
            let e = crate::view::focus_entry(app);
            let dir = if e.conn.bytes_r2o > e.conn.bytes_o2r {
                SampleDir::ResponderToOrigin
            } else {
                SampleDir::OriginToResponder
            };
            let span = (e.conn.opened_at, e.conn.last_at);
            let cursor = app.transport().cursor;
            let frame = crate::view::graph_frame(span, width, height);
            let pane = crate::view::graph_model(app, width, height);
            let labels = |top: Seq<char>, bottom: Seq<char>|
                crate::view::label_draws(top, bottom, span, width, height);
            &&& app.view == DetailView::TimeSequence ==> {
                let marks = crate::detail::marks(frame, e.seq, dir, cursor);
                pane.draws == marks.map_values(
                    |m: crate::detail::Mark| crate::view::dot_draw(crate::view::seq_dot(m), height),
                ) + labels(crate::format::offset_text(crate::detail::top(e.seq, dir)), "0"@)
            }
            &&& app.view == DetailView::InFlight ==> {
                let marks = crate::inflight::marks(frame, e.inflight, Seq::empty(), dir, cursor);
                let top = crate::inflight::top(e.inflight, Seq::empty(), dir);
                &&& top <= i64::MAX ==> pane.draws == marks.map_values(
                    |m: crate::inflight::Mark|
                        crate::view::dot_draw(crate::view::inflight_dot(m), height),
                ) + labels(crate::format::offset_text(top as int), "0"@)
            }
            &&& app.view == DetailView::Rtt ==> {
                let marks = crate::rtt::marks(frame, e.rtt, Seq::empty(), dir, cursor);
                let top = Nanos(crate::rtt::top(e.rtt, Seq::empty(), dir));
                pane.draws == marks.map_values(
                    |m: crate::rtt::Mark| crate::view::dot_draw(crate::view::rtt_dot(m), height),
                ) + labels(crate::format::rtt_text(top), crate::text::decimal(0) + "ns"@)
            }
            &&& app.view == DetailView::Throughput ==> {
                let marks = crate::throughput::marks(frame, e.throughput, dir, cursor);
                let top = crate::throughput::top(e.throughput, dir);
                pane.draws == marks.map_values(
                    |m: crate::throughput::Mark|
                        crate::view::dot_draw(crate::view::throughput_dot(m), height),
                ) + labels(crate::format::rate_text(top), crate::text::decimal(0) + "bps"@)
            }
        }),
{
}

/// The title of the pane names both ends of the connection, the origin first.
pub proof fn law_the_title_names_both_ends(
    origin: crate::endpoint::Endpoint,
    responder: crate::endpoint::Endpoint,
)
    ensures
        crate::view::detail_title(origin, responder) == "DETAIL "@ + origin.text_spec()
            + " \u{2192} "@ + responder.text_spec(),
{
}

} // verus!
