//! The in-flight graph: bytes outstanding over time, with an optional congestion-window overlay.

use vstd::prelude::*;

use crate::metric::SampleDir;
use crate::plot::{
    larger_of, list_cells, place_peaks, top_of, Cell, Frame, Hit, Point, Shown,
};
use crate::time::Nanos;
use crate::timeline::InFlightSample;

pub use crate::plot::{MIN_H, MIN_W};

verus! {

pub const WIRE_GLYPH: char = '#';

pub const CWND_GLYPH: char = '+';

pub const CURSOR_GLYPH: char = '\u{250a}';

/// Which series a mark belongs to: the estimate from the wire, or the overlay.
#[derive(Debug, Clone, Copy, PartialEq, Eq, Structural)]
pub enum Series {
    Wire,
    Cwnd,
}

/// One plotted cell. Row zero is at the bottom and stands for zero bytes.
#[derive(Debug, Clone, Copy, PartialEq, Eq, Structural)]
pub struct Mark {
    pub col: u16,
    pub row: u16,
    pub glyph: char,
    pub series: Series,
}

/// An in-flight plot over a rectangle of cells.
#[derive(Debug, PartialEq, Eq)]
pub struct InFlightPlot {
    pub width: u16,
    pub height: u16,
    pub max_bytes: u64,
    pub x_span: (Nanos, Nanos),
    pub cursor_col: u16,
    pub marks: Vec<Mark>,
}

/// The samples of direction `focus` as points.
pub open spec fn points(samples: Seq<InFlightSample>, focus: SampleDir) -> Seq<Point>
    decreases samples.len(),
{
    if samples.len() == 0 {
        Seq::empty()
    } else {
        let before = points(samples.drop_last(), focus);
        let last = samples.last();
        if last.dir == focus {
            before.push(Point { t: last.t.0, value: last.bytes })
        } else {
            before
        }
    }
}

/// The top of the axis: the most bytes of both series, whether or not they show yet.
pub open spec fn top(
    wire: Seq<InFlightSample>,
    overlay: Seq<InFlightSample>,
    focus: SampleDir,
) -> u64 {
    crate::plot::larger(
        crate::plot::top_value(points(wire, focus)),
        crate::plot::top_value(points(overlay, focus)),
    )
}

/// The hits of both series; the overlay lies above the wire.
pub open spec fn hits(
    frame: Frame,
    wire: Seq<InFlightSample>,
    overlay: Seq<InFlightSample>,
    focus: SampleDir,
    cursor: Nanos,
) -> Seq<Hit> {
    let axis = top(wire, overlay, focus);
    let width = frame.width as nat;
    crate::plot::peak_hits(frame, points(wire, focus), axis, cursor, 0, width)
        + crate::plot::peak_hits(frame, points(overlay, focus), axis, cursor, 1, width)
}

/// The mark that a cell becomes.
pub open spec fn mark_of(cell: Cell) -> Mark {
    let (glyph, series) = match cell.shown {
        Shown::Layer(0) => (WIRE_GLYPH, Series::Wire),
        Shown::Layer(_) => (CWND_GLYPH, Series::Cwnd),
        Shown::Cursor => (CURSOR_GLYPH, Series::Wire),
    };
    Mark { col: cell.col, row: cell.row, glyph, series }
}

/// The marks of the plot.
pub open spec fn marks(
    frame: Frame,
    wire: Seq<InFlightSample>,
    overlay: Seq<InFlightSample>,
    focus: SampleDir,
    cursor: Nanos,
) -> Seq<Mark> {
    crate::plot::cells(frame, hits(frame, wire, overlay, focus, cursor), cursor).map_values(|c: Cell| mark_of(c))
}

fn points_of(samples: &[InFlightSample], focus: SampleDir) -> (res: Vec<Point>)
    ensures
        res@ == points(samples@, focus),
{
    let mut out: Vec<Point> = Vec::new();
    let mut i: usize = 0;
    while i < samples.len()
        invariant
            i <= samples@.len(),
            out@ == points(samples@.take(i as int), focus),
        decreases samples@.len() - i,
    {
        proof {
            assert(samples@.take(i + 1).drop_last() =~= samples@.take(i as int));
        }
        let s = samples[i];
        if s.dir == focus {
            out.push(Point { t: s.t.0, value: s.bytes });
        }
        i = i + 1;
    }
    proof {
        assert(samples@.take(i as int) =~= samples@);
    }
    out
}

fn marks_of(cells: &Vec<Cell>) -> (res: Vec<Mark>)
    ensures
        res@ == cells@.map_values(|c: Cell| mark_of(c)),
{
    let mut out: Vec<Mark> = Vec::new();
    let mut i: usize = 0;
    while i < cells.len()
        invariant
            i <= cells@.len(),
            out@ == cells@.take(i as int).map_values(|c: Cell| mark_of(c)),
        decreases cells@.len() - i,
    {
        let c = cells[i];
        let (glyph, series) = match c.shown {
            Shown::Layer(0) => (WIRE_GLYPH, Series::Wire),
            Shown::Layer(_) => (CWND_GLYPH, Series::Cwnd),
            Shown::Cursor => (CURSOR_GLYPH, Series::Wire),
        };
        out.push(Mark { col: c.col, row: c.row, glyph, series });
        i = i + 1;
        proof {
            assert(out@ =~= cells@.take(i as int).map_values(|c: Cell| mark_of(c)));
        }
    }
    proof {
        assert(cells@.take(i as int) =~= cells@);
    }
    out
}

/// Plots the bytes outstanding in direction `focus`. The axes span `x_span` and everything from
/// zero to the most bytes of either series; samples show once the cursor has reached them, the
/// highest of a column for the column; the cursor fills what is free of its own column. There is
/// no plot on too small an area.
#[must_use]
pub fn project(
    wire: &[InFlightSample],
    overlay: &[InFlightSample],
    focus: SampleDir,
    x_span: (Nanos, Nanos),
    cursor: Nanos,
    width: u16,
    height: u16,
) -> (res: Option<InFlightPlot>)
    requires
        width >= MIN_W && height >= MIN_H ==> x_span.0.0 <= x_span.1.0,
    ensures
        res is None <==> width < MIN_W || height < MIN_H,
        res matches Some(plot) ==> {
            let frame = Frame { t0: x_span.0.0, t1: x_span.1.0, width, height };
            &&& plot.width == width
            &&& plot.height == height
            &&& plot.max_bytes == top(wire@, overlay@, focus)
            &&& plot.x_span == x_span
            &&& plot.cursor_col == frame.cursor_column(cursor)
            &&& plot.marks@ == marks(frame, wire@, overlay@, focus, cursor)
        },
{
    if width < MIN_W || height < MIN_H {
        return None;
    }
    let frame = Frame { t0: x_span.0.0, t1: x_span.1.0, width, height };
    let wire_points = points_of(wire, focus);
    let overlay_points = points_of(overlay, focus);
    let max_bytes: u64 = larger_of(top_of(&wire_points), top_of(&overlay_points));
    let mut placed: Vec<Hit> = Vec::new();
    place_peaks(&frame, &wire_points, max_bytes, cursor, 0, &mut placed);
    place_peaks(&frame, &overlay_points, max_bytes, cursor, 1, &mut placed);
    proof {
        assert(placed@ =~= hits(frame, wire@, overlay@, focus, cursor));
    }
    let cells = list_cells(&frame, &placed, cursor);
    let marks = marks_of(&cells);
    let cursor_col: u16 = frame.cursor_column_of(cursor);
    Some(InFlightPlot { width, height, max_bytes, x_span, cursor_col, marks })
}

} // verus!
