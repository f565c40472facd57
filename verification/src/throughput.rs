//! The throughput graph: all bits sent and those not sent before.

use vstd::prelude::*;

use crate::metric::SampleDir;
use crate::plot::{
    larger_of, list_cells, place_peaks, top_of, Cell, Frame, Hit, Point, Shown,
};
use crate::time::Nanos;
use crate::timeline::ThroughputSample;

pub use crate::plot::{MIN_H, MIN_W};

verus! {

pub const THROUGHPUT_GLYPH: char = '.';

pub const GOODPUT_GLYPH: char = '#';

pub const CURSOR_GLYPH: char = '\u{250a}';

/// Which series a mark belongs to: throughput, or the part of it that was not retransmitted.
#[derive(Debug, Clone, Copy, PartialEq, Eq, Structural)]
pub enum Series {
    Throughput,
    Goodput,
}

/// One plotted cell. Row zero is at the bottom and stands for no throughput.
#[derive(Debug, Clone, Copy, PartialEq, Eq, Structural)]
pub struct Mark {
    pub col: u16,
    pub row: u16,
    pub glyph: char,
    pub series: Series,
}

/// A throughput plot over a rectangle of cells.
#[derive(Debug, PartialEq, Eq)]
pub struct ThroughputPlot {
    pub width: u16,
    pub height: u16,
    pub max_rate: u64,
    pub x_span: (Nanos, Nanos),
    pub cursor_col: u16,
    pub marks: Vec<Mark>,
}

/// The samples of direction `focus` as points: their goodput, or their throughput.
pub open spec fn points(samples: Seq<ThroughputSample>, focus: SampleDir, goodput: bool) -> Seq<
    Point,
>
    decreases samples.len(),
{
    if samples.len() == 0 {
        Seq::empty()
    } else {
        let before = points(samples.drop_last(), focus, goodput);
        let last = samples.last();
        if last.dir == focus {
            before.push(
                Point {
                    t: last.t.0,
                    value: if goodput {
                        last.goodput_bps
                    } else {
                        last.throughput_bps
                    },
                },
            )
        } else {
            before
        }
    }
}

/// The top of the axis: the highest rate of either series, whether or not it shows yet.
pub open spec fn top(wire: Seq<ThroughputSample>, focus: SampleDir) -> u64 {
    crate::plot::larger(
        crate::plot::top_value(points(wire, focus, false)),
        crate::plot::top_value(points(wire, focus, true)),
    )
}

/// The hits of both series; goodput lies above throughput.
pub open spec fn hits(
    frame: Frame,
    wire: Seq<ThroughputSample>,
    focus: SampleDir,
    cursor: Nanos,
) -> Seq<Hit> {
    let axis = top(wire, focus);
    let width = frame.width as nat;
    crate::plot::peak_hits(frame, points(wire, focus, false), axis, cursor, 0, width)
        + crate::plot::peak_hits(frame, points(wire, focus, true), axis, cursor, 1, width)
}

/// The mark that a cell becomes.
pub open spec fn mark_of(cell: Cell) -> Mark {
    let (glyph, series) = match cell.shown {
        Shown::Layer(0) => (THROUGHPUT_GLYPH, Series::Throughput),
        Shown::Layer(_) => (GOODPUT_GLYPH, Series::Goodput),
        Shown::Cursor => (CURSOR_GLYPH, Series::Throughput),
    };
    Mark { col: cell.col, row: cell.row, glyph, series }
}

/// The marks of the plot.
pub open spec fn marks(
    frame: Frame,
    wire: Seq<ThroughputSample>,
    focus: SampleDir,
    cursor: Nanos,
) -> Seq<Mark> {
    crate::plot::cells(frame, hits(frame, wire, focus, cursor), cursor).map_values(|c: Cell| mark_of(c))
}

fn points_of(samples: &[ThroughputSample], focus: SampleDir, goodput: bool) -> (res: Vec<Point>)
    ensures
        res@ == points(samples@, focus, goodput),
{
    let mut out: Vec<Point> = Vec::new();
    let mut i: usize = 0;
    while i < samples.len()
        invariant
            i <= samples@.len(),
            out@ == points(samples@.take(i as int), focus, goodput),
        decreases samples@.len() - i,
    {
        proof {
            assert(samples@.take(i + 1).drop_last() =~= samples@.take(i as int));
        }
        let s = samples[i];
        if s.dir == focus {
            let value: u64 = if goodput {
                s.goodput_bps
            } else {
                s.throughput_bps
            };
            out.push(Point { t: s.t.0, value });
        }
        i = i + 1;
    }
    proof {
        assert(samples@.take(i as int) =~= samples@);
    }
    out
}

fn marks_of(cells: &Vec<Cell>) -> (res: Vec<Mark>)
    ensures
        res@ == cells@.map_values(|c: Cell| mark_of(c)),
{
    let mut out: Vec<Mark> = Vec::new();
    let mut i: usize = 0;
    while i < cells.len()
        invariant
            i <= cells@.len(),
            out@ == cells@.take(i as int).map_values(|c: Cell| mark_of(c)),
        decreases cells@.len() - i,
    {
        let c = cells[i];
        let (glyph, series) = match c.shown {
            Shown::Layer(0) => (THROUGHPUT_GLYPH, Series::Throughput),
            Shown::Layer(_) => (GOODPUT_GLYPH, Series::Goodput),
            Shown::Cursor => (CURSOR_GLYPH, Series::Throughput),
        };
        out.push(Mark { col: c.col, row: c.row, glyph, series });
        i = i + 1;
        proof {
            assert(out@ =~= cells@.take(i as int).map_values(|c: Cell| mark_of(c)));
        }
    }
    proof {
        assert(cells@.take(i as int) =~= cells@);
    }
    out
}

/// Plots throughput and goodput of direction `focus`. The axes span `x_span` and everything from
/// zero to the highest rate; samples show once the cursor has reached them, the highest of a
/// column for the column; the cursor fills what is free of its own column. There is no plot on too
/// small an area.
#[must_use]
pub fn project(
    wire: &[ThroughputSample],
    focus: SampleDir,
    x_span: (Nanos, Nanos),
    cursor: Nanos,
    width: u16,
    height: u16,
) -> (res: Option<ThroughputPlot>)
    requires
        width >= MIN_W && height >= MIN_H ==> x_span.0.0 <= x_span.1.0,
    ensures
        res is None <==> width < MIN_W || height < MIN_H,
        res matches Some(plot) ==> {
            let frame = Frame { t0: x_span.0.0, t1: x_span.1.0, width, height };
            &&& plot.width == width
            &&& plot.height == height
            &&& plot.max_rate == top(wire@, focus)
            &&& plot.x_span == x_span
            &&& plot.cursor_col == frame.cursor_column(cursor)
            &&& plot.marks@ == marks(frame, wire@, focus, cursor)
        },
{
    if width < MIN_W || height < MIN_H {
        return None;
    }
    let frame = Frame { t0: x_span.0.0, t1: x_span.1.0, width, height };
    let total = points_of(wire, focus, false);
    let goodput = points_of(wire, focus, true);
    let max_rate: u64 = larger_of(top_of(&total), top_of(&goodput));
    let mut placed: Vec<Hit> = Vec::new();
    place_peaks(&frame, &total, max_rate, cursor, 0, &mut placed);
    place_peaks(&frame, &goodput, max_rate, cursor, 1, &mut placed);
    proof {
        assert(placed@ =~= hits(frame, wire@, focus, cursor));
    }
    let cells = list_cells(&frame, &placed, cursor);
    let marks = marks_of(&cells);
    let cursor_col: u16 = frame.cursor_column_of(cursor);
    Some(ThroughputPlot { width, height, max_rate, x_span, cursor_col, marks })
}

} // verus!
