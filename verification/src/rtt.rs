//! The round-trip graph: measured and smoothed round trips, with an optional kernel overlay.

use vstd::prelude::*;

use crate::metric::SampleDir;
use crate::plot::{
    larger_of, list_cells, place_peaks, top_of, Cell, Frame, Hit, Point, Shown,
};
use crate::time::Nanos;
use crate::timeline::RttSample;

pub use crate::plot::{MIN_H, MIN_W};

verus! {

pub const RAW_GLYPH: char = '.';

pub const SMOOTHED_GLYPH: char = '#';

pub const KERNEL_GLYPH: char = '+';

pub const CURSOR_GLYPH: char = '\u{250a}';

/// Which series a mark belongs to: the measured round trips, the smoothed ones, or the overlay.
#[derive(Debug, Clone, Copy, PartialEq, Eq, Structural)]
pub enum Series {
    Raw,
    Smoothed,
    Kernel,
}

/// One plotted cell. Row zero is at the bottom and stands for no time at all.
#[derive(Debug, Clone, Copy, PartialEq, Eq, Structural)]
pub struct Mark {
    pub col: u16,
    pub row: u16,
    pub glyph: char,
    pub series: Series,
}

/// A round-trip plot over a rectangle of cells.
#[derive(Debug, PartialEq, Eq)]
pub struct RttPlot {
    pub width: u16,
    pub height: u16,
    pub max_rtt: u64,
    pub x_span: (Nanos, Nanos),
    pub cursor_col: u16,
    pub marks: Vec<Mark>,
}

/// The samples of direction `focus` as points: their smoothed values, or the measured ones.
pub open spec fn points(samples: Seq<RttSample>, focus: SampleDir, smoothed: bool) -> Seq<Point>
    decreases samples.len(),
{
    if samples.len() == 0 {
        Seq::empty()
    } else {
        let before = points(samples.drop_last(), focus, smoothed);
        let last = samples.last();
        if last.dir == focus {
            before.push(
                Point {
                    t: last.t.0,
                    value: if smoothed {
                        last.srtt.0
                    } else {
                        last.rtt.0
                    },
                },
            )
        } else {
            before
        }
    }
}

/// The top of the axis: the longest round trip of any series, whether or not it shows yet.
pub open spec fn top(wire: Seq<RttSample>, overlay: Seq<RttSample>, focus: SampleDir) -> u64 {
    crate::plot::larger(
        crate::plot::larger(
            crate::plot::top_value(points(wire, focus, false)),
            crate::plot::top_value(points(wire, focus, true)),
        ),
        crate::plot::top_value(points(overlay, focus, true)),
    )
}

/// The hits of the series: the smoothed one lies above the measured one, the overlay above both.
pub open spec fn hits(
    frame: Frame,
    wire: Seq<RttSample>,
    overlay: Seq<RttSample>,
    focus: SampleDir,
    cursor: Nanos,
) -> Seq<Hit> {
    let axis = top(wire, overlay, focus);
    let width = frame.width as nat;
    crate::plot::peak_hits(frame, points(wire, focus, false), axis, cursor, 0, width)
        + crate::plot::peak_hits(frame, points(wire, focus, true), axis, cursor, 1, width)
        + crate::plot::peak_hits(frame, points(overlay, focus, true), axis, cursor, 2, width)
}

/// The mark that a cell becomes.
pub open spec fn mark_of(cell: Cell) -> Mark {
    let (glyph, series) = match cell.shown {
        Shown::Layer(0) => (RAW_GLYPH, Series::Raw),
        Shown::Layer(1) => (SMOOTHED_GLYPH, Series::Smoothed),
        Shown::Layer(_) => (KERNEL_GLYPH, Series::Kernel),
        Shown::Cursor => (CURSOR_GLYPH, Series::Raw),
    };
    Mark { col: cell.col, row: cell.row, glyph, series }
}

/// The marks of the plot.
pub open spec fn marks(
    frame: Frame,
    wire: Seq<RttSample>,
    overlay: Seq<RttSample>,
    focus: SampleDir,
    cursor: Nanos,
) -> Seq<Mark> {
    crate::plot::cells(frame, hits(frame, wire, overlay, focus, cursor), cursor).map_values(|c: Cell| mark_of(c))
}

fn points_of(samples: &[RttSample], focus: SampleDir, smoothed: bool) -> (res: Vec<Point>)
    ensures
        res@ == points(samples@, focus, smoothed),
{
    let mut out: Vec<Point> = Vec::new();
    let mut i: usize = 0;
    while i < samples.len()
        invariant
            i <= samples@.len(),
            out@ == points(samples@.take(i as int), focus, smoothed),
        decreases samples@.len() - i,
    {
        proof {
            assert(samples@.take(i + 1).drop_last() =~= samples@.take(i as int));
        }
        let s = samples[i];
        if s.dir == focus {
            let value: u64 = if smoothed {
                s.srtt.0
            } else {
                s.rtt.0
            };
            out.push(Point { t: s.t.0, value });
        }
        i = i + 1;
    }
    proof {
        assert(samples@.take(i as int) =~= samples@);
    }
    out
}

fn marks_of(cells: &Vec<Cell>) -> (res: Vec<Mark>)
    ensures
        res@ == cells@.map_values(|c: Cell| mark_of(c)),
{
    let mut out: Vec<Mark> = Vec::new();
    let mut i: usize = 0;
    while i < cells.len()
        invariant
            i <= cells@.len(),
            out@ == cells@.take(i as int).map_values(|c: Cell| mark_of(c)),
        decreases cells@.len() - i,
    {
        let c = cells[i];
        let (glyph, series) = match c.shown {
            Shown::Layer(0) => (RAW_GLYPH, Series::Raw),
            Shown::Layer(1) => (SMOOTHED_GLYPH, Series::Smoothed),
            Shown::Layer(_) => (KERNEL_GLYPH, Series::Kernel),
            Shown::Cursor => (CURSOR_GLYPH, Series::Raw),
        };
        out.push(Mark { col: c.col, row: c.row, glyph, series });
        i = i + 1;
        proof {
            assert(out@ =~= cells@.take(i as int).map_values(|c: Cell| mark_of(c)));
        }
    }
    proof {
        assert(cells@.take(i as int) =~= cells@);
    }
    out
}

/// Plots the round trips of direction `focus`, measured and smoothed, and the smoothed overlay.
/// The axes span `x_span` and everything from zero to the longest round trip; samples show once
/// the cursor has reached them, the highest of a column for the column; the cursor fills what is
/// free of its own column. There is no plot on too small an area.
#[must_use]
pub fn project(
    wire: &[RttSample],
    overlay: &[RttSample],
    focus: SampleDir,
    x_span: (Nanos, Nanos),
    cursor: Nanos,
    width: u16,
    height: u16,
) -> (res: Option<RttPlot>)
    requires
        width >= MIN_W && height >= MIN_H ==> x_span.0.0 <= x_span.1.0,
    ensures
        res is None <==> width < MIN_W || height < MIN_H,
        res matches Some(plot) ==> {
            let frame = Frame { t0: x_span.0.0, t1: x_span.1.0, width, height };
            &&& plot.width == width
            &&& plot.height == height
            &&& plot.max_rtt == top(wire@, overlay@, focus)
            &&& plot.x_span == x_span
            &&& plot.cursor_col == frame.cursor_column(cursor)
            &&& plot.marks@ == marks(frame, wire@, overlay@, focus, cursor)
        },
{
    if width < MIN_W || height < MIN_H {
        return None;
    }
    let frame = Frame { t0: x_span.0.0, t1: x_span.1.0, width, height };
    let raw = points_of(wire, focus, false);
    let smoothed = points_of(wire, focus, true);
    let kernel = points_of(overlay, focus, true);
    let max_rtt: u64 = larger_of(larger_of(top_of(&raw), top_of(&smoothed)), top_of(&kernel));
    let mut placed: Vec<Hit> = Vec::new();
    place_peaks(&frame, &raw, max_rtt, cursor, 0, &mut placed);
    place_peaks(&frame, &smoothed, max_rtt, cursor, 1, &mut placed);
    place_peaks(&frame, &kernel, max_rtt, cursor, 2, &mut placed);
    proof {
        assert(placed@ =~= hits(frame, wire@, overlay@, focus, cursor));
    }
    let cells = list_cells(&frame, &placed, cursor);
    let marks = marks_of(&cells);
    let cursor_col: u16 = frame.cursor_column_of(cursor);
    Some(RttPlot { width, height, max_rtt, x_span, cursor_col, marks })
}

} // verus!
