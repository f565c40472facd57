//! The time/sequence graph: what was sent when, and where in the sequence space.

use vstd::prelude::*;

use crate::metric::SampleDir;
use crate::plot::{list_cells, Cell, Frame, Hit, Shown};
use crate::time::Nanos;
use crate::timeline::{SeqKind, SeqSample};

pub use crate::plot::{MIN_H, MIN_W};

verus! {

pub const DATA_GLYPH: char = '#';

pub const OOO_GLYPH: char = 'o';

pub const RETRANS_GLYPH: char = '\u{b7}';

pub const SACK_GLYPH: char = '\u{254e}';

pub const CURSOR_GLYPH: char = '\u{250a}';

/// One plotted cell. Row zero is at the bottom and stands for the lowest sequence offset.
#[derive(Debug, Clone, Copy, PartialEq, Eq, Structural)]
pub struct Mark {
    pub col: u16,
    pub row: u16,
    pub glyph: char,
}

/// A time/sequence plot over a rectangle of cells.
#[derive(Debug, PartialEq, Eq)]
pub struct SeqPlot {
    pub width: u16,
    pub height: u16,
    pub max_rel: i64,
    pub x_span: (Nanos, Nanos),
    pub cursor_col: u16,
    pub marks: Vec<Mark>,
}

/// How strongly a kind of mark claims a cell that several share.
pub open spec fn salience(kind: SeqKind) -> u8 {
    match kind {
        SeqKind::Data { retransmit, out_of_order } => if retransmit {
            3
        } else if out_of_order {
            1
        } else {
            0
        },
        SeqKind::Sack => 2,
    }
}

/// The glyph of the kind with salience `layer`.
pub open spec fn glyph_of(layer: u8) -> char {
    if layer == 0 {
        DATA_GLYPH
    } else if layer == 1 {
        OOO_GLYPH
    } else if layer == 2 {
        SACK_GLYPH
    } else {
        RETRANS_GLYPH
    }
}

/// The lowest offset of direction `focus`.
pub open spec fn lowest(series: Seq<SeqSample>, focus: SampleDir) -> Option<int>
    decreases series.len(),
{
    if series.len() == 0 {
        None
    } else {
        let before = lowest(series.drop_last(), focus);
        let last = series.last();
        if last.dir != focus {
            before
        } else if before is None || last.rel < before.unwrap() {
            Some(last.rel as int)
        } else {
            before
        }
    }
}

/// The offset at the bottom of the axis.
pub open spec fn bottom(series: Seq<SeqSample>, focus: SampleDir) -> int {
    match lowest(series, focus) {
        Some(rel) => rel,
        None => 0,
    }
}

/// The furthest end of any sample of direction `focus`, counted from `base`.
pub open spec fn highest_end(series: Seq<SeqSample>, focus: SampleDir, base: int) -> Option<int>
    decreases series.len(),
{
    if series.len() == 0 {
        None
    } else {
        let before = highest_end(series.drop_last(), focus, base);
        let last = series.last();
        let end = last.rel - base + last.len;
        if last.dir != focus {
            before
        } else if before is None || end > before.unwrap() {
            Some(end)
        } else {
            before
        }
    }
}

/// The top of the axis: the furthest end, whether or not it shows yet.
pub open spec fn top(series: Seq<SeqSample>, focus: SampleDir) -> int {
    match highest_end(series, focus, bottom(series, focus)) {
        Some(end) => end,
        None => 0,
    }
}

/// The hits of the samples of direction `focus` up to the cursor.
pub open spec fn hits(
    frame: Frame,
    series: Seq<SeqSample>,
    focus: SampleDir,
    base: int,
    axis: int,
    cursor: Nanos,
) -> Seq<Hit>
    decreases series.len(),
{
    if series.len() == 0 {
        Seq::empty()
    } else {
        let before = hits(frame, series.drop_last(), focus, base, axis, cursor);
        let last = series.last();
        if last.dir == focus && last.t.0 <= cursor.0 {
            before.push(
                Hit {
                    layer: salience(last.kind),
                    col: frame.column(last.t.0),
                    row: frame.level((last.rel - base) as u64, axis as u64),
                },
            )
        } else {
            before
        }
    }
}

/// The mark that a cell becomes.
pub open spec fn mark_of(cell: Cell) -> Mark {
    Mark {
        col: cell.col,
        row: cell.row,
        glyph: match cell.shown {
            Shown::Layer(layer) => glyph_of(layer),
            Shown::Cursor => CURSOR_GLYPH,
        },
    }
}

/// The offsets of direction `focus` span less than 64 bits can hold.
pub open spec fn span_fits(series: Seq<SeqSample>, focus: SampleDir) -> bool {
    top(series, focus) <= i64::MAX
}

/// The marks of the plot.
pub open spec fn marks(
    frame: Frame,
    series: Seq<SeqSample>,
    focus: SampleDir,
    cursor: Nanos,
) -> Seq<Mark> {
    crate::plot::cells(
        frame,
        hits(frame, series, focus, bottom(series, focus), top(series, focus), cursor),
        cursor,
    ).map_values(|c: Cell| mark_of(c))
}

/// How strongly a kind claims a cell.
fn salience_of(kind: SeqKind) -> (res: u8)
    ensures
        res == salience(kind),
{
    match kind {
        SeqKind::Data { retransmit, out_of_order } => if retransmit {
            3
        } else if out_of_order {
            1
        } else {
            0
        },
        SeqKind::Sack => 2,
    }
}

/// The bottom and top of the axis.
fn axis_of(series: &[SeqSample], focus: SampleDir) -> (res: (i64, i128))
    ensures
        res.0 == bottom(series@, focus),
        res.1 == top(series@, focus),
        res.1 >= 0,
        forall|i: int|
            0 <= i < series@.len() && (#[trigger] series@[i]).dir == focus ==> 0 <= series@[i].rel
                - res.0 <= res.1,
{
    let mut low: Option<i64> = None;
    let mut i: usize = 0;
    while i < series.len()
        invariant
            i <= series@.len(),
            match low {
                Some(rel) => lowest(series@.take(i as int), focus) == Some(rel as int),
                None => lowest(series@.take(i as int), focus) is None,
            },
            forall|k: int|
                0 <= k < i && (#[trigger] series@[k]).dir == focus ==> (low matches Some(rel)
                    && rel <= series@[k].rel),
        decreases series@.len() - i,
    {
        proof {
            assert(series@.take(i + 1).drop_last() =~= series@.take(i as int));
        }
        let s = series[i];
        if s.dir == focus {
            let lower = match low {
                None => true,
                Some(rel) => s.rel < rel,
            };
            if lower {
                low = Some(s.rel);
            }
        }
        i = i + 1;
    }
    proof {
        assert(series@.take(i as int) =~= series@);
    }
    let base: i64 = match low {
        Some(rel) => rel,
        None => 0,
    };
    let mut high: Option<i128> = None;
    let mut j: usize = 0;
    while j < series.len()
        invariant
            j <= series@.len(),
            match high {
                Some(end) => highest_end(series@.take(j as int), focus, base as int) == Some(
                    end as int,
                ),
                None => highest_end(series@.take(j as int), focus, base as int) is None,
            },
            high matches Some(end) ==> end >= 0,
            forall|k: int|
                0 <= k < series@.len() && (#[trigger] series@[k]).dir == focus ==> base
                    <= series@[k].rel,
            forall|k: int|
                0 <= k < j && (#[trigger] series@[k]).dir == focus ==> (high matches Some(end)
                    && series@[k].rel - base <= end),
        decreases series@.len() - j,
    {
        proof {
            assert(series@.take(j + 1).drop_last() =~= series@.take(j as int));
        }
        let s = series[j];
        if s.dir == focus {
            let end: i128 = s.rel as i128 - base as i128 + s.len as i128;
            let higher = match high {
                None => true,
                Some(e) => end > e,
            };
            if higher {
                high = Some(end);
            }
        }
        j = j + 1;
    }
    proof {
        assert(series@.take(j as int) =~= series@);
    }
    match high {
        Some(end) => (base, end),
        None => (base, 0),
    }
}

/// Whether the offsets of direction `focus` span less than 64 bits can hold.
#[must_use]
pub fn can_project(series: &[SeqSample], focus: SampleDir) -> (res: bool)
    ensures
        res == span_fits(series@, focus),
{
    axis_of(series, focus).1 <= i64::MAX as i128
}

/// Plots the samples of direction `focus`. The axes span `x_span` and everything from the lowest
/// offset to the furthest end; samples show once the cursor has reached them, the most salient of
/// a cell for the cell; the cursor fills what is free of its own column. There is no plot on too
/// small an area.
#[must_use]
pub fn project(
    series: &[SeqSample],
    focus: SampleDir,
    x_span: (Nanos, Nanos),
    cursor: Nanos,
    width: u16,
    height: u16,
) -> (res: Option<SeqPlot>)
    requires
        width >= MIN_W && height >= MIN_H ==> x_span.0.0 <= x_span.1.0 && span_fits(
            series@,
            focus,
        ),
    ensures
        res is None <==> width < MIN_W || height < MIN_H,
        res matches Some(plot) ==> {
            let frame = Frame { t0: x_span.0.0, t1: x_span.1.0, width, height };
            &&& plot.width == width
            &&& plot.height == height
            &&& plot.max_rel == top(series@, focus)
            &&& plot.x_span == x_span
            &&& plot.cursor_col == frame.cursor_column(cursor)
            &&& plot.marks@ == marks(frame, series@, focus, cursor)
        },
{
    if width < MIN_W || height < MIN_H {
        return None;
    }
    let frame = Frame { t0: x_span.0.0, t1: x_span.1.0, width, height };
    let (base, high) = axis_of(series, focus);
    let max_rel: i64 = high as i64;
    let mut placed: Vec<Hit> = Vec::new();
    let mut i: usize = 0;
    while i < series.len()
        invariant
            frame.valid(),
            i <= series@.len(),
            0 <= max_rel,
            max_rel == high,
            forall|k: int|
                0 <= k < series@.len() && (#[trigger] series@[k]).dir == focus ==> 0
                    <= series@[k].rel - base <= high,
            placed@ == hits(
                frame,
                series@.take(i as int),
                focus,
                base as int,
                max_rel as int,
                cursor,
            ),
            crate::plot::on_area(frame, placed@),
        decreases series@.len() - i,
    {
        proof {
            assert(series@.take(i + 1).drop_last() =~= series@.take(i as int));
        }
        let s = series[i];
        if s.dir == focus && s.t.0 <= cursor.0 {
            let offset: u64 = (s.rel as i128 - base as i128) as u64;
            placed.push(
                Hit {
                    layer: salience_of(s.kind),
                    col: frame.column_of(s.t.0),
                    row: frame.level_of(offset, max_rel as u64),
                },
            );
        }
        i = i + 1;
    }
    proof {
        assert(series@.take(i as int) =~= series@);
    }
    let cells = list_cells(&frame, &placed, cursor);
    let mut marks: Vec<Mark> = Vec::new();
    let mut k: usize = 0;
    while k < cells.len()
        invariant
            k <= cells@.len(),
            marks@ == cells@.take(k as int).map_values(|c: Cell| mark_of(c)),
        decreases cells@.len() - k,
    {
        let c = cells[k];
        let glyph = match c.shown {
            Shown::Layer(0) => DATA_GLYPH,
            Shown::Layer(1) => OOO_GLYPH,
            Shown::Layer(2) => SACK_GLYPH,
            Shown::Layer(_) => RETRANS_GLYPH,
            Shown::Cursor => CURSOR_GLYPH,
        };
        marks.push(Mark { col: c.col, row: c.row, glyph });
        k = k + 1;
        proof {
            assert(marks@ =~= cells@.take(k as int).map_values(|c: Cell| mark_of(c)));
        }
    }
    proof {
        assert(cells@.take(k as int) =~= cells@);
    }
    let cursor_col: u16 = frame.cursor_column_of(cursor);
    Some(SeqPlot { width, height, max_rel, x_span, cursor_col, marks })
}

/// As the cursor moves on, a cell once taken stays taken, by the same kind of mark or a more
/// salient one.
pub proof fn law_marks_stay_as_cursor_moves_on(
    frame: Frame,
    series: Seq<SeqSample>,
    focus: SampleDir,
    base: int,
    axis: int,
    sooner: Nanos,
    later: Nanos,
    col: u16,
    row: u16,
)
    requires
        sooner.0 <= later.0,
    ensures
        crate::plot::top_layer(
            hits(frame, series, focus, base, axis, sooner),
            col,
            row,
        ) matches Some(layer) ==> (crate::plot::top_layer(
            hits(frame, series, focus, base, axis, later),
            col,
            row,
        ) matches Some(above) && layer <= above),
    decreases series.len(),
{
    if series.len() > 0 {
        let rest = series.drop_last();
        law_marks_stay_as_cursor_moves_on(
            frame,
            rest,
            focus,
            base,
            axis,
            sooner,
            later,
            col,
            row,
        );
        let last = series.last();
        let hit = Hit {
            layer: salience(last.kind),
            col: frame.column(last.t.0),
            row: frame.level((last.rel - base) as u64, axis as u64),
        };
        let one = hits(frame, rest, focus, base, axis, sooner);
        let two = hits(frame, rest, focus, base, axis, later);
        assert(one.push(hit).drop_last() =~= one);
        assert(two.push(hit).drop_last() =~= two);
    }
}

/// Samples of the other direction and samples after the cursor put nothing on the plot.
pub proof fn law_only_revealed_focus_samples_show(
    frame: Frame,
    series: Seq<SeqSample>,
    other: SeqSample,
    focus: SampleDir,
    base: int,
    axis: int,
    cursor: Nanos,
)
    requires
        other.dir != focus || other.t.0 > cursor.0,
    ensures
        hits(frame, series.push(other), focus, base, axis, cursor) == hits(
            frame,
            series,
            focus,
            base,
            axis,
            cursor,
        ),
{
    assert(series.push(other).drop_last() =~= series);
}

} // verus!
