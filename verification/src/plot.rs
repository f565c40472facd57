//! Character-cell plots: axes, hits on cells, and the listing of occupied cells.

use vstd::prelude::*;

use crate::time::Nanos;

verus! {

/// Least width of a plot.
pub const MIN_W: u16 = 8;

/// Least height of a plot.
pub const MIN_H: u16 = 3;

/// A plot area and the time span its columns stand for.
#[derive(Clone, Copy, PartialEq, Eq, Structural)]
pub struct Frame {
    pub t0: u64,
    pub t1: u64,
    pub width: u16,
    pub height: u16,
}

/// `value` on a scale where `full` maps to `last`, cut off at `last`; zero on an empty scale.
pub open spec fn scaled(value: nat, full: nat, last: nat) -> nat {
    if full == 0 {
        0
    } else if value * last / full > last {
        last
    } else {
        value * last / full
    }
}

impl Frame {
    /// The area is not empty and time runs forward.
    pub open spec fn valid(self) -> bool {
        self.width > 0 && self.height > 0 && self.t0 <= self.t1
    }

    /// The column of time `t`.
    pub open spec fn column(self, t: u64) -> u16 {
        scaled(
            if t >= self.t0 {
                (t - self.t0) as nat
            } else {
                0
            },
            if self.t1 >= self.t0 {
                (self.t1 - self.t0) as nat
            } else {
                0
            },
            (self.width - 1) as nat,
        ) as u16
    }

    /// The row of `value` where `top` is the top of the axis, counted from the bottom.
    pub open spec fn level(self, value: u64, top: u64) -> u16 {
        scaled(value as nat, top as nat, (self.height - 1) as nat) as u16
    }

    /// The column of the cursor: its time, moved into the time span.
    pub open spec fn cursor_column(self, cursor: Nanos) -> u16 {
        self.column(
            if cursor.0 < self.t0 {
                self.t0
            } else if cursor.0 > self.t1 {
                self.t1
            } else {
                cursor.0
            },
        )
    }

    /// The column of time `t`.
    pub fn column_of(&self, t: u64) -> (res: u16)
        requires
            self.valid(),
        ensures
            res == self.column(t),
            res < self.width,
    {
        proof {
            lemma_scaled_bounded(
                if t >= self.t0 {
                    (t - self.t0) as nat
                } else {
                    0
                },
                (self.t1 - self.t0) as nat,
                (self.width - 1) as nat,
            );
        }
        scale(t.saturating_sub(self.t0), self.t1 - self.t0, self.width - 1)
    }

    /// The row of `value` where `top` is the top of the axis.
    pub fn level_of(&self, value: u64, top: u64) -> (res: u16)
        requires
            self.valid(),
        ensures
            res == self.level(value, top),
            res < self.height,
    {
        proof {
            lemma_scaled_bounded(value as nat, top as nat, (self.height - 1) as nat);
        }
        scale(value, top, self.height - 1)
    }

    /// The column of the cursor.
    pub fn cursor_column_of(&self, cursor: Nanos) -> (res: u16)
        requires
            self.valid(),
        ensures
            res == self.cursor_column(cursor),
            res < self.width,
    {
        let t: u64 = if cursor.0 < self.t0 {
            self.t0
        } else if cursor.0 > self.t1 {
            self.t1
        } else {
            cursor.0
        };
        self.column_of(t)
    }
}

proof fn lemma_scaled_bounded(value: nat, full: nat, last: nat)
    ensures
        0 <= scaled(value, full, last) <= last,
{
    if full > 0 {
        assert(value * last / full >= 0) by (nonlinear_arith)
            requires
                full > 0,
        ;
    }
}

/// `value` on a scale where `full` maps to `last`.
fn scale(value: u64, full: u64, last: u16) -> (res: u16)
    ensures
        res == scaled(value as nat, full as nat, last as nat),
{
    if full == 0 {
        return 0;
    }
    proof {
        assert(value * last <= 0xffff_ffff_ffff_ffff * 0xffff) by (nonlinear_arith)
            requires
                value <= 0xffff_ffff_ffff_ffff,
                last <= 0xffff,
        ;
    }
    let place: u128 = value as u128 * last as u128 / full as u128;
    if place > last as u128 {
        last
    } else {
        place as u16
    }
}

/// A value at a time.
#[derive(Clone, Copy, PartialEq, Eq, Structural)]
pub struct Point {
    pub t: u64,
    pub value: u64,
}

/// The largest value of the points, zero if there are none.
pub open spec fn top_value(points: Seq<Point>) -> u64
    decreases points.len(),
{
    if points.len() == 0 {
        0
    } else if points.last().value > top_value(points.drop_last()) {
        points.last().value
    } else {
        top_value(points.drop_last())
    }
}

/// The larger of two values.
pub open spec fn larger(a: u64, b: u64) -> u64 {
    if a > b {
        a
    } else {
        b
    }
}

/// The largest value of the points.
pub fn top_of(points: &Vec<Point>) -> (res: u64)
    ensures
        res == top_value(points@),
{
    let mut top: u64 = 0;
    let mut i: usize = 0;
    while i < points.len()
        invariant
            i <= points@.len(),
            top == top_value(points@.take(i as int)),
        decreases points@.len() - i,
    {
        proof {
            assert(points@.take(i + 1).drop_last() =~= points@.take(i as int));
        }
        if points[i].value > top {
            top = points[i].value;
        }
        i = i + 1;
    }
    proof {
        assert(points@.take(i as int) =~= points@);
    }
    top
}

/// The larger of two values.
pub fn larger_of(a: u64, b: u64) -> (res: u64)
    ensures
        res == larger(a, b),
{
    if a > b {
        a
    } else {
        b
    }
}

/// The highest row in `column` among the points up to the cursor.
pub open spec fn peak(
    frame: Frame,
    points: Seq<Point>,
    top: u64,
    cursor: Nanos,
    column: u16,
) -> Option<u16>
    decreases points.len(),
{
    if points.len() == 0 {
        None
    } else {
        let before = peak(frame, points.drop_last(), top, cursor, column);
        let last = points.last();
        let row = frame.level(last.value, top);
        if last.t <= cursor.0 && frame.column(last.t) == column && (before is None
            || before.unwrap() < row) {
            Some(row)
        } else {
            before
        }
    }
}

/// A mark of layer `layer` on a cell.
#[derive(Clone, Copy, PartialEq, Eq, Structural)]
pub struct Hit {
    pub layer: u8,
    pub col: u16,
    pub row: u16,
}

/// One hit per column, at its peak, for the first `upto` columns.
pub open spec fn peak_hits(
    frame: Frame,
    points: Seq<Point>,
    top: u64,
    cursor: Nanos,
    layer: u8,
    upto: nat,
) -> Seq<Hit>
    decreases upto,
{
    if upto == 0 {
        Seq::empty()
    } else {
        let before = peak_hits(frame, points, top, cursor, layer, (upto - 1) as nat);
        match peak(frame, points, top, cursor, (upto - 1) as u16) {
            Some(row) => before.push(Hit { layer, col: (upto - 1) as u16, row }),
            None => before,
        }
    }
}

/// The hits all lie on the area.
pub open spec fn on_area(frame: Frame, hits: Seq<Hit>) -> bool {
    forall|i: int|
        0 <= i < hits.len() ==> (#[trigger] hits[i]).col < frame.width && hits[i].row
            < frame.height
}

/// Appends one hit per column at its peak.
pub fn place_peaks(
    frame: &Frame,
    points: &Vec<Point>,
    top: u64,
    cursor: Nanos,
    layer: u8,
    hits: &mut Vec<Hit>,
)
    requires
        frame.valid(),
        on_area(*frame, old(hits)@),
    ensures
        final(hits)@ == old(hits)@ + peak_hits(
            *frame,
            points@,
            top,
            cursor,
            layer,
            frame.width as nat,
        ),
        on_area(*frame, final(hits)@),
{
    let width: usize = frame.width as usize;
    let mut peaks: Vec<Option<u16>> = Vec::new();
    let mut c: usize = 0;
    while c < width
        invariant
            c <= width,
            peaks@.len() == c,
            forall|k: int| 0 <= k < c ==> (#[trigger] peaks@[k]) is None,
        decreases width - c,
    {
        peaks.push(None);
        c = c + 1;
    }
    let mut i: usize = 0;
    while i < points.len()
        invariant
            frame.valid(),
            width == frame.width,
            i <= points@.len(),
            peaks@.len() == width,
            forall|k: int|
                0 <= k < width ==> (#[trigger] peaks@[k]) == peak(
                    *frame,
                    points@.take(i as int),
                    top,
                    cursor,
                    k as u16,
                ),
            forall|k: int|
                0 <= k < width ==> ((#[trigger] peaks@[k]) matches Some(r) ==> r < frame.height),
        decreases points@.len() - i,
    {
        proof {
            assert(points@.take(i + 1).drop_last() =~= points@.take(i as int));
        }
        let p = points[i];
        if p.t <= cursor.0 {
            let col: usize = frame.column_of(p.t) as usize;
            let row: u16 = frame.level_of(p.value, top);
            let higher = match peaks[col] {
                None => true,
                Some(r) => r < row,
            };
            if higher {
                peaks[col] = Some(row);
            }
        }
        i = i + 1;
    }
    proof {
        assert(points@.take(i as int) =~= points@);
    }
    let ghost start = hits@;
    let mut col: u16 = 0;
    while col < frame.width
        invariant
            frame.valid(),
            width == frame.width,
            col <= frame.width,
            peaks@.len() == width,
            forall|k: int|
                0 <= k < width ==> (#[trigger] peaks@[k]) == peak(
                    *frame,
                    points@,
                    top,
                    cursor,
                    k as u16,
                ),
            forall|k: int|
                0 <= k < width ==> ((#[trigger] peaks@[k]) matches Some(r) ==> r < frame.height),
            hits@ == start + peak_hits(*frame, points@, top, cursor, layer, col as nat),
            on_area(*frame, hits@),
        decreases frame.width - col,
    {
        let ghost before = hits@;
        if let Some(row) = peaks[col as usize] {
            hits.push(Hit { layer, col, row });
        }
        col = col + 1;
        proof {
            assert(hits@ =~= start + peak_hits(*frame, points@, top, cursor, layer, col as nat));
        }
    }
}

/// The highest layer that hits the cell.
pub open spec fn top_layer(hits: Seq<Hit>, col: u16, row: u16) -> Option<u8>
    decreases hits.len(),
{
    if hits.len() == 0 {
        None
    } else {
        let before = top_layer(hits.drop_last(), col, row);
        let last = hits.last();
        if last.col == col && last.row == row && (before is None || before.unwrap() < last.layer) {
            Some(last.layer)
        } else {
            before
        }
    }
}

/// What a cell shows.
#[derive(Clone, Copy, PartialEq, Eq, Structural)]
pub enum Shown {
    Layer(u8),
    Cursor,
}

/// An occupied cell.
#[derive(Clone, Copy, PartialEq, Eq, Structural)]
pub struct Cell {
    pub col: u16,
    pub row: u16,
    pub shown: Shown,
}

/// What the cell shows: the highest layer that hits it, else the cursor in its column, else
/// nothing.
pub open spec fn shown_at(hits: Seq<Hit>, cursor_col: u16, col: u16, row: u16) -> Option<Shown> {
    match top_layer(hits, col, row) {
        Some(layer) => Some(Shown::Layer(layer)),
        None => if col == cursor_col {
            Some(Shown::Cursor)
        } else {
            None
        },
    }
}

/// The occupied cells among the first `upto` of an area `width` wide, row by row from the bottom.
pub open spec fn occupied(hits: Seq<Hit>, cursor_col: u16, width: nat, upto: nat) -> Seq<Cell>
    decreases upto,
{
    if upto == 0 {
        Seq::empty()
    } else {
        let before = occupied(hits, cursor_col, width, (upto - 1) as nat);
        let col = ((upto - 1) % (width as int)) as u16;
        let row = ((upto - 1) / (width as int)) as u16;
        match shown_at(hits, cursor_col, col, row) {
            Some(shown) => before.push(Cell { col, row, shown }),
            None => before,
        }
    }
}

/// All occupied cells of the plot.
pub open spec fn cells(frame: Frame, hits: Seq<Hit>, cursor: Nanos) -> Seq<Cell> {
    occupied(
        hits,
        frame.cursor_column(cursor),
        frame.width as nat,
        (frame.width * frame.height) as nat,
    )
}

proof fn lemma_cell_number(width: int, height: int, row: int, col: int)
    requires
        0 <= col < width,
        0 <= row < height,
    ensures
        0 <= row * width + col < width * height,
        (row * width + col) / width == row,
        (row * width + col) % width == col,
{
    assert(0 <= row * width + col < width * height) by (nonlinear_arith)
        requires
            0 <= col < width,
            0 <= row < height,
    ;
    vstd::arithmetic::div_mod::lemma_fundamental_div_mod_converse(
        row * width + col,
        width,
        row,
        col,
    );
}

/// The occupied cells, row by row from the bottom.
pub fn list_cells(frame: &Frame, hits: &Vec<Hit>, cursor: Nanos) -> (res: Vec<Cell>)
    requires
        frame.valid(),
        on_area(*frame, hits@),
    ensures
        res@ == cells(*frame, hits@, cursor),
{
    let cursor_col: u16 = frame.cursor_column_of(cursor);
    let width: usize = frame.width as usize;
    let height: usize = frame.height as usize;
    proof {
        assert(width * height <= 0xffff * 0xffff) by (nonlinear_arith)
            requires
                width <= 0xffff,
                height <= 0xffff,
        ;
    }
    let total: usize = width * height;
    let mut grid: Vec<Option<u8>> = Vec::new();
    let mut n: usize = 0;
    while n < total
        invariant
            n <= total,
            grid@.len() == n,
            forall|k: int| 0 <= k < n ==> (#[trigger] grid@[k]) is None,
        decreases total - n,
    {
        grid.push(None);
        n = n + 1;
    }
    let mut i: usize = 0;
    while i < hits.len()
        invariant
            frame.valid(),
            on_area(*frame, hits@),
            width == frame.width,
            height == frame.height,
            total == width * height,
            i <= hits@.len(),
            grid@.len() == total,
            forall|k: int|
                0 <= k < total ==> (#[trigger] grid@[k]) == top_layer(
                    hits@.take(i as int),
                    (k % (width as int)) as u16,
                    (k / (width as int)) as u16,
                ),
        decreases hits@.len() - i,
    {
        let hit = hits[i];
        proof {
            assert(hits@.take(i + 1).drop_last() =~= hits@.take(i as int));
            lemma_cell_number(width as int, height as int, hit.row as int, hit.col as int);
        }
        assert(hit.row * width <= total);
        let k: usize = hit.row as usize * width + hit.col as usize;
        let above = match grid[k] {
            None => true,
            Some(layer) => layer < hit.layer,
        };
        if above {
            grid[k] = Some(hit.layer);
        }
        i = i + 1;
        proof {
            assert forall|c: int| 0 <= c < total implies (#[trigger] grid@[c]) == top_layer(
                hits@.take(i as int),
                (c % (width as int)) as u16,
                (c / (width as int)) as u16,
            ) by {
                lemma_cell_of_number(width as int, height as int, c);
                if c != k {
                    lemma_distinct_cells(width as int, c, k as int);
                }
            }
        }
    }
    proof {
        assert(hits@.take(i as int) =~= hits@);
    }
    let mut out: Vec<Cell> = Vec::new();
    let mut k: usize = 0;
    let mut col: u16 = 0;
    let mut row: u16 = 0;
    while k < total
        invariant
            frame.valid(),
            width == frame.width,
            height == frame.height,
            total == width * height,
            k <= total,
            col < width,
            k == row * width + col,
            k < total ==> row < height,
            grid@.len() == total,
            forall|c: int|
                0 <= c < total ==> (#[trigger] grid@[c]) == top_layer(
                    hits@,
                    (c % (width as int)) as u16,
                    (c / (width as int)) as u16,
                ),
            out@ == occupied(hits@, cursor_col, width as nat, k as nat),
        decreases total - k,
    {
        proof {
            lemma_cell_number(width as int, height as int, row as int, col as int);
        }
        match grid[k] {
            Some(layer) => out.push(Cell { col, row, shown: Shown::Layer(layer) }),
            None => {
                if col == cursor_col {
                    out.push(Cell { col, row, shown: Shown::Cursor });
                }
            },
        }
        k = k + 1;
        proof {
            assert((row + 1) * width == row * width + width) by (nonlinear_arith);
            if k < total && col + 1 == width {
                assert(row + 1 < height) by (nonlinear_arith)
                    requires
                        (row + 1) * width < width * height,
                        width > 0,
                ;
            }
        }
        if col as usize + 1 == width {
            col = 0;
            row = row + 1;
        } else {
            col = col + 1;
        }
    }
    out
}

proof fn lemma_cell_of_number(width: int, height: int, c: int)
    requires
        0 < width <= 0xffff,
        0 < height <= 0xffff,
        0 <= c < width * height,
    ensures
        0 <= c % width < width,
        0 <= c / width < height,
        c == (c / width) * width + c % width,
{
    assert(0 <= c % width < width && 0 <= c / width < height && c == (c / width) * width + c
        % width) by (nonlinear_arith)
        requires
            0 < width,
            0 <= c < width * height,
    ;
}

proof fn lemma_distinct_cells(width: int, a: int, b: int)
    requires
        0 < width,
        0 <= a,
        0 <= b,
        a != b,
    ensures
        a % width != b % width || a / width != b / width,
{
    assert(a == width * (a / width) + a % width) by (nonlinear_arith)
        requires
            0 < width,
    ;
    assert(b == width * (b / width) + b % width) by (nonlinear_arith)
        requires
            0 < width,
    ;
}

/// The listing of occupied cells: every cell lies on the area and shows what it should, cells
/// come row by row from the bottom, and none comes twice.
pub proof fn law_occupied_cells_are_in_order(
    hits: Seq<Hit>,
    cursor_col: u16,
    width: nat,
    upto: nat,
)
    requires
        0 < width <= 0xffff,
        upto <= width * 0xffff,
    ensures
        ({
            let list = occupied(hits, cursor_col, width, upto);
            &&& forall|i: int|
                0 <= i < list.len() ==> {
                    let c = #[trigger] list[i];
                    &&& c.col < width
                    &&& c.row * width + c.col < upto
                    &&& shown_at(hits, cursor_col, c.col, c.row) == Some(c.shown)
                }
            &&& forall|i: int, j: int|
                0 <= i < j < list.len() ==> (#[trigger] list[i]).row * width + list[i].col < (
                #[trigger] list[j]).row * width + list[j].col
        }),
    decreases upto,
{
    if upto > 0 {
        law_occupied_cells_are_in_order(hits, cursor_col, width, (upto - 1) as nat);
        lemma_cell_of_number(width as int, 0xffff, upto - 1);
    }
}

/// A cell that shows anything is listed.
pub proof fn law_every_shown_cell_is_listed(
    hits: Seq<Hit>,
    cursor_col: u16,
    width: nat,
    upto: nat,
    col: u16,
    row: u16,
)
    requires
        0 < width <= 0xffff,
        col < width,
        row * width + col < upto,
        shown_at(hits, cursor_col, col, row) is Some,
    ensures
        occupied(hits, cursor_col, width, upto).contains(
            Cell { col, row, shown: shown_at(hits, cursor_col, col, row).unwrap() },
        ),
    decreases upto,
{
    let list = occupied(hits, cursor_col, width, upto);
    let cell = Cell { col, row, shown: shown_at(hits, cursor_col, col, row).unwrap() };
    lemma_cell_number(width as int, 0x1_0000, row as int, col as int);
    if upto - 1 == row * width + col {
        assert(list[list.len() - 1] == cell);
    } else {
        law_every_shown_cell_is_listed(hits, cursor_col, width, (upto - 1) as nat, col, row);
        let before = occupied(hits, cursor_col, width, (upto - 1) as nat);
        let k = choose|k: int| 0 <= k < before.len() && before[k] == cell;
        assert(list[k] == cell);
    }
}

/// Later times never lie further left, and larger values never lie lower.
pub proof fn law_axes_are_monotone(frame: Frame, a: u64, b: u64, top: u64)
    requires
        frame.valid(),
        a <= b,
    ensures
        frame.column(a) <= frame.column(b) < frame.width,
        frame.level(a, top) <= frame.level(b, top) < frame.height,
{
    let last = (frame.width - 1) as nat;
    let span = (frame.t1 - frame.t0) as nat;
    let x = if a >= frame.t0 {
        (a - frame.t0) as nat
    } else {
        0
    };
    let y = if b >= frame.t0 {
        (b - frame.t0) as nat
    } else {
        0
    };
    lemma_scaled_monotone(x, y, span, last);
    lemma_scaled_monotone(a as nat, b as nat, top as nat, (frame.height - 1) as nat);
    lemma_scaled_bounded(y, span, last);
    lemma_scaled_bounded(x, span, last);
    lemma_scaled_bounded(a as nat, top as nat, (frame.height - 1) as nat);
    lemma_scaled_bounded(b as nat, top as nat, (frame.height - 1) as nat);
}

proof fn lemma_scaled_monotone(a: nat, b: nat, full: nat, last: nat)
    requires
        a <= b,
    ensures
        scaled(a, full, last) <= scaled(b, full, last),
{
    if full > 0 {
        assert(a * last / full <= b * last / full) by (nonlinear_arith)
            requires
                a <= b,
                full > 0,
        ;
    }
}

/// The first and last column stand for the two ends of the time span, and the bottom and top row
/// for zero and the top of the axis.
pub proof fn law_axis_ends_reach_the_edges(frame: Frame, top: u64)
    requires
        frame.valid(),
        top > 0,
    ensures
        frame.column(frame.t0) == 0,
        frame.t0 < frame.t1 ==> frame.column(frame.t1) == frame.width - 1,
        frame.level(0, top) == 0,
        frame.level(top, top) == frame.height - 1,
{
    let span = (frame.t1 - frame.t0) as nat;
    let last = (frame.width - 1) as nat;
    if span > 0 {
        assert(span * last / span == last) by (nonlinear_arith)
            requires
                span > 0,
        ;
        assert(0 * last / span == 0) by (nonlinear_arith)
            requires
                span > 0,
        ;
    }
    let rows = (frame.height - 1) as nat;
    let full = top as nat;
    assert(full * rows / full == rows) by (nonlinear_arith)
        requires
            full > 0,
    ;
    assert(0 * rows / full == 0) by (nonlinear_arith)
        requires
            full > 0,
    ;
}

/// Points that lie after the cursor do not show.
pub proof fn law_points_after_cursor_are_hidden(
    frame: Frame,
    points: Seq<Point>,
    later: Point,
    top: u64,
    cursor: Nanos,
    column: u16,
)
    requires
        later.t > cursor.0,
    ensures
        peak(frame, points.push(later), top, cursor, column) == peak(
            frame,
            points,
            top,
            cursor,
            column,
        ),
{
    assert(points.push(later).drop_last() =~= points);
}

/// As the cursor moves on, the peak of a column only rises.
pub proof fn law_peaks_only_rise(
    frame: Frame,
    points: Seq<Point>,
    top: u64,
    sooner: Nanos,
    later: Nanos,
    column: u16,
)
    requires
        sooner.0 <= later.0,
    ensures
        peak(frame, points, top, sooner, column) matches Some(row) ==> match peak(
            frame,
            points,
            top,
            later,
            column,
        ) {
            Some(higher) => row <= higher,
            None => false,
        },
    decreases points.len(),
{
    if points.len() > 0 {
        law_peaks_only_rise(frame, points.drop_last(), top, sooner, later, column);
    }
}

/// Every occupied cell lies on the area.
pub proof fn law_cells_lie_on_the_area(frame: Frame, hits: Seq<Hit>, cursor: Nanos)
    requires
        frame.valid(),
    ensures
        forall|i: int|
            0 <= i < cells(frame, hits, cursor).len() ==> {
                let c = #[trigger] cells(frame, hits, cursor)[i];
                c.col < frame.width && c.row < frame.height
            },
{
    let width = frame.width as nat;
    let height = frame.height as int;
    assert(width * height <= width * 0xffff) by (nonlinear_arith)
        requires
            0 <= height <= 0xffff,
            0 <= width,
    ;
    law_occupied_cells_are_in_order(
        hits,
        frame.cursor_column(cursor),
        width,
        (frame.width * frame.height) as nat,
    );
    assert forall|i: int| 0 <= i < cells(frame, hits, cursor).len() implies {
        let c = #[trigger] cells(frame, hits, cursor)[i];
        c.col < frame.width && c.row < frame.height
    } by {
        let c = cells(frame, hits, cursor)[i];
        let row = c.row as int;
        let col = c.col as int;
        let w = frame.width as int;
        assert(row < height) by (nonlinear_arith)
            requires
                row * w + col < w * height,
                0 <= col,
                0 < w,
        ;
    }
}

} // verus!
