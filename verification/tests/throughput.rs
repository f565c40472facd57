//! The throughput graph.

use tcpvisr::metric::SampleDir;
use tcpvisr::throughput::{
    project, Mark, Series, ThroughputPlot, CURSOR_GLYPH, GOODPUT_GLYPH, MIN_H, MIN_W,
    THROUGHPUT_GLYPH,
};
use tcpvisr::time::Nanos;
use tcpvisr::timeline::ThroughputSample;

fn tp(t: u64, throughput: u64, goodput: u64) -> ThroughputSample {
    ThroughputSample {
        t: Nanos(t),
        dir: SampleDir::OriginToResponder,
        throughput_bps: throughput,
        goodput_bps: goodput,
    }
}

fn marks_at(p: &ThroughputPlot, col: u16, row: u16) -> Vec<Mark> {
    p.marks
        .iter()
        .filter(|m| m.col == col && m.row == row)
        .copied()
        .collect()
}

// below the minimum viewport, no plot.
#[test]
fn throughput_too_small_viewport_yields_none() {
    let s = [tp(0, 10, 10)];
    let span = (Nanos(0), Nanos(10));
    assert!(
        project(
            &s,
            SampleDir::OriginToResponder,
            span,
            Nanos(0),
            MIN_W - 1,
            MIN_H
        )
        .is_none()
    );
    assert!(
        project(
            &s,
            SampleDir::OriginToResponder,
            span,
            Nanos(0),
            MIN_W,
            MIN_H - 1
        )
        .is_none()
    );
}

// corners — a sample at (end, throughput=goodput=max) lands a mark at top-right
// (the two series coincide, so the single grid keeps the last-placed Goodput); a sample at
// (start, 0) lands a mark at bottom-left.
#[test]
fn throughput_corners_place_at_exact_indices() {
    let s = [tp(0, 0, 0), tp(100, 40, 40)];
    let p = project(
        &s,
        SampleDir::OriginToResponder,
        (Nanos(0), Nanos(100)),
        Nanos(100),
        10,
        5,
    )
    .unwrap();
    assert_eq!(p.max_rate, 40);
    assert!(!marks_at(&p, 0, 0).is_empty(), "a mark at bottom-left");
    assert!(
        !marks_at(&p, 9, 4).is_empty(),
        "a mark at top-right (col W-1, row H-1)"
    );
}

// a single sample in its own column with goodput < throughput emits a Throughput
// mark and a Goodput mark in the same column at different rows, goodput below, distinct glyphs.
#[test]
fn total_and_goodput_align_in_column() {
    // throughput=40 (max) -> row H-1; goodput=20 -> half. Single sample -> own column.
    let s = [tp(100, 40, 20)];
    let p = project(
        &s,
        SampleDir::OriginToResponder,
        (Nanos(0), Nanos(100)),
        Nanos(100),
        10,
        11,
    )
    .unwrap();
    let total = p
        .marks
        .iter()
        .find(|m| m.series == Series::Throughput && m.glyph == THROUGHPUT_GLYPH)
        .unwrap();
    let good = p
        .marks
        .iter()
        .find(|m| m.series == Series::Goodput && m.glyph == GOODPUT_GLYPH)
        .unwrap();
    assert_eq!(total.col, good.col, "same column");
    assert_ne!(total.row, good.row, "different rows");
    assert!(total.row > good.row, "total (40) plots above goodput (20)");
}

// reveal-to-T hides marks after the cursor.
#[test]
fn throughput_reveal_hides_marks_after_cursor() {
    // throughput == goodput here, so the two coincide and Goodput wins each cell; count the
    // surviving Goodput marks (one per revealed sample column).
    let s = [tp(0, 10, 10), tp(10, 20, 20), tp(20, 30, 30)];
    let span = (Nanos(0), Nanos(20));
    let early = project(&s, SampleDir::OriginToResponder, span, Nanos(10), 20, 10).unwrap();
    assert_eq!(
        early
            .marks
            .iter()
            .filter(|m| m.glyph == GOODPUT_GLYPH)
            .count(),
        2
    );
    let all = project(&s, SampleDir::OriginToResponder, span, Nanos(20), 20, 10).unwrap();
    assert_eq!(
        all.marks
            .iter()
            .filter(|m| m.glyph == GOODPUT_GLYPH)
            .count(),
        3
    );
}

// axes are fixed regardless of the cursor.
#[test]
fn throughput_axes_fixed_regardless_of_cursor() {
    let s = [tp(0, 0, 0), tp(100, 90, 90)];
    let span = (Nanos(0), Nanos(100));
    let a = project(&s, SampleDir::OriginToResponder, span, Nanos(0), 20, 10).unwrap();
    let b = project(&s, SampleDir::OriginToResponder, span, Nanos(100), 20, 10).unwrap();
    assert_eq!((a.max_rate, a.x_span), (b.max_rate, b.x_span));
    assert_eq!(a.max_rate, 90);
}

// numeric-max bucketing over revealed throughput samples only.
#[test]
fn throughput_numeric_max_bucketing_over_revealed_only() {
    let s = [tp(0, 10, 10), tp(1, 40, 40), tp(2, 90, 90)];
    let span = (Nanos(0), Nanos(1000));
    // cursor=1 reveals t=0(10),t=1(40); t=2(90) hidden. max_rate=90 over the whole series.
    let p = project(&s, SampleDir::OriginToResponder, span, Nanos(1), 20, 11).unwrap();
    // row(40)=(40*10)/90=4; row(90)=10 (hidden). Column 0 peak is 4. throughput==goodput here,
    // so Goodput wins the cell; assert on the surviving Goodput mark.
    let col0: Vec<u16> = p
        .marks
        .iter()
        .filter(|m| m.col == 0 && m.glyph == GOODPUT_GLYPH)
        .map(|m| m.row)
        .collect();
    assert_eq!(
        col0,
        vec![4],
        "one mark at the revealed peak, not the hidden t=2 peak"
    );
}

// degenerate spans do not divide by zero.
#[test]
fn throughput_degenerate_spans_do_not_divide_by_zero() {
    let s = [tp(50, 10, 10)];
    let p = project(
        &s,
        SampleDir::OriginToResponder,
        (Nanos(50), Nanos(50)),
        Nanos(50),
        10,
        5,
    )
    .unwrap();
    // throughput==goodput, so Goodput wins the coincident cell.
    let single = p
        .marks
        .iter()
        .find(|m| m.glyph == GOODPUT_GLYPH)
        .expect("one plotted mark");
    assert_eq!(single.col, 0, "zero-width span -> column 0");
    let z = [tp(0, 0, 0), tp(10, 0, 0)]; // all zero -> max_rate 0 -> row 0
    let pz = project(
        &z,
        SampleDir::OriginToResponder,
        (Nanos(0), Nanos(10)),
        Nanos(10),
        10,
        5,
    )
    .unwrap();
    assert_eq!(pz.max_rate, 0);
    assert!(
        pz.marks
            .iter()
            .filter(|m| m.glyph == GOODPUT_GLYPH)
            .all(|m| m.row == 0)
    );
}

// the cursor column is drawn where no mark occupies the cell.
#[test]
fn throughput_cursor_column_drawn_where_empty() {
    let s = [tp(0, 10, 10)]; // occupies col 0
    let p = project(
        &s,
        SampleDir::OriginToResponder,
        (Nanos(0), Nanos(100)),
        Nanos(50),
        11,
        5,
    )
    .unwrap();
    assert_eq!(p.cursor_col, 5);
    assert_eq!(
        marks_at(&p, 5, 0).first().map(|m| m.glyph),
        Some(CURSOR_GLYPH)
    );
}

// Only the focus direction is plotted.
#[test]
fn throughput_only_focus_direction_is_plotted() {
    let mut r2o = tp(0, 10, 10);
    r2o.dir = SampleDir::ResponderToOrigin;
    let s = [tp(0, 10, 10), r2o];
    let p = project(
        &s,
        SampleDir::OriginToResponder,
        (Nanos(0), Nanos(10)),
        Nanos(10),
        10,
        5,
    )
    .unwrap();
    // The single O2R sample has throughput==goodput (coincident) -> one surviving mark.
    assert_eq!(
        p.marks
            .iter()
            .filter(|m| m.glyph == THROUGHPUT_GLYPH || m.glyph == GOODPUT_GLYPH)
            .count(),
        1
    );
}

// The goodput gap: when goodput < throughput both marks survive at distinct rows.
#[test]
fn goodput_gap_shows_both_series() {
    let s = [tp(50, 80, 40)];
    let p = project(
        &s,
        SampleDir::OriginToResponder,
        (Nanos(0), Nanos(100)),
        Nanos(100),
        10,
        11,
    )
    .unwrap();
    assert_eq!(p.max_rate, 80);
    // Filter by glyph, not series: cursor-column cells also carry Series::Throughput.
    let total = p
        .marks
        .iter()
        .find(|m| m.glyph == THROUGHPUT_GLYPH)
        .unwrap();
    let good = p.marks.iter().find(|m| m.glyph == GOODPUT_GLYPH).unwrap();
    assert_eq!(total.series, Series::Throughput);
    assert_eq!(good.series, Series::Goodput);
    // row(80) over max 80 -> 10 (top); row(40) -> 5. The gap between them is the retransmit rate.
    assert_eq!(total.row, 10);
    assert_eq!(good.row, 5);
}
