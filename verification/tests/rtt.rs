//! The round-trip graph.

use tcpvisr::metric::SampleDir;
use tcpvisr::rtt::{
    project, Mark, RttPlot, Series, CURSOR_GLYPH, KERNEL_GLYPH, MIN_H, MIN_W, RAW_GLYPH,
    SMOOTHED_GLYPH,
};
use tcpvisr::time::Nanos;
use tcpvisr::timeline::RttSample;

fn rtt(t: u64, rtt_ns: u64, srtt_ns: u64) -> RttSample {
    RttSample {
        t: Nanos(t),
        dir: SampleDir::OriginToResponder,
        rtt: Nanos(rtt_ns),
        srtt: Nanos(srtt_ns),
    }
}

fn marks_at(p: &RttPlot, col: u16, row: u16) -> Vec<Mark> {
    p.marks
        .iter()
        .filter(|m| m.col == col && m.row == row)
        .copied()
        .collect()
}

#[test]
fn rtt_too_small_viewport_yields_none() {
    let s = [rtt(0, 10, 10)];
    let span = (Nanos(0), Nanos(10));
    assert!(
        project(
            &s,
            &[],
            SampleDir::OriginToResponder,
            span,
            Nanos(0),
            MIN_W - 1,
            MIN_H
        )
        .is_none()
    );
    assert!(
        project(
            &s,
            &[],
            SampleDir::OriginToResponder,
            span,
            Nanos(0),
            MIN_W,
            MIN_H - 1
        )
        .is_none()
    );
}

// corners — a sample at (end, max) lands a mark at top-right (col W-1, row H-1);
// a sample at (start, 0) lands a mark at bottom-left. Both corners have rtt == srtt, so the
// two series coincide and the single-grid projection keeps the last-placed (Smoothed);
// assert a mark of any series lands at each corner.
#[test]
fn rtt_corners_place_at_exact_indices() {
    let s = [rtt(0, 0, 0), rtt(100, 40, 40)];
    let p = project(
        &s,
        &[],
        SampleDir::OriginToResponder,
        (Nanos(0), Nanos(100)),
        Nanos(100),
        10,
        5,
    )
    .unwrap();
    assert_eq!(p.max_rtt, 40);
    assert!(!marks_at(&p, 0, 0).is_empty(), "a mark at bottom-left");
    assert!(
        !marks_at(&p, 9, 4).is_empty(),
        "a mark at top-right (col W-1, row H-1)"
    );
}

// a single sample in its own column with rtt != srtt emits a Raw mark and a
// Smoothed mark in the same column at different rows, with distinct glyphs.
#[test]
fn raw_and_smoothed_align_in_column() {
    // rtt=40 (max) -> row H-1; srtt=20 -> half. Single sample -> its own column (bucketing no-op).
    let s = [rtt(100, 40, 20)];
    let p = project(
        &s,
        &[],
        SampleDir::OriginToResponder,
        (Nanos(0), Nanos(100)),
        Nanos(100),
        10,
        11,
    )
    .unwrap();
    let raw = p
        .marks
        .iter()
        .find(|m| m.series == Series::Raw && m.glyph == RAW_GLYPH)
        .unwrap();
    let smooth = p
        .marks
        .iter()
        .find(|m| m.series == Series::Smoothed && m.glyph == SMOOTHED_GLYPH)
        .unwrap();
    assert_eq!(raw.col, smooth.col, "same column");
    assert_ne!(raw.row, smooth.row, "different rows");
    assert!(raw.row > smooth.row, "raw (40) plots above smoothed (20)");
}

// reveal-to-T hides raw marks after the cursor.
#[test]
fn rtt_reveal_hides_marks_after_cursor() {
    // rtt == srtt here, so raw/smoothed coincide and Smoothed wins each cell; count the
    // surviving Smoothed marks (one per revealed sample column).
    let s = [rtt(0, 10, 10), rtt(10, 20, 20), rtt(20, 30, 30)];
    let span = (Nanos(0), Nanos(20));
    let early = project(
        &s,
        &[],
        SampleDir::OriginToResponder,
        span,
        Nanos(10),
        20,
        10,
    )
    .unwrap();
    assert_eq!(
        early
            .marks
            .iter()
            .filter(|m| m.glyph == SMOOTHED_GLYPH)
            .count(),
        2
    );
    let all = project(
        &s,
        &[],
        SampleDir::OriginToResponder,
        span,
        Nanos(20),
        20,
        10,
    )
    .unwrap();
    assert_eq!(
        all.marks
            .iter()
            .filter(|m| m.glyph == SMOOTHED_GLYPH)
            .count(),
        3
    );
}

// axes are fixed regardless of the cursor.
#[test]
fn rtt_axes_fixed_regardless_of_cursor() {
    let s = [rtt(0, 0, 0), rtt(100, 90, 90)];
    let span = (Nanos(0), Nanos(100));
    let a = project(
        &s,
        &[],
        SampleDir::OriginToResponder,
        span,
        Nanos(0),
        20,
        10,
    )
    .unwrap();
    let b = project(
        &s,
        &[],
        SampleDir::OriginToResponder,
        span,
        Nanos(100),
        20,
        10,
    )
    .unwrap();
    assert_eq!((a.max_rtt, a.x_span), (b.max_rtt, b.x_span));
    assert_eq!(a.max_rtt, 90);
}

// numeric-max bucketing over revealed raw samples only.
#[test]
fn rtt_numeric_max_bucketing_over_revealed_only() {
    let s = [rtt(0, 10, 10), rtt(1, 40, 40), rtt(2, 90, 90)];
    let span = (Nanos(0), Nanos(1000));
    // cursor=1 reveals t=0(10),t=1(40); t=2(90) hidden. max_rtt=90 over the whole series.
    let p = project(
        &s,
        &[],
        SampleDir::OriginToResponder,
        span,
        Nanos(1),
        20,
        11,
    )
    .unwrap();
    // row(40)=(40*10)/90=4; row(90)=10 (hidden). Column 0 peak is 4, not 10. rtt==srtt here,
    // so Smoothed wins the cell; assert on the surviving Smoothed mark.
    let col0: Vec<u16> = p
        .marks
        .iter()
        .filter(|m| m.col == 0 && m.glyph == SMOOTHED_GLYPH)
        .map(|m| m.row)
        .collect();
    assert_eq!(
        col0,
        vec![4],
        "one mark at the revealed peak, not the hidden t=2 peak"
    );
}

// degenerate spans do not divide by zero.
#[test]
fn rtt_degenerate_spans_do_not_divide_by_zero() {
    let s = [rtt(50, 10, 10)];
    let p = project(
        &s,
        &[],
        SampleDir::OriginToResponder,
        (Nanos(50), Nanos(50)),
        Nanos(50),
        10,
        5,
    )
    .unwrap();
    // rtt==srtt, so Smoothed wins the coincident cell; assert on the surviving mark.
    let single = p
        .marks
        .iter()
        .find(|m| m.glyph == SMOOTHED_GLYPH)
        .expect("one plotted mark");
    assert_eq!(single.col, 0, "zero-width span -> column 0");
    let z = [rtt(0, 0, 0), rtt(10, 0, 0)]; // all zero -> max_rtt 0 -> row 0
    let pz = project(
        &z,
        &[],
        SampleDir::OriginToResponder,
        (Nanos(0), Nanos(10)),
        Nanos(10),
        10,
        5,
    )
    .unwrap();
    assert_eq!(pz.max_rtt, 0);
    assert!(
        pz.marks
            .iter()
            .filter(|m| m.glyph == SMOOTHED_GLYPH)
            .all(|m| m.row == 0)
    );
}

// the cursor column is drawn where no mark occupies the cell.
#[test]
fn rtt_cursor_column_drawn_where_empty() {
    let s = [rtt(0, 10, 10)]; // occupies col 0
    let p = project(
        &s,
        &[],
        SampleDir::OriginToResponder,
        (Nanos(0), Nanos(100)),
        Nanos(50),
        11,
        5,
    )
    .unwrap();
    assert_eq!(p.cursor_col, 5);
    assert_eq!(
        marks_at(&p, 5, 0).first().map(|m| m.glyph),
        Some(CURSOR_GLYPH)
    );
}

// Only the focus direction is plotted.
#[test]
fn rtt_only_focus_direction_is_plotted() {
    let mut r2o = rtt(0, 10, 10);
    r2o.dir = SampleDir::ResponderToOrigin;
    let s = [rtt(0, 10, 10), r2o];
    let p = project(
        &s,
        &[],
        SampleDir::OriginToResponder,
        (Nanos(0), Nanos(10)),
        Nanos(10),
        10,
        5,
    )
    .unwrap();
    // The single O2R sample has rtt==srtt (coincident) -> one surviving mark in its cell.
    assert_eq!(
        p.marks
            .iter()
            .filter(|m| m.glyph == RAW_GLYPH || m.glyph == SMOOTHED_GLYPH)
            .count(),
        1
    );
}

// the kernel overlay is a distinct series, unclamped above the wire maximum.
#[test]
fn rtt_overlay_is_distinct_and_unclamped_above_wire_max() {
    // wire peaks at 40 (rtt); a kernel srtt overlay at 80 must expand max_rtt and sit above.
    let w = [rtt(0, 0, 0), rtt(100, 40, 40)];
    let o = [RttSample {
        t: Nanos(100),
        dir: SampleDir::OriginToResponder,
        rtt: Nanos(0),
        srtt: Nanos(80),
    }];
    let p = project(
        &w,
        &o,
        SampleDir::OriginToResponder,
        (Nanos(0), Nanos(100)),
        Nanos(100),
        10,
        11,
    )
    .unwrap();
    assert_eq!(p.max_rtt, 80, "axis expands to include the overlay srtt");
    let kernel: Vec<Mark> = p
        .marks
        .iter()
        .filter(|m| m.series == Series::Kernel)
        .copied()
        .collect();
    assert_eq!(kernel.len(), 1);
    assert_eq!(kernel[0].glyph, KERNEL_GLYPH);
    // row(80) over max 80, H=11 -> 10 (top). wire 40 -> row 5. Overlay above wire.
    assert!(
        kernel[0].row > 5,
        "kernel overlay sits above the wire, not clamped onto it"
    );
    // Empty overlay -> no Kernel marks and max_rtt is the wire maximum.
    let pe = project(
        &w,
        &[],
        SampleDir::OriginToResponder,
        (Nanos(0), Nanos(100)),
        Nanos(100),
        10,
        11,
    )
    .unwrap();
    assert!(pe.marks.iter().all(|m| m.series != Series::Kernel));
    assert_eq!(pe.max_rtt, 40);
}
