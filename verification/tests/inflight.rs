//! The in-flight graph.

use tcpvisr::inflight::{
    project, InFlightPlot, Mark, Series, CURSOR_GLYPH, CWND_GLYPH, MIN_H, MIN_W, WIRE_GLYPH,
};
use tcpvisr::metric::SampleDir;
use tcpvisr::time::Nanos;
use tcpvisr::timeline::InFlightSample;

fn wire(t: u64, bytes: u64) -> InFlightSample {
    InFlightSample {
        t: Nanos(t),
        dir: SampleDir::OriginToResponder,
        bytes,
    }
}

fn mark_at(p: &InFlightPlot, col: u16, row: u16) -> Option<Mark> {
    p.marks
        .iter()
        .find(|m| m.col == col && m.row == row)
        .copied()
}

#[test]
fn inflight_too_small_viewport_yields_none() {
    let s = [wire(0, 10)];
    assert!(
        project(
            &s,
            &[],
            SampleDir::OriginToResponder,
            (Nanos(0), Nanos(10)),
            Nanos(0),
            MIN_W - 1,
            MIN_H
        )
        .is_none()
    );
    assert!(
        project(
            &s,
            &[],
            SampleDir::OriginToResponder,
            (Nanos(0), Nanos(10)),
            Nanos(0),
            MIN_W,
            MIN_H - 1
        )
        .is_none()
    );
}

#[test]
fn inflight_corners_place_at_exact_indices() {
    let s = [wire(0, 0), wire(100, 40)]; // max_bytes = 40
    let p = project(
        &s,
        &[],
        SampleDir::OriginToResponder,
        (Nanos(0), Nanos(100)),
        Nanos(100),
        10,
        5,
    )
    .unwrap();
    assert_eq!(p.max_bytes, 40);
    assert_eq!(
        mark_at(&p, 0, 0).map(|m| m.glyph),
        Some(WIRE_GLYPH),
        "bottom-left"
    );
    assert_eq!(
        mark_at(&p, 9, 4).map(|m| m.glyph),
        Some(WIRE_GLYPH),
        "top-right col W-1 row H-1"
    );
}

#[test]
fn inflight_reveal_hides_marks_after_cursor() {
    let s = [wire(0, 10), wire(10, 20), wire(20, 30)];
    let span = (Nanos(0), Nanos(20));
    let early = project(
        &s,
        &[],
        SampleDir::OriginToResponder,
        span,
        Nanos(10),
        20,
        10,
    )
    .unwrap();
    assert_eq!(
        early.marks.iter().filter(|m| m.glyph == WIRE_GLYPH).count(),
        2
    );
    let all = project(
        &s,
        &[],
        SampleDir::OriginToResponder,
        span,
        Nanos(20),
        20,
        10,
    )
    .unwrap();
    assert_eq!(
        all.marks.iter().filter(|m| m.glyph == WIRE_GLYPH).count(),
        3
    );
}

#[test]
fn inflight_axes_fixed_regardless_of_cursor() {
    let s = [wire(0, 0), wire(100, 90)];
    let span = (Nanos(0), Nanos(100));
    let a = project(
        &s,
        &[],
        SampleDir::OriginToResponder,
        span,
        Nanos(0),
        20,
        10,
    )
    .unwrap();
    let b = project(
        &s,
        &[],
        SampleDir::OriginToResponder,
        span,
        Nanos(100),
        20,
        10,
    )
    .unwrap();
    assert_eq!((a.max_bytes, a.x_span), (b.max_bytes, b.x_span));
    assert_eq!(a.max_bytes, 90);
}

#[test]
fn inflight_numeric_max_bucketing_over_revealed_only() {
    // Three samples share column 0 (t=0,1,2 with a wide span); the taller revealed one wins.
    let s = [wire(0, 10), wire(1, 40), wire(2, 90)];
    let span = (Nanos(0), Nanos(1000));
    // cursor=1 reveals t=0(10),t=1(40); t=2(90) hidden. max_bytes=90 over the whole series.
    let p = project(
        &s,
        &[],
        SampleDir::OriginToResponder,
        span,
        Nanos(1),
        20,
        11,
    )
    .unwrap();
    // row(40)=(40*10)/90=4; row(90)=10 (hidden). Column 0 peak is 4, not 10.
    let col0: Vec<u16> = p
        .marks
        .iter()
        .filter(|m| m.col == 0 && m.glyph == WIRE_GLYPH)
        .map(|m| m.row)
        .collect();
    assert_eq!(
        col0,
        vec![4],
        "one wire mark at the revealed peak, not the hidden t=2 peak"
    );
}

#[test]
fn inflight_degenerate_spans_do_not_divide_by_zero() {
    let s = [wire(50, 10)];
    let p = project(
        &s,
        &[],
        SampleDir::OriginToResponder,
        (Nanos(50), Nanos(50)),
        Nanos(50),
        10,
        5,
    )
    .unwrap();
    // Zero-width span -> the single sample lands in column 0 (bytes==max_bytes -> top row).
    let single = p
        .marks
        .iter()
        .find(|m| m.glyph == WIRE_GLYPH)
        .expect("one wire mark");
    assert_eq!(single.col, 0);
    let z = [wire(0, 0), wire(10, 0)]; // all zero -> max_bytes 0 -> row 0
    let pz = project(
        &z,
        &[],
        SampleDir::OriginToResponder,
        (Nanos(0), Nanos(10)),
        Nanos(10),
        10,
        5,
    )
    .unwrap();
    assert_eq!(pz.max_bytes, 0);
    assert!(
        pz.marks
            .iter()
            .filter(|m| m.glyph == WIRE_GLYPH)
            .all(|m| m.row == 0)
    );
}

#[test]
fn inflight_cursor_column_drawn_where_empty() {
    let s = [wire(0, 10)]; // occupies col 0
    let p = project(
        &s,
        &[],
        SampleDir::OriginToResponder,
        (Nanos(0), Nanos(100)),
        Nanos(50),
        11,
        5,
    )
    .unwrap();
    assert_eq!(p.cursor_col, 5);
    assert_eq!(mark_at(&p, 5, 0).map(|m| m.glyph), Some(CURSOR_GLYPH));
}

#[test]
fn inflight_only_focus_direction_is_plotted() {
    let mut r2o = wire(0, 10);
    r2o.dir = SampleDir::ResponderToOrigin;
    let s = [wire(0, 10), r2o];
    let p = project(
        &s,
        &[],
        SampleDir::OriginToResponder,
        (Nanos(0), Nanos(10)),
        Nanos(10),
        10,
        5,
    )
    .unwrap();
    assert_eq!(p.marks.iter().filter(|m| m.glyph == WIRE_GLYPH).count(), 1);
}

#[test]
fn inflight_overlay_is_distinct_and_unclamped_above_wire_max() {
    // wire peaks at 40; a cwnd overlay at 80 must expand max_bytes and sit above the wire.
    let w = [wire(0, 0), wire(100, 40)];
    let o = [InFlightSample {
        t: Nanos(100),
        dir: SampleDir::OriginToResponder,
        bytes: 80,
    }];
    let p = project(
        &w,
        &o,
        SampleDir::OriginToResponder,
        (Nanos(0), Nanos(100)),
        Nanos(100),
        10,
        11,
    )
    .unwrap();
    assert_eq!(p.max_bytes, 80, "axis expands to include the overlay");
    let cwnd: Vec<Mark> = p
        .marks
        .iter()
        .filter(|m| m.series == Series::Cwnd)
        .copied()
        .collect();
    assert_eq!(cwnd.len(), 1);
    assert_eq!(cwnd[0].glyph, CWND_GLYPH);
    // row(80) over max 80, H=11 -> (80*10)/80 = 10 (top). wire 40 -> row 5. Overlay above wire.
    assert!(
        cwnd[0].row > 5,
        "cwnd overlay sits above the wire, not clamped onto it"
    );
    // Empty overlay -> no Cwnd marks and max_bytes is the wire maximum.
    let pe = project(
        &w,
        &[],
        SampleDir::OriginToResponder,
        (Nanos(0), Nanos(100)),
        Nanos(100),
        10,
        11,
    )
    .unwrap();
    assert!(pe.marks.iter().all(|m| m.series == Series::Wire));
    assert_eq!(pe.max_bytes, 40);
}
