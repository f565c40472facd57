//! What the marks of the graphs stand for.

use vstd::prelude::*;

use crate::metric::SampleDir;
use crate::plot::{Cell, Frame, Hit, Point};
use crate::time::Nanos;
use crate::timeline::{InFlightSample, RttSample, SeqKind, SeqSample, ThroughputSample};

verus! {

/// Values over time, each with its direction.
pub type Trace = Seq<(SampleDir, u64, u64)>;

/// The value at `i` shows in column `col`: it belongs to the direction, and the cursor has reached
/// it.
pub open spec fn seen(
    frame: Frame,
    list: Trace,
    focus: SampleDir,
    cursor: Nanos,
    col: u16,
    i: int,
) -> bool {
    &&& 0 <= i < list.len()
    &&& list[i].0 == focus
    &&& list[i].1 <= cursor.0
    &&& frame.column(list[i].1) == col
}

/// `row` is the highest row that a value of the trace reaches in column `col`.
pub open spec fn is_crest(
    frame: Frame,
    list: Trace,
    focus: SampleDir,
    top: u64,
    cursor: Nanos,
    col: u16,
    row: u16,
) -> bool {
    &&& exists|i: int| #[trigger]
        seen(frame, list, focus, cursor, col, i) && frame.level(list[i].2, top) == row
    &&& forall|i: int| #[trigger]
        seen(frame, list, focus, cursor, col, i) ==> frame.level(list[i].2, top) <= row
}

/// `top` is the greatest value of the direction over both traces, zero where there is none.
pub open spec fn is_top(one: Trace, two: Trace, focus: SampleDir, top: u64) -> bool {
    &&& forall|i: int| 0 <= i < one.len() && (#[trigger] one[i]).0 == focus ==> one[i].2 <= top
    &&& forall|i: int| 0 <= i < two.len() && (#[trigger] two[i]).0 == focus ==> two[i].2 <= top
    &&& top == 0 || (exists|i: int|
        0 <= i < one.len() && (#[trigger] one[i]).0 == focus && one[i].2 == top) || (exists|i: int|
        0 <= i < two.len() && (#[trigger] two[i]).0 == focus && two[i].2 == top)
}

/// The values of one direction as points.
spec fn points_in(list: Trace, focus: SampleDir) -> Seq<Point>
    decreases list.len(),
{
    if list.len() == 0 {
        Seq::empty()
    } else {
        let before = points_in(list.drop_last(), focus);
        if list.last().0 == focus {
            before.push(Point { t: list.last().1, value: list.last().2 })
        } else {
            before
        }
    }
}

proof fn lemma_peak_is_crest(
    frame: Frame,
    list: Trace,
    focus: SampleDir,
    top: u64,
    cursor: Nanos,
    col: u16,
)
    ensures
        match crate::plot::peak(frame, points_in(list, focus), top, cursor, col) {
            Some(row) => is_crest(frame, list, focus, top, cursor, col, row),
            None => forall|i: int| !#[trigger] seen(frame, list, focus, cursor, col, i),
        },
    decreases list.len(),
{
    if list.len() > 0 {
        let front = list.drop_last();
        let last = list.len() - 1;
        lemma_peak_is_crest(frame, front, focus, top, cursor, col);
        let before = points_in(front, focus);
        assert forall|i: int| i < last implies #[trigger] seen(frame, list, focus, cursor, col, i)
            == seen(frame, front, focus, cursor, col, i) by {}
        if list.last().0 == focus {
            assert(points_in(list, focus).drop_last() =~= before);
        }
        let old = crate::plot::peak(frame, before, top, cursor, col);
        if let Some(row) = old {
            let w = choose|i: int| #[trigger]
                seen(frame, front, focus, cursor, col, i) && frame.level(front[i].2, top) == row;
            assert(seen(frame, list, focus, cursor, col, w));
        }
        if seen(frame, list, focus, cursor, col, last) {
            let row = frame.level(list[last].2, top);
            assert(crate::plot::peak(frame, points_in(list, focus), top, cursor, col) == (if old
                is None || old.unwrap() < row {
                Some(row)
            } else {
                old
            }));
        }
        assert forall|i: int| #[trigger] seen(frame, list, focus, cursor, col, i) implies i == last
            || seen(frame, front, focus, cursor, col, i) by {}
    }
}

proof fn lemma_top_of_points(list: Trace, focus: SampleDir)
    ensures
        ({
            let top = crate::plot::top_value(points_in(list, focus));
            &&& forall|i: int|
                0 <= i < list.len() && (#[trigger] list[i]).0 == focus ==> list[i].2 <= top
            &&& top == 0 || exists|i: int|
                0 <= i < list.len() && (#[trigger] list[i]).0 == focus && list[i].2 == top
        }),
    decreases list.len(),
{
    if list.len() > 0 {
        let front = list.drop_last();
        let last = list.len() - 1;
        lemma_top_of_points(front, focus);
        assert(forall|i: int| 0 <= i < last ==> front[i] == #[trigger] list[i]);
        if list.last().0 == focus {
            assert(points_in(list, focus).drop_last() =~= points_in(front, focus));
        }
        let before = crate::plot::top_value(points_in(front, focus));
        if before != 0 {
            let w = choose|i: int|
                0 <= i < front.len() && (#[trigger] front[i]).0 == focus && front[i].2 == before;
            assert(list[w] == front[w]);
        }
        assert(list[last] == list.last());
    }
}

/// The layer that a cell shows once the peaks of one more layer are placed.
proof fn lemma_peaks_cover(
    frame: Frame,
    points: Seq<Point>,
    top: u64,
    cursor: Nanos,
    layer: u8,
    upto: nat,
    before: Seq<Hit>,
    col: u16,
    row: u16,
)
    requires
        upto <= 0x1_0000,
    ensures
        ({
            let under = crate::plot::top_layer(before, col, row);
            let placed = before + crate::plot::peak_hits(frame, points, top, cursor, layer, upto);
            crate::plot::top_layer(placed, col, row) == (if col < upto && crate::plot::peak(
                frame,
                points,
                top,
                cursor,
                col,
            ) == Some(row) && (under is None || under.unwrap() < layer) {
                Some(layer)
            } else {
                under
            })
        }),
    decreases upto,
{
    let placed = before + crate::plot::peak_hits(frame, points, top, cursor, layer, upto);
    if upto == 0 {
        assert(placed =~= before);
    } else {
        let fewer = crate::plot::peak_hits(frame, points, top, cursor, layer, (upto - 1) as nat);
        lemma_peaks_cover(
            frame,
            points,
            top,
            cursor,
            layer,
            (upto - 1) as nat,
            before,
            col,
            row,
        );
        if crate::plot::peak(frame, points, top, cursor, (upto - 1) as u16) is Some {
            assert(placed.drop_last() =~= before + fewer);
        } else {
            assert(placed =~= before + fewer);
        }
    }
}

/// A crest is the peak of its column.
proof fn lemma_crests_are_peaks(
    frame: Frame,
    list: Trace,
    focus: SampleDir,
    top: u64,
    cursor: Nanos,
    col: u16,
    row: u16,
)
    ensures
        crate::plot::peak(frame, points_in(list, focus), top, cursor, col) == Some(row)
            <==> is_crest(frame, list, focus, top, cursor, col, row),
{
    lemma_peak_is_crest(frame, list, focus, top, cursor, col);
    if is_crest(frame, list, focus, top, cursor, col, row) {
        let w = choose|i: int| #[trigger]
            seen(frame, list, focus, cursor, col, i) && frame.level(list[i].2, top) == row;
        assert(seen(frame, list, focus, cursor, col, w));
    }
}

/// The bytes in flight as a trace.
pub open spec fn flight_trace(list: Seq<InFlightSample>) -> Trace {
    list.map_values(|s: InFlightSample| (s.dir, s.t.0, s.bytes))
}

proof fn lemma_flight_points(list: Seq<InFlightSample>, focus: SampleDir)
    ensures
        crate::inflight::points(list, focus) == points_in(flight_trace(list), focus),
    decreases list.len(),
{
    if list.len() > 0 {
        lemma_flight_points(list.drop_last(), focus);
        assert(flight_trace(list).drop_last() =~= flight_trace(list.drop_last()));
    }
}

/// The in-flight graph: the axis ends at the greatest number of the direction, and a cell shows the
/// overlay where that peaks in its column, else the bytes on the wire where those peak, else the
/// cursor in its column, else nothing. Each has its own sign.
pub proof fn law_the_flight_graph_shows_its_peaks(
    frame: Frame,
    wire: Seq<InFlightSample>,
    overlay: Seq<InFlightSample>,
    focus: SampleDir,
    cursor: Nanos,
    col: u16,
    row: u16,
)
    requires
        col < frame.width,
    ensures
        ({
            let top = crate::inflight::top(wire, overlay, focus);
            let hits = crate::inflight::hits(frame, wire, overlay, focus, cursor);
            let shown = crate::plot::shown_at(hits, frame.cursor_column(cursor), col, row);
            let (w, o) = (flight_trace(wire), flight_trace(overlay));
            &&& is_top(w, o, focus, top)
            &&& shown matches Some(s) ==> {
                let mark = crate::inflight::mark_of(Cell { col, row, shown: s });
                &&& mark.col == col && mark.row == row
                &&& mark.glyph == (if is_crest(frame, o, focus, top, cursor, col, row) {
                    '+'
                } else if is_crest(frame, w, focus, top, cursor, col, row) {
                    '#'
                } else {
                    '\u{250a}'
                })
                &&& mark.series == (if is_crest(frame, o, focus, top, cursor, col, row) {
                    crate::inflight::Series::Cwnd
                } else {
                    crate::inflight::Series::Wire
                })
            }
            &&& shown is Some <==> is_crest(frame, o, focus, top, cursor, col, row) || is_crest(
                frame,
                w,
                focus,
                top,
                cursor,
                col,
                row,
            ) || col == frame.cursor_column(cursor)
        }),
{
    let top = crate::inflight::top(wire, overlay, focus);
    let (w, o) = (flight_trace(wire), flight_trace(overlay));
    lemma_flight_points(wire, focus);
    lemma_flight_points(overlay, focus);
    lemma_top_of_points(w, focus);
    lemma_top_of_points(o, focus);
    lemma_crests_are_peaks(frame, w, focus, top, cursor, col, row);
    lemma_crests_are_peaks(frame, o, focus, top, cursor, col, row);
    let width = frame.width as nat;
    let none = Seq::<Hit>::empty();
    let first = crate::plot::peak_hits(frame, points_in(w, focus), top, cursor, 0, width);
    lemma_peaks_cover(frame, points_in(w, focus), top, cursor, 0, width, none, col, row);
    assert(none + first =~= first);
    lemma_peaks_cover(frame, points_in(o, focus), top, cursor, 1, width, first, col, row);
}

/// The measured or the smoothed round trips as a trace.
pub open spec fn trip_trace(list: Seq<RttSample>, smoothed: bool) -> Trace {
    if smoothed {
        list.map_values(|s: RttSample| (s.dir, s.t.0, s.srtt.0))
    } else {
        list.map_values(|s: RttSample| (s.dir, s.t.0, s.rtt.0))
    }
}

proof fn lemma_trip_points(list: Seq<RttSample>, focus: SampleDir, smoothed: bool)
    ensures
        crate::rtt::points(list, focus, smoothed) == points_in(trip_trace(list, smoothed), focus),
    decreases list.len(),
{
    if list.len() > 0 {
        lemma_trip_points(list.drop_last(), focus, smoothed);
        assert(trip_trace(list, smoothed).drop_last() =~= trip_trace(list.drop_last(), smoothed));
    }
}

/// The round-trip graph: the axis ends at the greatest time of the direction, measured, smoothed or
/// of the overlay, and a cell shows the overlay where that peaks in its column, else the smoothed
/// round trips, else the measured ones, else the cursor in its column, else nothing.
pub proof fn law_the_trip_graph_shows_its_peaks(
    frame: Frame,
    wire: Seq<RttSample>,
    overlay: Seq<RttSample>,
    focus: SampleDir,
    cursor: Nanos,
    col: u16,
    row: u16,
)
    requires
        col < frame.width,
    ensures
        ({
            let top = crate::rtt::top(wire, overlay, focus);
            let hits = crate::rtt::hits(frame, wire, overlay, focus, cursor);
            let shown = crate::plot::shown_at(hits, frame.cursor_column(cursor), col, row);
            let (raw, smooth, kernel) = (
                trip_trace(wire, false),
                trip_trace(wire, true),
                trip_trace(overlay, true),
            );
            let on_raw = is_crest(frame, raw, focus, top, cursor, col, row);
            let on_smooth = is_crest(frame, smooth, focus, top, cursor, col, row);
            let on_kernel = is_crest(frame, kernel, focus, top, cursor, col, row);
            &&& is_top(raw + smooth, kernel, focus, top)
            &&& shown matches Some(s) ==> {
                let mark = crate::rtt::mark_of(Cell { col, row, shown: s });
                &&& mark.col == col && mark.row == row
                &&& mark.glyph == (if on_kernel {
                    '+'
                } else if on_smooth {
                    '#'
                } else if on_raw {
                    '.'
                } else {
                    '\u{250a}'
                })
                &&& mark.series == (if on_kernel {
                    crate::rtt::Series::Kernel
                } else if on_smooth {
                    crate::rtt::Series::Smoothed
                } else {
                    crate::rtt::Series::Raw
                })
            }
            &&& shown is Some <==> on_kernel || on_smooth || on_raw || col == frame.cursor_column(
                cursor,
            )
        }),
{
    let top = crate::rtt::top(wire, overlay, focus);
    let raw = trip_trace(wire, false);
    let smooth = trip_trace(wire, true);
    let kernel = trip_trace(overlay, true);
    lemma_trip_points(wire, focus, false);
    lemma_trip_points(wire, focus, true);
    lemma_trip_points(overlay, focus, true);
    lemma_top_of_points(raw, focus);
    lemma_top_of_points(smooth, focus);
    lemma_top_of_points(kernel, focus);
    lemma_joined_top(raw, smooth, focus);
    lemma_crests_are_peaks(frame, raw, focus, top, cursor, col, row);
    lemma_crests_are_peaks(frame, smooth, focus, top, cursor, col, row);
    lemma_crests_are_peaks(frame, kernel, focus, top, cursor, col, row);
    let width = frame.width as nat;
    let none = Seq::<Hit>::empty();
    let first = crate::plot::peak_hits(frame, points_in(raw, focus), top, cursor, 0, width);
    let second = crate::plot::peak_hits(frame, points_in(smooth, focus), top, cursor, 1, width);
    lemma_peaks_cover(frame, points_in(raw, focus), top, cursor, 0, width, none, col, row);
    assert(none + first =~= first);
    lemma_peaks_cover(frame, points_in(smooth, focus), top, cursor, 1, width, first, col, row);
    lemma_peaks_cover(
        frame,
        points_in(kernel, focus),
        top,
        cursor,
        2,
        width,
        first + second,
        col,
        row,
    );
}

/// Two traces in one reach as high as the higher of the two.
proof fn lemma_joined_top(one: Trace, two: Trace, focus: SampleDir)
    ensures
        ({
            let (a, b) = (
                crate::plot::top_value(points_in(one, focus)),
                crate::plot::top_value(points_in(two, focus)),
            );
            let both = one + two;
            let top = crate::plot::larger(a, b);
            &&& forall|i: int|
                0 <= i < both.len() && (#[trigger] both[i]).0 == focus ==> both[i].2 <= top
            &&& top == 0 || exists|i: int|
                0 <= i < both.len() && (#[trigger] both[i]).0 == focus && both[i].2 == top
        }),
{
    let both = one + two;
    lemma_top_of_points(one, focus);
    lemma_top_of_points(two, focus);
    let (a, b) = (
        crate::plot::top_value(points_in(one, focus)),
        crate::plot::top_value(points_in(two, focus)),
    );
    let top = crate::plot::larger(a, b);
    assert forall|i: int| 0 <= i < both.len() && (#[trigger] both[i]).0 == focus implies both[i].2
        <= top by {
        if i < one.len() {
            assert(one[i] == both[i]);
        } else {
            assert(two[i - one.len()] == both[i]);
        }
    }
    if top != 0 {
        if a > b {
            let w = choose|i: int|
                0 <= i < one.len() && (#[trigger] one[i]).0 == focus && one[i].2 == a;
            assert(both[w] == one[w]);
        } else {
            let w = choose|i: int|
                0 <= i < two.len() && (#[trigger] two[i]).0 == focus && two[i].2 == b;
            assert(both[one.len() + w] == two[w]);
        }
    }
}

/// The throughput or the goodput as a trace.
pub open spec fn rate_trace(list: Seq<ThroughputSample>, goodput: bool) -> Trace {
    if goodput {
        list.map_values(|s: ThroughputSample| (s.dir, s.t.0, s.goodput_bps))
    } else {
        list.map_values(|s: ThroughputSample| (s.dir, s.t.0, s.throughput_bps))
    }
}

proof fn lemma_rate_points(list: Seq<ThroughputSample>, focus: SampleDir, goodput: bool)
    ensures
        crate::throughput::points(list, focus, goodput) == points_in(
            rate_trace(list, goodput),
            focus,
        ),
    decreases list.len(),
{
    if list.len() > 0 {
        lemma_rate_points(list.drop_last(), focus, goodput);
        assert(rate_trace(list, goodput).drop_last() =~= rate_trace(list.drop_last(), goodput));
    }
}

/// The throughput graph: the axis ends at the greatest rate of the direction, and a cell shows the
/// goodput where that peaks in its column, else the throughput where that peaks, else the cursor in
/// its column, else nothing.
pub proof fn law_the_rate_graph_shows_its_peaks(
    frame: Frame,
    wire: Seq<ThroughputSample>,
    focus: SampleDir,
    cursor: Nanos,
    col: u16,
    row: u16,
)
    requires
        col < frame.width,
    ensures
        ({
            let top = crate::throughput::top(wire, focus);
            let hits = crate::throughput::hits(frame, wire, focus, cursor);
            let shown = crate::plot::shown_at(hits, frame.cursor_column(cursor), col, row);
            let (all, good) = (rate_trace(wire, false), rate_trace(wire, true));
            let on_all = is_crest(frame, all, focus, top, cursor, col, row);
            let on_good = is_crest(frame, good, focus, top, cursor, col, row);
            &&& is_top(all, good, focus, top)
            &&& shown matches Some(s) ==> {
                let mark = crate::throughput::mark_of(Cell { col, row, shown: s });
                &&& mark.col == col && mark.row == row
                &&& mark.glyph == (if on_good {
                    '#'
                } else if on_all {
                    '.'
                } else {
                    '\u{250a}'
                })
                &&& mark.series == (if on_good {
                    crate::throughput::Series::Goodput
                } else {
                    crate::throughput::Series::Throughput
                })
            }
            &&& shown is Some <==> on_good || on_all || col == frame.cursor_column(cursor)
        }),
{
    let top = crate::throughput::top(wire, focus);
    let (all, good) = (rate_trace(wire, false), rate_trace(wire, true));
    lemma_rate_points(wire, focus, false);
    lemma_rate_points(wire, focus, true);
    lemma_top_of_points(all, focus);
    lemma_top_of_points(good, focus);
    lemma_crests_are_peaks(frame, all, focus, top, cursor, col, row);
    lemma_crests_are_peaks(frame, good, focus, top, cursor, col, row);
    let width = frame.width as nat;
    let none = Seq::<Hit>::empty();
    let first = crate::plot::peak_hits(frame, points_in(all, focus), top, cursor, 0, width);
    lemma_peaks_cover(frame, points_in(all, focus), top, cursor, 0, width, none, col, row);
    assert(none + first =~= first);
    lemma_peaks_cover(frame, points_in(good, focus), top, cursor, 1, width, first, col, row);
}

/// The sample at `i` falls on the cell, and the cursor has reached it.
pub open spec fn falls_on(
    frame: Frame,
    series: Seq<SeqSample>,
    focus: SampleDir,
    base: int,
    axis: int,
    cursor: Nanos,
    col: u16,
    row: u16,
    i: int,
) -> bool {
    &&& 0 <= i < series.len()
    &&& series[i].dir == focus
    &&& series[i].t.0 <= cursor.0
    &&& frame.column(series[i].t.0) == col
    &&& frame.level((series[i].rel - base) as u64, axis as u64) == row
}

/// A retransmission.
pub open spec fn sent_again(s: SeqSample) -> bool {
    s.kind matches SeqKind::Data { retransmit: true, .. }
}

/// Payload that was merely reordered.
pub open spec fn reordered(s: SeqSample) -> bool {
    s.kind matches SeqKind::Data { retransmit: false, out_of_order: true }
}

/// What the time/sequence graph shows in a cell: a retransmission if one of its direction falls on
/// it, else a selective acknowledgement, else reordered payload, else payload, else the cursor in
/// its column, else nothing.
pub proof fn law_the_sequence_graph_shows_what_falls_on_a_cell(
    frame: Frame,
    series: Seq<SeqSample>,
    focus: SampleDir,
    base: int,
    axis: int,
    cursor: Nanos,
    col: u16,
    row: u16,
)
    ensures
        ({
            let hits = crate::detail::hits(frame, series, focus, base, axis, cursor);
            let shown = crate::plot::shown_at(hits, frame.cursor_column(cursor), col, row);
            let again = exists|i: int| #[trigger]
                falls_on(frame, series, focus, base, axis, cursor, col, row, i) && sent_again(
                    series[i],
                );
            let sack = exists|i: int| #[trigger]
                falls_on(frame, series, focus, base, axis, cursor, col, row, i) && series[i].kind
                    == SeqKind::Sack;
            let late = exists|i: int| #[trigger]
                falls_on(frame, series, focus, base, axis, cursor, col, row, i) && reordered(
                    series[i],
                );
            let any = exists|i: int| #[trigger]
                falls_on(frame, series, focus, base, axis, cursor, col, row, i);
            &&& shown is Some <==> any || col == frame.cursor_column(cursor)
            &&& shown matches Some(s) ==> {
                let mark = crate::detail::mark_of(Cell { col, row, shown: s });
                &&& mark.col == col && mark.row == row
                &&& mark.glyph == (if again {
                    '\u{b7}'
                } else if sack {
                    '\u{254e}'
                } else if late {
                    'o'
                } else if any {
                    '#'
                } else {
                    '\u{250a}'
                })
            }
        }),
{
    lemma_top_layer_of_samples(frame, series, focus, base, axis, cursor, col, row);
    let hits = crate::detail::hits(frame, series, focus, base, axis, cursor);
    match crate::plot::top_layer(hits, col, row) {
        Some(layer) => {
            let w = choose|i: int| #[trigger]
                falls_on(frame, series, focus, base, axis, cursor, col, row, i)
                    && crate::detail::salience(series[i].kind) == layer;
            assert(falls_on(frame, series, focus, base, axis, cursor, col, row, w));
        },
        None => {},
    }
}

proof fn lemma_top_layer_of_samples(
    frame: Frame,
    series: Seq<SeqSample>,
    focus: SampleDir,
    base: int,
    axis: int,
    cursor: Nanos,
    col: u16,
    row: u16,
)
    ensures
        ({
            let hits = crate::detail::hits(frame, series, focus, base, axis, cursor);
            match crate::plot::top_layer(hits, col, row) {
                Some(layer) => {
                    &&& exists|i: int| #[trigger]
                        falls_on(frame, series, focus, base, axis, cursor, col, row, i)
                            && crate::detail::salience(series[i].kind) == layer
                    &&& forall|i: int| #[trigger]
                        falls_on(frame, series, focus, base, axis, cursor, col, row, i)
                            ==> crate::detail::salience(series[i].kind) <= layer
                },
                None => forall|i: int|
                    !#[trigger] falls_on(frame, series, focus, base, axis, cursor, col, row, i),
            }
        }),
    decreases series.len(),
{
    if series.len() > 0 {
        let front = series.drop_last();
        let last = series.len() - 1;
        lemma_top_layer_of_samples(frame, front, focus, base, axis, cursor, col, row);
        assert forall|i: int| i < last implies #[trigger] falls_on(
            frame,
            series,
            focus,
            base,
            axis,
            cursor,
            col,
            row,
            i,
        ) == falls_on(frame, front, focus, base, axis, cursor, col, row, i) by {}
        let before = crate::detail::hits(frame, front, focus, base, axis, cursor);
        let hits = crate::detail::hits(frame, series, focus, base, axis, cursor);
        let s = series[last];
        if s.dir == focus && s.t.0 <= cursor.0 {
            assert(hits.drop_last() =~= before);
        }
        if let Some(layer) = crate::plot::top_layer(before, col, row) {
            let w = choose|i: int| #[trigger]
                falls_on(frame, front, focus, base, axis, cursor, col, row, i)
                    && crate::detail::salience(front[i].kind) == layer;
            assert(falls_on(frame, series, focus, base, axis, cursor, col, row, w));
        }
        if falls_on(frame, series, focus, base, axis, cursor, col, row, last) {
            assert(hits.last().col == col && hits.last().row == row);
        }
        assert forall|i: int| #[trigger] falls_on(
            frame,
            series,
            focus,
            base,
            axis,
            cursor,
            col,
            row,
            i,
        ) implies i == last || falls_on(
            frame,
            front,
            focus,
            base,
            axis,
            cursor,
            col,
            row,
            i,
        ) by {}
    }
}

/// The axis of the time/sequence graph reaches from the lowest offset of the direction to the
/// furthest end of anything in it.
pub proof fn law_the_sequence_axis_spans_its_samples(series: Seq<SeqSample>, focus: SampleDir)
    ensures
        ({
            let base = crate::detail::bottom(series, focus);
            let top = crate::detail::top(series, focus);
            let any = exists|i: int| 0 <= i < series.len() && (#[trigger] series[i]).dir == focus;
            &&& forall|i: int|
                0 <= i < series.len() && (#[trigger] series[i]).dir == focus ==> base
                    <= series[i].rel && series[i].rel + series[i].len <= base + top
            &&& any ==> exists|i: int|
                0 <= i < series.len() && (#[trigger] series[i]).dir == focus && series[i].rel
                    == base
            &&& any ==> exists|i: int|
                0 <= i < series.len() && (#[trigger] series[i]).dir == focus && series[i].rel
                    + series[i].len == base + top
            &&& !any ==> base == 0 && top == 0
        }),
{
    lemma_lowest(series, focus);
    lemma_highest(series, focus, crate::detail::bottom(series, focus));
}

proof fn lemma_lowest(series: Seq<SeqSample>, focus: SampleDir)
    ensures
        match crate::detail::lowest(series, focus) {
            Some(low) => {
                &&& forall|i: int|
                    0 <= i < series.len() && (#[trigger] series[i]).dir == focus ==> low
                        <= series[i].rel
                &&& exists|i: int|
                    0 <= i < series.len() && (#[trigger] series[i]).dir == focus && series[i].rel
                        == low
            },
            None => forall|i: int| 0 <= i < series.len() ==> (#[trigger] series[i]).dir != focus,
        },
    decreases series.len(),
{
    if series.len() > 0 {
        let front = series.drop_last();
        let last = series.len() - 1;
        lemma_lowest(front, focus);
        assert(forall|i: int| 0 <= i < last ==> front[i] == #[trigger] series[i]);
        assert(series[last] == series.last());
        if let Some(low) = crate::detail::lowest(front, focus) {
            let w = choose|i: int|
                0 <= i < front.len() && (#[trigger] front[i]).dir == focus && front[i].rel == low;
            assert(series[w] == front[w]);
        }
    }
}

proof fn lemma_highest(series: Seq<SeqSample>, focus: SampleDir, base: int)
    ensures
        match crate::detail::highest_end(series, focus, base) {
            Some(high) => {
                &&& forall|i: int|
                    0 <= i < series.len() && (#[trigger] series[i]).dir == focus ==> series[i].rel
                        + series[i].len <= base + high
                &&& exists|i: int|
                    0 <= i < series.len() && (#[trigger] series[i]).dir == focus && series[i].rel
                        + series[i].len == base + high
            },
            None => forall|i: int| 0 <= i < series.len() ==> (#[trigger] series[i]).dir != focus,
        },
    decreases series.len(),
{
    if series.len() > 0 {
        let front = series.drop_last();
        let last = series.len() - 1;
        lemma_highest(front, focus, base);
        assert(forall|i: int| 0 <= i < last ==> front[i] == #[trigger] series[i]);
        assert(series[last] == series.last());
        if let Some(high) = crate::detail::highest_end(front, focus, base) {
            let w = choose|i: int|
                0 <= i < front.len() && (#[trigger] front[i]).dir == focus && front[i].rel
                    + front[i].len == base + high;
            assert(series[w] == front[w]);
        }
    }
}

/// Columns and rows are proportional: the column of a time within the span lies as far along the
/// width as the time lies along the span, and the row of a value as far up the height as the value
/// lies up the axis, both rounded down. The cursor stands in the column of its time.
pub proof fn law_columns_and_rows_are_proportional(frame: Frame, t: u64, value: u64, top: u64)
    requires
        frame.valid(),
        frame.t0 < frame.t1,
        frame.t0 <= t <= frame.t1,
        value <= top,
        top > 0,
    ensures
        ({
            let (col, row) = (frame.column(t) as int, frame.level(value, top) as int);
            let span = frame.t1 - frame.t0;
            &&& col * span <= (t - frame.t0) * (frame.width - 1) < (col + 1) * span
            &&& row * top <= value * (frame.height - 1) < (row + 1) * top
            &&& frame.cursor_column(Nanos(t)) == frame.column(t)
        }),
{
    lemma_scaled_is_floor(
        (t - frame.t0) as nat,
        (frame.t1 - frame.t0) as nat,
        (frame.width - 1) as nat,
    );
    lemma_scaled_is_floor(value as nat, top as nat, (frame.height - 1) as nat);
}

proof fn lemma_scaled_is_floor(value: nat, full: nat, last: nat)
    requires
        full > 0,
        value <= full,
    ensures
        ({
            let s = crate::plot::scaled(value, full, last);
            s <= last && s * full <= value * last < (s + 1) * full
        }),
{
    let q = (value * last) as int / full as int;
    assert(q * full <= value * last < (q + 1) * full && q <= last) by (nonlinear_arith)
        requires
            full > 0,
            value <= full,
            q == (value * last) as int / full as int,
    ;
}

/// The cursor stands in the column of its time; before the span it stands in the first column, and
/// behind it in the last.
pub proof fn law_the_cursor_stands_at_its_time(frame: Frame, cursor: Nanos)
    requires
        frame.valid(),
        frame.t0 < frame.t1,
    ensures
        frame.t0 <= cursor.0 <= frame.t1 ==> frame.cursor_column(cursor) == frame.column(cursor.0),
        cursor.0 <= frame.t0 ==> frame.cursor_column(cursor) == 0,
        cursor.0 >= frame.t1 ==> frame.cursor_column(cursor) == frame.width - 1,
{
    crate::plot::law_axis_ends_reach_the_edges(frame, 1);
}

} // verus!
