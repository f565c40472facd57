//! What the throughput and goodput of a direction say of the payload it sent.

use vstd::prelude::*;

use crate::config::EngineConfig;
use crate::conn::Direction;
use crate::flight::Exchange;
use crate::metrics::{DirModel, MetricModel};
use crate::time::Nanos;

verus! {

/// The payload bytes that the first `n` events sent in `d` after `from` and no later than `upto`;
/// with `fresh`, without those of retransmissions.
pub open spec fn bytes_sent(
    start: MetricModel,
    events: Exchange,
    d: Direction,
    n: int,
    from: int,
    upto: int,
    fresh: bool,
    cfg: EngineConfig,
) -> nat
    decreases n,
{
    if n <= 0 {
        0
    } else {
        let (seg, dir) = events[n - 1];
        let counts = dir == d && from < seg.ts.0 <= upto && !(fresh && crate::flight::heard(
            start,
            events,
            n - 1,
            cfg,
        ).sample(seg, d, cfg).retransmit);
        bytes_sent(start, events, d, n - 1, from, upto, fresh, cfg) + if counts {
            seg.payload_len as nat
        } else {
            0
        }
    }
}

/// `rate` is what `bytes` over `window` nanoseconds come to in bits per second, rounded down, or
/// the greatest number there is room for.
pub open spec fn is_rate(rate: u64, bytes: nat, window: u64) -> bool {
    let bits = bytes * 8;
    if rate == u64::MAX {
        rate * window <= bits * 1_000_000_000
    } else {
        rate * window <= bits * 1_000_000_000 < (rate + 1) * window
    }
}

proof fn lemma_scaled_is_rate(bytes: nat, window: u64)
    requires
        window > 0,
    ensures
        is_rate(crate::metrics::bits_per_second(bytes, window as nat), bytes, window),
{
    let all = bytes * 8_000_000_000;
    let w = window as int;
    let q = all as int / w;
    assert(q * w <= all < (q + 1) * w) by (nonlinear_arith)
        requires
            w > 0,
            q == all as int / w,
            all >= 0,
    ;
    if q > u64::MAX {
        assert(u64::MAX * w <= q * w) by (nonlinear_arith)
            requires
                q > u64::MAX,
                w > 0,
        ;
    }
}

proof fn lemma_window_holds_what_was_sent(
    start: MetricModel,
    events: Exchange,
    d: Direction,
    n: int,
    t: Nanos,
    fresh: bool,
    cfg: EngineConfig,
)
    requires
        start.of(d) == DirModel::silent(),
        0 <= n <= events.len(),
        forall|k: int|
            0 <= k < n && crate::flight::sent_data(events, d, k) ==> (
            #[trigger] events[k]).0.ts.0 <= t.0,
    ensures
        ({
            let own = crate::flight::heard(start, events, n, cfg).of(d);
            let w = cfg.throughput_window;
            &&& own.latest matches Some(m) ==> m.0 <= t.0
            &&& own.latest is Some <==> exists|k: int| #[trigger]
                crate::flight::sent_data(events, d, k) && k < n
            &&& crate::metrics::windowed_bytes(own.window, t, w, fresh) == bytes_sent(
                start,
                events,
                d,
                n,
                t.0 - w.0,
                t.0 as int,
                fresh,
                cfg,
            )
        }),
    decreases n,
{
    if n > 0 {
        let last = n - 1;
        let (seg, dir) = events[last];
        let model = crate::flight::heard(start, events, last, cfg);
        let before = model.of(d);
        let own = crate::flight::heard(start, events, n, cfg).of(d);
        let w = cfg.throughput_window;
        lemma_window_holds_what_was_sent(start, events, d, last, t, fresh, cfg);
        if dir == d {
            assert(own == crate::metrics::after_sending(before, seg, cfg));
            let again = crate::metrics::is_retransmit(before, seg, cfg);
            assert(model.sample(seg, d, cfg).retransmit == again);
            let entry = (seg.ts, seg.payload_len, again);
            let grown = if seg.payload_len > 0 {
                before.window.push(entry)
            } else {
                before.window
            };
            assert(before.window.push(entry).drop_last() =~= before.window);
            if seg.payload_len > 0 {
                assert(crate::flight::sent_data(events, d, last));
                assert(events[last].0.ts.0 <= t.0);
            } else {
                assert(!crate::flight::sent_data(events, d, last));
            }
            if own.latest is Some {
                crate::metrics::lemma_expired_entries_do_not_count(
                    grown,
                    own.latest.unwrap(),
                    t,
                    w,
                    fresh,
                );
            }
        } else {
            assert(own == crate::metrics::after_acking(before, seg));
            assert(!crate::flight::sent_data(events, d, last));
        }
        if own.latest is Some && before.latest is Some {
            let k = choose|k: int| #[trigger] crate::flight::sent_data(events, d, k) && k < last;
            assert(crate::flight::sent_data(events, d, k) && k < n);
        }
    } else {
        assert(crate::flight::heard(start, events, 0, cfg) == start);
    }
}

/// The throughput of a direction at a time no earlier than its last payload is that of the payload
/// bytes it sent within the window that ends then, without those sent exactly a window ago or
/// before; the goodput is that of the same bytes without retransmissions. There are no such rates
/// before it sent payload, and both are zero for an empty window.
pub proof fn law_rates_count_the_payload_of_the_window(
    start: MetricModel,
    events: Exchange,
    d: Direction,
    n: int,
    t: Nanos,
    cfg: EngineConfig,
)
    requires
        start.of(d) == DirModel::silent(),
        0 <= n <= events.len(),
        forall|k: int|
            0 <= k < n && crate::flight::sent_data(events, d, k) ==> (
            #[trigger] events[k]).0.ts.0 <= t.0,
    ensures
        ({
            let w = cfg.throughput_window.0;
            match crate::flight::heard(start, events, n, cfg).of(d).rates(
                t,
                cfg.throughput_window,
            ) {
                None => forall|k: int| 0 <= k < n ==> !#[trigger] crate::flight::sent_data(events, d, k),
                Some((throughput, goodput)) => {
                    &&& exists|k: int| #[trigger] crate::flight::sent_data(events, d, k) && k < n
                    &&& w == 0 ==> throughput == 0 && goodput == 0
                    &&& w > 0 ==> is_rate(
                        throughput,
                        bytes_sent(start, events, d, n, t.0 - w, t.0 as int, false, cfg),
                        w,
                    )
                    &&& w > 0 ==> is_rate(
                        goodput,
                        bytes_sent(start, events, d, n, t.0 - w, t.0 as int, true, cfg),
                        w,
                    )
                },
            }
        }),
{
    let w = cfg.throughput_window;
    lemma_window_holds_what_was_sent(start, events, d, n, t, false, cfg);
    lemma_window_holds_what_was_sent(start, events, d, n, t, true, cfg);
    if w.0 > 0 {
        lemma_scaled_is_rate(bytes_sent(start, events, d, n, t.0 - w.0, t.0 as int, false, cfg), w.0);
        lemma_scaled_is_rate(bytes_sent(start, events, d, n, t.0 - w.0, t.0 as int, true, cfg), w.0);
    }
}

/// The sample of a segment carries its own time and direction, the throughput of its direction with
/// it, and whether it holds selective acknowledgements.
pub proof fn law_samples_tell_of_their_segment(
    start: MetricModel,
    events: Exchange,
    n: int,
    cfg: EngineConfig,
)
    requires
        0 <= n < events.len(),
    ensures
        ({
            let (seg, dir) = events[n];
            let sample = crate::flight::heard(start, events, n, cfg).sample(seg, dir, cfg);
            &&& sample.t == seg.ts
            &&& sample.dir == crate::metric::SampleDir::OriginToResponder <==> dir
                == Direction::OriginToResponder
            &&& sample.sack <==> seg.options.sack_blocks@.len() > 0
            &&& sample.throughput_bps == (match crate::flight::heard(
                start,
                events,
                n + 1,
                cfg,
            ).of(dir).rates(seg.ts, cfg.throughput_window) {
                Some(rates) => rates.0,
                None => 0,
            })
            &&& Some(sample.in_flight_bytes) == crate::flight::heard(
                start,
                events,
                n + 1,
                cfg,
            ).of(dir).outstanding()
        }),
{
    let (seg, dir) = events[n];
    let model = crate::flight::heard(start, events, n, cfg);
    assert(crate::flight::heard(start, events, n + 1, cfg) == model.after(seg, dir, cfg));
    assert(crate::flight::heard(start, events, n + 1, cfg).of(dir)
        == crate::metrics::after_sending(model.of(dir), seg, cfg));
}

} // verus!
