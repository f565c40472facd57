//! Derivation of metrics from single segments.

use tcpvisr::config::EngineConfig;
use tcpvisr::conn::Direction;
use tcpvisr::flow::FlowKey;
use tcpvisr::metric::SampleDir;
use tcpvisr::metrics::{MetricError, MetricState};
use tcpvisr::net::{IpAddr, Ipv4Addr};
use tcpvisr::segment::{Segment, TcpFlags, TcpOptions};
use tcpvisr::seq::TcpSeq;
use tcpvisr::time::Nanos;

#[test]
fn sample_ceiling_error_names_count_limit_and_flag() {
    let e = MetricError::SampleCeiling {
        samples: 11,
        limit: 10,
    };
    let msg = e.message();
    assert!(msg.contains("11"), "{msg}");
    assert!(msg.contains("10"), "{msg}");
    assert!(msg.contains("--max-samples"), "{msg}");
}

fn ip(o: u8) -> IpAddr {
    IpAddr::V4(Ipv4Addr::new(10, 0, 0, o))
}

// Build a segment in O2R (origin 10.0.0.1:1234 -> responder 10.0.0.2:80) or R2O.
fn seg(flags: u16, seq: u32, ack: u32, len: u32, ts: u64, sack: bool) -> Segment {
    let mut options = TcpOptions::default();
    if sack {
        options.sack_blocks.push((TcpSeq(1), TcpSeq(2)));
    }
    Segment {
        ts: Nanos(ts),
        flow: FlowKey {
            src_ip: ip(1),
            src_port: 1234,
            dst_ip: ip(2),
            dst_port: 80,
        },
        seq: TcpSeq(seq),
        ack: TcpSeq(ack),
        flags: TcpFlags(flags),
        window: 0,
        options,
        payload_len: len,
    }
}

const ACK: u16 = TcpFlags::ACK;
const SYN: u16 = TcpFlags::SYN;

fn cfg() -> EngineConfig {
    EngineConfig::default()
}

#[test]
fn in_flight_query_matches_sample_and_snapshots_opposite_drain() {
    let mut m = MetricState::new();
    let c = cfg();
    // O2R sends 10 bytes @seq100; own outstanding == 10, query agrees.
    let s1 = m.observe(
        &seg(ACK, 100, 1, 10, 1_000, false),
        Direction::OriginToResponder,
        &c,
    );
    assert_eq!(s1.in_flight_bytes, 10);
    assert_eq!(m.in_flight(Direction::OriginToResponder), Some(10));
    // R2O has no send frontier yet -> None.
    assert_eq!(m.in_flight(Direction::ResponderToOrigin), None);
    // R2O ACK=110 drains O2R: querying O2R now reads 0 (the ack-time drain).
    m.observe(
        &seg(ACK, 1, 110, 0, 2_000, false),
        Direction::ResponderToOrigin,
        &c,
    );
    assert_eq!(m.in_flight(Direction::OriginToResponder), Some(0));
}

#[test]
fn in_flight_grows_with_sent_bytes_and_drains_on_ack() {
    let mut m = MetricState::new();
    let c = cfg();
    // O2R data: 10 bytes, no ack seen for o2r yet.
    let s1 = m.observe(
        &seg(ACK, 100, 1, 10, 1_000, false),
        Direction::OriginToResponder,
        &c,
    );
    assert_eq!(s1.in_flight_bytes, 10);
    assert_eq!(s1.dir, SampleDir::OriginToResponder);
    // R2O segment acks o2r up to 110 -> o2r drained, but THIS sample reports r2o's own.
    let s2 = m.observe(
        &seg(ACK, 1, 110, 0, 2_000, false),
        Direction::ResponderToOrigin,
        &c,
    );
    assert_eq!(s2.in_flight_bytes, 0, "r2o sender has nothing outstanding");
    // Next o2r data shows the drained base: send 5 more from 110.
    let s3 = m.observe(
        &seg(ACK, 110, 1, 5, 3_000, false),
        Direction::OriginToResponder,
        &c,
    );
    assert_eq!(s3.in_flight_bytes, 5, "ack=110 drained the first 10");
}

#[test]
fn in_flight_is_serial_correct_across_u32_wrap() {
    let mut m = MetricState::new();
    let c = cfg();
    let s1 = m.observe(
        &seg(ACK, u32::MAX - 100, 1, 50, 1_000, false),
        Direction::OriginToResponder,
        &c,
    );
    assert_eq!(s1.in_flight_bytes, 50);
    let s2 = m.observe(
        &seg(ACK, 200, 1, 50, 2_000, false),
        Direction::OriginToResponder,
        &c,
    );
    assert_eq!(
        s2.in_flight_bytes, 351,
        "serial diff across the wrap, not a naive subtraction"
    );
}

#[test]
fn ack_before_any_data_in_acked_direction_yields_no_rtt_and_no_advance() {
    let mut m = MetricState::new();
    let c = cfg();
    // First segment is o2r data+ACK=1; r2o has no tracked send -> ack acks nothing.
    let s1 = m.observe(
        &seg(ACK, 5000, 1, 50, 1_000, false),
        Direction::OriginToResponder,
        &c,
    );
    assert_eq!(s1.rtt, None);
    assert_eq!(s1.in_flight_bytes, 50);
}

#[test]
fn rtt_pairs_oldest_acked_send_under_karn() {
    let mut m = MetricState::new();
    let c = cfg();
    // o2r sends A(seq 100,len 100) @1000 and B(seq 200,len 100) @2000.
    m.observe(
        &seg(ACK, 100, 1, 100, 1_000, false),
        Direction::OriginToResponder,
        &c,
    );
    m.observe(
        &seg(ACK, 200, 1, 100, 2_000, false),
        Direction::OriginToResponder,
        &c,
    );
    // r2o cumulative ACK=300 @5000 acks both; RTT pairs the oldest (A @1000).
    let s = m.observe(
        &seg(ACK, 1, 300, 0, 5_000, false),
        Direction::ResponderToOrigin,
        &c,
    );
    assert_eq!(s.rtt, Some(Nanos(4_000)));
}

#[test]
fn karn_drops_rtt_for_retransmitted_range() {
    let mut m = MetricState::new();
    let c = cfg(); // reorder_window = 3ms = 3_000_000 ns
    m.observe(
        &seg(ACK, 100, 1, 100, 1_000, false),
        Direction::OriginToResponder,
        &c,
    ); // A @1us
    // Retransmit of A after a gap >= reorder_window (3ms): gap = 3_001_000 - 1_000 = 3_000_000.
    let r = m.observe(
        &seg(ACK, 100, 1, 100, 3_001_000, false),
        Direction::OriginToResponder,
        &c,
    );
    assert!(
        r.retransmit,
        "behind-frontier re-send after a >= 3ms gap is a retransmit"
    );
    let s = m.observe(
        &seg(ACK, 1, 200, 0, 3_002_000, false),
        Direction::ResponderToOrigin,
        &c,
    );
    assert_eq!(s.rtt, None, "Karn: no RTT after a retransmit");
}

#[test]
fn dup_ack_yields_no_rtt() {
    let mut m = MetricState::new();
    let c = cfg();
    m.observe(
        &seg(ACK, 100, 1, 100, 1_000, false),
        Direction::OriginToResponder,
        &c,
    );
    let s1 = m.observe(
        &seg(ACK, 1, 200, 0, 2_000, false),
        Direction::ResponderToOrigin,
        &c,
    );
    assert_eq!(s1.rtt, Some(Nanos(1_000)));
    // Same ACK again (dup): no new RTT.
    let s2 = m.observe(
        &seg(ACK, 1, 200, 0, 3_000, false),
        Direction::ResponderToOrigin,
        &c,
    );
    assert_eq!(s2.rtt, None);
}

#[test]
fn out_of_order_within_window_not_retransmit() {
    let mut m = MetricState::new();
    let c = cfg();
    m.observe(
        &seg(ACK, 200, 1, 100, 1_000, false),
        Direction::OriginToResponder,
        &c,
    ); // frontier 300
    // Behind-frontier seq 100, gap 1us < 3ms -> out-of-order.
    let s = m.observe(
        &seg(ACK, 100, 1, 100, 1_001, false),
        Direction::OriginToResponder,
        &c,
    );
    assert!(s.out_of_order && !s.retransmit);
}

#[test]
fn reorder_window_boundary_is_retransmit() {
    let mut m = MetricState::new();
    let c = cfg();
    m.observe(
        &seg(ACK, 200, 1, 100, 1_000_000, false),
        Direction::OriginToResponder,
        &c,
    );
    // Gap exactly reorder_window (3ms) -> retransmit (boundary is inclusive-at-or-above).
    let s = m.observe(
        &seg(ACK, 100, 1, 100, 4_000_000, false),
        Direction::OriginToResponder,
        &c,
    );
    assert!(s.retransmit && !s.out_of_order);
}

#[test]
fn sack_flag_reflects_segment_blocks() {
    let mut m = MetricState::new();
    let c = cfg();
    let s = m.observe(
        &seg(ACK, 100, 1, 0, 1_000, true),
        Direction::OriginToResponder,
        &c,
    );
    assert!(s.sack);
}

#[test]
fn syn_consumes_phantom_byte_in_flight() {
    let mut m = MetricState::new();
    let c = cfg();
    let s = m.observe(
        &seg(SYN, 100, 0, 0, 1_000, false),
        Direction::OriginToResponder,
        &c,
    );
    assert_eq!(s.in_flight_bytes, 1, "SYN consumes one sequence byte");
}

#[test]
fn throughput_sums_window_bytes_and_excludes_older() {
    let mut m = MetricState::new();
    let c = cfg(); // 1s window
    // 100 bytes at t=0.
    m.observe(
        &seg(ACK, 0, 1, 100, 0, false),
        Direction::OriginToResponder,
        &c,
    );
    // 100 bytes at t=0.5s: both in the 1s window ending at 0.5s -> 200 bytes -> 1600 bps.
    let s = m.observe(
        &seg(ACK, 100, 1, 100, 500_000_000, false),
        Direction::OriginToResponder,
        &c,
    );
    assert_eq!(s.throughput_bps, 1_600);
    // 100 bytes at t=2s: window (1s,2s] excludes the t=0 and t=0.5s bytes -> 100 -> 800 bps.
    let s2 = m.observe(
        &seg(ACK, 200, 1, 100, 2_000_000_000, false),
        Direction::OriginToResponder,
        &c,
    );
    assert_eq!(s2.throughput_bps, 800);
}

#[test]
fn goodput_excludes_retransmitted_bytes() {
    let mut m = MetricState::new();
    let c = cfg(); // 1s window, 3ms reorder
    // O2R 100 B new @seq100 t=0 (frontier -> 200).
    m.observe(
        &seg(ACK, 100, 1, 100, 0, false),
        Direction::OriginToResponder,
        &c,
    );
    // O2R retransmit of seq100 @t=4ms (behind frontier, gap 4ms >= 3ms reorder -> retransmit).
    let s = m.observe(
        &seg(ACK, 100, 1, 100, 4_000_000, false),
        Direction::OriginToResponder,
        &c,
    );
    assert!(
        s.retransmit,
        "behind-frontier resend after a >= 3ms gap is a retransmit"
    );
    // Both 100 B entries are in the 1s window ending at 4ms.
    let (tp, gp) = m
        .throughput_at(Direction::OriginToResponder, Nanos(4_000_000), &c)
        .expect("O2R has sent data");
    assert_eq!(
        tp, 1_600,
        "throughput counts the new and the retransmitted 100 B"
    );
    assert_eq!(gp, 800, "goodput counts only the non-retransmitted 100 B");
    // The sample's throughput_bps still equals the total.
    assert_eq!(s.throughput_bps, 1_600);
}

#[test]
fn goodput_equals_throughput_on_a_loss_free_flow() {
    let mut m = MetricState::new();
    let c = cfg();
    m.observe(
        &seg(ACK, 0, 1, 100, 0, false),
        Direction::OriginToResponder,
        &c,
    );
    let (tp, gp) = m
        .throughput_at(Direction::OriginToResponder, Nanos(0), &c)
        .expect("data");
    assert_eq!((tp, gp), (800, 800));
}

#[test]
fn throughput_at_is_none_for_a_direction_that_never_sent_data() {
    let mut m = MetricState::new();
    let c = cfg();
    // Only O2R sends data; R2O sends a pure ACK (no payload).
    m.observe(
        &seg(ACK, 100, 1, 100, 0, false),
        Direction::OriginToResponder,
        &c,
    );
    m.observe(
        &seg(ACK, 1, 200, 0, 1_000, false),
        Direction::ResponderToOrigin,
        &c,
    );
    assert!(
        m.throughput_at(Direction::ResponderToOrigin, Nanos(1_000), &c)
            .is_none(),
        "a direction that only ACKs has no throughput sample"
    );
    assert!(
        m.throughput_at(Direction::OriginToResponder, Nanos(0), &c)
            .is_some()
    );
}

#[test]
fn throughput_at_decays_as_bytes_age_out_of_the_window() {
    let mut m = MetricState::new();
    let c = cfg(); // 1s window
    m.observe(
        &seg(ACK, 0, 1, 100, 0, false),
        Direction::OriginToResponder,
        &c,
    );
    // Read the O2R rate at a later time WITHOUT another O2R send (the reverse-ACK snapshot).
    let inside = m
        .throughput_at(Direction::OriginToResponder, Nanos(500_000_000), &c)
        .expect("data");
    assert_eq!(inside.0, 800, "within the window the 100 B still counts");
    let past = m
        .throughput_at(Direction::OriginToResponder, Nanos(1_500_000_000), &c)
        .expect("data (still Some: O2R has sent)");
    assert_eq!(past, (0, 0), "past the window every byte has aged out");
}

#[test]
fn zero_throughput_window_does_not_panic() {
    let mut m = MetricState::new();
    let c = EngineConfig {
        throughput_window: Nanos(0),
        ..EngineConfig::default()
    };
    let s = m.observe(
        &seg(ACK, 0, 1, 100, 0, false),
        Direction::OriginToResponder,
        &c,
    );
    assert_eq!(s.throughput_bps, 0);
}

#[test]
fn in_flight_equals_serial_distance_for_forward_sends() {
    for base in [0, 100, u32::MAX - 20_000, u32::MAX] {
        let mut m = MetricState::new();
        let c = cfg();
        let mut seq = base;
        let mut total: u64 = 0;
        let mut ts = 0u64;
        for d in [1u32, 9_999, 17, 4_242, 1, 8_000] {
            ts += 1_000;
            let s = m.observe(
                &seg(ACK, seq, 1, d, ts, false),
                Direction::OriginToResponder,
                &c,
            );
            total += u64::from(d);
            assert_eq!(s.in_flight_bytes, total, "no ack yet: all sent is outstanding");
            seq = seq.wrapping_add(d);
        }
    }
}

#[test]
fn duplicate_acknowledgement_changes_nothing_outstanding() {
    let mut m = MetricState::new();
    let c = cfg();
    m.observe(&seg(ACK, 100, 1, 100, 1_000, false), Direction::OriginToResponder, &c);
    m.observe(&seg(ACK, 1, 150, 0, 2_000, false), Direction::ResponderToOrigin, &c);
    assert_eq!(m.in_flight(Direction::OriginToResponder), Some(50));
    m.observe(&seg(ACK, 1, 150, 0, 3_000, false), Direction::ResponderToOrigin, &c);
    assert_eq!(m.in_flight(Direction::OriginToResponder), Some(50));
}
