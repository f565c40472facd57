//! The cursor on the timeline, and the names of well-known ports.

use tcpvisr::service::service_name;
use tcpvisr::time::Nanos;
use tcpvisr::transport::Transport;

#[test]
fn play_then_tick_advances_by_speed() {
    let mut tr = Transport::new(Nanos(0), Nanos(10_000_000_000)); // 0..10s
    assert!(!tr.is_playing());
    tr.toggle_play();
    assert!(tr.is_playing());
    tr.tick(Nanos(1_000_000_000)); // 1s at 1.0x
    assert_eq!(tr.cursor(), Nanos(1_000_000_000));
}

#[test]
fn paused_tick_is_noop() {
    let mut tr = Transport::new(Nanos(0), Nanos(10_000_000_000));
    tr.tick(Nanos(1_000_000_000));
    assert_eq!(tr.cursor(), Nanos(0));
}

#[test]
fn speed_ladder_clamps_and_scales() {
    let mut tr = Transport::new(Nanos(0), Nanos(100_000_000_000));
    for _ in 0..10 {
        tr.faster();
    }
    assert_eq!(tr.speed(), (10, 1), "clamped at 10x");
    tr.toggle_play();
    tr.tick(Nanos(1_000_000_000)); // 1s at 10x -> 10s
    assert_eq!(tr.cursor(), Nanos(10_000_000_000));
    for _ in 0..10 {
        tr.slower();
    }
    assert_eq!(tr.speed(), (1, 10), "clamped at 0.1x");
}

#[test]
fn tick_auto_pauses_at_end() {
    let mut tr = Transport::new(Nanos(0), Nanos(1_000_000_000));
    tr.toggle_play();
    tr.tick(Nanos(5_000_000_000)); // overshoots
    assert_eq!(tr.cursor(), Nanos(1_000_000_000));
    assert!(!tr.is_playing());
}

#[test]
fn toggle_at_end_rewinds_and_plays() {
    let mut tr = Transport::new(Nanos(1_000), Nanos(5_000));
    tr.set_cursor(Nanos(5_000));
    tr.toggle_play();
    assert_eq!(tr.cursor(), Nanos(1_000));
    assert!(tr.is_playing());
}

#[test]
fn seek_moves_two_percent_and_clamps() {
    let mut tr = Transport::new(Nanos(0), Nanos(5_000)); // step = 5000/50 = 100
    tr.seek(true);
    assert_eq!(tr.cursor(), Nanos(100));
    tr.seek(false);
    tr.seek(false);
    assert_eq!(tr.cursor(), Nanos(0), "clamped at start");
    for _ in 0..100 {
        tr.seek(true);
    }
    assert_eq!(tr.cursor(), Nanos(5_000), "clamped at end");
}

#[test]
fn known_ports_map_to_names() {
    assert_eq!(service_name(22), Some("ssh"));
    assert_eq!(service_name(53), Some("domain"));
    assert_eq!(service_name(80), Some("http"));
    assert_eq!(service_name(443), Some("https"));
    assert_eq!(service_name(5432), Some("postgresql"));
}

#[test]
fn unknown_port_is_none() {
    assert_eq!(service_name(51324), None);
    assert_eq!(service_name(0), None);
}

#[test]
fn every_rung_has_its_speed() {
    let mut tr = Transport::new(Nanos(0), Nanos(1_000));
    assert_eq!(tr.speed(), (1, 1));
    for speed in [(2, 1), (5, 1), (10, 1), (10, 1)] {
        tr.faster();
        assert_eq!(tr.speed(), speed);
    }
    for speed in [(5, 1), (2, 1), (1, 1), (1, 2), (1, 10), (1, 10)] {
        tr.slower();
        assert_eq!(tr.speed(), speed);
    }
}

#[test]
fn slow_ticks_round_to_whole_nanoseconds() {
    let mut tr = Transport::new(Nanos(0), Nanos(1_000));
    tr.slower();
    tr.toggle_play();
    tr.tick(Nanos(10));
    assert_eq!(tr.cursor(), Nanos(5));
}

#[test]
fn short_spans_are_sought_by_one() {
    let mut tr = Transport::new(Nanos(0), Nanos(10));
    tr.seek(true);
    assert_eq!(tr.cursor(), Nanos(1));
}

#[test]
fn cursors_are_kept_in_bounds() {
    let mut tr = Transport::new(Nanos(100), Nanos(200));
    tr.set_cursor(Nanos(0));
    assert_eq!(tr.cursor(), Nanos(100));
    tr.set_cursor(Nanos(999));
    assert_eq!(tr.cursor(), Nanos(200));
    assert_eq!(tr.bounds(), (Nanos(100), Nanos(200)));
}

#[test]
fn huge_ticks_stop_at_the_end() {
    let mut tr = Transport::new(Nanos(1), Nanos(u64::MAX));
    for _ in 0..3 {
        tr.faster();
    }
    tr.toggle_play();
    tr.tick(Nanos(u64::MAX));
    assert_eq!(tr.cursor(), Nanos(u64::MAX));
    assert!(!tr.is_playing());
}
