//! What each key does.

use tcpvisr::app::{App, DetailView, LiveStatus, Mode, Outcome};
use tcpvisr::conn::{ConnId, Connection, EndpointPair};
use tcpvisr::endpoint::Endpoint;
use tcpvisr::keys::{handle_key, KeyCode, KeyPress};
use tcpvisr::name::NameTable;
use tcpvisr::net::{IpAddr, Ipv4Addr};
use tcpvisr::rows::SortField;
use tcpvisr::state::ConnState;
use tcpvisr::time::Nanos;
use tcpvisr::timeline::{StateSample, Timeline};

fn ep(a: u8, port: u16) -> Endpoint {
    Endpoint {
        ip: IpAddr::V4(Ipv4Addr::new(10, 0, 0, a)),
        port,
    }
}

fn entry(origin: Endpoint, responder: Endpoint) -> (Connection, Vec<StateSample>) {
    let c = Connection {
        id: ConnId {
            pair: EndpointPair::new(origin, responder),
            instance: 0,
        },
        state: ConnState::Established,
        origin,
        responder,
        origin_inferred: false,
        opened_at: Nanos(0),
        last_at: Nanos(1),
        bytes_o2r: 0,
        bytes_r2o: 0,
        segments: 1,
    };
    let s = StateSample {
        t: Nanos(0),
        state: ConnState::Established,
        bytes_o2r: 0,
        bytes_r2o: 0,
    };
    (c, vec![s])
}

fn app() -> App {
    App::replaying(
        Timeline::new(vec![
            entry(ep(1, 1), ep(2, 22)),
            entry(ep(1, 2), ep(3, 443)),
        ]),
        "t".to_string(),
    )
}

/// One connection open on `[0, 1000]` with events at t=0 and t=500, so seek/step move the
/// cursor meaningfully.
fn wide_app() -> App {
    let c = Connection {
        id: ConnId {
            pair: EndpointPair::new(ep(1, 1), ep(2, 22)),
            instance: 0,
        },
        state: ConnState::Established,
        origin: ep(1, 1),
        responder: ep(2, 22),
        origin_inferred: false,
        opened_at: Nanos(0),
        last_at: Nanos(1000),
        bytes_o2r: 0,
        bytes_r2o: 0,
        segments: 2,
    };
    let samples = vec![
        StateSample {
            t: Nanos(0),
            state: ConnState::Established,
            bytes_o2r: 0,
            bytes_r2o: 0,
        },
        StateSample {
            t: Nanos(500),
            state: ConnState::Established,
            bytes_o2r: 10,
            bytes_r2o: 0,
        },
    ];
    App::replaying(Timeline::new(vec![(c, samples)]), "t".to_string())
}

fn press(c: char) -> KeyPress {
    key(KeyCode::Char(c))
}

fn key(code: KeyCode) -> KeyPress {
    KeyPress {
        code,
        control: false,
    }
}

fn ctrl(c: char) -> KeyPress {
    KeyPress {
        code: KeyCode::Char(c),
        control: true,
    }
}

#[test]
fn space_toggles_play_in_nav_mode() {
    let mut a = app();
    assert!(!a.is_playing());
    assert_eq!(handle_key(&mut a, press(' ')), Outcome::Continue);
    assert!(a.is_playing());
    handle_key(&mut a, press(' '));
    assert!(!a.is_playing());
}

fn live_app() -> App {
    let mut a = App::new_live(NameTable::default(), "live".to_string());
    let (c, s) = entry(ep(1, 1), ep(2, 22));
    let tl =
        Timeline::with_seq_ending(vec![(c, s, vec![], vec![], vec![], vec![])], Nanos(1000));
    a.retarget(tl, Nanos(0), Nanos(1000), LiveStatus::default());
    a
}

#[test]
fn space_toggles_follow_in_live_mode() {
    let mut a = live_app();
    assert!(a.is_following(), "live starts following");
    handle_key(&mut a, press(' '));
    assert!(!a.is_following(), "space freezes");
    assert!(
        !a.is_playing(),
        "space does not start replay playback in live mode"
    );
    handle_key(&mut a, press(' '));
    assert!(a.is_following(), "space re-follows");
}

#[test]
fn seek_freezes_in_live_mode() {
    let mut a = live_app();
    assert!(a.is_following());
    handle_key(&mut a, key(KeyCode::Left));
    assert!(!a.is_following(), "a manual seek freezes the live cursor");
}

#[test]
fn arrows_seek_the_cursor() {
    let mut a = wide_app(); // bounds 0..1000, seek step = 1000/50 = 20
    handle_key(&mut a, key(KeyCode::Right));
    assert_eq!(a.cursor(), Nanos(20));
    handle_key(&mut a, key(KeyCode::Left));
    assert_eq!(a.cursor(), Nanos(0));
}

#[test]
fn plus_minus_change_speed() {
    let mut a = app();
    assert_eq!(a.speed(), (1, 1));
    handle_key(&mut a, press('+'));
    assert_eq!(a.speed(), (2, 1));
    handle_key(&mut a, press('='));
    assert_eq!(a.speed(), (5, 1));
    handle_key(&mut a, press('-'));
    assert_eq!(a.speed(), (2, 1));
}

#[test]
fn period_and_comma_step_events() {
    let mut a = wide_app(); // events at 0 and 500
    handle_key(&mut a, press('.'));
    assert_eq!(a.cursor(), Nanos(500));
    handle_key(&mut a, press(','));
    assert_eq!(a.cursor(), Nanos(0));
}

#[test]
fn transport_keys_are_inert_in_filter_mode() {
    let mut a = wide_app();
    handle_key(&mut a, press('/')); // enter filter
    for c in [' ', '+', ',', '.'] {
        handle_key(&mut a, press(c));
    }
    assert_eq!(a.query(), " +,.", "printable keys append to the query");
    assert!(!a.is_playing(), "space did not toggle play in filter mode");
    assert_eq!(a.speed(), (1, 1), "+ did not change speed");
    assert_eq!(a.cursor(), Nanos(0), ". did not step the cursor");
    let ev = ctrl('c');
    assert_eq!(handle_key(&mut a, ev), Outcome::Quit);
}

#[test]
fn q_quits_in_nav_mode() {
    let mut a = app();
    assert_eq!(handle_key(&mut a, press('q')), Outcome::Quit);
}

#[test]
fn ctrl_c_quits_in_nav_mode() {
    let mut a = app();
    let ev = ctrl('c');
    assert_eq!(handle_key(&mut a, ev), Outcome::Quit);
}

#[test]
fn q_in_filter_mode_appends_and_does_not_quit() {
    let mut a = app();
    assert_eq!(handle_key(&mut a, press('/')), Outcome::Continue);
    assert_eq!(a.mode(), Mode::Filter);
    assert_eq!(handle_key(&mut a, press('q')), Outcome::Continue);
    assert_eq!(a.query(), "q");
}

#[test]
fn ctrl_c_quits_even_in_filter_mode() {
    let mut a = app();
    handle_key(&mut a, press('/'));
    let ev = ctrl('c');
    assert_eq!(handle_key(&mut a, ev), Outcome::Quit);
}

#[test]
fn enter_opens_and_esc_closes_detail_in_nav_mode() {
    let mut a = app();
    handle_key(&mut a, key(KeyCode::Enter));
    assert!(a.is_detail_open());
    handle_key(&mut a, key(KeyCode::Esc));
    assert!(!a.is_detail_open());
}

#[test]
fn filter_mode_enter_and_esc_do_not_touch_detail() {
    let mut a = app();
    handle_key(&mut a, press('/')); // enter filter mode
    handle_key(&mut a, press('s'));
    handle_key(&mut a, key(KeyCode::Enter)); // confirms filter, does not open detail
    assert!(!a.is_detail_open());
    assert_eq!(a.mode(), Mode::Nav);
    handle_key(&mut a, press('/'));
    handle_key(&mut a, key(KeyCode::Esc)); // clears filter, does not close/open detail
    assert!(!a.is_detail_open());
}

#[test]
fn tab_cycles_view_in_nav_mode() {
    let mut a = app();
    assert_eq!(a.detail_view(), DetailView::TimeSequence);
    handle_key(&mut a, key(KeyCode::Tab));
    assert_eq!(a.detail_view(), DetailView::InFlight);
}

#[test]
fn tab_does_not_cycle_view_in_filter_mode() {
    let mut a = app();
    handle_key(&mut a, press('/')); // enter filter
    handle_key(&mut a, key(KeyCode::Tab));
    assert_eq!(
        a.detail_view(),
        DetailView::TimeSequence,
        "Tab inert for view-switching in filter mode"
    );
}

#[test]
fn s_cycles_sort_in_nav_mode() {
    let mut a = app();
    assert_eq!(a.sort_field(), SortField::Peer);
    handle_key(&mut a, press('s'));
    assert_eq!(a.sort_field(), SortField::State);
}

#[test]
fn esc_clears_filter() {
    let mut a = app();
    handle_key(&mut a, press('/'));
    handle_key(&mut a, press('s'));
    handle_key(&mut a, key(KeyCode::Esc));
    assert_eq!(a.mode(), Mode::Nav);
    assert_eq!(a.query(), "");
}

#[test]
fn backspace_drops_what_was_typed() {
    let mut a = app();
    handle_key(&mut a, press('/'));
    handle_key(&mut a, press('x'));
    handle_key(&mut a, key(KeyCode::Backspace));
    assert_eq!(a.query(), "");
    assert_eq!(a.mode(), Mode::Filter);
}

#[test]
fn arrows_and_letters_move_the_selection() {
    let mut a = app();
    let first = a.selected();
    handle_key(&mut a, press('j'));
    let second = a.selected();
    assert_ne!(first, second);
    handle_key(&mut a, press('k'));
    assert_eq!(a.selected(), first);
    handle_key(&mut a, key(KeyCode::Down));
    assert_eq!(a.selected(), second);
    handle_key(&mut a, key(KeyCode::Up));
    assert_eq!(a.selected(), first);
}

#[test]
fn other_keys_change_nothing() {
    let mut a = wide_app();
    for code in [KeyCode::Other, KeyCode::Backspace, KeyCode::Char('z')] {
        assert_eq!(handle_key(&mut a, key(code)), Outcome::Continue);
    }
    assert_eq!(a.cursor(), Nanos(0));
    assert_eq!(a.mode(), Mode::Nav);
    assert_eq!(a.query(), "");
}

#[test]
fn the_order_of_the_list_can_be_reversed() {
    let mut a = app();
    let before = a.sort_dir();
    handle_key(&mut a, press('S'));
    assert_eq!(a.sort_dir(), before.opposite());
}
