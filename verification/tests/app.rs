//! The program's state: the list, its order and filter, the cursor and the live view.

use tcpvisr::app::{App, DetailView, LiveStatus, Mode};
use tcpvisr::conn::{ConnId, Connection, EndpointPair};
use tcpvisr::endpoint::Endpoint;
use tcpvisr::metric::SampleDir;
use tcpvisr::name::{HostName, NameObservation, NameTable};
use tcpvisr::net::{IpAddr, Ipv4Addr};
use tcpvisr::rows::{is_subsequence, SortDir, SortField};
use tcpvisr::state::ConnState;
use tcpvisr::time::Nanos;
use tcpvisr::timeline::{StateSample, Timeline};


fn ep(a: u8, port: u16) -> Endpoint {
    Endpoint {
        ip: IpAddr::V4(Ipv4Addr::new(10, 0, 0, a)),
        port,
    }
}

/// Builds a Connection with the given endpoints/bytes/instance for tests.
fn conn(origin: Endpoint, responder: Endpoint, up: u64, down: u64, inst: u32) -> Connection {
    Connection {
        id: ConnId {
            pair: EndpointPair::new(origin, responder),
            instance: inst,
        },
        state: ConnState::Established,
        origin,
        responder,
        origin_inferred: false,
        opened_at: Nanos(0),
        last_at: Nanos(1),
        bytes_o2r: up,
        bytes_r2o: down,
        segments: 1,
    }
}

fn app_of(conns: Vec<Connection>) -> App {
    App::new(&conns, "t".to_string())
}

#[test]
fn new_builds_one_row_per_connection_with_service_label() {
    let c = conn(ep(1, 51324), ep(2, 443), 10, 20, 0);
    let app = app_of(vec![c]);
    let rows = app.visible();
    assert_eq!(rows.len(), 1);
    assert_eq!(rows[0].peer, ep(2, 443));
    assert_eq!(rows[0].service, Some("https"));
    assert_eq!(rows[0].bytes_up, 10);
    assert_eq!(rows[0].bytes_down, 20);
}

#[test]
fn unknown_responder_port_has_no_service() {
    let app = app_of(vec![conn(ep(1, 40000), ep(2, 40001), 0, 0, 0)]);
    assert_eq!(app.visible()[0].service, None);
}

#[test]
fn initial_selection_is_first_visible_row() {
    let c1 = conn(ep(1, 1), ep(2, 22), 0, 0, 0); // peer 10.0.0.2:22
    let c2 = conn(ep(1, 2), ep(3, 22), 0, 0, 0); // peer 10.0.0.3:22
    let app = app_of(vec![c2, c1]);
    // Peer-ascending → 10.0.0.2:22 first.
    assert_eq!(app.selected(), Some(c1.id));
    assert_eq!(app.visible()[0].id, c1.id);
}

#[test]
fn empty_capture_has_no_rows_or_selection() {
    let app = app_of(vec![]);
    assert!(app.visible().is_empty());
    assert_eq!(app.selected(), None);
}

#[test]
fn cycle_sort_visits_fields_and_resets_natural_direction() {
    let mut app = app_of(vec![conn(ep(1, 1), ep(2, 80), 0, 0, 0)]);
    assert_eq!(
        (app.sort_field(), app.sort_dir()),
        (SortField::Peer, SortDir::Asc)
    );
    app.cycle_sort();
    assert_eq!(
        (app.sort_field(), app.sort_dir()),
        (SortField::State, SortDir::Asc)
    );
    app.cycle_sort();
    assert_eq!(
        (app.sort_field(), app.sort_dir()),
        (SortField::BytesUp, SortDir::Desc)
    );
    app.cycle_sort();
    assert_eq!(
        (app.sort_field(), app.sort_dir()),
        (SortField::BytesDown, SortDir::Desc)
    );
    app.cycle_sort();
    assert_eq!(
        (app.sort_field(), app.sort_dir()),
        (SortField::Peer, SortDir::Asc)
    );
}

#[test]
fn cycle_resets_direction_even_after_toggle() {
    let mut app = app_of(vec![conn(ep(1, 1), ep(2, 80), 0, 0, 0)]);
    app.toggle_dir(); // Peer now Desc
    assert_eq!(app.sort_dir(), SortDir::Desc);
    app.cycle_sort(); // → State, reset to natural Asc
    assert_eq!(
        (app.sort_field(), app.sort_dir()),
        (SortField::State, SortDir::Asc)
    );
}

#[test]
fn bytes_up_sorts_descending_by_default() {
    let small = conn(ep(1, 1), ep(2, 80), 5, 0, 0);
    let big = conn(ep(1, 2), ep(3, 80), 500, 0, 0);
    let mut app = app_of(vec![small, big]);
    app.cycle_sort(); // State
    app.cycle_sort(); // BytesUp, Desc
    let order: Vec<_> = app.visible().iter().map(|r| r.bytes_up).collect();
    assert_eq!(order, vec![500, 5]);
}

#[test]
fn toggle_dir_reverses_without_changing_field() {
    let a = conn(ep(1, 1), ep(2, 80), 0, 0, 0); // peer 10.0.0.2:80
    let b = conn(ep(1, 2), ep(3, 80), 0, 0, 0); // peer 10.0.0.3:80
    let mut app = app_of(vec![a, b]);
    assert_eq!(app.visible()[0].id, a.id); // Asc
    app.toggle_dir();
    assert_eq!(app.sort_field(), SortField::Peer);
    assert_eq!(app.visible()[0].id, b.id); // Desc
}

// db: responder :5432 → service "postgresql", peer 10.0.0.2 (sorts first)
// web: responder :443 → service "https", peer 10.0.0.4
fn db_conn() -> Connection {
    conn(ep(1, 1111), ep(2, 5432), 0, 0, 0)
}
fn web_conn() -> Connection {
    conn(ep(3, 2222), ep(4, 443), 0, 0, 0)
}

#[test]
fn filter_narrows_to_one_then_clears() {
    let mut app = app_of(vec![db_conn(), web_conn()]);
    app.enter_filter();
    assert_eq!(app.mode(), Mode::Filter);
    for c in "https".chars() {
        app.push_filter(c);
    }
    // "https" has no 'h' in the db row → web only.
    let ids: Vec<_> = app.visible().iter().map(|r| r.id).collect();
    assert_eq!(ids, vec![web_conn().id]);
    app.pop_filter(); // "http" still matches only the web row
    assert_eq!(app.visible().len(), 1);
    app.cancel_filter();
    assert_eq!(app.mode(), Mode::Nav);
    assert_eq!(app.query(), "");
    assert_eq!(app.visible().len(), 2);
}

#[test]
fn subsequence_matches_non_adjacent_chars() {
    let mut app = app_of(vec![web_conn()]); // search contains "https"
    app.enter_filter();
    for c in "hts".chars() {
        // h,t,s appear in order within "https" though not adjacently.
        app.push_filter(c);
    }
    assert_eq!(app.visible().len(), 1);
}

#[test]
fn confirm_keeps_filter_esc_clears_it() {
    let mut app = app_of(vec![db_conn(), web_conn()]);
    app.enter_filter();
    for c in "postgres".chars() {
        app.push_filter(c);
    }
    app.confirm_filter();
    assert_eq!(app.mode(), Mode::Nav);
    assert_eq!(app.query(), "postgres");
    // The web row has no 'o' after its 'p', so "postgres" → the db row only.
    assert_eq!(app.visible().len(), 1);
}

#[test]
fn selection_falls_back_to_first_visible_when_filtered_out() {
    let mut app = app_of(vec![db_conn(), web_conn()]);
    // db is first (peer 10.0.0.2:5432 < 10.0.0.4:443) → initially selected.
    assert_eq!(app.selected(), Some(db_conn().id));
    app.enter_filter();
    for c in "https".chars() {
        app.push_filter(c);
    }
    // db filtered out → selection falls back to the only visible row (web).
    assert_eq!(app.selected(), Some(web_conn().id));
}

#[test]
fn selection_becomes_none_when_nothing_matches() {
    let mut app = app_of(vec![db_conn()]);
    app.enter_filter();
    for c in "zzz".chars() {
        app.push_filter(c);
    }
    assert!(app.visible().is_empty());
    assert_eq!(app.selected(), None);
}

#[test]
fn move_down_and_up_clamp_at_ends() {
    let a = conn(ep(1, 1), ep(2, 22), 0, 0, 0);
    let b = conn(ep(1, 2), ep(3, 22), 0, 0, 0);
    let c = conn(ep(1, 3), ep(4, 22), 0, 0, 0);
    let mut app = app_of(vec![a, b, c]);
    assert_eq!(app.selected(), Some(a.id)); // first
    app.move_up(); // clamp at top
    assert_eq!(app.selected(), Some(a.id));
    app.move_down();
    assert_eq!(app.selected(), Some(b.id));
    app.move_down();
    assert_eq!(app.selected(), Some(c.id));
    app.move_down(); // clamp at bottom
    assert_eq!(app.selected(), Some(c.id));
    app.move_up();
    assert_eq!(app.selected(), Some(b.id));
}

#[test]
fn resort_keeps_same_conn_selected() {
    let a = conn(ep(1, 1), ep(2, 22), 10, 0, 0); // peer 10.0.0.2:22, up 10
    let b = conn(ep(1, 2), ep(3, 22), 20, 0, 0); // peer 10.0.0.3:22, up 20
    let mut app = app_of(vec![a, b]);
    app.move_down(); // select b
    assert_eq!(app.selected(), Some(b.id));
    app.cycle_sort(); // State
    app.cycle_sort(); // BytesUp Desc → order [b(20), a(10)]
    assert_eq!(app.selected(), Some(b.id)); // still b
    assert_eq!(app.visible()[0].id, b.id);
}

#[test]
fn move_is_noop_when_empty() {
    let mut app = app_of(vec![]);
    app.move_down();
    app.move_up();
    assert_eq!(app.selected(), None);
}

#[test]
fn filters_ignore_case() {
    let mut app = app_of(vec![db_conn(), web_conn()]);
    app.enter_filter();
    for c in "HtTpS".chars() {
        app.push_filter(c);
    }
    assert_eq!(app.query(), "HtTpS");
    assert_eq!(app.visible().len(), 1);
    assert_eq!(app.visible()[0].id, web_conn().id);
}

#[test]
fn longer_filters_show_less() {
    let mut app = app_of(vec![db_conn(), web_conn()]);
    app.enter_filter();
    let mut shown = app.visible().len();
    for c in "https".chars() {
        app.push_filter(c);
        assert!(app.visible().len() <= shown);
        shown = app.visible().len();
    }
    assert_eq!(shown, 1);
}

#[test]
fn dropping_from_an_empty_filter_changes_nothing() {
    let mut app = app_of(vec![db_conn()]);
    app.enter_filter();
    app.pop_filter();
    assert_eq!(app.query(), "");
    assert_eq!(app.visible().len(), 1);
}

#[test]
fn subsequences_keep_their_order() {
    assert!(is_subsequence("", ""));
    assert!(is_subsequence("", "a"));
    assert!(is_subsequence("ac", "abc"));
    assert!(!is_subsequence("ca", "abc"));
    assert!(!is_subsequence("aa", "abc"));
    assert!(!is_subsequence("a", ""));
}

#[test]
fn rows_of_equal_bytes_are_ordered_by_connection() {
    let a = conn(ep(1, 1), ep(2, 80), 7, 0, 1);
    let b = conn(ep(1, 1), ep(2, 80), 7, 0, 0);
    let mut app = app_of(vec![a, b]);
    assert_eq!(app.visible()[0].id, b.id);
    app.toggle_dir();
    assert_eq!(app.visible()[0].id, b.id);
}

#[test]
fn moves_undo_each_other() {
    let a = conn(ep(1, 1), ep(2, 22), 0, 0, 0);
    let b = conn(ep(1, 2), ep(3, 22), 0, 0, 0);
    let mut app = app_of(vec![a, b]);
    app.move_down();
    app.move_up();
    assert_eq!(app.selected(), Some(a.id));
}

#[test]
fn a_list_without_a_timeline_has_nothing_to_play() {
    let mut app = app_of(vec![db_conn()]);
    assert_eq!(app.cursor(), Nanos(0));
    app.toggle_play();
    app.tick(Nanos(5));
    assert_eq!(app.cursor(), Nanos(0));
    assert!(app.focus().is_none());
    assert!(!app.is_live());
    assert!(app.live_status().is_none());
}

fn sample(t: u64, state: ConnState, up: u64, down: u64) -> StateSample {
    StateSample {
        t: Nanos(t),
        state,
        bytes_o2r: up,
        bytes_r2o: down,
    }
}

fn spanned(origin: Endpoint, responder: Endpoint, from: u64, to: u64) -> Connection {
    Connection {
        opened_at: Nanos(from),
        last_at: Nanos(to),
        ..conn(origin, responder, 0, 0, 0)
    }
}

fn playing_app() -> App {
    App::replaying(
        Timeline::new(vec![
            (
                spanned(ep(1, 1), ep(2, 22), 0, 100),
                vec![
                    sample(0, ConnState::SynSent, 0, 0),
                    sample(100, ConnState::Established, 9, 4),
                ],
            ),
            (
                spanned(ep(1, 2), ep(3, 443), 50, 1_000),
                vec![sample(50, ConnState::Established, 1, 2)],
            ),
        ]),
        "t".to_string(),
    )
}

#[test]
fn rows_follow_the_cursor() {
    let mut app = playing_app();
    assert_eq!(app.bounds(), (Nanos(0), Nanos(1_000)));
    assert_eq!(app.visible().len(), 1);
    assert_eq!(app.visible()[0].state, ConnState::SynSent);
    app.step_forward();
    assert_eq!(app.cursor(), Nanos(50));
    assert_eq!(app.visible().len(), 2);
    app.step_forward();
    assert_eq!(app.cursor(), Nanos(100));
    assert_eq!(app.visible()[0].state, ConnState::Established);
    assert_eq!(app.visible()[0].bytes_up, 9);
    assert_eq!(app.visible()[0].bytes_down, 4);
    app.step_back();
    assert_eq!(app.cursor(), Nanos(50));
    assert_eq!(app.visible()[0].state, ConnState::SynSent);
}

#[test]
fn playing_reaches_the_end_and_pauses() {
    let mut app = playing_app();
    app.toggle_play();
    app.tick(Nanos(400));
    assert_eq!(app.cursor(), Nanos(400));
    app.tick(Nanos(10_000));
    assert_eq!(app.cursor(), Nanos(1_000));
    assert!(!app.is_playing());
}

#[test]
fn the_focus_is_the_selected_connection() {
    let mut app = playing_app();
    app.step_forward();
    app.move_down();
    let focus = app.focus().expect("a selected connection");
    assert_eq!(focus.origin, ep(1, 2));
    assert_eq!(focus.responder, ep(3, 443));
    assert_eq!(focus.focus_dir, SampleDir::OriginToResponder);
    assert_eq!(focus.x_span, (Nanos(50), Nanos(1_000)));
}

#[test]
fn titles_can_be_changed() {
    let mut app = app_of(vec![]);
    assert_eq!(app.title(), "t");
    app.set_title("live eth0".to_string());
    assert_eq!(app.title(), "live eth0");
}

#[test]
fn detail_views_come_round() {
    let mut view = DetailView::TimeSequence;
    for next in [
        DetailView::InFlight,
        DetailView::Rtt,
        DetailView::Throughput,
        DetailView::TimeSequence,
    ] {
        view = view.next();
        assert_eq!(view, next);
    }
}

#[test]
fn a_live_view_follows_until_frozen() {
    let mut app = App::new_live(NameTable::default(), "live".to_string());
    assert!(app.is_live());
    assert!(app.is_following());
    let entry = || {
        (
            spanned(ep(1, 1), ep(2, 22), 0, 500),
            vec![sample(0, ConnState::Established, 0, 0)],
            vec![],
            vec![],
            vec![],
            vec![],
        )
    };
    let status = LiveStatus {
        dropped: 3,
        approximate: true,
    };
    app.retarget(
        Timeline::with_seq_ending(vec![entry()], Nanos(500)),
        Nanos(0),
        Nanos(500),
        status,
    );
    assert_eq!(app.cursor(), Nanos(500));
    assert_eq!(app.live_status(), Some(status));
    app.toggle_follow();
    app.retarget(
        Timeline::with_seq_ending(vec![entry()], Nanos(900)),
        Nanos(0),
        Nanos(900),
        LiveStatus::default(),
    );
    assert_eq!(app.cursor(), Nanos(500));
    app.toggle_follow();
    assert_eq!(app.cursor(), Nanos(900));
}

#[test]
fn observed_names_reach_the_rows() {
    let mut app = App::new_live(NameTable::default(), "live".to_string());
    app.observe_name(NameObservation {
        ts: Nanos(0),
        ip: ep(2, 0).ip,
        name: HostName::new("db.example").expect("a printable name"),
    });
    app.retarget(
        Timeline::with_seq_ending(
            vec![(
                spanned(ep(1, 1), ep(2, 22), 0, 500),
                vec![sample(0, ConnState::Established, 0, 0)],
                vec![],
                vec![],
                vec![],
                vec![],
            )],
            Nanos(500),
        ),
        Nanos(0),
        Nanos(500),
        LiveStatus::default(),
    );
    let rows = app.visible();
    assert_eq!(
        rows[0].host.as_ref().map(|h| h.as_str()),
        Some("db.example")
    );
}

#[test]
fn each_letter_of_an_ascii_filter_narrows_the_list() {
    let mut app = app_of(vec![db_conn(), web_conn()]);
    app.enter_filter();
    let mut shown: Vec<_> = app.visible().iter().map(|r| r.id).collect();
    for c in "HtTpS".chars() {
        app.push_filter(c);
        let now: Vec<_> = app.visible().iter().map(|r| r.id).collect();
        assert!(now.iter().all(|id| shown.contains(id)), "{:?}", app.query());
        shown = now;
    }
    // Capital letters find the row that small ones find.
    assert_eq!(shown, vec![web_conn().id]);
    assert_eq!(app.query(), "HtTpS");
}
