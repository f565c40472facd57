//! What the screen shows of a capture, and what keys do to it.

use vstd::prelude::*;

use crate::app::{AppModel, DetailView, LiveStatus, Mode, PlayModel};
use crate::conn::Connection;
use crate::endpoint::Endpoint;
use crate::keys::{KeyCode, KeyPress};
use crate::metric::SampleDir;
use crate::net::IpAddr;
use crate::rows::{RowModel, SortDir, SortField};
use crate::state::ConnState;
use crate::time::Nanos;
use crate::timeline::TimelineModel;

verus! {

/// The number an address is ordered by: IPv4 before IPv6, then by value.
pub open spec fn address_place(ip: IpAddr) -> int {
    match ip {
        IpAddr::V4(a) => a.0 as int,
        IpAddr::V6(a) => 0x1_0000_0000 + a.0,
    }
}

/// The number an end is ordered by: its address, then its port.
pub open spec fn end_place(e: Endpoint) -> int {
    address_place(e.ip) * 0x1_0000 + e.port
}

/// How far a connection has come.
pub open spec fn stage(state: ConnState) -> int {
    match state {
        ConnState::SynSent => 0,
        ConnState::SynReceived => 1,
        ConnState::Established => 2,
        ConnState::FinWait => 3,
        ConnState::Closed => 4,
        ConnState::Reset => 5,
    }
}

/// What a row holds in a column, as a number.
pub open spec fn cell(row: RowModel, field: SortField) -> int {
    match field {
        SortField::Peer => end_place(row.peer),
        SortField::State => stage(row.state),
        SortField::BytesUp => row.bytes_up as int,
        SortField::BytesDown => row.bytes_down as int,
    }
}

/// Ends are ordered by their number.
pub proof fn lemma_end_order(a: Endpoint, b: Endpoint)
    ensures
        a.before(b) == (end_place(a) < end_place(b)),
        a == b <==> end_place(a) == end_place(b),
{
}

/// The rows on screen are those in whose search text the filter is spelled in lower case, each as
/// often as it is listed. They grow down the screen in the column they are ordered by, or shrink
/// where the direction is down; rows that hold the same there are ordered by the ends of their
/// connection, the lower first, and by its count, in either direction.
pub proof fn law_the_list_shows_what_matches_in_order(app: AppModel, row: RowModel, i: int, j: int)
    requires
        app.rows.len() <= usize::MAX,
        0 <= i < j < app.visible().len(),
    ensures
        app.visible().to_multiset().count(row) == (if crate::rows::is_spelled_in(
            crate::text::lowered(app.query),
            row.search,
        ) {
            app.rows.to_multiset().count(row)
        } else {
            0
        }),
        ({
            let (a, b) = (app.visible()[i], app.visible()[j]);
            let (x, y) = (cell(a, app.field), cell(b, app.field));
            &&& app.dir == SortDir::Asc ==> x <= y
            &&& app.dir == SortDir::Desc ==> x >= y
            &&& x == y ==> end_place(a.id.pair.low) <= end_place(b.id.pair.low)
            &&& x == y && a.id.pair.low == b.id.pair.low ==> end_place(a.id.pair.high) <= end_place(
                b.id.pair.high,
            )
            &&& x == y && a.id.pair == b.id.pair ==> a.id.instance <= b.id.instance
        }),
{
    let lower = crate::text::lowered(app.query);
    let kept = crate::rows::matching(app.rows, lower);
    crate::rows::lemma_matching_len(app.rows, lower);
    crate::rows::law_listing_orders_the_rows(kept, app.field, app.dir);
    lemma_matching_counts(app.rows, lower, row);
    let keys = crate::rows::keys_of(kept, app.field, app.dir);
    crate::sort::law_every_list_has_a_stable_order(keys);
    assert(app.visible().len() == kept.len());
    let (a, b) = (app.visible()[i], app.visible()[j]);
    assert(!crate::rows::listed_before(b, a, app.field, app.dir));
    lemma_end_order(a.peer, b.peer);
    lemma_end_order(b.peer, a.peer);
    lemma_end_order(a.id.pair.low, b.id.pair.low);
    lemma_end_order(b.id.pair.low, a.id.pair.low);
    lemma_end_order(b.id.pair.high, a.id.pair.high);
}

proof fn lemma_matching_counts(rows: Seq<RowModel>, lower: Seq<char>, row: RowModel)
    ensures
        crate::rows::matching(rows, lower).to_multiset().count(row) == (
        if crate::rows::is_spelled_in(lower, row.search) {
            rows.to_multiset().count(row)
        } else {
            0
        }),
    decreases rows.len(),
{
    broadcast use vstd::seq_lib::group_to_multiset_ensures;

    if rows.len() > 0 {
        lemma_matching_counts(rows.drop_last(), lower, row);
        assert(rows.drop_last().push(rows.last()) =~= rows);
    }
}

/// A row tells the number, the responder, the state and the traffic of its connection, and is found
/// by what stands in its search text: both ends, the state, and the service of the responder's port
/// where it has one.
pub proof fn law_rows_tell_of_their_connection(c: Connection, host: Option<Seq<char>>)
    ensures
        ({
            let row = crate::rows::row_of(c, host);
            let found = crate::rows::search_text(c);
            &&& row.id == c.id
            &&& row.peer == c.responder
            &&& row.state == c.state
            &&& row.origin_inferred == c.origin_inferred
            &&& row.bytes_up == c.bytes_o2r
            &&& row.bytes_down == c.bytes_r2o
            &&& row.host == host
            &&& row.service == crate::service::service_at(c.responder.port as int)
            &&& row.search == crate::text::lowered(found)
            &&& crate::text::contains(found, c.origin.text_spec())
            &&& crate::text::contains(found, c.responder.text_spec())
            &&& crate::text::contains(found, c.state.label_spec())
            &&& row.service matches Some(name) ==> crate::text::contains(found, name)
        }),
{
    let found = crate::rows::search_text(c);
    let one = c.origin.text_spec();
    let two = one + " "@ + c.responder.text_spec();
    let service = match crate::service::service_at(c.responder.port as int) {
        Some(name) => name,
        None => Seq::empty(),
    };
    let three = two + " "@ + service;
    lemma_stands_between(found, Seq::empty(), one, found.skip(one.len() as int));
    lemma_stands_between(found, one + " "@, c.responder.text_spec(), found.skip(two.len() as int));
    lemma_stands_between(found, two + " "@, service, found.skip(three.len() as int));
    lemma_stands_between(found, three + " "@, c.state.label_spec(), Seq::empty());
}

/// What stands between two texts stands in the whole.
pub proof fn lemma_stands_between(
    whole: Seq<char>,
    front: Seq<char>,
    part: Seq<char>,
    back: Seq<char>,
)
    requires
        whole =~= front + part + back,
    ensures
        crate::text::contains(whole, part),
{
    let at = front.len() as int;
    assert(whole.subrange(at, at + part.len()) =~= part);
    assert(crate::text::stands_at(whole, part, at));
}

/// Moving the selection goes one row down or up and stops at the ends of the list. From a selection
/// that does not show it goes on from the first row. Nothing else changes.
pub proof fn law_moving_goes_row_by_row(app: AppModel, i: int)
    requires
        0 <= i < app.visible().len(),
        forall|a: int, b: int|
            0 <= a < b < app.visible().len() ==> (#[trigger] app.visible()[a]).id != (
            #[trigger] app.visible()[b]).id,
        app.selected == Some(app.visible()[i].id) || (i == 0 && (app.selected matches Some(id)
            ==> forall|k: int|
            0 <= k < app.visible().len() ==> (#[trigger] app.visible()[k]).id != id)),
    ensures
        ({
            let rows = app.visible();
            let (down, up) = (app.moved(true), app.moved(false));
            &&& i + 1 < rows.len() ==> down.selected == Some(rows[i + 1].id)
            &&& i + 1 == rows.len() ==> down.selected == Some(rows[i].id)
            &&& i > 0 ==> up.selected == Some(rows[i - 1].id)
            &&& i == 0 ==> up.selected == Some(rows[0].id)
            &&& down == (AppModel { selected: down.selected, ..app })
            &&& up == (AppModel { selected: up.selected, ..app })
        }),
{
    let rows = app.visible();
    if let Some(id) = app.selected {
        crate::app::law_places_are_rows(rows, id);
    }
}

/// The program starts with every row shown by peer from the front, the first of them selected, the
/// pane shut and keys as commands.
pub proof fn law_the_program_starts_at_the_top(
    rows: Seq<RowModel>,
    title: Seq<char>,
    play: Option<PlayModel>,
)
    ensures
        ({
            let app = AppModel::over(rows, title, play);
            &&& app.rows == rows
            &&& app.title == title
            &&& app.play == play
            &&& app.field == SortField::Peer && app.dir == SortDir::Asc
            &&& app.mode == Mode::Nav
            &&& app.query == Seq::<char>::empty()
            &&& !app.detail_open
            &&& app.view == DetailView::TimeSequence
            &&& app.visible().len() == 0 ==> app.selected is None
            &&& app.visible().len() > 0 ==> app.selected == Some(app.visible()[0].id)
        }),
{
}

/// The list of a playback has one row for each connection that is open at the cursor, in their
/// order, with the name its responder's address was last seen under. The selection stays as long as
/// its row shows, and goes to the first row otherwise.
pub proof fn law_the_list_follows_the_cursor(app: AppModel, p: PlayModel)
    ensures
        ({
            let after = app.playing_at(p);
            let conns = crate::timeline::connections_as_of(p.timeline.entries, p.transport.cursor);
            &&& after.play == Some(p)
            &&& after.rows.len() == conns.len()
            &&& forall|i: int|
                0 <= i < conns.len() ==> {
                    let row = #[trigger] after.rows[i];
                    let c = conns[i];
                    &&& row == crate::rows::row_of(c, row.host)
                    &&& p.names.names.contains_key(c.responder.ip) ==> row.host == Some(
                        p.names.names[c.responder.ip].1,
                    )
                    &&& !p.names.names.contains_key(c.responder.ip) ==> row.host is None
                }
            &&& after.visible().len() == 0 ==> after.selected is None
            &&& after.visible().len() > 0 ==> {
                ||| after.selected == app.selected && exists|k: int|
                    0 <= k < after.visible().len() && Some((#[trigger] after.visible()[k]).id)
                        == app.selected
                ||| after.selected == Some(after.visible()[0].id) && forall|k: int|
                    0 <= k < after.visible().len() ==> Some((#[trigger] after.visible()[k]).id)
                        != app.selected
            }
            &&& after == (AppModel {
                rows: after.rows,
                play: Some(p),
                selected: after.selected,
                ..app
            })
        }),
{
    let after = app.playing_at(p);
    if let Some(id) = app.selected {
        crate::app::law_places_are_rows(after.visible(), id);
        match crate::app::place_of(after.visible(), id) {
            Some(k) => {
                assert(Some(after.visible()[k].id) == app.selected);
            },
            None => {},
        }
    }
}

/// A newer timeline of a live capture is shown from its horizon to now. A cursor that follows is at
/// now; another stays, or goes to the end that it was left behind by.
pub proof fn law_live_views_keep_up(
    app: AppModel,
    timeline: TimelineModel,
    horizon: Nanos,
    now: Nanos,
    status: LiveStatus,
)
    requires
        app.is_live(),
        horizon.0 <= now.0,
    ensures
        ({
            let after = app.retargeted(timeline, horizon, now, status);
            let (was, now_at) = (app.transport(), after.transport());
            &&& after.play matches Some(p) && p.timeline == timeline && (p.live matches Some(v)
                && v.status == status && v.following == app.is_following())
            &&& now_at.start == horizon && now_at.end == now
            &&& app.is_following() ==> now_at.cursor == now
            &&& !app.is_following() && was.cursor.0 < horizon.0 ==> now_at.cursor == horizon
            &&& !app.is_following() && was.cursor.0 > now.0 ==> now_at.cursor == now
            &&& !app.is_following() && horizon.0 <= was.cursor.0 <= now.0 ==> now_at.cursor
                == was.cursor
            &&& !now_at.playing
            &&& after.query == app.query && after.field == app.field && after.dir == app.dir
            &&& after.mode == app.mode && after.detail_open == app.detail_open && after.view
                == app.view
        }),
{
}

/// The graphs of the detail pane are drawn of the direction that carried more bytes, and of the
/// origin's where both carried as many. They belong to the connection that is selected.
pub proof fn law_the_pane_shows_the_selection(app: AppModel, c: Connection)
    ensures
        c.bytes_r2o > c.bytes_o2r <==> crate::app::busier_direction(c)
            == SampleDir::ResponderToOrigin,
        c.bytes_r2o <= c.bytes_o2r <==> crate::app::busier_direction(c)
            == SampleDir::OriginToResponder,
        crate::app::focus_place(app) matches Some(i) ==> app.play is Some && app.selected is Some
            && app.play->0.timeline.position(app.selected->0) == Some(i),
        app.selected is None || app.play is None ==> crate::app::focus_place(app) is None,
{
}

/// The keys for ordering, filtering, moving and the pane do one thing each and leave the rest alone.
pub proof fn law_keys_of_the_list(app: AppModel)
    requires
        app.mode == Mode::Nav,
    ensures
        ({
            let after = |code: KeyCode| app.after_key(KeyPress { code, control: false });
            &&& after(KeyCode::Char('s')) == (AppModel {
                field: match app.field {
                    SortField::Peer => SortField::State,
                    SortField::State => SortField::BytesUp,
                    SortField::BytesUp => SortField::BytesDown,
                    SortField::BytesDown => SortField::Peer,
                },
                dir: match app.field {
                    SortField::State => SortDir::Desc,
                    SortField::BytesUp => SortDir::Desc,
                    _ => SortDir::Asc,
                },
                ..app
            })
            &&& after(KeyCode::Char('S')) == (AppModel {
                dir: if app.dir == SortDir::Asc {
                    SortDir::Desc
                } else {
                    SortDir::Asc
                },
                ..app
            })
            &&& after(KeyCode::Char('/')) == (AppModel { mode: Mode::Filter, ..app })
            &&& after(KeyCode::Char('j')) == app.moved(true)
            &&& after(KeyCode::Down) == app.moved(true)
            &&& after(KeyCode::Char('k')) == app.moved(false)
            &&& after(KeyCode::Up) == app.moved(false)
            &&& after(KeyCode::Enter) == (AppModel { detail_open: true, ..app })
            &&& after(KeyCode::Esc) == (AppModel { detail_open: false, ..app })
            &&& after(KeyCode::Tab) == (AppModel {
                view: match app.view {
                    DetailView::TimeSequence => DetailView::InFlight,
                    DetailView::InFlight => DetailView::Rtt,
                    DetailView::Rtt => DetailView::Throughput,
                    DetailView::Throughput => DetailView::TimeSequence,
                },
                ..app
            })
            &&& after(KeyCode::Backspace) == app
            &&& after(KeyCode::Other) == app
        }),
{
}

/// The keys of the playback. The space bar pauses or plays a recording and lets a live cursor go or
/// follow again; plus and minus go through the speeds; the arrows seek; the dot and the comma go to
/// the nearest event. Whatever moves the cursor of a live view keeps it from following.
pub proof fn law_keys_of_the_playback(app: AppModel, p: PlayModel)
    requires
        app.mode == Mode::Nav,
        app.play == Some(p),
        crate::timeline::increasing(p.timeline.events),
        p.transport.in_bounds(),
        0 <= p.transport.rung < 6,
    ensures
        ({
            let after = |c: char|
                app.after_key(KeyPress { code: KeyCode::Char(c), control: false });
            let arrow = |code: KeyCode| app.after_key(KeyPress { code, control: false });
            let tr = p.transport;
            let (ahead, behind) = (after('.').transport(), after(',').transport());
            &&& !app.is_live() ==> after(' ').transport().playing == !tr.playing
            &&& app.is_live() ==> after(' ').is_following() == !app.is_following()
            &&& app.is_live() && !app.is_following() ==> after(' ').transport().cursor == tr.end
            &&& app.is_following() ==> after(' ').transport() == tr
            &&& after('+').transport().rung == (if tr.rung == 5 {
                5
            } else {
                tr.rung + 1
            })
            &&& after('-').transport().rung == (if tr.rung == 0 {
                0
            } else {
                tr.rung - 1
            })
            &&& after('=') == after('+')
            &&& after('_') == after('-')
            &&& arrow(KeyCode::Right).transport() == tr.sought(true)
            &&& arrow(KeyCode::Left).transport() == tr.sought(false)
            &&& !arrow(KeyCode::Right).is_following() && !arrow(KeyCode::Left).is_following()
            &&& !after('.').is_following() && !after(',').is_following()
            &&& forall|k: int|
                0 <= k < p.timeline.events.len() && tr.cursor.0 < (#[trigger] p.timeline.events[k]).0
                    <= tr.end.0 ==> tr.cursor.0 < ahead.cursor.0 <= p.timeline.events[k].0
            &&& forall|k: int|
                0 <= k < p.timeline.events.len() && tr.start.0 <= (
                #[trigger] p.timeline.events[k]).0 < tr.cursor.0 ==> p.timeline.events[k].0
                    <= behind.cursor.0 < tr.cursor.0
            &&& (forall|k: int|
                0 <= k < p.timeline.events.len() ==> (#[trigger] p.timeline.events[k]).0
                    <= tr.cursor.0) ==> ahead.cursor == tr.cursor
            &&& (forall|k: int|
                0 <= k < p.timeline.events.len() ==> (#[trigger] p.timeline.events[k]).0
                    >= tr.cursor.0) ==> behind.cursor == tr.cursor
        }),
{
    let events = p.timeline.events;
    crate::timeline::law_next_event_is_nearest(events, p.transport.cursor);
    crate::timeline::law_prev_event_is_nearest(events, p.transport.cursor);
    assert forall|k: int| 0 <= k < events.len() implies events.contains(#[trigger] events[k]) by {}
}

/// While the filter is typed, characters are appended to it, the last one can be taken back, Enter
/// keeps it and Esc empties it; both give the keys their meaning back.
pub proof fn law_keys_of_the_filter(app: AppModel, c: char, control: bool)
    requires
        app.mode == Mode::Filter,
        !(control && c == 'c'),
    ensures
        ({
            let after = |code: KeyCode| app.after_key(KeyPress { code, control });
            &&& after(KeyCode::Char(c)).query == app.query.push(c)
            &&& after(KeyCode::Char(c)).mode == Mode::Filter
            &&& app.query.len() > 0 ==> after(KeyCode::Backspace).query == app.query.drop_last()
            &&& app.query.len() == 0 ==> after(KeyCode::Backspace).query == app.query
            &&& after(KeyCode::Backspace).mode == Mode::Filter
            &&& after(KeyCode::Enter) == (AppModel { mode: Mode::Nav, ..app })
            &&& after(KeyCode::Esc).query == Seq::<char>::empty()
            &&& after(KeyCode::Esc).mode == Mode::Nav
            &&& after(KeyCode::Tab) == app && after(KeyCode::Up) == app && after(KeyCode::Down)
                == app && after(KeyCode::Left) == app && after(KeyCode::Right) == app && after(
                KeyCode::Other,
            ) == app
        }),
{
}

/// The program ends on control-C, whatever keys mean, and on `q` where keys are commands.
pub proof fn law_two_keys_end_the_program(app: AppModel, key: KeyPress)
    ensures
        app.quits_on(KeyPress { code: KeyCode::Char('c'), control: true }),
        app.mode == Mode::Nav ==> app.quits_on(
            KeyPress { code: KeyCode::Char('q'), control: key.control },
        ),
        app.quits_on(key) ==> key.code == KeyCode::Char('c') || key.code == KeyCode::Char('q'),
        app.quits_on(key) && key.code == KeyCode::Char('c') ==> key.control,
        app.quits_on(key) && key.code == KeyCode::Char('q') ==> app.mode == Mode::Nav,
{
}

} // verus!
