//! The state of the interactive program: the connection list with its order, filter and
//! selection, the playback of a timeline, and the detail pane. No input or output, no clock.

use vstd::prelude::*;

use crate::conn::{ConnId, Connection};
use crate::endpoint::Endpoint;
use crate::metric::SampleDir;
use crate::name::{HostName, NameModel, NameObservation, NameTable, NameTableModel};
use crate::rows::{natural_dir, visible_rows, ConnRow, RowModel, SortDir, SortField};
use crate::time::Nanos;
use crate::timeline::{
    InFlightSample, RttSample, SeqSample, StateSample, ThroughputSample, Timeline, TimelineModel,
};
use crate::transport::{Transport, TransportModel};

verus! {

/// Removes the last character, and gives it back if there was one.
pub assume_specification[ String::pop ](s: &mut String) -> (res: Option<char>)
    ensures
        old(s)@.len() == 0 ==> res is None && final(s)@ == old(s)@,
        old(s)@.len() > 0 ==> res == Some(old(s)@.last()) && final(s)@ == old(s)@.drop_last(),
;

/// What keys mean at the moment: commands, or text of the filter.
#[derive(Debug, Clone, Copy, PartialEq, Eq, Structural)]
pub enum Mode {
    Nav,
    Filter,
}

/// Whether to go on after a key.
#[derive(Debug, Clone, Copy, PartialEq, Eq, Structural)]
pub enum Outcome {
    Continue,
    Quit,
}

/// The graph in the detail pane.
#[derive(Debug, Clone, Copy, PartialEq, Eq, Structural)]
pub enum DetailView {
    TimeSequence,
    InFlight,
    Rtt,
    Throughput,
}

impl DetailView {
    /// The graph that comes next.
    pub open spec fn following(self) -> DetailView {
        match self {
            DetailView::TimeSequence => DetailView::InFlight,
            DetailView::InFlight => DetailView::Rtt,
            DetailView::Rtt => DetailView::Throughput,
            DetailView::Throughput => DetailView::TimeSequence,
        }
    }

    /// The graph that comes next.
    #[must_use]
    pub fn next(self) -> (res: DetailView)
        ensures
            res == self.following(),
    {
        match self {
            DetailView::TimeSequence => DetailView::InFlight,
            DetailView::InFlight => DetailView::Rtt,
            DetailView::Rtt => DetailView::Throughput,
            DetailView::Throughput => DetailView::TimeSequence,
        }
    }
}

/// How complete a live capture is: events lost, and whether that makes what is shown approximate.
#[derive(Debug, Clone, Copy, PartialEq, Eq, Structural)]
pub struct LiveStatus {
    pub dropped: u64,
    pub approximate: bool,
}

impl Default for LiveStatus {
    fn default() -> (res: LiveStatus)
        ensures
            res == (LiveStatus { dropped: 0, approximate: false }),
    {
        LiveStatus { dropped: 0, approximate: false }
    }
}

/// A live view: whether the cursor follows the present, and how complete the capture is.
#[derive(Debug, Clone, Copy, PartialEq, Eq, Structural)]
pub struct LiveView {
    pub following: bool,
    pub status: LiveStatus,
}

/// A timeline and the position on it.
#[derive(Debug)]
struct Playback {
    timeline: Timeline,
    transport: Transport,
    names: NameTable,
    live: Option<LiveView>,
}

/// What a playback says.
#[verifier::ext_equal]
pub ghost struct PlayModel {
    pub timeline: TimelineModel,
    pub transport: TransportModel,
    pub names: NameTableModel,
    pub live: Option<LiveView>,
}

impl View for Playback {
    type V = PlayModel;

    closed spec fn view(&self) -> PlayModel {
        PlayModel {
            timeline: self.timeline@,
            transport: self.transport@,
            names: self.names@,
            live: self.live,
        }
    }
}

/// The state of the program.
#[derive(Debug)]
pub struct App {
    rows: Vec<ConnRow>,
    sort_field: SortField,
    sort_dir: SortDir,
    mode: Mode,
    query: String,
    selected: Option<ConnId>,
    title: String,
    detail_open: bool,
    detail_view: DetailView,
    play: Option<Playback>,
}

/// What the state of the program says.
#[verifier::ext_equal]
pub ghost struct AppModel {
    pub rows: Seq<RowModel>,
    pub field: SortField,
    pub dir: SortDir,
    pub mode: Mode,
    pub query: Seq<char>,
    pub selected: Option<ConnId>,
    pub title: Seq<char>,
    pub detail_open: bool,
    pub view: DetailView,
    pub play: Option<PlayModel>,
}

impl View for App {
    type V = AppModel;

    closed spec fn view(&self) -> AppModel {
        AppModel {
            rows: crate::rows::models(self.rows@),
            field: self.sort_field,
            dir: self.sort_dir,
            mode: self.mode,
            query: self.query@,
            selected: self.selected,
            title: self.title@,
            detail_open: self.detail_open,
            view: self.detail_view,
            play: match self.play {
                Some(p) => Some(p@),
                None => None,
            },
        }
    }
}

/// The place of the first row of connection `id` from `from` on.
pub open spec fn place_from(rows: Seq<RowModel>, id: ConnId, from: int) -> Option<int>
    decreases rows.len() - from,
{
    if from < 0 || from >= rows.len() {
        None
    } else if rows[from].id == id {
        Some(from)
    } else {
        place_from(rows, id, from + 1)
    }
}

/// The place of the row of connection `id`.
pub open spec fn place_of(rows: Seq<RowModel>, id: ConnId) -> Option<int> {
    place_from(rows, id, 0)
}

/// The connection of the first row.
pub open spec fn first_id(rows: Seq<RowModel>) -> Option<ConnId> {
    if rows.len() > 0 {
        Some(rows[0].id)
    } else {
        None
    }
}

/// The selection that stays if it is among `rows`, else moves to the first of them.
pub open spec fn kept_selection(selected: Option<ConnId>, rows: Seq<RowModel>) -> Option<ConnId> {
    match selected {
        Some(id) => if place_of(rows, id) is Some {
            Some(id)
        } else {
            first_id(rows)
        },
        None => first_id(rows),
    }
}

/// The selection one row further down or up, as far as there are rows. A selection that is not
/// among `rows` counts as the first.
pub open spec fn stepped_selection(
    selected: Option<ConnId>,
    rows: Seq<RowModel>,
    down: bool,
) -> Option<ConnId> {
    if rows.len() == 0 {
        None
    } else {
        let cur = match selected {
            Some(id) => match place_of(rows, id) {
                Some(i) => i,
                None => 0,
            },
            None => 0,
        };
        let next = if down {
            if cur + 1 < rows.len() {
                cur + 1
            } else {
                rows.len() - 1
            }
        } else {
            if cur > 0 {
                cur - 1
            } else {
                0
            }
        };
        Some(rows[next].id)
    }
}

/// The name of an address in a table.
pub open spec fn host_of(names: NameTableModel, ip: crate::net::IpAddr) -> Option<Seq<char>> {
    if names.names.contains_key(ip) {
        Some(names.names[ip].1)
    } else {
        None
    }
}

/// One row per connection, with the name of its responder.
pub open spec fn rows_of(conns: Seq<Connection>, names: NameTableModel) -> Seq<RowModel> {
    conns.map_values(|c: Connection| crate::rows::row_of(c, host_of(names, c.responder.ip)))
}

impl AppModel {
    /// The cursor of a playback lies between its ends, and its speed is on the ladder.
    pub open spec fn wf(self) -> bool {
        self.play matches Some(p) ==> p.transport.in_bounds() && 0 <= p.transport.rung
            < crate::transport::RUNGS
    }

    /// The state at the start over some rows.
    pub open spec fn over(rows: Seq<RowModel>, title: Seq<char>, play: Option<PlayModel>) -> AppModel {
        AppModel {
            rows,
            field: SortField::Peer,
            dir: SortDir::Asc,
            mode: Mode::Nav,
            query: Seq::empty(),
            selected: None,
            title,
            detail_open: false,
            view: DetailView::TimeSequence,
            play,
        }.reconciled()
    }

    /// The rows on screen.
    pub open spec fn visible(self) -> Seq<RowModel> {
        crate::rows::shown(self.rows, crate::text::lowered(self.query), self.field, self.dir)
    }

    /// With a selection that is on screen, if anything is.
    pub open spec fn reconciled(self) -> AppModel {
        AppModel { selected: kept_selection(self.selected, self.visible()), ..self }
    }

    /// With the selection one row further.
    pub open spec fn moved(self, down: bool) -> AppModel {
        AppModel { selected: stepped_selection(self.selected, self.visible(), down), ..self }
    }

    /// Ordered by the next column, in the direction that suits it.
    pub open spec fn resorted(self) -> AppModel {
        AppModel { field: self.field.following(), dir: self.field.following().natural(), ..self }
    }

    /// With another filter.
    pub open spec fn filtered(self, query: Seq<char>) -> AppModel {
        AppModel { query, ..self }.reconciled()
    }

    /// With the playback `p` and the rows of its cursor time.
    pub open spec fn playing_at(self, p: PlayModel) -> AppModel {
        AppModel {
            rows: rows_of(
                crate::timeline::connections_as_of(p.timeline.entries, p.transport.cursor),
                p.names,
            ),
            play: Some(p),
            ..self
        }.reconciled()
    }

    /// With the transport of the playback changed, if there is one.
    pub open spec fn with_transport(self, tr: TransportModel) -> AppModel {
        match self.play {
            Some(p) => AppModel { play: Some(PlayModel { transport: tr, ..p }), ..self },
            None => self,
        }
    }

    /// With the cursor of the playback moved, if there is one.
    pub open spec fn transported(self, tr: TransportModel) -> AppModel {
        match self.play {
            Some(p) => self.playing_at(PlayModel { transport: tr, ..p }),
            None => self,
        }
    }

    /// The transport of the playback, or one that stands still at zero.
    pub open spec fn transport(self) -> TransportModel {
        match self.play {
            Some(p) => p.transport,
            None => TransportModel::fresh(Nanos(0), Nanos(0)),
        }
    }

    /// The program shows a live capture.
    pub open spec fn is_live(self) -> bool {
        self.play matches Some(p) && p.live is Some
    }

    /// The cursor follows the present.
    pub open spec fn is_following(self) -> bool {
        self.play matches Some(p) && (p.live matches Some(v) && v.following)
    }

    /// With a live cursor no longer following.
    pub open spec fn frozen(self) -> AppModel {
        match self.play {
            Some(p) => match p.live {
                Some(v) => AppModel {
                    play: Some(PlayModel { live: Some(LiveView { following: false, ..v }), ..p }),
                    ..self
                },
                None => self,
            },
            None => self,
        }
    }

    /// With following switched over: a cursor that follows again jumps to the present.
    pub open spec fn follow_toggled(self) -> AppModel {
        if self.is_following() {
            self.frozen()
        } else {
            match self.play {
                Some(p) => match p.live {
                    Some(v) => self.playing_at(
                        PlayModel {
                            live: Some(LiveView { following: true, ..v }),
                            transport: p.transport.at(p.transport.end.0 as int),
                            ..p
                        },
                    ),
                    None => self,
                },
                None => self,
            }
        }
    }

    /// With the cursor at the next event, if there is one.
    pub open spec fn stepped_on(self) -> AppModel {
        match self.play {
            Some(p) => match crate::timeline::next_after(p.timeline.events, p.transport.cursor) {
                Some(t) => self.transported(p.transport.at(t.0 as int)),
                None => self,
            },
            None => self,
        }
    }

    /// With the cursor at the event before, if there is one.
    pub open spec fn stepped_back(self) -> AppModel {
        match self.play {
            Some(p) => match crate::timeline::prev_before(p.timeline.events, p.transport.cursor) {
                Some(t) => self.transported(p.transport.at(t.0 as int)),
                None => self,
            },
            None => self,
        }
    }

    /// With a newer timeline of a live capture, from `horizon` to `now`. A cursor that follows is
    /// at the present; another stays, as far as that time is still covered.
    pub open spec fn retargeted(
        self,
        timeline: TimelineModel,
        horizon: Nanos,
        now: Nanos,
        status: LiveStatus,
    ) -> AppModel {
        match self.play {
            Some(p) => match p.live {
                Some(v) => {
                    let end = crate::time::later(now, horizon);
                    let fresh = TransportModel::fresh(horizon, end);
                    let cursor = if v.following {
                        end
                    } else {
                        p.transport.cursor
                    };
                    self.playing_at(
                        PlayModel {
                            timeline,
                            transport: fresh.at(cursor.0 as int),
                            live: Some(LiveView { following: v.following, status }),
                            ..p
                        },
                    )
                },
                None => self,
            },
            None => self,
        }
    }

    /// With a name observed.
    pub open spec fn named(self, obs: NameModel) -> AppModel {
        match self.play {
            Some(p) => self.playing_at(PlayModel { names: p.names.after(obs), ..p }),
            None => self,
        }
    }

    /// `obs` can be recorded, or its refusal counted.
    pub open spec fn has_room_for_name(self, obs: NameModel) -> bool {
        self.play matches Some(p) ==> p.names.has_room(obs)
    }

    /// The selection is on screen, and there is one unless nothing is.
    pub open spec fn selection_shows(self) -> bool {
        match self.selected {
            Some(id) => place_of(self.visible(), id) is Some,
            None => self.visible().len() == 0,
        }
    }
}

/// The connection in the detail pane: its ends, the points of its graphs, the direction they are
/// drawn of and the time they cover.
pub struct FocusConn<'a> {
    pub origin: Endpoint,
    pub responder: Endpoint,
    pub series: &'a [SeqSample],
    pub inflight: &'a [InFlightSample],
    pub rtt: &'a [RttSample],
    pub throughput: &'a [ThroughputSample],
    pub focus_dir: SampleDir,
    pub x_span: (Nanos, Nanos),
}

/// The direction with more bytes; that of the origin where there are as many.
pub open spec fn busier_direction(c: Connection) -> SampleDir {
    if c.bytes_o2r >= c.bytes_r2o {
        SampleDir::OriginToResponder
    } else {
        SampleDir::ResponderToOrigin
    }
}

/// The place of the selected connection on the timeline.
pub open spec fn focus_place(app: AppModel) -> Option<int> {
    match (app.play, app.selected) {
        (Some(p), Some(id)) => p.timeline.position(id),
        _ => None,
    }
}

/// The place of the row of connection `id` among `rows`.
#[must_use]
pub fn row_place(rows: &Vec<&ConnRow>, id: ConnId) -> (res: Option<usize>)
    ensures
        match res {
            Some(i) => place_of(crate::rows::pointed(rows@), id) == Some(i as int) && i
                < rows@.len(),
            None => place_of(crate::rows::pointed(rows@), id) is None,
        },
{
    let ghost all = crate::rows::pointed(rows@);
    let mut i: usize = 0;
    while i < rows.len()
        invariant
            i <= rows@.len(),
            all == crate::rows::pointed(rows@),
            place_of(all, id) == place_from(all, id, i as int),
        decreases rows@.len() - i,
    {
        if rows[i].id == id {
            return Some(i);
        }
        i = i + 1;
    }
    None
}

/// The selection that stays if it is among `rows`, else moves to the first of them.
#[must_use]
pub fn keep_selection(selected: Option<ConnId>, rows: &Vec<&ConnRow>) -> (res: Option<ConnId>)
    ensures
        res == kept_selection(selected, crate::rows::pointed(rows@)),
{
    if let Some(id) = selected {
        if row_place(rows, id).is_some() {
            return Some(id);
        }
    }
    if rows.len() > 0 {
        Some(rows[0].id)
    } else {
        None
    }
}

/// The selection one row further down or up, as far as there are rows.
#[must_use]
pub fn step_selection(selected: Option<ConnId>, rows: &Vec<&ConnRow>, down: bool) -> (res: Option<
    ConnId,
>)
    ensures
        res == stepped_selection(selected, crate::rows::pointed(rows@), down),
{
    if rows.len() == 0 {
        return None;
    }
    let cur: usize = match selected {
        Some(id) => match row_place(rows, id) {
            Some(i) => i,
            None => 0,
        },
        None => 0,
    };
    let next: usize = if down {
        if cur + 1 < rows.len() {
            cur + 1
        } else {
            rows.len() - 1
        }
    } else {
        cur.saturating_sub(1)
    };
    Some(rows[next].id)
}

/// One row per connection, with the name of its responder.
fn build_rows(conns: &[Connection], names: &NameTable) -> (res: Vec<ConnRow>)
    ensures
        crate::rows::models(res@) == rows_of(conns@, names@),
{
    let mut rows: Vec<ConnRow> = Vec::new();
    let mut i: usize = 0;
    while i < conns.len()
        invariant
            i <= conns@.len(),
            crate::rows::models(rows@) == rows_of(conns@.take(i as int), names@),
        decreases conns@.len() - i,
    {
        let c = &conns[i];
        let host: Option<HostName> = match names.resolve(c.responder.ip) {
            Some(name) => Some(name.copy()),
            None => None,
        };
        let ghost before = rows@;
        let row = ConnRow::from_connection(c, host);
        let ghost model = row@;
        rows.push(row);
        proof {
            let done = conns@.take(i as int);
            assert(conns@.take(i + 1) =~= done.push(*c));
            assert(crate::rows::models(rows@) =~= crate::rows::models(before).push(model));
            assert(rows_of(done.push(*c), names@) =~= rows_of(done, names@).push(model));
        }
        i = i + 1;
    }
    proof {
        assert(conns@.take(i as int) =~= conns@);
    }
    rows
}

impl App {
    fn over(rows: Vec<ConnRow>, title: String, play: Option<Playback>) -> (res: App)
        ensures
            res@ == AppModel::over(
                crate::rows::models(rows@),
                title@,
                match play {
                    Some(p) => Some(p@),
                    None => None,
                },
            ),
    {
        let mut app = App {
            rows,
            sort_field: SortField::Peer,
            sort_dir: SortDir::Asc,
            mode: Mode::Nav,
            query: String::new(),
            selected: None,
            title,
            detail_open: false,
            detail_view: DetailView::TimeSequence,
            play,
        };
        proof {
            assert(app.query@ =~= Seq::empty());
        }
        app.reconcile_selection();
        app
    }

    /// A list of the given connections, without a timeline. The first row on screen is selected.
    #[must_use]
    pub fn new(conns: &[Connection], title: String) -> (res: App)
        ensures
            res@ == AppModel::over(
                rows_of(conns@, NameTableModel::fresh()),
                title@,
                None,
            ),
            res@.wf(),
    {
        let names = NameTable::new();
        let rows = build_rows(conns, &names);
        App::over(rows, title, None)
    }

    /// The playback of a timeline, paused at its start, with the names known for addresses.
    #[must_use]
    pub fn new_with_names(timeline: Timeline, names: NameTable, title: String) -> (res: App)
        requires
            timeline@.start.0 <= timeline@.end.0,
        ensures
            res@ == AppModel::over(
                rows_of(
                    crate::timeline::connections_as_of(timeline@.entries, timeline@.start),
                    names@,
                ),
                title@,
                Some(
                    PlayModel {
                        timeline: timeline@,
                        transport: TransportModel::fresh(timeline@.start, timeline@.end),
                        names: names@,
                        live: None,
                    },
                ),
            ),
            res@.wf(),
    {
        let (start, end) = timeline.bounds();
        let conns = timeline.connections_at(start);
        let rows = build_rows(conns.as_slice(), &names);
        let transport = Transport::new(start, end);
        App::over(rows, title, Some(Playback { timeline, transport, names, live: None }))
    }

    /// The playback of a timeline without names.
    #[must_use]
    pub fn replaying(timeline: Timeline, title: String) -> (res: App)
        requires
            timeline@.start.0 <= timeline@.end.0,
        ensures
            res@ == AppModel::over(
                rows_of(
                    crate::timeline::connections_as_of(timeline@.entries, timeline@.start),
                    NameTableModel::fresh(),
                ),
                title@,
                Some(
                    PlayModel {
                        timeline: timeline@,
                        transport: TransportModel::fresh(timeline@.start, timeline@.end),
                        names: NameTableModel::fresh(),
                        live: None,
                    },
                ),
            ),
            res@.wf(),
    {
        App::new_with_names(timeline, NameTable::new(), title)
    }

    /// A live view that has seen nothing yet and follows the present.
    #[must_use]
    pub fn new_live(names: NameTable, title: String) -> (res: App)
        ensures
            res@.wf(),
            res@.is_following(),
            res@.rows.len() == 0,
            res@.title == title@,
            ({
                let p = res@.play->0;
                &&& p.timeline.shows(Seq::empty(), Nanos(0))
                &&& p.transport == TransportModel::fresh(Nanos(0), Nanos(0))
                &&& p.names == names@
                &&& p.live == Some(
                    LiveView {
                        following: true,
                        status: LiveStatus { dropped: 0, approximate: false },
                    },
                )
                &&& res@ == AppModel::over(Seq::empty(), title@, Some(p))
            }),
    {
        let none: Vec<(Connection, Vec<StateSample>)> = Vec::new();
        let ghost empty = none@.map_values(
            |c: (Connection, Vec<StateSample>)|
                crate::timeline::RecordingModel::bare(c.0, c.1@),
        );
        proof {
            assert(empty =~= Seq::empty());
        }
        let timeline = Timeline::new(none);
        let transport = Transport::new(Nanos(0), Nanos(0));
        let live = LiveView { following: true, status: LiveStatus::default() };
        let rows: Vec<ConnRow> = Vec::new();
        proof {
            assert(crate::rows::models(rows@) =~= Seq::empty());
        }
        App::over(rows, title, Some(Playback { timeline, transport, names, live: Some(live) }))
    }

    /// The rows that match the filter if it reads `lower` in lower case, in listing order.
    #[must_use]
    pub fn visible_matching(&self, lower: &str) -> (res: Vec<&ConnRow>)
        ensures
            crate::rows::pointed(res@) == crate::rows::shown(
                self@.rows,
                lower@,
                self@.field,
                self@.dir,
            ),
    {
        visible_rows(&self.rows, lower, self.sort_field, self.sort_dir)
    }

    /// The rows that match the filter, in listing order.
    #[must_use]
    pub fn visible(&self) -> (res: Vec<&ConnRow>)
        ensures
            crate::rows::pointed(res@) == self@.visible(),
    {
        let lower = self.query.as_str().to_lowercase();
        self.visible_matching(lower.as_str())
    }

    /// Keeps the selection if it is on screen, else selects the first row on screen.
    fn reconcile_selection(&mut self)
        ensures
            final(self)@ == old(self)@.reconciled(),
    {
        let visible = self.visible();
        let kept = keep_selection(self.selected, &visible);
        self.selected = kept;
    }

    /// Orders by the next column, in the direction that suits it.
    pub fn cycle_sort(&mut self)
        ensures
            final(self)@ == old(self)@.resorted(),
    {
        self.sort_field = self.sort_field.next();
        self.sort_dir = natural_dir(self.sort_field);
    }

    /// Reverses the order of the column.
    pub fn toggle_dir(&mut self)
        ensures
            final(self)@ == (AppModel { dir: old(self)@.dir.reverse(), ..old(self)@ }),
    {
        self.sort_dir = self.sort_dir.opposite();
    }

    /// Takes keys as text of the filter from now on. The filter stays as it is.
    pub fn enter_filter(&mut self)
        ensures
            final(self)@ == (AppModel { mode: Mode::Filter, ..old(self)@ }),
    {
        self.mode = Mode::Filter;
    }

    /// Adds a character to the filter.
    pub fn push_filter(&mut self, c: char)
        ensures
            final(self)@ == old(self)@.filtered(old(self)@.query.push(c)),
    {
        self.query.push(c);
        self.reconcile_selection();
    }

    /// Removes the last character of the filter, if there is one.
    pub fn pop_filter(&mut self)
        ensures
            final(self)@ == old(self)@.filtered(
                if old(self)@.query.len() == 0 {
                    old(self)@.query
                } else {
                    old(self)@.query.drop_last()
                },
            ),
    {
        let _ = self.query.pop();
        self.reconcile_selection();
    }

    /// Takes keys as commands again. The filter stays as it is.
    pub fn confirm_filter(&mut self)
        ensures
            final(self)@ == (AppModel { mode: Mode::Nav, ..old(self)@ }),
    {
        self.mode = Mode::Nav;
    }

    /// Takes keys as commands again, without a filter.
    pub fn cancel_filter(&mut self)
        ensures
            final(self)@ == (AppModel { mode: Mode::Nav, ..old(self)@ }).filtered(Seq::empty()),
    {
        self.query = String::new();
        self.mode = Mode::Nav;
        proof {
            assert(self.query@ =~= Seq::empty());
        }
        self.reconcile_selection();
    }

    fn move_by(&mut self, down: bool)
        ensures
            final(self)@ == old(self)@.moved(down),
    {
        let visible = self.visible();
        let next = step_selection(self.selected, &visible, down);
        self.selected = next;
    }

    /// Selects the row above, if there is one.
    pub fn move_up(&mut self)
        ensures
            final(self)@ == old(self)@.moved(false),
    {
        self.move_by(false);
    }

    /// Selects the row below, if there is one.
    pub fn move_down(&mut self)
        ensures
            final(self)@ == old(self)@.moved(true),
    {
        self.move_by(true);
    }

    /// The title.
    #[must_use]
    pub fn title(&self) -> (res: &str)
        ensures
            res@ == self@.title,
    {
        self.title.as_str()
    }

    /// Changes the title.
    pub fn set_title(&mut self, title: String)
        ensures
            final(self)@ == (AppModel { title: title@, ..old(self)@ }),
    {
        self.title = title;
    }

    /// The column the list is ordered by.
    #[must_use]
    pub fn sort_field(&self) -> (res: SortField)
        ensures
            res == self@.field,
    {
        self.sort_field
    }

    /// The direction the list is ordered in.
    #[must_use]
    pub fn sort_dir(&self) -> (res: SortDir)
        ensures
            res == self@.dir,
    {
        self.sort_dir
    }

    /// What keys mean at the moment.
    #[must_use]
    pub fn mode(&self) -> (res: Mode)
        ensures
            res == self@.mode,
    {
        self.mode
    }

    /// The filter.
    #[must_use]
    pub fn query(&self) -> (res: &str)
        ensures
            res@ == self@.query,
    {
        self.query.as_str()
    }

    /// The selected connection.
    #[must_use]
    pub fn selected(&self) -> (res: Option<ConnId>)
        ensures
            res == self@.selected,
    {
        self.selected
    }

    /// Shows the rows of the cursor time, and keeps the selection on screen.
    fn refresh(&mut self)
        ensures
            final(self)@ == (match old(self)@.play {
                Some(p) => old(self)@.playing_at(p),
                None => old(self)@,
            }),
    {
        let rows = match &self.play {
            Some(p) => {
                let conns = p.timeline.connections_at(p.transport.cursor());
                build_rows(conns.as_slice(), &p.names)
            },
            None => return,
        };
        self.rows = rows;
        self.reconcile_selection();
    }

    /// Whether the capture has no connections at all.
    #[must_use]
    pub fn is_capture_empty(&self) -> (res: bool)
        ensures
            res == (match self@.play {
                Some(p) => p.timeline.entries.len() == 0,
                None => self@.rows.len() == 0,
            }),
    {
        match &self.play {
            Some(p) => p.timeline.connection_count() == 0,
            None => self.rows.len() == 0,
        }
    }

    /// The cursor.
    #[must_use]
    pub fn cursor(&self) -> (res: Nanos)
        ensures
            res == self@.transport().cursor,
    {
        match &self.play {
            Some(p) => p.transport.cursor(),
            None => Nanos(0),
        }
    }

    /// The ends of the time covered.
    #[must_use]
    pub fn bounds(&self) -> (res: (Nanos, Nanos))
        ensures
            res == (self@.transport().start, self@.transport().end),
    {
        match &self.play {
            Some(p) => p.transport.bounds(),
            None => (Nanos(0), Nanos(0)),
        }
    }

    /// The speed of playback as a fraction of real time.
    #[must_use]
    pub fn speed(&self) -> (res: (u64, u64))
        ensures
            res == crate::transport::rung_ratio(self@.transport().rung),
    {
        match &self.play {
            Some(p) => p.transport.speed(),
            None => (1, 1),
        }
    }

    /// Whether the cursor moves by itself.
    #[must_use]
    pub fn is_playing(&self) -> (res: bool)
        ensures
            res == self@.transport().playing,
    {
        match &self.play {
            Some(p) => p.transport.is_playing(),
            None => false,
        }
    }

    /// Swaps play and pause. Playing from the end starts over.
    pub fn toggle_play(&mut self)
        ensures
            final(self)@ == old(self)@.transported(old(self)@.transport().toggled()),
            old(self)@.wf() ==> final(self)@.wf(),
    {
        if let Some(p) = &mut self.play {
            p.transport.toggle_play();
        }
        self.refresh();
    }

    /// Goes one rung up the speed ladder.
    pub fn faster(&mut self)
        ensures
            final(self)@ == old(self)@.with_transport(old(self)@.transport().up()),
            old(self)@.wf() ==> final(self)@.wf(),
    {
        if let Some(p) = &mut self.play {
            p.transport.faster();
        }
    }

    /// Goes one rung down the speed ladder.
    pub fn slower(&mut self)
        ensures
            final(self)@ == old(self)@.with_transport(old(self)@.transport().down()),
            old(self)@.wf() ==> final(self)@.wf(),
    {
        if let Some(p) = &mut self.play {
            p.transport.slower();
        }
    }

    /// Moves the cursor by a fiftieth of the whole, within the ends.
    pub fn seek(&mut self, forward: bool)
        requires
            old(self)@.wf(),
        ensures
            final(self)@ == old(self)@.transported(old(self)@.transport().sought(forward)),
            final(self)@.wf(),
    {
        if let Some(p) = &mut self.play {
            p.transport.seek(forward);
        }
        self.refresh();
    }

    /// Lets `dt` of real time pass.
    pub fn tick(&mut self, dt: Nanos)
        ensures
            final(self)@ == old(self)@.transported(old(self)@.transport().ticked(dt)),
            old(self)@.wf() ==> final(self)@.wf(),
    {
        proof {
            if self@.wf() && self@.play is Some {
                crate::transport::law_cursor_stays_in_bounds(self@.transport(), 0, true, dt);
            }
        }
        if let Some(p) = &mut self.play {
            p.transport.tick(dt);
        }
        self.refresh();
    }

    /// Moves the cursor to the next event, if there is one.
    pub fn step_forward(&mut self)
        requires
            old(self)@.wf(),
        ensures
            final(self)@ == old(self)@.stepped_on(),
            final(self)@.wf(),
    {
        if let Some(p) = &mut self.play {
            match p.timeline.next_event(p.transport.cursor()) {
                Some(t) => {
                    p.transport.set_cursor(t);
                },
                None => {
                    return;
                },
            }
        }
        self.refresh();
    }

    /// Moves the cursor to the event before, if there is one.
    pub fn step_back(&mut self)
        requires
            old(self)@.wf(),
        ensures
            final(self)@ == old(self)@.stepped_back(),
            final(self)@.wf(),
    {
        if let Some(p) = &mut self.play {
            match p.timeline.prev_event(p.transport.cursor()) {
                Some(t) => {
                    p.transport.set_cursor(t);
                },
                None => {
                    return;
                },
            }
        }
        self.refresh();
    }

    /// Whether a live capture is shown.
    #[must_use]
    pub fn is_live(&self) -> (res: bool)
        ensures
            res == self@.is_live(),
    {
        match &self.play {
            Some(p) => p.live.is_some(),
            None => false,
        }
    }

    /// Whether the cursor follows the present.
    #[must_use]
    pub fn is_following(&self) -> (res: bool)
        ensures
            res == self@.is_following(),
    {
        match &self.play {
            Some(p) => match p.live {
                Some(v) => v.following,
                None => false,
            },
            None => false,
        }
    }

    /// How complete the live capture is, if one is shown.
    #[must_use]
    pub fn live_status(&self) -> (res: Option<LiveStatus>)
        ensures
            res == (match self@.play {
                Some(p) => match p.live {
                    Some(v) => Some(v.status),
                    None => None,
                },
                None => None,
            }),
    {
        match &self.play {
            Some(p) => match p.live {
                Some(v) => Some(v.status),
                None => None,
            },
            None => None,
        }
    }

    /// Stops a live cursor from following the present.
    pub fn freeze_if_live(&mut self)
        ensures
            final(self)@ == old(self)@.frozen(),
    {
        if let Some(p) = &mut self.play {
            if let Some(v) = p.live {
                p.live = Some(LiveView { following: false, status: v.status });
            }
        }
    }

    /// Switches following over: a cursor that follows again jumps to the present.
    pub fn toggle_follow(&mut self)
        requires
            old(self)@.wf(),
        ensures
            final(self)@ == old(self)@.follow_toggled(),
            final(self)@.wf(),
    {
        if self.is_following() {
            self.freeze_if_live();
            return;
        }
        if let Some(p) = &mut self.play {
            match p.live {
                Some(v) => {
                    p.live = Some(LiveView { following: true, status: v.status });
                    let (_, end) = p.transport.bounds();
                    p.transport.set_cursor(end);
                },
                None => {
                    return;
                },
            }
        }
        self.refresh();
    }

    /// Takes a newer timeline of the live capture, from `horizon` to `now`. A cursor that follows
    /// is at the present; another stays, as far as that time is still covered.
    pub fn retarget(&mut self, timeline: Timeline, horizon: Nanos, now: Nanos, status: LiveStatus)
        ensures
            final(self)@ == old(self)@.retargeted(timeline@, horizon, now, status),
            old(self)@.wf() ==> final(self)@.wf(),
    {
        if let Some(p) = &mut self.play {
            match p.live {
                Some(v) => {
                    let end = now.latest(horizon);
                    let cursor = if v.following {
                        end
                    } else {
                        p.transport.cursor()
                    };
                    let mut transport = Transport::new(horizon, end);
                    transport.set_cursor(cursor);
                    p.timeline = timeline;
                    p.transport = transport;
                    p.live = Some(LiveView { following: v.following, status });
                },
                None => {
                    return;
                },
            }
        }
        self.refresh();
    }

    /// Whether a name for an address can be recorded, or its refusal counted.
    #[must_use]
    pub fn can_observe_name(&self, obs: &NameObservation) -> (res: bool)
        ensures
            res == self@.has_room_for_name(obs@),
    {
        match &self.play {
            Some(p) => p.names.can_observe(obs),
            None => true,
        }
    }

    /// Records a name for an address.
    pub fn observe_name(&mut self, obs: NameObservation)
        requires
            old(self)@.has_room_for_name(obs@),
        ensures
            final(self)@ == old(self)@.named(obs@),
            old(self)@.wf() ==> final(self)@.wf(),
    {
        if let Some(p) = &mut self.play {
            p.names.observe(obs);
        }
        self.refresh();
    }

    /// Opens the detail pane.
    pub fn open_detail(&mut self)
        ensures
            final(self)@ == (AppModel { detail_open: true, ..old(self)@ }),
    {
        self.detail_open = true;
    }

    /// Closes the detail pane.
    pub fn close_detail(&mut self)
        ensures
            final(self)@ == (AppModel { detail_open: false, ..old(self)@ }),
    {
        self.detail_open = false;
    }

    /// Whether the detail pane is open.
    #[must_use]
    pub fn is_detail_open(&self) -> (res: bool)
        ensures
            res == self@.detail_open,
    {
        self.detail_open
    }

    /// The graph in the detail pane.
    #[must_use]
    pub fn detail_view(&self) -> (res: DetailView)
        ensures
            res == self@.view,
    {
        self.detail_view
    }

    /// Shows the next graph in the detail pane.
    pub fn cycle_detail_view(&mut self)
        ensures
            final(self)@ == (AppModel { view: old(self)@.view.following(), ..old(self)@ }),
    {
        self.detail_view = self.detail_view.next();
    }

    /// The connection in the detail pane: the selected one, if the timeline has it.
    #[must_use]
    pub fn focus(&self) -> (res: Option<FocusConn<'_>>)
        ensures
            match res {
                Some(focus) => {
                    let e = self@.play->0.timeline.entries[focus_place(self@)->0];
                    &&& focus_place(self@) is Some
                    &&& focus.origin == e.conn.origin
                    &&& focus.responder == e.conn.responder
                    &&& focus.series@ == e.seq
                    &&& focus.inflight@ == e.inflight
                    &&& focus.rtt@ == e.rtt
                    &&& focus.throughput@ == e.throughput
                    &&& focus.focus_dir == busier_direction(e.conn)
                    &&& focus.x_span == (
                        e.conn.opened_at,
                        crate::time::later(e.conn.last_at, e.conn.opened_at),
                    )
                },
                None => focus_place(self@) is None,
            },
    {
        match (&self.play, self.selected) {
            (Some(p), Some(id)) => match p.timeline.position(id) {
                Some(i) => {
                    let c = p.timeline.connection(i);
                    Some(
                        FocusConn {
                            origin: c.origin,
                            responder: c.responder,
                            series: p.timeline.seq_series(id),
                            inflight: p.timeline.inflight_series(i).as_slice(),
                            rtt: p.timeline.rtt_series(i).as_slice(),
                            throughput: p.timeline.throughput_series(i).as_slice(),
                            focus_dir: if c.bytes_o2r >= c.bytes_r2o {
                                SampleDir::OriginToResponder
                            } else {
                                SampleDir::ResponderToOrigin
                            },
                            x_span: (c.opened_at, c.last_at.latest(c.opened_at)),
                        },
                    )
                },
                None => None,
            },
            _ => None,
        }
    }
}

proof fn lemma_place_from(rows: Seq<RowModel>, id: ConnId, from: int)
    requires
        0 <= from <= rows.len(),
    ensures
        match place_from(rows, id, from) {
            Some(i) => from <= i < rows.len() && rows[i].id == id,
            None => forall|k: int| from <= k < rows.len() ==> (#[trigger] rows[k]).id != id,
        },
    decreases rows.len() - from,
{
    if from < rows.len() && rows[from].id != id {
        lemma_place_from(rows, id, from + 1);
    }
}

/// A connection has a place among the rows exactly if one of them is its row.
pub proof fn law_places_are_rows(rows: Seq<RowModel>, id: ConnId)
    ensures
        match place_of(rows, id) {
            Some(i) => 0 <= i < rows.len() && rows[i].id == id,
            None => forall|k: int| 0 <= k < rows.len() ==> (#[trigger] rows[k]).id != id,
        },
{
    lemma_place_from(rows, id, 0);
}

proof fn lemma_reconciled_selection_shows(app: AppModel)
    ensures
        app.reconciled().selection_shows(),
{
    let rows = app.visible();
    assert(app.reconciled().visible() == rows);
    if rows.len() > 0 {
        law_places_are_rows(rows, rows[0].id);
    }
    if let Some(id) = app.selected {
        law_places_are_rows(rows, id);
    }
}

proof fn lemma_reordered_rows_show_the_same(app: AppModel, field: SortField, dir: SortDir)
    requires
        app.rows.len() <= usize::MAX,
        app.selection_shows(),
    ensures
        (AppModel { field, dir, ..app }).selection_shows(),
{
    let other = AppModel { field, dir, ..app };
    let rows = crate::rows::matching(app.rows, crate::text::lowered(app.query));
    crate::rows::lemma_matching_len(app.rows, crate::text::lowered(app.query));
    crate::rows::law_listing_orders_the_rows(rows, app.field, app.dir);
    crate::rows::law_listing_orders_the_rows(rows, field, dir);
    broadcast use vstd::seq_lib::group_to_multiset_ensures;

    assert(app.visible().to_multiset() == other.visible().to_multiset());
    match app.selected {
        Some(id) => {
            law_places_are_rows(app.visible(), id);
            law_places_are_rows(other.visible(), id);
            let i = place_of(app.visible(), id)->0;
            let row = app.visible()[i];
            assert(app.visible().contains(row));
            assert(app.visible().to_multiset().count(row) > 0);
            assert(other.visible().contains(row));
            let k = choose|k: int| 0 <= k < other.visible().len() && other.visible()[k] == row;
            assert(other.visible()[k].id == id);
        },
        None => {
            assert(other.visible().to_multiset().len() == 0);
        },
    }
}

/// The selection is always on screen, and there is one unless nothing is: whatever is done to the
/// list or the playback, that stays so.
pub proof fn law_selection_always_shows(
    app: AppModel,
    query: Seq<char>,
    down: bool,
    play: PlayModel,
)
    requires
        app.rows.len() <= usize::MAX,
        app.selection_shows(),
    ensures
        AppModel::over(app.rows, app.title, app.play).selection_shows(),
        app.moved(down).selection_shows(),
        app.resorted().selection_shows(),
        (AppModel { dir: app.dir.reverse(), ..app }).selection_shows(),
        app.filtered(query).selection_shows(),
        app.playing_at(play).selection_shows(),
        app.frozen().selection_shows(),
{
    let start = AppModel {
        rows: app.rows,
        field: SortField::Peer,
        dir: SortDir::Asc,
        mode: Mode::Nav,
        query: Seq::empty(),
        selected: None,
        title: app.title,
        detail_open: false,
        view: DetailView::TimeSequence,
        play: app.play,
    };
    lemma_reconciled_selection_shows(start);
    lemma_reconciled_selection_shows(AppModel { query, ..app });
    lemma_reconciled_selection_shows(
        AppModel {
            rows: rows_of(
                crate::timeline::connections_as_of(play.timeline.entries, play.transport.cursor),
                play.names,
            ),
            play: Some(play),
            ..app
        },
    );
    lemma_reordered_rows_show_the_same(
        app,
        app.field.following(),
        app.field.following().natural(),
    );
    lemma_reordered_rows_show_the_same(app, app.field, app.dir.reverse());
    let rows = app.visible();
    assert(app.moved(down).visible() == rows);
    assert(app.frozen().visible() == rows);
    if rows.len() > 0 {
        if let Some(id) = app.selected {
            law_places_are_rows(rows, id);
        }
        law_places_are_rows(rows, app.moved(down).selected->0);
    }
}

/// Ordering the list anew keeps the connection that is selected.
pub proof fn law_ordering_keeps_the_selection(app: AppModel)
    ensures
        app.resorted().selected == app.selected,
        (AppModel { dir: app.dir.reverse(), ..app }).selected == app.selected,
        app.resorted().resorted().resorted().resorted().field == app.field,
        app.dir.reverse().reverse() == app.dir,
{
}

/// Going down and up again from a row that is not the last comes back to it, if every connection
/// has one row.
pub proof fn law_moves_undo_each_other(app: AppModel, i: int)
    requires
        0 <= i < app.visible().len() - 1,
        app.selected == Some(app.visible()[i].id),
        forall|a: int, b: int|
            0 <= a < b < app.visible().len() ==> (#[trigger] app.visible()[a]).id != (
            #[trigger] app.visible()[b]).id,
    ensures
        app.moved(true).selected == Some(app.visible()[i + 1].id),
        app.moved(true).moved(false) == app,
{
    let rows = app.visible();
    law_places_are_rows(rows, rows[i].id);
    law_places_are_rows(rows, rows[i + 1].id);
    assert(app.moved(true).visible() == rows);
    assert(app.moved(true).moved(false) =~= app);
}

/// A live cursor that follows is at the present; one that does not stays where it is as long as
/// that time is covered.
pub proof fn law_frozen_cursor_stays(
    app: AppModel,
    timeline: TimelineModel,
    horizon: Nanos,
    now: Nanos,
    status: LiveStatus,
)
    requires
        app.is_live(),
        horizon.0 <= now.0,
    ensures
        app.is_following() ==> app.retargeted(timeline, horizon, now, status).transport().cursor
            == now,
        !app.is_following() && horizon.0 <= app.transport().cursor.0 <= now.0 ==> app.retargeted(
            timeline,
            horizon,
            now,
            status,
        ).transport().cursor == app.transport().cursor,
        app.retargeted(timeline, horizon, now, status).is_following() == app.is_following(),
{
}

/// Typing into the filter appends to it and narrows the list: a row that shows then showed before,
/// for every ASCII filter, and for any other whose lower-case form spells that of the shorter one.
/// The selection stays as long as its row shows, and is the first row that does otherwise; the mode
/// and the order stay.
pub proof fn law_typing_narrows_the_list(app: AppModel, c: char)
    requires
        app.rows.len() <= usize::MAX,
    ensures
        ({
            let after = app.filtered(app.query.push(c));
            &&& after.query == app.query.push(c)
            &&& after.mode == app.mode
            &&& after.field == app.field
            &&& after.dir == app.dir
            &&& crate::text::all_ascii(app.query.push(c)) || crate::rows::is_spelled_in(
                crate::text::lowered(app.query),
                crate::text::lowered(app.query.push(c)),
            ) ==> after.visible().to_multiset().subset_of(app.visible().to_multiset())
            &&& after.selected is None <==> after.visible().len() == 0
            &&& after.visible().len() > 0 ==> after.selected == (if app.selected is Some
                && place_of(after.visible(), app.selected->0) is Some {
                app.selected
            } else {
                Some(after.visible()[0].id)
            })
        }),
{
    let (short, long) = (
        crate::text::lowered(app.query),
        crate::text::lowered(app.query.push(c)),
    );
    if crate::text::all_ascii(app.query.push(c)) {
        crate::text::law_ascii_lowers_by_character(app.query, c);
        crate::rows::lemma_front_is_spelled(short, seq![crate::text::ascii_lower(c)]);
        assert(short + seq![crate::text::ascii_lower(c)] =~= long);
    }
    if crate::rows::is_spelled_in(short, long) {
        crate::rows::law_longer_filters_show_less(app.rows, short, long, app.field, app.dir);
    }
    let after = app.filtered(app.query.push(c));
    if let Some(id) = app.selected {
        law_places_are_rows(after.visible(), id);
    }
}

} // verus!
