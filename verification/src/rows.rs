//! The rows of the connection list: what they hold, how they are found and how they are ordered.

use vstd::prelude::*;

use crate::conn::{ConnId, Connection, EndpointPair};
use crate::endpoint::Endpoint;
use crate::name::HostName;
use crate::net::IpAddr;
use crate::service::service_name;
use crate::sort::{pick, stable_order, SortKey};
use crate::state::ConnState;

verus! {

/// One row of the connection list.
#[derive(Debug)]
pub struct ConnRow {
    pub id: ConnId,
    pub peer: Endpoint,
    pub service: Option<&'static str>,
    pub state: ConnState,
    pub origin_inferred: bool,
    pub bytes_up: u64,
    pub bytes_down: u64,
    pub host: Option<HostName>,
    pub search: String,
}

/// What a row says.
#[verifier::ext_equal]
pub ghost struct RowModel {
    pub id: ConnId,
    pub peer: Endpoint,
    pub service: Option<Seq<char>>,
    pub state: ConnState,
    pub origin_inferred: bool,
    pub bytes_up: u64,
    pub bytes_down: u64,
    pub host: Option<Seq<char>>,
    pub search: Seq<char>,
}

impl View for ConnRow {
    type V = RowModel;

    open spec fn view(&self) -> RowModel {
        RowModel {
            id: self.id,
            peer: self.peer,
            service: match self.service {
                Some(name) => Some(name@),
                None => None,
            },
            state: self.state,
            origin_inferred: self.origin_inferred,
            bytes_up: self.bytes_up,
            bytes_down: self.bytes_down,
            host: match self.host {
                Some(name) => Some(name@),
                None => None,
            },
            search: self.search@,
        }
    }
}

/// The text a row is found by, before it is put in lower case: both ends, the service, the state.
pub open spec fn search_text(c: Connection) -> Seq<char> {
    c.origin.text_spec() + " "@ + c.responder.text_spec() + " "@ + (match crate::service::service_at(
        c.responder.port as int,
    ) {
        Some(name) => name,
        None => Seq::empty(),
    }) + " "@ + c.state.label_spec()
}

/// The row of a connection whose responder is known as `host`, if its search text reads `search`.
pub open spec fn row_with(c: Connection, host: Option<Seq<char>>, search: Seq<char>) -> RowModel {
    RowModel {
        id: c.id,
        peer: c.responder,
        service: crate::service::service_at(c.responder.port as int),
        state: c.state,
        origin_inferred: c.origin_inferred,
        bytes_up: c.bytes_o2r,
        bytes_down: c.bytes_r2o,
        host,
        search,
    }
}

/// The row of a connection whose responder is known as `host`.
pub open spec fn row_of(c: Connection, host: Option<Seq<char>>) -> RowModel {
    row_with(c, host, crate::text::lowered(search_text(c)))
}

/// A host name, if there is one, by its text.
pub open spec fn host_text(host: Option<HostName>) -> Option<Seq<char>> {
    match host {
        Some(name) => Some(name@),
        None => None,
    }
}

impl ConnRow {
    /// The row of a connection whose responder is known as `host`, if its search text reads
    /// `search`.
    #[must_use]
    pub fn with_search(c: &Connection, host: Option<HostName>, search: String) -> (res: ConnRow)
        ensures
            res@ == row_with(*c, host_text(host), search@),
    {
        ConnRow {
            id: c.id,
            peer: c.responder,
            service: service_name(c.responder.port),
            state: c.state,
            origin_inferred: c.origin_inferred,
            bytes_up: c.bytes_o2r,
            bytes_down: c.bytes_r2o,
            host,
            search,
        }
    }

    /// The row of a connection whose responder is known as `host`.
    #[must_use]
    pub fn from_connection(c: &Connection, host: Option<HostName>) -> (res: ConnRow)
        ensures
            res@ == row_of(*c, host_text(host)),
    {
        let origin = c.origin.text();
        let responder = c.responder.text();
        let mut text = String::new();
        text.append(origin.as_str());
        text.append(" ");
        text.append(responder.as_str());
        text.append(" ");
        if let Some(name) = service_name(c.responder.port) {
            text.append(name);
        }
        text.append(" ");
        text.append(c.state.label());
        proof {
            assert(text@ =~= search_text(*c));
        }
        let search = text.as_str().to_lowercase();
        ConnRow::with_search(c, host, search)
    }
}

/// The column the list is ordered by.
#[derive(Debug, Clone, Copy, PartialEq, Eq, Structural)]
pub enum SortField {
    Peer,
    State,
    BytesUp,
    BytesDown,
}

/// The direction the list is ordered in.
#[derive(Debug, Clone, Copy, PartialEq, Eq, Structural)]
pub enum SortDir {
    Asc,
    Desc,
}

impl SortField {
    /// The field that comes next.
    pub open spec fn following(self) -> SortField {
        match self {
            SortField::Peer => SortField::State,
            SortField::State => SortField::BytesUp,
            SortField::BytesUp => SortField::BytesDown,
            SortField::BytesDown => SortField::Peer,
        }
    }

    /// The direction a field is ordered in at first: names from the front, amounts from the top.
    pub open spec fn natural(self) -> SortDir {
        match self {
            SortField::Peer => SortDir::Asc,
            SortField::State => SortDir::Asc,
            SortField::BytesUp => SortDir::Desc,
            SortField::BytesDown => SortDir::Desc,
        }
    }

    /// The field that comes next.
    #[must_use]
    pub fn next(self) -> (res: SortField)
        ensures
            res == self.following(),
    {
        match self {
            SortField::Peer => SortField::State,
            SortField::State => SortField::BytesUp,
            SortField::BytesUp => SortField::BytesDown,
            SortField::BytesDown => SortField::Peer,
        }
    }
}

/// The direction a field is ordered in at first.
#[must_use]
pub fn natural_dir(field: SortField) -> (res: SortDir)
    ensures
        res == field.natural(),
{
    match field {
        SortField::Peer => SortDir::Asc,
        SortField::State => SortDir::Asc,
        SortField::BytesUp => SortDir::Desc,
        SortField::BytesDown => SortDir::Desc,
    }
}

impl SortDir {
    /// The other direction.
    pub open spec fn reverse(self) -> SortDir {
        match self {
            SortDir::Asc => SortDir::Desc,
            SortDir::Desc => SortDir::Asc,
        }
    }

    /// The other direction.
    #[must_use]
    pub fn opposite(self) -> (res: SortDir)
        ensures
            res == self.reverse(),
    {
        match self {
            SortDir::Asc => SortDir::Desc,
            SortDir::Desc => SortDir::Asc,
        }
    }
}

/// `a` is less than `b` in the column `field`.
pub open spec fn field_less(a: RowModel, b: RowModel, field: SortField) -> bool {
    match field {
        SortField::Peer => a.peer.before(b.peer),
        SortField::State => a.state.position() < b.state.position(),
        SortField::BytesUp => a.bytes_up < b.bytes_up,
        SortField::BytesDown => a.bytes_down < b.bytes_down,
    }
}

/// `a` is listed before `b`: by the column in its direction, then by pair and instance, always
/// from the front.
pub open spec fn listed_before(a: RowModel, b: RowModel, field: SortField, dir: SortDir) -> bool {
    let (less, more) = match dir {
        SortDir::Asc => (field_less(a, b, field), field_less(b, a, field)),
        SortDir::Desc => (field_less(b, a, field), field_less(a, b, field)),
    };
    less || (!more && (a.id.pair.before(b.id.pair) || (a.id.pair == b.id.pair && a.id.instance
        < b.id.instance)))
}

/// What orders a row: the column as numbers that grow in listing order, then the connection.
#[derive(Clone, Copy)]
pub struct RowKey {
    pub major: u8,
    pub middle: u128,
    pub minor: u16,
    pub pair: EndpointPair,
    pub instance: u32,
}

impl RowKey {
    /// `self` is listed before `other`.
    pub open spec fn less(self, other: RowKey) -> bool {
        self.major < other.major || (self.major == other.major && (self.middle < other.middle || (
        self.middle == other.middle && (self.minor < other.minor || (self.minor == other.minor && (
        self.pair.before(other.pair) || (self.pair == other.pair && self.instance
            < other.instance)))))))
    }
}

impl SortKey for RowKey {
    open spec fn at_most(self, other: RowKey) -> bool {
        !other.less(self)
    }

    proof fn lemma_total(a: RowKey, b: RowKey) {
    }

    proof fn lemma_transitive(a: RowKey, b: RowKey, c: RowKey) {
    }

    fn le(&self, other: &RowKey) -> (res: bool) {
        if other.major != self.major {
            self.major < other.major
        } else if other.middle != self.middle {
            self.middle < other.middle
        } else if other.minor != self.minor {
            self.minor < other.minor
        } else {
            !(other.pair.sorts_before(self.pair) || (other.pair == self.pair && other.instance
                < self.instance))
        }
    }
}

/// The column of a row as numbers that grow from the front.
pub open spec fn column_numbers(row: RowModel, field: SortField) -> (u8, u128, u16) {
    match field {
        SortField::Peer => match row.peer.ip {
            IpAddr::V4(a) => (4, a.0 as u128, row.peer.port),
            IpAddr::V6(a) => (6, a.0, row.peer.port),
        },
        SortField::State => (row.state.position(), 0, 0),
        SortField::BytesUp => (0, row.bytes_up as u128, 0),
        SortField::BytesDown => (0, row.bytes_down as u128, 0),
    }
}

/// What orders a row in a column and a direction.
pub open spec fn key_of(row: RowModel, field: SortField, dir: SortDir) -> RowKey {
    let (major, middle, minor) = column_numbers(row, field);
    match dir {
        SortDir::Asc => RowKey {
            major,
            middle,
            minor,
            pair: row.id.pair,
            instance: row.id.instance,
        },
        SortDir::Desc => RowKey {
            major: (u8::MAX - major) as u8,
            middle: (u128::MAX - middle) as u128,
            minor: (u16::MAX - minor) as u16,
            pair: row.id.pair,
            instance: row.id.instance,
        },
    }
}

fn row_key(row: &ConnRow, field: SortField, dir: SortDir) -> (res: RowKey)
    ensures
        res == key_of(row@, field, dir),
{
    let (major, middle, minor): (u8, u128, u16) = match field {
        SortField::Peer => match row.peer.ip {
            IpAddr::V4(a) => (4, a.0 as u128, row.peer.port),
            IpAddr::V6(a) => (6, a.0, row.peer.port),
        },
        SortField::State => (row.state.rank(), 0, 0),
        SortField::BytesUp => (0, row.bytes_up as u128, 0),
        SortField::BytesDown => (0, row.bytes_down as u128, 0),
    };
    match dir {
        SortDir::Asc => RowKey {
            major,
            middle,
            minor,
            pair: row.id.pair,
            instance: row.id.instance,
        },
        SortDir::Desc => RowKey {
            major: u8::MAX - major,
            middle: u128::MAX - middle,
            minor: u16::MAX - minor,
            pair: row.id.pair,
            instance: row.id.instance,
        },
    }
}

/// The places `at` in `hay` spell `needle`, from left to right.
pub open spec fn spells(needle: Seq<char>, hay: Seq<char>, at: Seq<int>) -> bool {
    &&& at.len() == needle.len()
    &&& forall|i: int| 0 <= i < at.len() ==> 0 <= (#[trigger] at[i]) < hay.len()
    &&& forall|i: int, j: int| 0 <= i < j < at.len() ==> (#[trigger] at[i]) < (#[trigger] at[j])
    &&& forall|i: int| 0 <= i < at.len() ==> needle[i] == hay[#[trigger] at[i]]
}

/// The characters of `needle` occur in `hay` in order, with anything between them.
pub open spec fn is_spelled_in(needle: Seq<char>, hay: Seq<char>) -> bool {
    exists|at: Seq<int>| spells(needle, hay, at)
}

/// Where the heads agree they can be matched with each other.
proof fn lemma_match_heads(needle: Seq<char>, hay: Seq<char>)
    requires
        needle.len() > 0,
        hay.len() > 0,
        needle[0] == hay[0],
    ensures
        is_spelled_in(needle, hay) == is_spelled_in(needle.skip(1), hay.skip(1)),
{
    if is_spelled_in(needle, hay) {
        let at = choose|at: Seq<int>| spells(needle, hay, at);
        let rest = Seq::new((at.len() - 1) as nat, |i: int| at[i + 1] - 1);
        assert forall|i: int| 0 <= i < rest.len() implies 0 <= (#[trigger] rest[i])
            < hay.skip(1).len() by {
            assert(at[0] < at[i + 1]);
        }
        assert(spells(needle.skip(1), hay.skip(1), rest));
    }
    if is_spelled_in(needle.skip(1), hay.skip(1)) {
        let rest = choose|at: Seq<int>| spells(needle.skip(1), hay.skip(1), at);
        let at = Seq::new(
            needle.len(),
            |i: int|
                if i == 0 {
                    0
                } else {
                    rest[i - 1] + 1
                },
        );
        assert forall|i: int, j: int| 0 <= i < j < at.len() implies (#[trigger] at[i])
            < (#[trigger] at[j]) by {
            if i > 0 {
                assert(rest[i - 1] < rest[j - 1]);
            } else {
                assert(0 <= rest[j - 1]);
            }
        }
        assert forall|i: int| 0 <= i < at.len() implies needle[i] == hay[#[trigger] at[i]] by {
            if i > 0 {
                assert(needle.skip(1)[i - 1] == hay.skip(1)[rest[i - 1]]);
            }
        }
        assert(spells(needle, hay, at));
    }
}

/// Where the heads differ the head of the text can be left out.
proof fn lemma_skip_head(needle: Seq<char>, hay: Seq<char>)
    requires
        needle.len() > 0,
        hay.len() > 0,
        needle[0] != hay[0],
    ensures
        is_spelled_in(needle, hay) == is_spelled_in(needle, hay.skip(1)),
{
    if is_spelled_in(needle, hay) {
        let at = choose|at: Seq<int>| spells(needle, hay, at);
        let rest = Seq::new(at.len(), |i: int| at[i] - 1);
        assert(needle[0] == hay[at[0]]);
        assert forall|i: int| 0 <= i < rest.len() implies 0 <= (#[trigger] rest[i])
            < hay.skip(1).len() by {
            if i > 0 {
                assert(at[0] < at[i]);
            }
        }
        assert(spells(needle, hay.skip(1), rest));
    }
    if is_spelled_in(needle, hay.skip(1)) {
        let rest = choose|at: Seq<int>| spells(needle, hay.skip(1), at);
        let at = Seq::new(rest.len(), |i: int| rest[i] + 1);
        assert forall|i: int| 0 <= i < at.len() implies needle[i] == hay[#[trigger] at[i]] by {
            assert(needle[i] == hay.skip(1)[rest[i]]);
        }
        assert(spells(needle, hay, at));
    }
}

/// Whether the characters of `needle` occur in `haystack` in order. Nothing occurs everywhere.
#[must_use]
pub fn is_subsequence(needle: &str, haystack: &str) -> (res: bool)
    ensures
        res == is_spelled_in(needle@, haystack@),
{
    let n: usize = needle.unicode_len();
    let m: usize = haystack.unicode_len();
    let mut i: usize = 0;
    let mut j: usize = 0;
    proof {
        assert(needle@.skip(0) =~= needle@);
        assert(haystack@.skip(0) =~= haystack@);
    }
    while i < n && j < m
        invariant
            i <= n == needle@.len(),
            j <= m == haystack@.len(),
            is_spelled_in(needle@, haystack@) == is_spelled_in(
                needle@.skip(i as int),
                haystack@.skip(j as int),
            ),
        decreases m - j,
    {
        let ghost rest = needle@.skip(i as int);
        let ghost hay = haystack@.skip(j as int);
        proof {
            assert(rest.skip(1) =~= needle@.skip(i + 1));
            assert(hay.skip(1) =~= haystack@.skip(j + 1));
        }
        if needle.get_char(i) == haystack.get_char(j) {
            proof {
                lemma_match_heads(rest, hay);
            }
            i = i + 1;
        } else {
            proof {
                lemma_skip_head(rest, hay);
            }
        }
        j = j + 1;
    }
    proof {
        let rest = needle@.skip(i as int);
        let hay = haystack@.skip(j as int);
        if i == n {
            assert(spells(rest, hay, Seq::<int>::empty()));
        } else {
            if is_spelled_in(rest, hay) {
                let at = choose|at: Seq<int>| spells(rest, hay, at);
                assert(0 <= at[0] < hay.len());
            }
        }
    }
    i == n
}

/// The rows that `lower` is spelled in, in their order.
pub open spec fn matching(rows: Seq<RowModel>, lower: Seq<char>) -> Seq<RowModel>
    decreases rows.len(),
{
    if rows.len() == 0 {
        Seq::empty()
    } else if is_spelled_in(lower, rows.last().search) {
        matching(rows.drop_last(), lower).push(rows.last())
    } else {
        matching(rows.drop_last(), lower)
    }
}

/// The keys of the rows.
pub open spec fn keys_of(rows: Seq<RowModel>, field: SortField, dir: SortDir) -> Seq<RowKey> {
    rows.map_values(|r: RowModel| key_of(r, field, dir))
}

/// The rows in listing order.
pub open spec fn in_order(rows: Seq<RowModel>, field: SortField, dir: SortDir) -> Seq<RowModel> {
    crate::sort::stably_sorted(rows, keys_of(rows, field, dir))
}

/// The rows on screen: those that match, in listing order.
pub open spec fn shown(
    rows: Seq<RowModel>,
    lower: Seq<char>,
    field: SortField,
    dir: SortDir,
) -> Seq<RowModel> {
    in_order(matching(rows, lower), field, dir)
}

/// What the rows say.
pub open spec fn models(rows: Seq<ConnRow>) -> Seq<RowModel> {
    rows.map_values(|r: ConnRow| r@)
}

/// What the rows that are pointed at say.
pub open spec fn pointed(rows: Seq<&ConnRow>) -> Seq<RowModel> {
    rows.map_values(|r: &ConnRow| r@)
}

/// The rows on screen: those in whose search text `lower` is spelled, in the order of the column
/// `field` in the direction `dir`.
#[must_use]
pub fn visible_rows<'a>(rows: &'a Vec<ConnRow>, lower: &str, field: SortField, dir: SortDir) -> (res:
    Vec<&'a ConnRow>)
    ensures
        pointed(res@) == shown(models(rows@), lower@, field, dir),
{
    let ghost all = models(rows@);
    let mut kept: Vec<&'a ConnRow> = Vec::new();
    let mut keys: Vec<RowKey> = Vec::new();
    let mut i: usize = 0;
    proof {
        assert(pointed(kept@) =~= matching(all.take(0), lower@));
        assert(keys@ =~= keys_of(pointed(kept@), field, dir));
    }
    while i < rows.len()
        invariant
            i <= rows@.len(),
            all == models(rows@),
            pointed(kept@) == matching(all.take(i as int), lower@),
            keys@ == keys_of(pointed(kept@), field, dir),
        decreases rows@.len() - i,
    {
        proof {
            assert(all.take(i + 1).drop_last() =~= all.take(i as int));
        }
        let row = &rows[i];
        let ghost before = kept@;
        if is_subsequence(lower, row.search.as_str()) {
            keys.push(row_key(row, field, dir));
            kept.push(row);
            proof {
                assert(pointed(kept@) =~= pointed(before).push(row@));
                assert(keys@ =~= keys_of(pointed(kept@), field, dir));
            }
        }
        i = i + 1;
    }
    proof {
        assert(all.take(i as int) =~= all);
    }
    let order = stable_order(&keys);
    let res = pick(&kept, &order);
    proof {
        assert(pointed(res@) =~= crate::sort::picked(pointed(kept@), order@));
    }
    res
}

proof fn lemma_key_order(a: RowModel, b: RowModel, field: SortField, dir: SortDir)
    ensures
        key_of(a, field, dir).less(key_of(b, field, dir)) == listed_before(a, b, field, dir),
{
}

/// The rows in listing order are the same rows, each as often as before, and none stands before
/// one that is listed before it.
pub proof fn law_listing_orders_the_rows(rows: Seq<RowModel>, field: SortField, dir: SortDir)
    requires
        rows.len() <= usize::MAX,
    ensures
        in_order(rows, field, dir).to_multiset() == rows.to_multiset(),
        forall|i: int, j: int|
            0 <= i < j < rows.len() ==> !listed_before(
                #[trigger] in_order(rows, field, dir)[j],
                #[trigger] in_order(rows, field, dir)[i],
                field,
                dir,
            ),
{
    let keys = keys_of(rows, field, dir);
    let order = crate::sort::sorted_indices(keys);
    let out = in_order(rows, field, dir);
    crate::sort::law_every_list_has_a_stable_order(keys);
    crate::sort::law_sorting_keeps_the_items(rows, keys);
    assert forall|i: int, j: int| 0 <= i < j < rows.len() implies !listed_before(
        #[trigger] out[j],
        #[trigger] out[i],
        field,
        dir,
    ) by {
        assert(crate::sort::placed_before(keys, order[i], order[j]));
        lemma_key_order(out[j], out[i], field, dir);
    }
}

/// A longer filter matches no more than a shorter one, and an empty one matches everything.
pub proof fn law_longer_filters_match_less(short: Seq<char>, more: Seq<char>, search: Seq<char>)
    ensures
        is_spelled_in(short + more, search) ==> is_spelled_in(short, search),
        is_spelled_in(Seq::empty(), search),
{
    assert(spells(Seq::empty(), search, Seq::empty()));
    if is_spelled_in(short + more, search) {
        let at = choose|at: Seq<int>| spells(short + more, search, at);
        let front = at.take(short.len() as int);
        assert forall|i: int| 0 <= i < front.len() implies short[i] == search[#[trigger] front[i]] by {
            assert((short + more)[i] == search[at[i]]);
        }
        assert(spells(short, search, front));
    }
}

/// The front of a text is spelled in it.
pub proof fn lemma_front_is_spelled(front: Seq<char>, more: Seq<char>)
    ensures
        is_spelled_in(front, front + more),
{
    assert(spells(front, front + more, Seq::new(front.len(), |i: int| i)));
}

/// What is spelled in a text is spelled wherever that text is.
pub proof fn law_spelling_carries_over(short: Seq<char>, long: Seq<char>, search: Seq<char>)
    requires
        is_spelled_in(short, long),
        is_spelled_in(long, search),
    ensures
        is_spelled_in(short, search),
{
    let inner = choose|at: Seq<int>| spells(short, long, at);
    let outer = choose|at: Seq<int>| spells(long, search, at);
    let at = Seq::new(short.len(), |i: int| outer[inner[i]]);
    assert forall|i: int, j: int| 0 <= i < j < at.len() implies (#[trigger] at[i]) < (
    #[trigger] at[j]) by {
        assert(inner[i] < inner[j]);
        assert(outer[inner[i]] < outer[inner[j]]);
    }
    assert forall|i: int| 0 <= i < at.len() implies 0 <= #[trigger] at[i] < search.len() && short[i]
        == search[at[i]] by {
        assert(0 <= inner[i] < long.len() && short[i] == long[inner[i]]);
        assert(0 <= outer[inner[i]] < search.len() && long[inner[i]] == search[outer[inner[i]]]);
    }
    assert(spells(short, search, at));
}

proof fn lemma_matching_narrows(
    rows: Seq<RowModel>,
    short: Seq<char>,
    long: Seq<char>,
    row: RowModel,
)
    requires
        is_spelled_in(short, long),
    ensures
        matching(rows, long).to_multiset().count(row) <= matching(rows, short).to_multiset().count(
            row,
        ),
    decreases rows.len(),
{
    broadcast use vstd::seq_lib::group_to_multiset_ensures;

    if rows.len() > 0 {
        lemma_matching_narrows(rows.drop_last(), short, long, row);
        if is_spelled_in(long, rows.last().search) {
            law_spelling_carries_over(short, long, rows.last().search);
        }
    }
}

/// A filter leaves no more rows than there are.
pub proof fn lemma_matching_len(rows: Seq<RowModel>, lower: Seq<char>)
    ensures
        matching(rows, lower).len() <= rows.len(),
    decreases rows.len(),
{
    if rows.len() > 0 {
        lemma_matching_len(rows.drop_last(), lower);
    }
}

/// Where a filter spells another one, every row that it shows is shown by the other, each as often.
pub proof fn law_longer_filters_show_less(
    rows: Seq<RowModel>,
    short: Seq<char>,
    long: Seq<char>,
    field: SortField,
    dir: SortDir,
)
    requires
        is_spelled_in(short, long),
        rows.len() <= usize::MAX,
    ensures
        shown(rows, long, field, dir).to_multiset().subset_of(
            shown(rows, short, field, dir).to_multiset(),
        ),
{
    lemma_matching_len(rows, long);
    lemma_matching_len(rows, short);
    law_listing_orders_the_rows(matching(rows, long), field, dir);
    law_listing_orders_the_rows(matching(rows, short), field, dir);
    assert forall|row: RowModel|
        matching(rows, long).to_multiset().count(row) <= matching(rows, short).to_multiset().count(
            row,
        ) by {
        lemma_matching_narrows(rows, short, long, row);
    }
}

} // verus!
