//! Host names learnt from DNS answers, and the table that resolves addresses to them.

use std::collections::HashMap;

use vstd::prelude::*;

use crate::net::IpAddr;
use crate::time::Nanos;

verus! {

broadcast use vstd::std_specs::hash::group_hash_axioms;

/// Longest name accepted, in bytes; a longer candidate is rejected rather than cut.
pub const MAX_HOST_LEN: usize = 253;

/// The most addresses a `NameTable` holds.
pub const NAME_TABLE_CAP: usize = 65_536;

/// A host name that is safe to print: printable ASCII, not empty, and bounded in length.
#[derive(Debug, Clone, PartialEq, Eq)]
pub struct HostName(String);

/// Text without one trailing root dot.
pub open spec fn without_root_dot(raw: Seq<char>) -> Seq<char> {
    if raw.len() > 0 && raw.last() == '.' {
        raw.drop_last()
    } else {
        raw
    }
}

/// A printable ASCII character.
pub open spec fn is_printable(c: char) -> bool {
    ' ' <= c <= '~'
}

/// The printable ASCII characters of a text.
pub open spec fn printable_part(s: Seq<char>) -> Seq<char>
    decreases s.len(),
{
    if s.len() == 0 {
        Seq::empty()
    } else if is_printable(s.last()) {
        printable_part(s.drop_last()).push(s.last())
    } else {
        printable_part(s.drop_last())
    }
}

/// The host name for the raw owner name `raw`, if it is acceptable.
pub open spec fn host_name(raw: Seq<char>) -> Option<Seq<char>> {
    let trimmed = without_root_dot(raw);
    let clean = printable_part(trimmed);
    if trimmed.len() == 0 || vstd::utf8::encode_utf8(trimmed).len() > MAX_HOST_LEN || clean.len()
        == 0 {
        None
    } else {
        Some(clean)
    }
}

impl View for HostName {
    type V = Seq<char>;

    closed spec fn view(&self) -> Seq<char> {
        self.0@
    }
}

impl HostName {
    /// The host name for a raw owner name: one trailing root dot is dropped, then everything but
    /// printable ASCII. A name that is empty before or after that, or too long, is rejected.
    #[must_use]
    pub fn new(raw: &str) -> (res: Option<HostName>)
        ensures
            match res {
                Some(name) => host_name(raw@) == Some(name@),
                None => host_name(raw@) is None,
            },
    {
        let count: usize = raw.unicode_len();
        let dotted = count > 0 && raw.get_char(count - 1) == '.';
        let kept: usize = if dotted {
            count - 1
        } else {
            count
        };
        let trimmed = raw.substring_char(0, kept);
        proof {
            assert(trimmed@ =~= without_root_dot(raw@));
        }
        if kept == 0 || trimmed.as_bytes().len() > MAX_HOST_LEN {
            return None;
        }
        let mut clean = String::new();
        let mut written: usize = 0;
        let mut i: usize = 0;
        while i < kept
            invariant
                i <= kept,
                kept == trimmed@.len(),
                written <= i,
                clean@ == printable_part(trimmed@.take(i as int)),
                written == clean@.len(),
            decreases kept - i,
        {
            proof {
                assert(trimmed@.take(i + 1).drop_last() =~= trimmed@.take(i as int));
            }
            let c = trimmed.get_char(i);
            if ' ' <= c && c <= '~' {
                clean.push(c);
                written = written + 1;
            }
            i = i + 1;
        }
        proof {
            assert(trimmed@.take(i as int) =~= trimmed@);
        }
        if written == 0 {
            None
        } else {
            Some(HostName(clean))
        }
    }

    /// The text of the name.
    #[must_use]
    pub fn as_str(&self) -> (res: &str)
        ensures
            res@ == self@,
    {
        self.0.as_str()
    }

    /// A copy of the name.
    #[must_use]
    pub fn copy(&self) -> (res: HostName)
        ensures
            res@ == self@,
    {
        HostName(self.0.clone())
    }
}

proof fn lemma_encoding_is_no_shorter(s: Seq<char>)
    ensures
        s.len() <= vstd::utf8::encode_utf8(s).len(),
    decreases s.len(),
{
    if s.len() > 0 {
        lemma_encoding_is_no_shorter(s.drop_first());
    }
}

proof fn lemma_printable_part(s: Seq<char>)
    ensures
        printable_part(s).len() <= s.len(),
        forall|i: int|
            0 <= i < printable_part(s).len() ==> is_printable(#[trigger] printable_part(s)[i]),
    decreases s.len(),
{
    if s.len() > 0 {
        lemma_printable_part(s.drop_last());
    }
}

/// Whatever the raw name, an accepted host name is printable ASCII, not empty, and no longer than
/// the limit.
pub proof fn law_host_names_are_printable_and_bounded(raw: Seq<char>)
    ensures
        host_name(raw) matches Some(name) ==> {
            &&& 0 < name.len() <= MAX_HOST_LEN
            &&& forall|i: int| 0 <= i < name.len() ==> is_printable(#[trigger] name[i])
        },
{
    lemma_encoding_is_no_shorter(without_root_dot(raw));
    lemma_printable_part(without_root_dot(raw));
}

/// Where the characters of `text` between space and tilde stand, in their order: `at` lists each of
/// those places once, rising, and no other.
pub open spec fn lists_printable_places(text: Seq<char>, at: Seq<int>) -> bool {
    &&& forall|a: int, b: int| 0 <= a < b < at.len() ==> (#[trigger] at[a]) < (#[trigger] at[b])
    &&& forall|a: int|
        0 <= a < at.len() ==> 0 <= #[trigger] at[a] < text.len() && 0x20 <= text[at[a]] as int
            <= 0x7e
    &&& forall|i: int|
        0 <= i < text.len() && 0x20 <= #[trigger] text[i] as int <= 0x7e ==> at.contains(i)
}

proof fn lemma_printable_places(s: Seq<char>) -> (at: Seq<int>)
    ensures
        lists_printable_places(s, at),
        at.len() == printable_part(s).len(),
        forall|a: int| 0 <= a < at.len() ==> printable_part(s)[a] == s[#[trigger] at[a]],
    decreases s.len(),
{
    if s.len() == 0 {
        Seq::empty()
    } else {
        let front = s.drop_last();
        let before = lemma_printable_places(front);
        let last = s.len() - 1;
        assert(forall|a: int|
            0 <= a < before.len() ==> 0 <= #[trigger] before[a] < front.len() && front[before[a]]
                == s[before[a]]);
        let at = if 0x20 <= s[last] as int <= 0x7e {
            before.push(last)
        } else {
            before
        };
        assert forall|i: int| 0 <= i < s.len() && 0x20 <= #[trigger] s[i] as int
            <= 0x7e implies at.contains(i) by {
            if i < last {
                assert(front[i] == s[i]);
                assert(before.contains(i));
                let a = choose|a: int| 0 <= a < before.len() && before[a] == i;
                assert(at[a] == i);
            } else {
                assert(at[at.len() - 1] == i);
            }
        }
        at
    }
}

/// A host name is the raw name `bare`, or `bare` with a root dot behind it, reduced to the
/// characters from space to tilde: each of those survives, nothing else does, and they keep their
/// order. A raw name is refused exactly if nothing is left of it, or if it has more than 253 bytes
/// without the dot.
pub proof fn law_host_names_keep_every_printable_character(raw: Seq<char>, bare: Seq<char>)
    requires
        raw == bare.push('.') || (raw == bare && (bare.len() > 0 ==> bare[bare.len() - 1] != '.')),
    ensures
        host_name(raw) matches Some(name) ==> {
            &&& vstd::utf8::encode_utf8(bare).len() <= 253
            &&& name.len() > 0
            &&& exists|at: Seq<int>|
                #[trigger] lists_printable_places(bare, at) && at.len() == name.len() && forall|
                    a: int,
                |
                    0 <= a < at.len() ==> name[a] == bare[#[trigger] at[a]]
        },
        host_name(raw) is None <==> {
            ||| vstd::utf8::encode_utf8(bare).len() > 253
            ||| forall|i: int|
                0 <= i < bare.len() ==> !(0x20 <= #[trigger] bare[i] as int <= 0x7e)
        },
{
    assert(without_root_dot(raw) =~= bare);
    let at = lemma_printable_places(bare);
    if vstd::utf8::encode_utf8(bare).len() <= 253 {
        if host_name(raw) is None {
            assert forall|i: int| 0 <= i < bare.len() implies !(0x20 <= #[trigger] bare[i] as int
                <= 0x7e) by {
                if 0x20 <= bare[i] as int <= 0x7e {
                    assert(at.contains(i));
                }
            }
        } else {
            assert(0 <= at[0] < bare.len() && 0x20 <= bare[at[0]] as int <= 0x7e);
        }
    }
}

proof fn lemma_printable_text_stays(s: Seq<char>)
    requires
        forall|i: int| 0 <= i < s.len() ==> 0x20 <= #[trigger] s[i] as int <= 0x7e,
    ensures
        printable_part(s) == s,
        vstd::utf8::encode_utf8(s).len() == s.len(),
    decreases s.len(),
{
    if s.len() > 0 {
        let front = s.drop_last();
        assert forall|i: int| 0 <= i < front.len() implies 0x20 <= #[trigger] front[i] as int
            <= 0x7e by {
            assert(front[i] == s[i]);
        }
        lemma_printable_text_stays(front);
        assert(s[s.len() - 1] == s.last());
        assert(printable_part(s) =~= s);
    }
    lemma_printable_text_is_short(s);
}

proof fn lemma_printable_text_is_short(s: Seq<char>)
    requires
        forall|i: int| 0 <= i < s.len() ==> 0x20 <= #[trigger] s[i] as int <= 0x7e,
    ensures
        vstd::utf8::encode_utf8(s).len() == s.len(),
    decreases s.len(),
{
    if s.len() > 0 {
        let rest = s.drop_first();
        assert forall|i: int| 0 <= i < rest.len() implies 0x20 <= #[trigger] rest[i] as int
            <= 0x7e by {
            assert(rest[i] == s[i + 1]);
        }
        lemma_printable_text_is_short(rest);
        assert(0x20 <= s[0] as int <= 0x7e);
    }
}

/// An ordinary name is kept as it is, with or without a root dot behind it: up to 253 characters
/// from space to tilde of which the last is no dot.
pub proof fn law_ordinary_names_stay(name: Seq<char>)
    requires
        0 < name.len() <= 253,
        forall|i: int| 0 <= i < name.len() ==> 0x20 <= #[trigger] name[i] as int <= 0x7e,
        name[name.len() - 1] != '.',
    ensures
        host_name(name) == Some(name),
        host_name(name.push('.')) == Some(name),
{
    lemma_printable_text_stays(name);
    assert(name.push('.').drop_last() =~= name);
}

/// Cleaning a name that is clean changes nothing, unless it still ends in a dot.
pub proof fn law_clean_names_stay_clean(raw: Seq<char>)
    ensures
        host_name(raw) matches Some(name) ==> name[name.len() - 1] != '.' ==> host_name(name)
            == Some(name),
{
    if let Some(name) = host_name(raw) {
        law_host_names_are_printable_and_bounded(raw);
        assert forall|i: int| 0 <= i < name.len() implies 0x20 <= #[trigger] name[i] as int
            <= 0x7e by {
            assert(is_printable(name[i]));
        }
        if name[name.len() - 1] != '.' {
            law_ordinary_names_stay(name);
        }
    }
}

/// One address that a DNS answer named.
#[derive(Debug, Clone, PartialEq, Eq)]
pub struct NameObservation {
    pub ts: Nanos,
    pub ip: IpAddr,
    pub name: HostName,
}

/// The contents of an observation.
pub ghost struct NameModel {
    pub ts: Nanos,
    pub ip: IpAddr,
    pub name: Seq<char>,
}

impl View for NameObservation {
    type V = NameModel;

    open spec fn view(&self) -> NameModel {
        NameModel { ts: self.ts, ip: self.ip, name: self.name@ }
    }
}

/// Resolves addresses to the names observed last. Bounded: once it holds as many addresses as it
/// may, further addresses are refused and counted.
#[derive(Debug)]
pub struct NameTable {
    v4: HashMap<u32, (Nanos, HostName)>,
    v6: HashMap<u128, (Nanos, HostName)>,
    dropped: u64,
}

/// The contents of a name table.
#[verifier::ext_equal]
pub ghost struct NameTableModel {
    /// The time and name of the latest observation of each address.
    pub names: Map<IpAddr, (Nanos, Seq<char>)>,
    /// How many addresses there are.
    pub size: nat,
    /// How many observations of further addresses were refused.
    pub dropped: u64,
}

impl NameTableModel {
    /// An empty table.
    pub open spec fn fresh() -> NameTableModel {
        NameTableModel { names: Map::empty(), size: 0, dropped: 0 }
    }

    /// The table after `obs`: an address keeps its latest name, on a tie the one seen last; a
    /// further address is refused once the table is full.
    pub open spec fn after(self, obs: NameModel) -> NameTableModel {
        if self.names.contains_key(obs.ip) {
            if obs.ts.0 >= self.names[obs.ip].0.0 {
                NameTableModel { names: self.names.insert(obs.ip, (obs.ts, obs.name)), ..self }
            } else {
                self
            }
        } else if self.size >= NAME_TABLE_CAP {
            NameTableModel { dropped: (self.dropped + 1) as u64, ..self }
        } else {
            NameTableModel {
                names: self.names.insert(obs.ip, (obs.ts, obs.name)),
                size: self.size + 1,
                ..self
            }
        }
    }

    /// `obs` can be recorded, or its refusal counted.
    pub open spec fn has_room(self, obs: NameModel) -> bool {
        self.names.contains_key(obs.ip) || self.size < NAME_TABLE_CAP || self.dropped < u64::MAX
    }

    /// The table after each of `list` in turn.
    pub open spec fn after_all(self, list: Seq<NameModel>) -> NameTableModel
        decreases list.len(),
    {
        if list.len() == 0 {
            self
        } else {
            self.after_all(list.drop_last()).after(list.last())
        }
    }
}

impl View for NameTable {
    type V = NameTableModel;

    closed spec fn view(&self) -> NameTableModel {
        NameTableModel {
            names: Map::new(
                |ip: IpAddr|
                    match ip {
                        IpAddr::V4(a) => self.v4@.contains_key(a.0),
                        IpAddr::V6(a) => self.v6@.contains_key(a.0),
                    },
                |ip: IpAddr|
                    match ip {
                        IpAddr::V4(a) => (self.v4@[a.0].0, self.v4@[a.0].1@),
                        IpAddr::V6(a) => (self.v6@[a.0].0, self.v6@[a.0].1@),
                    },
            ),
            size: self.v4@.dom().len() + self.v6@.dom().len(),
            dropped: self.dropped,
        }
    }
}

impl Default for NameTable {
    fn default() -> (res: NameTable)
        ensures
            res@ == NameTableModel::fresh(),
    {
        NameTable::new()
    }
}

impl NameTable {
    /// An empty table.
    #[must_use]
    pub fn new() -> (res: NameTable)
        ensures
            res@ == NameTableModel::fresh(),
    {
        let res = NameTable { v4: HashMap::new(), v6: HashMap::new(), dropped: 0 };
        proof {
            assert(res@ =~= NameTableModel::fresh());
        }
        res
    }

    /// The time of the latest observation of `ip`.
    fn known_since(&self, ip: IpAddr) -> (res: Option<Nanos>)
        ensures
            match res {
                Some(ts) => self@.names.contains_key(ip) && self@.names[ip].0 == ts,
                None => !self@.names.contains_key(ip),
            },
    {
        match ip {
            IpAddr::V4(a) => match self.v4.get(&a.0) {
                Some(entry) => Some(entry.0),
                None => None,
            },
            IpAddr::V6(a) => match self.v6.get(&a.0) {
                Some(entry) => Some(entry.0),
                None => None,
            },
        }
    }

    /// Whether an observation can be recorded, or its refusal counted.
    #[must_use]
    pub fn can_observe(&self, obs: &NameObservation) -> (res: bool)
        ensures
            res == self@.has_room(obs@),
    {
        self.known_since(obs.ip).is_some() || self.len() < NAME_TABLE_CAP || self.dropped
            < u64::MAX
    }

    /// Records an observation.
    pub fn observe(&mut self, obs: NameObservation)
        requires
            old(self)@.has_room(obs@),
        ensures
            final(self)@ == old(self)@.after(obs@),
    {
        let ghost before = self@;
        let ip = obs.ip;
        match self.known_since(ip) {
            Some(ts) => {
                if obs.ts.0 < ts.0 {
                    return ;
                }
            },
            None => {
                if self.len() >= NAME_TABLE_CAP {
                    self.dropped = self.dropped + 1;
                    proof {
                        assert(self@ =~= before.after(obs@));
                    }
                    return ;
                }
            },
        }
        let ghost model = obs@;
        match ip {
            IpAddr::V4(a) => {
                self.v4.insert(a.0, (obs.ts, obs.name));
            },
            IpAddr::V6(a) => {
                self.v6.insert(a.0, (obs.ts, obs.name));
            },
        }
        proof {
            assert(self@.names =~= before.names.insert(ip, (model.ts, model.name)));
            assert(self@ =~= before.after(model));
        }
    }

    /// The name of `ip`, if one was observed.
    #[must_use]
    pub fn resolve(&self, ip: IpAddr) -> (res: Option<&HostName>)
        ensures
            match res {
                Some(name) => self@.names.contains_key(ip) && name@ == self@.names[ip].1,
                None => !self@.names.contains_key(ip),
            },
    {
        match ip {
            IpAddr::V4(a) => match self.v4.get(&a.0) {
                Some(entry) => Some(&entry.1),
                None => None,
            },
            IpAddr::V6(a) => match self.v6.get(&a.0) {
                Some(entry) => Some(&entry.1),
                None => None,
            },
        }
    }

    /// How many addresses have a name; as many as can be counted.
    #[must_use]
    pub fn len(&self) -> (res: usize)
        ensures
            res == (if self@.size <= usize::MAX {
                self@.size
            } else {
                usize::MAX as nat
            }),
    {
        self.v4.len().saturating_add(self.v6.len())
    }

    /// Whether no address has a name.
    #[must_use]
    pub fn is_empty(&self) -> (res: bool)
        ensures
            res == (self@.size == 0),
    {
        self.len() == 0
    }

    /// How many observations of further addresses were refused.
    #[must_use]
    pub fn dropped(&self) -> (res: u64)
        ensures
            res == self@.dropped,
    {
        self.dropped
    }
}

/// However many observations come, the table never holds more addresses than it may.
pub proof fn law_name_table_stays_within_cap(list: Seq<NameModel>)
    ensures
        NameTableModel::fresh().after_all(list).size <= NAME_TABLE_CAP,
    decreases list.len(),
{
    if list.len() > 0 {
        law_name_table_stays_within_cap(list.drop_last());
    }
}

/// The size of a table is the number of its addresses, each of which counts once however often it
/// is observed.
pub proof fn law_each_address_counts_once(list: Seq<NameModel>)
    ensures
        NameTableModel::fresh().after_all(list).names.dom().finite(),
        NameTableModel::fresh().after_all(list).names.dom().len()
            == NameTableModel::fresh().after_all(list).size,
    decreases list.len(),
{
    if list.len() > 0 {
        law_each_address_counts_once(list.drop_last());
        let before = NameTableModel::fresh().after_all(list.drop_last());
        let obs = list.last();
        assert(before.names.insert(obs.ip, (obs.ts, obs.name)).dom() =~= before.names.dom().insert(
            obs.ip,
        ));
    }
}

/// The latest observation of an address wins, in whichever order two of them come, wherever the
/// address has a place in the table.
pub proof fn law_latest_name_wins(table: NameTableModel, one: NameModel, two: NameModel)
    requires
        one.ip == two.ip,
        one.ts.0 < two.ts.0,
        table.names.contains_key(one.ip) || table.size < NAME_TABLE_CAP,
    ensures
        table.after(one).after(two) == table.after(two).after(one),
        table.after(one).after(two).names[one.ip] == (if table.names.contains_key(one.ip)
            && table.names[one.ip].0.0 > two.ts.0 {
            table.names[one.ip]
        } else {
            (two.ts, two.name)
        }),
{
    assert(table.after(one).after(two) =~= table.after(two).after(one));
}

/// An address that the table holds can still be renamed once the table is full, and a new one is
/// refused and counted.
pub proof fn law_full_table_still_renames(table: NameTableModel, obs: NameModel)
    requires
        table.size >= NAME_TABLE_CAP,
        table.has_room(obs),
    ensures
        table.names.contains_key(obs.ip) && obs.ts.0 >= table.names[obs.ip].0.0 ==> table.after(
            obs,
        ).names[obs.ip] == (obs.ts, obs.name),
        !table.names.contains_key(obs.ip) ==> table.after(obs).names == table.names && table.after(
            obs,
        ).dropped == table.dropped + 1,
{
}

/// Each address resolves to the name it was observed under last: of the observations of an
/// address the one with the latest time counts, and of several with that time the one that came
/// last. An address that was never observed resolves to nothing.
pub proof fn law_addresses_resolve_to_their_latest_name(list: Seq<NameModel>, ip: IpAddr)
    requires
        list.len() <= NAME_TABLE_CAP,
    ensures
        ({
            let table = NameTableModel::fresh().after_all(list);
            &&& table.dropped == 0
            &&& table.size <= list.len()
            &&& table.names.contains_key(ip) <==> exists|i: int|
                0 <= i < list.len() && (#[trigger] list[i]).ip == ip
            &&& table.names.contains_key(ip) ==> exists|i: int|
                {
                    &&& 0 <= i < list.len()
                    &&& (#[trigger] list[i]).ip == ip
                    &&& table.names[ip] == (list[i].ts, list[i].name)
                    &&& forall|j: int|
                        0 <= j < list.len() && (#[trigger] list[j]).ip == ip ==> list[j].ts.0
                            <= list[i].ts.0 && (j > i ==> list[j].ts.0 < list[i].ts.0)
                }
        }),
    decreases list.len(),
{
    if list.len() > 0 {
        let rest = list.drop_last();
        let obs = list.last();
        let last = list.len() - 1;
        law_addresses_resolve_to_their_latest_name(rest, ip);
        law_addresses_resolve_to_their_latest_name(rest, obs.ip);
        let before = NameTableModel::fresh().after_all(rest);
        let after = NameTableModel::fresh().after_all(list);
        assert(after == before.after(obs));
        assert forall|i: int| 0 <= i < rest.len() implies #[trigger] rest[i] == list[i] by {}
        if before.names.contains_key(ip) {
            let w = choose|i: int|
                {
                    &&& 0 <= i < rest.len()
                    &&& (#[trigger] rest[i]).ip == ip
                    &&& before.names[ip] == (rest[i].ts, rest[i].name)
                    &&& forall|j: int|
                        0 <= j < rest.len() && (#[trigger] rest[j]).ip == ip ==> rest[j].ts.0
                            <= rest[i].ts.0 && (j > i ==> rest[j].ts.0 < rest[i].ts.0)
                };
            assert(list[w].ip == ip);
            let i = if obs.ip == ip && obs.ts.0 >= before.names[ip].0.0 {
                last
            } else {
                w
            };
            assert(list[i].ip == ip && after.names[ip] == (list[i].ts, list[i].name));
            assert forall|j: int| 0 <= j < list.len() && (#[trigger] list[j]).ip == ip implies list[
                j].ts.0 <= list[i].ts.0 && (j > i ==> list[j].ts.0 < list[i].ts.0) by {
                if j < last {
                    assert(rest[j] == list[j]);
                    assert(rest[j].ts.0 <= rest[w].ts.0 && (j > w ==> rest[j].ts.0
                        < rest[w].ts.0));
                }
            }
        } else {
            assert forall|j: int| 0 <= j < rest.len() implies (#[trigger] list[j]).ip != ip by {
                assert(rest[j] == list[j]);
            }
            if obs.ip == ip {
                assert(list[last].ip == ip);
            }
        }
    }
}

/// The limits: no name of more than 253 characters is accepted, and a further address is taken as
/// long as fewer than 65536 are held.
pub proof fn law_names_and_addresses_are_limited(
    raw: Seq<char>,
    table: NameTableModel,
    obs: NameModel,
)
    ensures
        raw.len() > 254 ==> host_name(raw) is None,
        raw.len() == 254 && raw[253] != '.' ==> host_name(raw) is None,
        !table.names.contains_key(obs.ip) ==> (table.after(obs).names.contains_key(obs.ip)
            <==> table.size < 65_536),
{
    lemma_encoding_is_no_shorter(without_root_dot(raw));
}

} // verus!
