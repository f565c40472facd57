//! Live capture: options, failures, and what becomes of each read from an interface.
//!
//! The caller opens the interface and reads from it; what a read means is decided here.

use vstd::prelude::*;

use crate::decode::{decode_frame, DecodeOutcome, OutcomeModel};
use crate::ingest::{SkipCounts, SkipReason};
use crate::link::LinkType;
use crate::name::{NameModel, NameObservation};
use crate::segment::{Item, SegmentModel};
use crate::text::{append_decimal, contains_text};
use crate::time::{Nanos, SECOND};

verus! {

/// How long a read waits for a packet, in milliseconds.
pub const READ_TIMEOUT_MS: i32 = 100;

/// How much of each packet is captured unless told otherwise: all of it.
pub const DEFAULT_SNAPLEN: i32 = 262_144;

/// Options for opening a live capture.
#[derive(Debug, Clone, PartialEq, Eq)]
pub struct LiveOptions {
    pub iface: String,
    pub filter: Option<String>,
    pub snaplen: i32,
    pub promisc: bool,
}

impl LiveOptions {
    /// Options for `iface`: whole packets, not promiscuous, no filter.
    #[must_use]
    pub fn new(iface: &str) -> (res: LiveOptions)
        ensures
            res.iface@ == iface@,
            res.filter is None,
            res.snaplen == DEFAULT_SNAPLEN,
            !res.promisc,
    {
        LiveOptions {
            iface: iface.to_owned(),
            filter: None,
            snaplen: DEFAULT_SNAPLEN,
            promisc: false,
        }
    }
}

/// An interface that can be captured on.
#[derive(Debug, Clone, PartialEq, Eq)]
pub struct InterfaceInfo {
    pub name: String,
    pub description: Option<String>,
}

/// Failures to open or drive a live capture; problems of single packets are counted instead.
#[derive(Debug, PartialEq, Eq)]
pub enum LiveError {
    Open { iface: String, detail: String },
    Activate { iface: String, detail: String },
    Privilege { iface: String },
    Filter { expr: String, detail: String },
    UnsupportedLinkType { dlt: u16 },
    Interfaces { detail: String },
}

impl LiveError {
    /// The message shown to the user.
    pub open spec fn message_spec(self) -> Seq<char> {
        match self {
            LiveError::Open { iface, detail } => "opening interface "@ + iface@ + " for capture: "@
                + detail@,
            LiveError::Activate { iface, detail } => "activating capture on "@ + iface@ + ": "@
                + detail@,
            LiveError::Privilege { iface } => "insufficient privilege to capture on "@ + iface@
                + "; grant it with `sudo setcap cap_net_raw,cap_net_admin+eip $(command -v tcp-visr)` or run as root"@,
            LiveError::Filter { expr, detail } => "installing BPF filter `"@ + expr@ + "`: "@
                + detail@,
            LiveError::UnsupportedLinkType { dlt } => "unsupported link type "@
                + crate::text::decimal(dlt as nat)
                + " on the interface (supports Ethernet, SLL, SLL2, raw IP, null)"@,
            LiveError::Interfaces { detail } => "enumerating capture interfaces: "@ + detail@,
        }
    }

    /// The message shown to the user.
    #[must_use]
    pub fn message(&self) -> (res: String)
        ensures
            res@ == self.message_spec(),
    {
        match self {
            LiveError::Open { iface, detail } => {
                let mut out = "opening interface ".to_owned();
                out.append(iface.as_str());
                out.append(" for capture: ");
                out.append(detail.as_str());
                out
            },
            LiveError::Activate { iface, detail } => {
                let mut out = "activating capture on ".to_owned();
                out.append(iface.as_str());
                out.append(": ");
                out.append(detail.as_str());
                out
            },
            LiveError::Privilege { iface } => {
                let mut out = "insufficient privilege to capture on ".to_owned();
                out.append(iface.as_str());
                out.append(
                    "; grant it with `sudo setcap cap_net_raw,cap_net_admin+eip $(command -v tcp-visr)` or run as root",
                );
                out
            },
            LiveError::Filter { expr, detail } => {
                let mut out = "installing BPF filter `".to_owned();
                out.append(expr.as_str());
                out.append("`: ");
                out.append(detail.as_str());
                out
            },
            LiveError::UnsupportedLinkType { dlt } => {
                let mut out = "unsupported link type ".to_owned();
                append_decimal(&mut out, *dlt as u64);
                out.append(" on the interface (supports Ethernet, SLL, SLL2, raw IP, null)");
                out
            },
            LiveError::Interfaces { detail } => {
                let mut out = "enumerating capture interfaces: ".to_owned();
                out.append(detail.as_str());
                out
            },
        }
    }
}

/// The text `lower` of an error, in lower case, speaks of a lack of privilege.
pub open spec fn speaks_of_privilege(lower: Seq<char>) -> bool {
    crate::text::contains(lower, "permission"@) || crate::text::contains(lower, "not permitted"@)
        || crate::text::contains(lower, "root"@)
}

/// `res` is the failure to open `iface` with the reason `detail`, which is `lower` in lower case.
pub open spec fn is_open_error(
    res: LiveError,
    iface: Seq<char>,
    detail: Seq<char>,
    lower: Seq<char>,
) -> bool {
    if speaks_of_privilege(lower) {
        res matches LiveError::Privilege { iface: named } && named@ == iface
    } else {
        res matches LiveError::Activate { iface: named, detail: given } && named@ == iface
            && given@ == detail
    }
}

/// The failure to open `iface` with the reason `detail`, which is `lower` in lower case: one that
/// speaks of a lack of privilege is reported as that.
#[must_use]
pub fn classify_open_error(iface: &str, detail: &str, lower: &str) -> (res: LiveError)
    ensures
        is_open_error(res, iface@, detail@, lower@),
{
    if contains_text(lower, "permission") || contains_text(lower, "not permitted")
        || contains_text(lower, "root") {
        LiveError::Privilege { iface: iface.to_owned() }
    } else {
        LiveError::Activate { iface: iface.to_owned(), detail: detail.to_owned() }
    }
}

/// The failure to open `iface` with the reason `detail`. A lack of privilege is recognised
/// whatever the case it is written in.
#[must_use]
pub fn map_open_error(iface: &str, detail: &str) -> (res: LiveError)
    ensures
        is_open_error(res, iface@, detail@, crate::text::lowered(detail@)),
{
    let lower = detail.to_lowercase();
    classify_open_error(iface, detail, lower.as_str())
}

/// An event of a live capture.
#[derive(Debug, PartialEq, Eq)]
pub enum LiveEvent {
    Item(Item),
    Name(NameObservation),
}

/// An event of a live capture, by what it says.
#[verifier::ext_equal]
pub enum LiveEventModel {
    Segment(SegmentModel),
    Tick(Nanos),
    Name(NameModel),
}

impl View for LiveEvent {
    type V = LiveEventModel;

    open spec fn view(&self) -> LiveEventModel {
        match self {
            LiveEvent::Item(Item::Segment(seg)) => LiveEventModel::Segment(seg@),
            LiveEvent::Item(Item::Tick(ts)) => LiveEventModel::Tick(*ts),
            LiveEvent::Name(obs) => LiveEventModel::Name(obs@),
        }
    }
}

/// The time origin once `abs_ns` has been seen.
pub open spec fn origin(abs_ns: u64, baseline: Option<u64>) -> u64 {
    match baseline {
        Some(base) => base,
        None => abs_ns,
    }
}

/// The time `abs_ns` counted from the first time seen; an earlier one counts as the first.
pub fn normalize_ts(abs_ns: u64, baseline: &mut Option<u64>) -> (res: Nanos)
    ensures
        *final(baseline) == Some(origin(abs_ns, *old(baseline))),
        res == crate::time::elapsed(Nanos(abs_ns), Nanos(origin(abs_ns, *old(baseline)))),
{
    let base: u64 = match *baseline {
        Some(base) => base,
        None => abs_ns,
    };
    *baseline = Some(base);
    Nanos(abs_ns.saturating_sub(base))
}

/// `n`, or zero if it is negative.
pub open spec fn at_least_zero(n: i64) -> int {
    if n < 0 {
        0
    } else {
        n as int
    }
}

/// The time of a packet in nanoseconds: seconds, and nanoseconds or microseconds.
pub open spec fn stamp(tv_sec: i64, tv_sub: i64, nanos: bool) -> int {
    at_least_zero(tv_sec) * SECOND + at_least_zero(tv_sub) * (if nanos {
        1int
    } else {
        1_000
    })
}

/// The time of a packet in nanoseconds, if it can be represented.
#[must_use]
pub fn packet_time(tv_sec: i64, tv_sub: i64, nanos: bool) -> (res: Option<u64>)
    ensures
        match res {
            Some(ns) => ns == stamp(tv_sec, tv_sub, nanos),
            None => stamp(tv_sec, tv_sub, nanos) > u64::MAX,
        },
{
    let sec: u128 = if tv_sec < 0 {
        0
    } else {
        tv_sec as u128
    };
    let sub: u128 = if tv_sub < 0 {
        0
    } else {
        tv_sub as u128
    };
    let ns: u128 = sec * SECOND as u128 + sub * (if nanos {
        1u128
    } else {
        1_000u128
    });
    if ns > u64::MAX as u128 {
        None
    } else {
        Some(ns as u64)
    }
}

/// What a read from the interface came back with.
pub enum CaptureRead<'a> {
    /// A packet captured at `abs_ns`, with its length on the wire.
    Packet { abs_ns: u64, wire_len: u32, data: &'a [u8] },
    /// No packet in time; the clock says `now_ns`.
    Timeout { now_ns: u64 },
    /// The capture is over.
    Ended,
}

/// The state of a live capture: its link layer, the first time seen, what was skipped, and how
/// much of that was unexpected.
#[derive(Debug, Clone, Copy, PartialEq, Eq, Structural)]
pub struct LiveSession {
    pub link: LinkType,
    pub baseline: Option<u64>,
    pub skipped: SkipCounts,
    pub diagnostic_skips: u64,
}

impl LiveSession {
    /// Unexpected skips are among the skips counted.
    pub open spec fn wf(self) -> bool {
        self.diagnostic_skips == self.skipped.sum() - self.skipped.non_tcp
    }

    /// The start of a capture on a link layer.
    pub open spec fn start(link: LinkType) -> LiveSession {
        LiveSession { link, baseline: None, skipped: SkipCounts::zero(), diagnostic_skips: 0 }
    }

    /// The session once `reason` has been counted. Other protocols are expected on an interface;
    /// every other skip is not.
    pub open spec fn with_skip(self, reason: SkipReason) -> LiveSession {
        LiveSession {
            skipped: self.skipped.plus(reason),
            diagnostic_skips: if reason == SkipReason::NonTcp {
                self.diagnostic_skips
            } else {
                (self.diagnostic_skips + 1) as u64
            },
            ..self
        }
    }

    /// The session after a read, and the events it gives; none at all once the capture is over.
    pub open spec fn after_read(self, read: CaptureRead<'_>) -> (
        LiveSession,
        Option<Seq<LiveEventModel>>,
    ) {
        match read {
            CaptureRead::Packet { abs_ns, wire_len, data } => {
                let base = origin(abs_ns, self.baseline);
                let ts = crate::time::elapsed(Nanos(abs_ns), Nanos(base));
                let based = LiveSession { baseline: Some(base), ..self };
                match crate::decode::frame_outcome(self.link, ts, data@, wire_len) {
                    OutcomeModel::Decoded(seg) => (
                        based,
                        Some(seq![LiveEventModel::Segment(seg)]),
                    ),
                    OutcomeModel::Names(list) => (
                        based,
                        Some(list.map_values(|o: NameModel| LiveEventModel::Name(o))),
                    ),
                    OutcomeModel::Skipped(reason) => (
                        based.with_skip(reason),
                        Some(Seq::empty()),
                    ),
                }
            },
            CaptureRead::Timeout { now_ns } => {
                let base = origin(now_ns, self.baseline);
                (
                    LiveSession { baseline: Some(base), ..self },
                    Some(
                        seq![
                            LiveEventModel::Tick(
                                crate::time::elapsed(Nanos(now_ns), Nanos(base)),
                            ),
                        ],
                    ),
                )
            },
            CaptureRead::Ended => (self, None),
        }
    }

    /// The start of a capture on an interface with the data-link number `dlt`.
    ///
    /// # Errors
    ///
    /// A number without a supported link layer; one that does not fit is reported as the largest.
    pub fn open(dlt: i32) -> (res: Result<LiveSession, LiveError>)
        ensures
            match res {
                Ok(session) => session.wf() && LinkType::numbered(dlt as int) is Some && session
                    == Self::start(LinkType::numbered(dlt as int)->0),
                Err(error) => LinkType::numbered(dlt as int) is None && error
                    == (LiveError::UnsupportedLinkType {
                    dlt: if 0 <= dlt <= u16::MAX {
                        dlt as u16
                    } else {
                        u16::MAX
                    },
                }),
            },
    {
        if dlt < 0 || dlt > 0xffff {
            return Err(LiveError::UnsupportedLinkType { dlt: u16::MAX });
        }
        let dlt: u16 = dlt as u16;
        match LinkType::from_dlt(dlt) {
            Some(link) => Ok(
                LiveSession {
                    link,
                    baseline: None,
                    skipped: SkipCounts::default(),
                    diagnostic_skips: 0,
                },
            ),
            None => Err(LiveError::UnsupportedLinkType { dlt }),
        }
    }

    /// The link layer.
    #[must_use]
    pub fn link_type(&self) -> (res: LinkType)
        ensures
            res == self.link,
    {
        self.link
    }

    /// Whether one more packet can be counted.
    #[must_use]
    pub fn has_room(&self) -> (res: bool)
        ensures
            res == (self.skipped.sum() < u64::MAX),
    {
        self.skipped.has_room()
    }

    /// Takes what a read came back with. Gives the events of it, or none at all when the capture
    /// is over: a segment or its names for a packet, a tick for a timeout. A packet that is not
    /// decoded is counted and gives no event.
    pub fn take_read(&mut self, read: CaptureRead<'_>) -> (res: Option<Vec<LiveEvent>>)
        requires
            old(self).wf(),
            old(self).skipped.sum() < u64::MAX,
        ensures
            final(self).wf(),
            old(self).after_read(read) == (
                *final(self),
                match res {
                    Some(events) => Some(events@.map_values(|e: LiveEvent| e@)),
                    None => None,
                },
            ),
    {
        let mut events: Vec<LiveEvent> = Vec::new();
        match read {
            CaptureRead::Packet { abs_ns, wire_len, data } => {
                let ts = normalize_ts(abs_ns, &mut self.baseline);
                match decode_frame(self.link, ts, data, wire_len) {
                    DecodeOutcome::Decoded(seg) => {
                        let ghost model = seg@;
                        events.push(LiveEvent::Item(Item::Segment(seg)));
                        proof {
                            assert(events@.map_values(|e: LiveEvent| e@) =~= seq![
                                LiveEventModel::Segment(model),
                            ]);
                        }
                    },
                    DecodeOutcome::Names(list) => {
                        events = name_events(list);
                    },
                    DecodeOutcome::Skipped(reason) => {
                        self.skipped.record(reason);
                        match reason {
                            SkipReason::NonTcp => {},
                            _ => {
                                self.diagnostic_skips = self.diagnostic_skips + 1;
                            },
                        }
                        proof {
                            assert(events@.map_values(|e: LiveEvent| e@) =~= Seq::<
                                LiveEventModel,
                            >::empty());
                        }
                    },
                }
                Some(events)
            },
            CaptureRead::Timeout { now_ns } => {
                let ts = normalize_ts(now_ns, &mut self.baseline);
                events.push(LiveEvent::Item(Item::Tick(ts)));
                proof {
                    assert(events@.map_values(|e: LiveEvent| e@) =~= seq![
                        LiveEventModel::Tick(ts),
                    ]);
                }
                Some(events)
            },
            CaptureRead::Ended => None,
        }
    }
}

/// One event per observed name, in order.
fn name_events(list: Vec<NameObservation>) -> (res: Vec<LiveEvent>)
    ensures
        res@.map_values(|e: LiveEvent| e@) == list@.map_values(
            |o: NameObservation| o@,
        ).map_values(|o: NameModel| LiveEventModel::Name(o)),
{
    let ghost all = list@;
    let mut events: Vec<LiveEvent> = Vec::new();
    for obs in it: list
        invariant
            it.seq() == all,
            events@.len() == it.index(),
            forall|k: int|
                0 <= k < events@.len() ==> (#[trigger] events@[k])@ == LiveEventModel::Name(
                    all[k]@,
                ),
    {
        events.push(LiveEvent::Name(obs));
    }
    proof {
        assert(events@.map_values(|e: LiveEvent| e@) =~= all.map_values(
            |o: NameObservation| o@,
        ).map_values(|o: NameModel| LiveEventModel::Name(o)));
    }
    events
}

/// A capture on an interface decodes like a capture file: the same bytes, at the same time, on
/// the same link layer, give the same segment, the same names or the same skip.
pub proof fn law_live_decodes_like_replay(
    session: LiveSession,
    replay: crate::replay::Replay,
    path: Seq<char>,
    abs_ns: u64,
    wire_len: u32,
    data: &[u8],
)
    requires
        replay.link_type == Some(session.link),
        replay.baseline == session.baseline,
        replay.skipped == session.skipped,
    ensures
        ({
            let (live, events) = session.after_read(
                CaptureRead::Packet { abs_ns, wire_len, data },
            );
            let (file, emitted) = replay.after_packet(path, abs_ns, wire_len, data@);
            &&& live.baseline == file.baseline
            &&& live.skipped == file.skipped
            &&& match emitted {
                Ok(crate::replay::EmittedModel::Segment(seg)) => events == Some(
                    seq![LiveEventModel::Segment(seg)],
                ),
                Ok(crate::replay::EmittedModel::Names(list)) => events == Some(
                    list.map_values(|o: NameModel| LiveEventModel::Name(o)),
                ),
                Ok(crate::replay::EmittedModel::Nothing) => events == Some(
                    Seq::<LiveEventModel>::empty(),
                ),
                Err(_) => false,
            }
        }),
{
}

/// Packets of other protocols never count as unexpected, and every other skip does.
pub proof fn law_only_unexpected_skips_are_diagnostic(session: LiveSession, reason: SkipReason)
    requires
        session.wf(),
        session.skipped.sum() < u64::MAX,
    ensures
        session.with_skip(reason).wf(),
        reason == SkipReason::NonTcp <==> session.with_skip(reason).diagnostic_skips
            == session.diagnostic_skips,
{
}

/// What a read from an interface gives: a packet the segment or the names that its frame decodes to
/// at its time, or nothing and one more skip; a time-out the passing of time; the end nothing more.
/// All times count from the first read and are never negative.
pub proof fn law_reads_become_events(session: LiveSession, abs_ns: u64, wire_len: u32, data: &[u8])
    ensures
        ({
            let base = match session.baseline {
                Some(base) => base,
                None => abs_ns,
            };
            let t = Nanos(
                if abs_ns >= base {
                    (abs_ns - base) as u64
                } else {
                    0
                },
            );
            let (next, events) = session.after_read(
                CaptureRead::Packet { abs_ns, wire_len, data },
            );
            let (idle, passed) = session.after_read(CaptureRead::Timeout { now_ns: abs_ns });
            &&& next.baseline == Some(base) && next.link == session.link
            &&& match crate::decode::frame_outcome(session.link, t, data@, wire_len) {
                OutcomeModel::Decoded(seg) => {
                    &&& events == Some(seq![LiveEventModel::Segment(seg)])
                    &&& next.skipped == session.skipped
                },
                OutcomeModel::Names(list) => {
                    &&& events is Some
                    &&& events->0.len() == list.len()
                    &&& forall|i: int|
                        0 <= i < list.len() ==> #[trigger] events->0[i] == LiveEventModel::Name(
                            list[i],
                        )
                    &&& next.skipped == session.skipped
                },
                OutcomeModel::Skipped(reason) => {
                    &&& events is Some && events->0.len() == 0
                    &&& next.skipped == session.skipped.plus(reason)
                },
            }
            &&& idle == (LiveSession { baseline: Some(base), ..session })
            &&& passed == Some(seq![LiveEventModel::Tick(t)])
        }),
        session.after_read(CaptureRead::Ended) == (session, None::<Seq<LiveEventModel>>),
{
}

/// The time of a captured packet in nanoseconds: its seconds, and its fraction in nanoseconds or
/// microseconds.
pub proof fn law_packet_times_add_up(tv_sec: u32, tv_sub: u32)
    ensures
        stamp(tv_sec as i64, tv_sub as i64, true) == tv_sec * 1_000_000_000 + tv_sub,
        stamp(tv_sec as i64, tv_sub as i64, false) == tv_sec * 1_000_000_000 + tv_sub * 1_000,
{
}

/// A failure to open an interface is one of privilege exactly if its text says so, and otherwise
/// names the interface and the text.
pub proof fn law_privilege_failures_are_told_apart(
    error: LiveError,
    iface: Seq<char>,
    detail: Seq<char>,
    lower: Seq<char>,
)
    requires
        is_open_error(error, iface, detail, lower),
    ensures
        error is Privilege <==> crate::text::contains(lower, "permission"@)
            || crate::text::contains(lower, "not permitted"@) || crate::text::contains(
            lower,
            "root"@,
        ),
        error is Privilege || error is Activate,
        error matches LiveError::Privilege { iface: named } ==> named@ == iface,
        error matches LiveError::Activate { iface: named, detail: told } ==> named@ == iface
            && told@ == detail,
{
}

} // verus!
