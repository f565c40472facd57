//! Reading of capture files: what each block of the container means.
//!
//! The caller reads blocks and performs the actions asked for; what becomes of a block, and when
//! the reading ends and how, is decided here.

use vstd::prelude::*;

use crate::decode::{decode_frame, DecodeOutcome, OutcomeModel};
use crate::ingest::{IngestError, IngestErrorModel, SkipCounts};
use crate::link::LinkType;
use crate::name::{NameModel, NameObservation};
use crate::segment::{Segment, SegmentModel};
use crate::text::append_decimal;
use crate::time::{clamped_product, Nanos, SECOND};

verus! {

/// Nanoseconds per tick of a microsecond clock.
pub const MICRO_TICK_NS: u64 = 1_000;

/// The magic number of a legacy capture with nanosecond timestamps.
pub const NANO_MAGIC: u32 = 0xa1b2_3c4d;

/// `pcap_parser::build_ts_resolution`: the ticks per second that the resolution byte of an
/// interface stands for. Claims that it is the power of ten with that exponent up to nineteen,
/// and that there is none above.
pub assume_specification[ pcap_parser::build_ts_resolution ](ts_resol: u8) -> (res: Option<u64>)
    ensures
        ts_resol <= 19 ==> res == Some(vstd::arithmetic::power::pow(10, ts_resol as nat) as u64),
        ts_resol > 19 ==> res is None,
;

/// A block of a capture file, as far as it matters.
pub enum CaptureBlock<'a> {
    /// The header of a legacy capture.
    LegacyHeader { network: i32, magic: u32 },
    /// A packet of a legacy capture.
    Legacy { ts_sec: u32, ts_usec: u32, origlen: u32, data: &'a [u8] },
    /// The description of an interface, with the exponent of its ticks per second.
    Interface { linktype: i32, tsresol: u8 },
    /// A packet that came in on a described interface.
    Enhanced { ts_high: u32, ts_low: u32, origlen: u32, data: &'a [u8] },
    /// Anything else.
    Other,
}

/// What a block adds to the parse.
#[derive(Debug, PartialEq, Eq)]
pub enum Emitted {
    Nothing,
    Segment(Segment),
    Names(Vec<NameObservation>),
}

/// What a block adds to the parse, by what it says.
#[verifier::ext_equal]
pub enum EmittedModel {
    Nothing,
    Segment(SegmentModel),
    Names(Seq<NameModel>),
}

impl View for Emitted {
    type V = EmittedModel;

    open spec fn view(&self) -> EmittedModel {
        match self {
            Emitted::Nothing => EmittedModel::Nothing,
            Emitted::Segment(seg) => EmittedModel::Segment(seg@),
            Emitted::Names(list) => EmittedModel::Names(list@.map_values(|o: NameObservation| o@)),
        }
    }
}

/// What the reader of the container comes back with.
pub enum ReadEvent<'a> {
    Block(CaptureBlock<'a>),
    /// The capture ended where a block may end.
    Eof,
    /// The next block is not in the buffer yet.
    Incomplete,
    /// The container cannot be read on, with the reason.
    Failed(String),
}

/// What is to be done next.
#[derive(Debug, PartialEq, Eq)]
pub enum ReadAction {
    /// Pass on what the block added, drop the block, and read on.
    Consume(Emitted),
    /// Fill the buffer and read on.
    Refill,
    /// The parse is complete.
    Finish(LinkType, SkipCounts),
    /// The parse has failed.
    Fail(IngestError),
}

/// What is to be done next, by what it says.
#[verifier::ext_equal]
pub enum ReadActionModel {
    Consume(EmittedModel),
    Refill,
    Finish(LinkType, SkipCounts),
    Fail(IngestErrorModel),
}

impl View for ReadAction {
    type V = ReadActionModel;

    open spec fn view(&self) -> ReadActionModel {
        match self {
            ReadAction::Consume(emitted) => ReadActionModel::Consume(emitted@),
            ReadAction::Refill => ReadActionModel::Refill,
            ReadAction::Finish(link, skipped) => ReadActionModel::Finish(*link, *skipped),
            ReadAction::Fail(error) => ReadActionModel::Fail(error@),
        }
    }
}

/// Nanoseconds per tick of a clock with `ticks_per_sec` ticks per second: none for a clock that
/// is finer than a nanosecond or does not divide the second into whole nanoseconds.
pub open spec fn tick_length(ticks_per_sec: u64) -> Option<u64> {
    if ticks_per_sec == 0 || SECOND % ticks_per_sec != 0 {
        None
    } else {
        Some(SECOND / ticks_per_sec)
    }
}

/// Nanoseconds per tick of a clock with `ticks_per_sec` ticks per second.
#[must_use]
pub fn nanos_per_tick(ticks_per_sec: u64) -> (res: Option<u64>)
    ensures
        res == tick_length(ticks_per_sec),
{
    if ticks_per_sec == 0 || SECOND % ticks_per_sec != 0 {
        None
    } else {
        Some(SECOND / ticks_per_sec)
    }
}

/// A clock that is accepted has exactly one second's worth of nanoseconds in its ticks per
/// second.
pub proof fn law_accepted_clocks_divide_the_second(ticks_per_sec: u64)
    ensures
        tick_length(ticks_per_sec) matches Some(tick) ==> tick * ticks_per_sec == SECOND,
{
    if ticks_per_sec != 0 && SECOND % ticks_per_sec == 0 {
        vstd::arithmetic::div_mod::lemma_fundamental_div_mod(SECOND as int, ticks_per_sec as int);
        assert((SECOND / ticks_per_sec) * ticks_per_sec == ticks_per_sec * (SECOND
            / ticks_per_sec)) by (nonlinear_arith);
    }
}

/// The time of a legacy packet.
pub open spec fn legacy_time(ts_sec: u32, ts_usec: u32, tick: u64) -> u64 {
    crate::time::clamped(ts_sec * SECOND + crate::time::clamped(ts_usec * tick))
}

/// The time of a packet with a tick count in two halves.
pub open spec fn enhanced_time(ts_high: u32, ts_low: u32, tick: u64) -> u64 {
    crate::time::clamped((ts_high * 0x1_0000_0000 + ts_low) * tick)
}

/// The link layer with the data-link number `dlt`, or the error for a number that has none.
pub open spec fn link_of(dlt: i32) -> Result<LinkType, IngestErrorModel> {
    if 0 <= dlt <= u16::MAX {
        match LinkType::numbered(dlt as int) {
            Some(link) => Ok(link),
            None => Err(IngestErrorModel::UnknownLinkType { dlt: dlt as u16 }),
        }
    } else {
        Err(IngestErrorModel::UnknownLinkType { dlt: u16::MAX })
    }
}

/// The link layer with the data-link number `dlt`.
///
/// # Errors
///
/// A number without a supported link layer; one that does not fit is reported as the largest.
pub fn dlt_to_link(dlt: i32) -> (res: Result<LinkType, IngestError>)
    ensures
        match res {
            Ok(link) => link_of(dlt) == Ok::<LinkType, IngestErrorModel>(link),
            Err(error) => link_of(dlt) == Err::<LinkType, IngestErrorModel>(error@),
        },
{
    if dlt < 0 || dlt > 0xffff {
        return Err(IngestError::UnknownLinkType { dlt: u16::MAX });
    }
    let dlt: u16 = dlt as u16;
    match LinkType::from_dlt(dlt) {
        Some(link) => Ok(link),
        None => Err(IngestError::UnknownLinkType { dlt }),
    }
}

/// The state of a parse: the link layer once it is known, the time of the first packet, the
/// length of a tick, and what was skipped.
#[derive(Debug, Clone, Copy, PartialEq, Eq, Structural)]
pub struct Replay {
    pub link_type: Option<LinkType>,
    pub baseline: Option<u64>,
    pub nanos_per_tick: u64,
    pub skipped: SkipCounts,
}

/// The detail of the error for a clock that is too fine.
pub open spec fn resolution_detail(ticks_per_sec: u64) -> Seq<char> {
    "unsupported timestamp resolution ("@ + crate::text::decimal(ticks_per_sec as nat)
        + " ticks/s); M1 supports nanosecond or coarser"@
}

impl Replay {
    /// The start of a parse.
    pub open spec fn start() -> Replay {
        Replay {
            link_type: None,
            baseline: None,
            nanos_per_tick: MICRO_TICK_NS,
            skipped: SkipCounts::zero(),
        }
    }

    /// The time of the first packet, if `abs_ns` is the time of the next.
    pub open spec fn base(self, abs_ns: u64) -> u64 {
        match self.baseline {
            Some(base) => base,
            None => abs_ns,
        }
    }

    /// The time `abs_ns` counted from the first packet.
    pub open spec fn relative(self, abs_ns: u64) -> Nanos {
        crate::time::elapsed(Nanos(abs_ns), Nanos(self.base(abs_ns)))
    }

    /// What comes of a packet: the state after it, and what it adds or the error it is.
    pub open spec fn after_packet(
        self,
        path: Seq<char>,
        abs_ns: u64,
        origlen: u32,
        data: Seq<u8>,
    ) -> (Replay, Result<EmittedModel, IngestErrorModel>) {
        let based = Replay { baseline: Some(self.base(abs_ns)), ..self };
        match self.link_type {
            None => (
                based,
                Err(
                    IngestErrorModel::Container {
                        path,
                        detail: "packet before any interface description"@,
                    },
                ),
            ),
            Some(link) => match crate::decode::frame_outcome(link, self.relative(abs_ns), data, origlen) {
                OutcomeModel::Decoded(seg) => (based, Ok(EmittedModel::Segment(seg))),
                OutcomeModel::Names(list) => (based, Ok(EmittedModel::Names(list))),
                OutcomeModel::Skipped(reason) => (
                    Replay { skipped: self.skipped.plus(reason), ..based },
                    Ok(EmittedModel::Nothing),
                ),
            },
        }
    }

    /// What comes of the description of an interface.
    pub open spec fn after_interface(self, path: Seq<char>, linktype: i32, tsresol: u8) -> (
        Replay,
        Result<EmittedModel, IngestErrorModel>,
    ) {
        match link_of(linktype) {
            Err(error) => (self, Err(error)),
            Ok(link) => if self.link_type is Some && self.link_type != Some(link) {
                (self, Err(IngestErrorModel::MixedLinkTypes))
            } else {
                let linked = Replay { link_type: Some(link), ..self };
                if tsresol > 19 {
                    (
                        linked,
                        Err(
                            IngestErrorModel::Container {
                                path,
                                detail: "unreadable interface timestamp resolution"@,
                            },
                        ),
                    )
                } else {
                    let ticks = vstd::arithmetic::power::pow(10, tsresol as nat) as u64;
                    match tick_length(ticks) {
                        None => (
                            linked,
                            Err(
                                IngestErrorModel::Container {
                                    path,
                                    detail: resolution_detail(ticks),
                                },
                            ),
                        ),
                        Some(tick) => (
                            Replay { nanos_per_tick: tick, ..linked },
                            Ok(EmittedModel::Nothing),
                        ),
                    }
                }
            },
        }
    }

    /// What comes of a block: the state after it, and what it adds or the error it is.
    pub open spec fn after_block(self, path: Seq<char>, block: CaptureBlock<'_>) -> (
        Replay,
        Result<EmittedModel, IngestErrorModel>,
    ) {
        match block {
            CaptureBlock::LegacyHeader { network, magic } => match link_of(network) {
                Err(error) => (self, Err(error)),
                Ok(link) => (
                    Replay {
                        link_type: Some(link),
                        nanos_per_tick: if magic == NANO_MAGIC {
                            1
                        } else {
                            MICRO_TICK_NS
                        },
                        ..self
                    },
                    Ok(EmittedModel::Nothing),
                ),
            },
            CaptureBlock::Legacy { ts_sec, ts_usec, origlen, data } => self.after_packet(
                path,
                legacy_time(ts_sec, ts_usec, self.nanos_per_tick),
                origlen,
                data@,
            ),
            CaptureBlock::Interface { linktype, tsresol } => self.after_interface(
                path,
                linktype,
                tsresol,
            ),
            CaptureBlock::Enhanced { ts_high, ts_low, origlen, data } => self.after_packet(
                path,
                enhanced_time(ts_high, ts_low, self.nanos_per_tick),
                origlen,
                data@,
            ),
            CaptureBlock::Other => (self, Ok(EmittedModel::Nothing)),
        }
    }

    /// How a parse ends at the end of the capture.
    pub open spec fn ending(self, path: Seq<char>) -> ReadActionModel {
        match self.link_type {
            Some(link) => ReadActionModel::Finish(link, self.skipped),
            None => ReadActionModel::Fail(
                IngestErrorModel::Container { path, detail: "no interface or packets in capture"@ },
            ),
        }
    }

    /// The state after what the reader came back with, and what is to be done next.
    pub open spec fn after_event(self, path: Seq<char>, event: ReadEvent<'_>) -> (
        Replay,
        ReadActionModel,
    ) {
        match event {
            ReadEvent::Block(block) => {
                let (next, res) = self.after_block(path, block);
                (
                    next,
                    match res {
                        Ok(emitted) => ReadActionModel::Consume(emitted),
                        Err(error) => ReadActionModel::Fail(error),
                    },
                )
            },
            ReadEvent::Eof => (self, self.ending(path)),
            ReadEvent::Incomplete => (self, ReadActionModel::Refill),
            ReadEvent::Failed(detail) => (
                self,
                ReadActionModel::Fail(IngestErrorModel::Container { path, detail: detail@ }),
            ),
        }
    }

    /// The start of a parse: no link layer yet, microsecond ticks.
    #[must_use]
    pub fn new() -> (res: Replay)
        ensures
            res == Replay::start(),
    {
        Replay {
            link_type: None,
            baseline: None,
            nanos_per_tick: MICRO_TICK_NS,
            skipped: SkipCounts::default(),
        }
    }

    /// The start of a parse of a capture whose link layer is known.
    ///
    /// # Errors
    ///
    /// A data-link number without a supported link layer.
    pub fn with_link(dlt: i32) -> (res: Result<Replay, IngestError>)
        ensures
            match res {
                Ok(replay) => match link_of(dlt) {
                    Ok(link) => replay == (Replay { link_type: Some(link), ..Replay::start() }),
                    Err(_) => false,
                },
                Err(error) => link_of(dlt) == Err::<LinkType, IngestErrorModel>(error@),
            },
    {
        match dlt_to_link(dlt) {
            Ok(link) => {
                let mut replay = Replay::new();
                replay.link_type = Some(link);
                Ok(replay)
            },
            Err(error) => Err(error),
        }
    }

    /// Whether one more packet can be counted.
    #[must_use]
    pub fn has_room(&self) -> (res: bool)
        ensures
            res == (self.skipped.sum() < u64::MAX),
    {
        self.skipped.has_room()
    }

    /// Takes a packet. The first one is the origin of time; one that is not decoded is counted.
    ///
    /// # Errors
    ///
    /// A packet before the link layer is known.
    pub fn process_packet(&mut self, path: &str, abs_ns: u64, origlen: u32, data: &[u8]) -> (res:
        Result<Emitted, IngestError>)
        requires
            old(self).skipped.sum() < u64::MAX,
        ensures
            old(self).after_packet(path@, abs_ns, origlen, data@) == (
                *final(self),
                match res {
                    Ok(emitted) => Ok::<EmittedModel, IngestErrorModel>(emitted@),
                    Err(error) => Err::<EmittedModel, IngestErrorModel>(error@),
                },
            ),
    {
        let base: u64 = match self.baseline {
            Some(base) => base,
            None => abs_ns,
        };
        self.baseline = Some(base);
        let ts = Nanos(abs_ns.saturating_sub(base));
        let link = match self.link_type {
            Some(link) => link,
            None => {
                return Err(
                    IngestError::Container {
                        path: path.to_owned(),
                        detail: "packet before any interface description".to_owned(),
                    },
                );
            },
        };
        match decode_frame(link, ts, data, origlen) {
            DecodeOutcome::Decoded(seg) => Ok(Emitted::Segment(seg)),
            DecodeOutcome::Names(list) => Ok(Emitted::Names(list)),
            DecodeOutcome::Skipped(reason) => {
                self.skipped.record(reason);
                Ok(Emitted::Nothing)
            },
        }
    }

    fn process_interface(&mut self, path: &str, linktype: i32, tsresol: u8) -> (res: Result<
        Emitted,
        IngestError,
    >)
        ensures
            old(self).after_interface(path@, linktype, tsresol) == (
                *final(self),
                match res {
                    Ok(emitted) => Ok::<EmittedModel, IngestErrorModel>(emitted@),
                    Err(error) => Err::<EmittedModel, IngestErrorModel>(error@),
                },
            ),
    {
        let link = match dlt_to_link(linktype) {
            Ok(link) => link,
            Err(error) => return Err(error),
        };
        if let Some(existing) = self.link_type {
            if existing != link {
                return Err(IngestError::MixedLinkTypes);
            }
        }
        self.link_type = Some(link);
        match pcap_parser::build_ts_resolution(tsresol) {
            None => Err(
                IngestError::Container {
                    path: path.to_owned(),
                    detail: "unreadable interface timestamp resolution".to_owned(),
                },
            ),
            Some(ticks_per_sec) => match nanos_per_tick(ticks_per_sec) {
                Some(tick) => {
                    self.nanos_per_tick = tick;
                    Ok(Emitted::Nothing)
                },
                None => {
                    let mut detail = "unsupported timestamp resolution (".to_owned();
                    append_decimal(&mut detail, ticks_per_sec);
                    detail.append(" ticks/s); M1 supports nanosecond or coarser");
                    Err(IngestError::Container { path: path.to_owned(), detail })
                },
            },
        }
    }

    /// Takes a block of the capture named `path`.
    ///
    /// # Errors
    ///
    /// An unsupported link layer, link layers that differ, a clock that is unreadable or too fine,
    /// and a packet before the link layer is known.
    pub fn handle_block(&mut self, path: &str, block: CaptureBlock<'_>) -> (res: Result<
        Emitted,
        IngestError,
    >)
        requires
            old(self).skipped.sum() < u64::MAX,
        ensures
            old(self).after_block(path@, block) == (
                *final(self),
                match res {
                    Ok(emitted) => Ok::<EmittedModel, IngestErrorModel>(emitted@),
                    Err(error) => Err::<EmittedModel, IngestErrorModel>(error@),
                },
            ),
    {
        match block {
            CaptureBlock::LegacyHeader { network, magic } => {
                match dlt_to_link(network) {
                    Ok(link) => {
                        self.link_type = Some(link);
                        self.nanos_per_tick = if magic == NANO_MAGIC {
                            1
                        } else {
                            MICRO_TICK_NS
                        };
                        Ok(Emitted::Nothing)
                    },
                    Err(error) => Err(error),
                }
            },
            CaptureBlock::Legacy { ts_sec, ts_usec, origlen, data } => {
                let fraction: u64 = clamped_product(ts_usec as u64, self.nanos_per_tick);
                let abs_ns: u64 = (ts_sec as u64 * SECOND).saturating_add(fraction);
                self.process_packet(path, abs_ns, origlen, data)
            },
            CaptureBlock::Interface { linktype, tsresol } => self.process_interface(
                path,
                linktype,
                tsresol,
            ),
            CaptureBlock::Enhanced { ts_high, ts_low, origlen, data } => {
                let ticks: u64 = ts_high as u64 * 0x1_0000_0000 + ts_low as u64;
                let abs_ns: u64 = clamped_product(ticks, self.nanos_per_tick);
                self.process_packet(path, abs_ns, origlen, data)
            },
            CaptureBlock::Other => Ok(Emitted::Nothing),
        }
    }

    /// Takes what the reader of the capture named `path` came back with, and says what is to be
    /// done next.
    pub fn step(&mut self, path: &str, event: ReadEvent<'_>) -> (res: ReadAction)
        requires
            old(self).skipped.sum() < u64::MAX,
        ensures
            old(self).after_event(path@, event) == (*final(self), res@),
    {
        match event {
            ReadEvent::Block(block) => match self.handle_block(path, block) {
                Ok(emitted) => ReadAction::Consume(emitted),
                Err(error) => ReadAction::Fail(error),
            },
            ReadEvent::Eof => match self.link_type {
                Some(link) => ReadAction::Finish(link, self.skipped),
                None => ReadAction::Fail(
                    IngestError::Container {
                        path: path.to_owned(),
                        detail: "no interface or packets in capture".to_owned(),
                    },
                ),
            },
            ReadEvent::Incomplete => ReadAction::Refill,
            ReadEvent::Failed(detail) => ReadAction::Fail(
                IngestError::Container { path: path.to_owned(), detail },
            ),
        }
    }
}

/// The first packet of a capture is at time zero, and sets the origin for all that follow.
pub proof fn law_first_packet_is_at_zero(
    replay: Replay,
    path: Seq<char>,
    abs_ns: u64,
    origlen: u32,
    data: Seq<u8>,
)
    requires
        replay.baseline is None,
    ensures
        replay.relative(abs_ns) == Nanos(0),
        replay.after_packet(path, abs_ns, origlen, data).0.baseline == Some(abs_ns),
{
}

/// Once there is an origin it stays, and relative times keep the order and the distances of the
/// absolute ones.
pub proof fn law_relative_times_keep_order(
    replay: Replay,
    path: Seq<char>,
    origin: u64,
    one: u64,
    two: u64,
    origlen: u32,
    data: Seq<u8>,
)
    requires
        replay.baseline == Some(origin),
        one <= two,
    ensures
        replay.after_packet(path, one, origlen, data).0.baseline == Some(origin),
        replay.relative(one).0 <= replay.relative(two).0,
        origin <= one ==> replay.relative(two).0 - replay.relative(one).0 == two - one,
{
}

/// Every packet is accounted for once: it is passed on and nothing is counted, or nothing is
/// passed on and one skip is counted.
pub proof fn law_every_packet_is_accounted_for(
    replay: Replay,
    path: Seq<char>,
    abs_ns: u64,
    origlen: u32,
    data: Seq<u8>,
)
    requires
        replay.link_type is Some,
        replay.skipped.sum() < u64::MAX,
    ensures
        ({
            let (next, res) = replay.after_packet(path, abs_ns, origlen, data);
            match res {
                Ok(EmittedModel::Nothing) => next.skipped.sum() == replay.skipped.sum() + 1,
                Ok(_) => next.skipped == replay.skipped,
                Err(_) => false,
            }
        }),
{
}

/// A parse never has two link layers: once one is known, an interface with another is an error.
pub proof fn law_link_layers_never_mix(
    replay: Replay,
    path: Seq<char>,
    linktype: i32,
    tsresol: u8,
)
    requires
        replay.link_type is Some,
    ensures
        replay.after_interface(path, linktype, tsresol).0.link_type == replay.link_type,
        replay.after_interface(path, linktype, tsresol).1 is Ok ==> link_of(linktype) == Ok::<
            LinkType,
            IngestErrorModel,
        >(replay.link_type->0),
{
}

/// A captured packet with its time in seconds and microseconds.
pub ghost struct StampedPacket<'a> {
    pub ts_sec: u32,
    pub ts_usec: u32,
    pub origlen: u32,
    pub data: &'a [u8],
}

impl<'a> StampedPacket<'a> {
    /// The packet as a block of a legacy capture.
    pub open spec fn legacy(self) -> CaptureBlock<'a> {
        CaptureBlock::Legacy {
            ts_sec: self.ts_sec,
            ts_usec: self.ts_usec,
            origlen: self.origlen,
            data: self.data,
        }
    }

    /// The packet as a block of a capture with a microsecond clock.
    pub open spec fn enhanced(self) -> CaptureBlock<'a> {
        let ticks = self.ts_sec * 1_000_000 + self.ts_usec;
        CaptureBlock::Enhanced {
            ts_high: (ticks / 0x1_0000_0000) as u32,
            ts_low: (ticks % 0x1_0000_0000) as u32,
            origlen: self.origlen,
            data: self.data,
        }
    }

    /// The time of the packet, as a reader gives it that hands out seconds and microseconds.
    pub open spec fn time(self) -> u64 {
        crate::live::stamp(self.ts_sec as i64, self.ts_usec as i64, false) as u64
    }
}

impl Replay {
    /// The state after each of `blocks` in turn, and what they add or the error that ends the
    /// reading.
    pub open spec fn reading(self, path: Seq<char>, blocks: Seq<CaptureBlock<'_>>) -> (
        Replay,
        Result<Seq<EmittedModel>, IngestErrorModel>,
    )
        decreases blocks.len(),
    {
        if blocks.len() == 0 {
            (self, Ok(Seq::empty()))
        } else {
            match self.reading(path, blocks.drop_last()) {
                (before, Err(error)) => (before, Err(error)),
                (before, Ok(list)) => match before.after_block(path, blocks.last()) {
                    (next, Ok(emitted)) => (next, Ok(list.push(emitted))),
                    (next, Err(error)) => (next, Err(error)),
                },
            }
        }
    }

    /// The state after each of `packets` in turn where the link layer is known, and what they add
    /// or the error that ends the reading.
    pub open spec fn reading_packets(self, path: Seq<char>, packets: Seq<StampedPacket<'_>>) -> (
        Replay,
        Result<Seq<EmittedModel>, IngestErrorModel>,
    )
        decreases packets.len(),
    {
        if packets.len() == 0 {
            (self, Ok(Seq::empty()))
        } else {
            let p = packets.last();
            match self.reading_packets(path, packets.drop_last()) {
                (before, Err(error)) => (before, Err(error)),
                (before, Ok(list)) => match before.after_packet(path, p.time(), p.origlen, p.data@) {
                    (next, Ok(emitted)) => (next, Ok(list.push(emitted))),
                    (next, Err(error)) => (next, Err(error)),
                },
            }
        }
    }
}

/// The reading of a capture whose first block is `head`, which adds nothing.
proof fn lemma_reading_after_head(
    replay: Replay,
    next: Replay,
    path: Seq<char>,
    head: CaptureBlock<'_>,
    rest: Seq<CaptureBlock<'_>>,
)
    requires
        replay.after_block(path, head) == (
            next,
            Ok::<EmittedModel, IngestErrorModel>(EmittedModel::Nothing),
        ),
    ensures
        replay.reading(path, seq![head] + rest) == (match next.reading(path, rest) {
            (last, Ok(list)) => (
                last,
                Ok::<Seq<EmittedModel>, IngestErrorModel>(seq![EmittedModel::Nothing] + list),
            ),
            (last, Err(error)) => (last, Err::<Seq<EmittedModel>, IngestErrorModel>(error)),
        }),
    decreases rest.len(),
{
    let all = seq![head] + rest;
    if rest.len() == 0 {
        reveal_with_fuel(Replay::reading, 2);
        assert(all.drop_last() =~= Seq::empty());
        assert(all.last() == head);
        let nothing = EmittedModel::Nothing;
        assert(Seq::<EmittedModel>::empty().push(nothing) =~= seq![nothing] + Seq::empty());
    } else {
        lemma_reading_after_head(replay, next, path, head, rest.drop_last());
        assert(all.drop_last() =~= seq![head] + rest.drop_last());
        assert(all.last() == rest.last());
        if let (before, Ok(list)) = next.reading(path, rest.drop_last()) {
            if let (_, Ok(emitted)) = before.after_block(path, rest.last()) {
                assert((seq![EmittedModel::Nothing] + list).push(emitted) =~= seq![
                    EmittedModel::Nothing,
                ] + list.push(emitted));
            }
        }
    }
}

proof fn lemma_times_agree(packet: StampedPacket<'_>)
    ensures
        legacy_time(packet.ts_sec, packet.ts_usec, MICRO_TICK_NS) == packet.time(),
        packet.enhanced() matches CaptureBlock::Enhanced { ts_high, ts_low, .. } ==> enhanced_time(
            ts_high,
            ts_low,
            MICRO_TICK_NS,
        ) == packet.time(),
{
}

proof fn lemma_blocks_read_like_packets(
    replay: Replay,
    path: Seq<char>,
    packets: Seq<StampedPacket<'_>>,
)
    requires
        replay.link_type is Some,
        replay.nanos_per_tick == MICRO_TICK_NS,
    ensures
        replay.reading(path, packets.map_values(|p: StampedPacket<'_>| p.legacy()))
            == replay.reading_packets(path, packets),
        replay.reading(path, packets.map_values(|p: StampedPacket<'_>| p.enhanced()))
            == replay.reading_packets(path, packets),
        replay.reading_packets(path, packets).1 is Ok,
        replay.reading_packets(path, packets).0.link_type == replay.link_type,
        replay.reading_packets(path, packets).0.nanos_per_tick == MICRO_TICK_NS,
    decreases packets.len(),
{
    if packets.len() > 0 {
        lemma_blocks_read_like_packets(replay, path, packets.drop_last());
        lemma_times_agree(packets.last());
        assert(packets.map_values(|p: StampedPacket<'_>| p.legacy()).drop_last()
            =~= packets.drop_last().map_values(|p: StampedPacket<'_>| p.legacy()));
        assert(packets.map_values(|p: StampedPacket<'_>| p.enhanced()).drop_last()
            =~= packets.drop_last().map_values(|p: StampedPacket<'_>| p.enhanced()));
    }
}

/// All readers agree on a whole capture with microsecond times: block by block from a legacy
/// capture, block by block from one with a described interface, or packet by packet with the link
/// layer known beforehand. They end in the same link layer and skips, and pass on the same
/// segments and names.
pub proof fn law_readers_agree(
    path: Seq<char>,
    dlt: i32,
    magic: u32,
    packets: Seq<StampedPacket<'_>>,
)
    requires
        link_of(dlt) is Ok,
        magic != NANO_MAGIC,
    ensures
        ({
            let legacy = Replay::start().reading(
                path,
                seq![CaptureBlock::LegacyHeader { network: dlt, magic }] + packets.map_values(
                    |p: StampedPacket<'_>| p.legacy(),
                ),
            );
            let described = Replay::start().reading(
                path,
                seq![CaptureBlock::Interface { linktype: dlt, tsresol: 6 }] + packets.map_values(
                    |p: StampedPacket<'_>| p.enhanced(),
                ),
            );
            let known = (Replay { link_type: Some(link_of(dlt)->Ok_0), ..Replay::start() }).reading_packets(
                path,
                packets,
            );
            &&& known.1 is Ok
            &&& legacy == described
            &&& legacy.0 == known.0
            &&& legacy.1 == Ok::<Seq<EmittedModel>, IngestErrorModel>(
                seq![EmittedModel::Nothing] + known.1->Ok_0,
            )
            &&& legacy.0.ending(path) == ReadActionModel::Finish(
                link_of(dlt)->Ok_0,
                known.0.skipped,
            )
        }),
{
    let known = Replay { link_type: Some(link_of(dlt)->Ok_0), ..Replay::start() };
    lemma_blocks_read_like_packets(known, path, packets);
    assert(vstd::arithmetic::power::pow(10, 6) == 1_000_000) by {
        reveal_with_fuel(vstd::arithmetic::power::pow, 7);
    }
    lemma_reading_after_head(
        Replay::start(),
        known,
        path,
        CaptureBlock::LegacyHeader { network: dlt, magic },
        packets.map_values(|p: StampedPacket<'_>| p.legacy()),
    );
    lemma_reading_after_head(
        Replay::start(),
        known,
        path,
        CaptureBlock::Interface { linktype: dlt, tsresol: 6 },
        packets.map_values(|p: StampedPacket<'_>| p.enhanced()),
    );
}

/// The clock of a capture: a classic one counts microseconds, or nanoseconds where its magic number
/// says so; a described interface counts ten to the power of its resolution in each second, and
/// nothing finer than nanoseconds is read.
pub proof fn law_clocks_follow_their_description(
    replay: Replay,
    path: Seq<char>,
    dlt: i32,
    magic: u32,
    tsresol: u8,
)
    requires
        link_of(dlt) is Ok,
        replay.link_type is None || replay.link_type == Some(link_of(dlt)->Ok_0),
    ensures
        ({
            let (classic, res) = replay.after_block(
                path,
                CaptureBlock::LegacyHeader { network: dlt, magic },
            );
            &&& res == Ok::<EmittedModel, IngestErrorModel>(EmittedModel::Nothing)
            &&& classic.link_type == Some(link_of(dlt)->Ok_0)
            &&& classic.nanos_per_tick == (if magic == 0xa1b2_3c4d {
                1u64
            } else {
                1_000u64
            })
            &&& classic.baseline == replay.baseline && classic.skipped == replay.skipped
        }),
        ({
            let (described, res) = replay.after_block(
                path,
                CaptureBlock::Interface { linktype: dlt, tsresol },
            );
            &&& described.link_type == Some(link_of(dlt)->Ok_0)
            &&& described.baseline == replay.baseline && described.skipped == replay.skipped
            &&& res is Ok <==> tsresol <= 9
            &&& tsresol <= 9 ==> described.nanos_per_tick * vstd::arithmetic::power::pow(
                10,
                tsresol as nat,
            ) == 1_000_000_000
        }),
{
    if tsresol <= 19 {
        lemma_resolutions(tsresol);
        let ticks = vstd::arithmetic::power::pow(10, tsresol as nat) as u64;
        law_accepted_clocks_divide_the_second(ticks);
    }
}

/// Ten to the power of a resolution divides a second up to the ninth power.
proof fn lemma_resolutions(r: u8)
    requires
        r <= 19,
    ensures
        ({
            let ticks = vstd::arithmetic::power::pow(10, r as nat);
            &&& 0 < ticks <= u64::MAX
            &&& r <= 9 ==> SECOND % (ticks as u64) == 0
            &&& r > 9 ==> SECOND % (ticks as u64) != 0
        }),
{
    lemma_powers_of_ten();
    if r == 0 {
        assert(SECOND % 1u64 == 0);
    }
    if r == 1 {
        assert(SECOND % 10u64 == 0);
    }
    if r == 2 {
        assert(SECOND % 100u64 == 0);
    }
    if r == 3 {
        assert(SECOND % 1000u64 == 0);
    }
    if r == 4 {
        assert(SECOND % 10000u64 == 0);
    }
    if r == 5 {
        assert(SECOND % 100000u64 == 0);
    }
    if r == 6 {
        assert(SECOND % 1000000u64 == 0);
    }
    if r == 7 {
        assert(SECOND % 10000000u64 == 0);
    }
    if r == 8 {
        assert(SECOND % 100000000u64 == 0);
    }
    if r == 9 {
        assert(SECOND % 1000000000u64 == 0);
    }
    if r == 10 {
        assert(SECOND % 10000000000u64 != 0);
    }
    if r == 11 {
        assert(SECOND % 100000000000u64 != 0);
    }
    if r == 12 {
        assert(SECOND % 1000000000000u64 != 0);
    }
    if r == 13 {
        assert(SECOND % 10000000000000u64 != 0);
    }
    if r == 14 {
        assert(SECOND % 100000000000000u64 != 0);
    }
    if r == 15 {
        assert(SECOND % 1000000000000000u64 != 0);
    }
    if r == 16 {
        assert(SECOND % 10000000000000000u64 != 0);
    }
    if r == 17 {
        assert(SECOND % 100000000000000000u64 != 0);
    }
    if r == 18 {
        assert(SECOND % 1000000000000000000u64 != 0);
    }
    if r == 19 {
        assert(SECOND % 10000000000000000000u64 != 0);
    }
}

proof fn lemma_powers_of_ten()
    ensures
        vstd::arithmetic::power::pow(10, 0) == 1,
        vstd::arithmetic::power::pow(10, 1) == 10,
        vstd::arithmetic::power::pow(10, 2) == 100,
        vstd::arithmetic::power::pow(10, 3) == 1_000,
        vstd::arithmetic::power::pow(10, 4) == 10_000,
        vstd::arithmetic::power::pow(10, 5) == 100_000,
        vstd::arithmetic::power::pow(10, 6) == 1_000_000,
        vstd::arithmetic::power::pow(10, 7) == 10_000_000,
        vstd::arithmetic::power::pow(10, 8) == 100_000_000,
        vstd::arithmetic::power::pow(10, 9) == 1_000_000_000,
        vstd::arithmetic::power::pow(10, 10) == 10_000_000_000,
        vstd::arithmetic::power::pow(10, 11) == 100_000_000_000,
        vstd::arithmetic::power::pow(10, 12) == 1_000_000_000_000,
        vstd::arithmetic::power::pow(10, 13) == 10_000_000_000_000,
        vstd::arithmetic::power::pow(10, 14) == 100_000_000_000_000,
        vstd::arithmetic::power::pow(10, 15) == 1_000_000_000_000_000,
        vstd::arithmetic::power::pow(10, 16) == 10_000_000_000_000_000,
        vstd::arithmetic::power::pow(10, 17) == 100_000_000_000_000_000,
        vstd::arithmetic::power::pow(10, 18) == 1_000_000_000_000_000_000,
        vstd::arithmetic::power::pow(10, 19) == 10_000_000_000_000_000_000,
{
    reveal_with_fuel(vstd::arithmetic::power::pow, 21);
}

/// The time of a packet: its seconds and the ticks of its fraction, or all its ticks, in
/// nanoseconds by the clock of the capture, counted from the first packet and never negative. A
/// segment carries that time and is what the frame decodes to.
pub proof fn law_segments_carry_the_time_of_their_packet(
    replay: Replay,
    path: Seq<char>,
    ts_sec: u32,
    ts_usec: u32,
    ts_high: u32,
    ts_low: u32,
    origlen: u32,
    data: &[u8],
)
    requires
        replay.link_type is Some,
        ts_usec * replay.nanos_per_tick <= 0xffff_ffff * 1_000,
        (ts_high * 0x1_0000_0000 + ts_low) * replay.nanos_per_tick <= u64::MAX,
    ensures
        ({
            let abs = ts_sec * 1_000_000_000 + ts_usec * replay.nanos_per_tick;
            let base = match replay.baseline {
                Some(base) => base as int,
                None => abs,
            };
            let t = if abs >= base {
                abs - base
            } else {
                0
            };
            let (next, res) = replay.after_block(
                path,
                CaptureBlock::Legacy { ts_sec, ts_usec, origlen, data },
            );
            &&& next.baseline == Some(base as u64)
            &&& next.link_type == replay.link_type && next.nanos_per_tick == replay.nanos_per_tick
            &&& is_packet_result(replay, next, res, Nanos(t as u64), origlen, data@)
        }),
        ({
            let abs = (ts_high * 0x1_0000_0000 + ts_low) * replay.nanos_per_tick;
            let base = match replay.baseline {
                Some(base) => base as int,
                None => abs,
            };
            let t = if abs >= base {
                abs - base
            } else {
                0
            };
            let (next, res) = replay.after_block(
                path,
                CaptureBlock::Enhanced { ts_high, ts_low, origlen, data },
            );
            &&& next.baseline == Some(base as u64)
            &&& next.link_type == replay.link_type && next.nanos_per_tick == replay.nanos_per_tick
            &&& is_packet_result(replay, next, res, Nanos(t as u64), origlen, data@)
        }),
{
}

/// The result of a packet is what its frame decodes to at `t`: a segment or names of that time, or
/// nothing and one more skip for the reason that decoding gives.
pub open spec fn is_packet_result(
    before: Replay,
    after: Replay,
    res: Result<EmittedModel, IngestErrorModel>,
    t: Nanos,
    origlen: u32,
    data: Seq<u8>,
) -> bool {
    match crate::decode::frame_outcome(before.link_type->0, t, data, origlen) {
        OutcomeModel::Decoded(seg) => {
            &&& res == Ok::<EmittedModel, IngestErrorModel>(EmittedModel::Segment(seg))
            &&& seg.ts == t
            &&& after.skipped == before.skipped
        },
        OutcomeModel::Names(list) => {
            &&& res == Ok::<EmittedModel, IngestErrorModel>(EmittedModel::Names(list))
            &&& after.skipped == before.skipped
        },
        OutcomeModel::Skipped(reason) => {
            &&& res == Ok::<EmittedModel, IngestErrorModel>(EmittedModel::Nothing)
            &&& after.skipped == before.skipped.plus(reason)
        },
    }
}

/// The data-link numbers that are read, and no other.
pub proof fn law_known_link_numbers(dlt: i32)
    ensures
        match link_of(dlt) {
            Ok(LinkType::Null) => dlt == 0,
            Ok(LinkType::Ethernet) => dlt == 1,
            Ok(LinkType::RawIp) => dlt == 101,
            Ok(LinkType::LinuxSll) => dlt == 113,
            Ok(LinkType::LinuxSll2) => dlt == 276,
            Err(_) => dlt != 0 && dlt != 1 && dlt != 101 && dlt != 113 && dlt != 276,
        },
{
}

/// How a reading ends and goes on: at the end of the file with what was read, as long as a link
/// layer is known; short of bytes it asks for more; a failure of the reader ends it. None of these
/// changes what was read.
pub proof fn law_the_reader_is_followed(replay: Replay, path: Seq<char>, detail: String)
    ensures
        replay.after_event(path, ReadEvent::Incomplete) == (replay, ReadActionModel::Refill),
        replay.after_event(path, ReadEvent::Failed(detail)).0 == replay,
        replay.after_event(path, ReadEvent::Failed(detail)).1 is Fail,
        replay.after_event(path, ReadEvent::Eof).0 == replay,
        replay.link_type is None ==> replay.after_event(path, ReadEvent::Eof).1 is Fail,
        replay.link_type matches Some(link) ==> replay.after_event(path, ReadEvent::Eof).1
            == ReadActionModel::Finish(link, replay.skipped),
        replay.after_block(path, CaptureBlock::Other) == (
            replay,
            Ok::<EmittedModel, IngestErrorModel>(EmittedModel::Nothing),
        ),
{
}

/// A packet before any description of its link layer ends the reading.
pub proof fn law_packets_need_a_link_layer(
    replay: Replay,
    path: Seq<char>,
    abs_ns: u64,
    origlen: u32,
    data: Seq<u8>,
)
    ensures
        replay.after_packet(path, abs_ns, origlen, data).1 is Err <==> replay.link_type is None,
        replay.after_packet(path, abs_ns, origlen, data).1 matches Err(error)
            ==> error is Container,
{
}

} // verus!
