//! The decoded TCP segment and the engine's input.

use vstd::prelude::*;

use crate::flow::FlowKey;
use crate::seq::TcpSeq;
use crate::time::Nanos;

verus! {

/// TCP control bits, with the values they have on the wire.
#[derive(Debug, Clone, Copy, PartialEq, Eq, Hash, Structural)]
pub struct TcpFlags(pub u16);

impl TcpFlags {
    pub const FIN: u16 = 0x01;

    pub const SYN: u16 = 0x02;

    pub const RST: u16 = 0x04;

    pub const PSH: u16 = 0x08;

    pub const ACK: u16 = 0x10;

    pub const URG: u16 = 0x20;

    pub const ECE: u16 = 0x40;

    pub const CWR: u16 = 0x80;

    pub const NS: u16 = 0x100;

    /// The control bit `mask` is set.
    pub open spec fn has(self, mask: u16) -> bool {
        self.0 & mask != 0
    }

    #[must_use]
    pub fn fin(self) -> (res: bool)
        ensures
            res == self.has(Self::FIN),
    {
        self.0 & Self::FIN != 0
    }

    #[must_use]
    pub fn syn(self) -> (res: bool)
        ensures
            res == self.has(Self::SYN),
    {
        self.0 & Self::SYN != 0
    }

    #[must_use]
    pub fn rst(self) -> (res: bool)
        ensures
            res == self.has(Self::RST),
    {
        self.0 & Self::RST != 0
    }

    #[must_use]
    pub fn psh(self) -> (res: bool)
        ensures
            res == self.has(Self::PSH),
    {
        self.0 & Self::PSH != 0
    }

    #[must_use]
    pub fn ack(self) -> (res: bool)
        ensures
            res == self.has(Self::ACK),
    {
        self.0 & Self::ACK != 0
    }

    #[must_use]
    pub fn urg(self) -> (res: bool)
        ensures
            res == self.has(Self::URG),
    {
        self.0 & Self::URG != 0
    }

    #[must_use]
    pub fn ece(self) -> (res: bool)
        ensures
            res == self.has(Self::ECE),
    {
        self.0 & Self::ECE != 0
    }

    #[must_use]
    pub fn cwr(self) -> (res: bool)
        ensures
            res == self.has(Self::CWR),
    {
        self.0 & Self::CWR != 0
    }

    #[must_use]
    pub fn ns(self) -> (res: bool)
        ensures
            res == self.has(Self::NS),
    {
        self.0 & Self::NS != 0
    }

    /// A SYN that acknowledges nothing.
    pub open spec fn is_bare_syn(self) -> bool {
        self.has(Self::SYN) && !self.has(Self::ACK)
    }

    /// A SYN that acknowledges the peer's.
    pub open spec fn is_syn_ack(self) -> bool {
        self.has(Self::SYN) && self.has(Self::ACK)
    }

    /// The names of the set bits among the first `upto` of the listing order.
    pub open spec fn names(self, upto: nat) -> Seq<Seq<char>>
        decreases upto,
    {
        if upto == 0 {
            Seq::empty()
        } else if self.has(listed_mask(upto - 1)) {
            self.names((upto - 1) as nat).push(listed_name(upto - 1))
        } else {
            self.names((upto - 1) as nat)
        }
    }

    /// The names of the set bits with `|` between them, or `.` when none is set.
    pub open spec fn text_spec(self) -> Seq<char> {
        if self.names(9).len() == 0 {
            "."@
        } else {
            bar_joined(self.names(9))
        }
    }

    /// The names of the set bits with `|` between them, or `.` when none is set.
    #[must_use]
    pub fn text(self) -> (res: String)
        ensures
            res@ == self.text_spec(),
    {
        let mut out = String::new();
        let mut wrote = false;
        let mut i: u8 = 0;
        while i < 9
            invariant
                i <= 9,
                out@ == bar_joined(self.names(i as nat)),
                wrote == (self.names(i as nat).len() > 0),
            decreases 9 - i,
        {
            let (mask, name) = listed_flag(i);
            if self.0 & mask != 0 {
                if wrote {
                    out.push('|');
                }
                out.append(name);
                wrote = true;
                proof {
                    let before = self.names(i as nat);
                    assert(before.push(name@).drop_last() =~= before);
                    assert(out@ =~= bar_joined(before.push(name@)));
                }
            }
            i = i + 1;
        }
        if !wrote {
            out.append(".");
            proof {
                assert(out@ =~= "."@);
            }
        }
        out
    }
}

/// The bit at place `i` of the order in which control bits are listed.
pub open spec fn listed_mask(i: int) -> u16 {
    if i == 0 {
        TcpFlags::SYN
    } else if i == 1 {
        TcpFlags::ACK
    } else if i == 2 {
        TcpFlags::FIN
    } else if i == 3 {
        TcpFlags::RST
    } else if i == 4 {
        TcpFlags::PSH
    } else if i == 5 {
        TcpFlags::URG
    } else if i == 6 {
        TcpFlags::ECE
    } else if i == 7 {
        TcpFlags::CWR
    } else {
        TcpFlags::NS
    }
}

/// The name of the bit at place `i` of the listing order.
pub open spec fn listed_name(i: int) -> Seq<char> {
    if i == 0 {
        "SYN"@
    } else if i == 1 {
        "ACK"@
    } else if i == 2 {
        "FIN"@
    } else if i == 3 {
        "RST"@
    } else if i == 4 {
        "PSH"@
    } else if i == 5 {
        "URG"@
    } else if i == 6 {
        "ECE"@
    } else if i == 7 {
        "CWR"@
    } else {
        "NS"@
    }
}

/// The bit and its name at place `i` of the listing order.
fn listed_flag(i: u8) -> (res: (u16, &'static str))
    ensures
        res.0 == listed_mask(i as int),
        res.1@ == listed_name(i as int),
{
    match i {
        0 => (TcpFlags::SYN, "SYN"),
        1 => (TcpFlags::ACK, "ACK"),
        2 => (TcpFlags::FIN, "FIN"),
        3 => (TcpFlags::RST, "RST"),
        4 => (TcpFlags::PSH, "PSH"),
        5 => (TcpFlags::URG, "URG"),
        6 => (TcpFlags::ECE, "ECE"),
        7 => (TcpFlags::CWR, "CWR"),
        _ => (TcpFlags::NS, "NS"),
    }
}

/// The names with `|` between them.
pub open spec fn bar_joined(names: Seq<Seq<char>>) -> Seq<char>
    decreases names.len(),
{
    if names.len() == 0 {
        Seq::empty()
    } else if names.len() == 1 {
        names[0]
    } else {
        bar_joined(names.drop_last()) + seq!['|'] + names.last()
    }
}

/// Whether `f` is a SYN that acknowledges nothing.
#[must_use]
pub fn is_bare_syn(f: TcpFlags) -> (res: bool)
    ensures
        res == f.is_bare_syn(),
{
    f.syn() && !f.ack()
}

/// Whether `f` is a SYN that acknowledges the peer's.
#[must_use]
pub fn is_syn_ack(f: TcpFlags) -> (res: bool)
    ensures
        res == f.is_syn_ack(),
{
    f.syn() && f.ack()
}

/// The TCP options the engine reads.
#[derive(Debug, Clone, PartialEq, Eq)]
pub struct TcpOptions {
    pub mss: Option<u16>,
    pub window_scale: Option<u8>,
    pub sack_permitted: bool,
    pub timestamp: Option<(u32, u32)>,
    pub sack_blocks: Vec<(TcpSeq, TcpSeq)>,
}

impl Default for TcpOptions {
    fn default() -> (res: TcpOptions)
        ensures
            res.mss is None,
            res.window_scale is None,
            !res.sack_permitted,
            res.timestamp is None,
            res.sack_blocks@.len() == 0,
    {
        TcpOptions {
            mss: None,
            window_scale: None,
            sack_permitted: false,
            timestamp: None,
            sack_blocks: Vec::new(),
        }
    }
}

/// What TCP options say.
#[verifier::ext_equal]
pub struct OptionsModel {
    pub mss: Option<u16>,
    pub window_scale: Option<u8>,
    pub sack_permitted: bool,
    pub timestamp: Option<(u32, u32)>,
    pub sack_blocks: Seq<(TcpSeq, TcpSeq)>,
}

impl View for TcpOptions {
    type V = OptionsModel;

    open spec fn view(&self) -> OptionsModel {
        OptionsModel {
            mss: self.mss,
            window_scale: self.window_scale,
            sack_permitted: self.sack_permitted,
            timestamp: self.timestamp,
            sack_blocks: self.sack_blocks@,
        }
    }
}

/// One decoded TCP segment as seen on the wire.
#[derive(Debug, Clone, PartialEq, Eq)]
pub struct Segment {
    pub ts: Nanos,
    pub flow: FlowKey,
    pub seq: TcpSeq,
    pub ack: TcpSeq,
    pub flags: TcpFlags,
    pub window: u16,
    pub options: TcpOptions,
    pub payload_len: u32,
}

impl Segment {
    /// The number one past the last byte this segment puts on the wire: SYN and FIN each take
    /// one place in sequence space beside the payload.
    pub open spec fn end(self) -> TcpSeq {
        crate::seq::advanced(
            self.seq,
            self.payload_len + (if self.flags.has(TcpFlags::SYN) {
                1int
            } else {
                0
            }) + (if self.flags.has(TcpFlags::FIN) {
                1int
            } else {
                0
            }),
        )
    }

    /// The segment takes up sequence space.
    pub open spec fn consumes_sequence(self) -> bool {
        self.payload_len > 0 || self.flags.has(TcpFlags::SYN) || self.flags.has(TcpFlags::FIN)
    }
}

/// What a segment says.
#[verifier::ext_equal]
pub struct SegmentModel {
    pub ts: Nanos,
    pub flow: FlowKey,
    pub seq: TcpSeq,
    pub ack: TcpSeq,
    pub flags: TcpFlags,
    pub window: u16,
    pub options: OptionsModel,
    pub payload_len: u32,
}

impl View for Segment {
    type V = SegmentModel;

    open spec fn view(&self) -> SegmentModel {
        SegmentModel {
            ts: self.ts,
            flow: self.flow,
            seq: self.seq,
            ack: self.ack,
            flags: self.flags,
            window: self.window,
            options: self.options@,
            payload_len: self.payload_len,
        }
    }
}

/// The number one past the last byte that `seg` puts on the wire.
#[must_use]
pub fn seq_end(seg: &Segment) -> (res: TcpSeq)
    ensures
        res == seg.end(),
{
    let syn: u32 = if seg.flags.syn() {
        1
    } else {
        0
    };
    let fin: u32 = if seg.flags.fin() {
        1
    } else {
        0
    };
    TcpSeq(seg.seq.0.wrapping_add(seg.payload_len).wrapping_add(syn + fin))
}

/// Engine input. Replay emits `Segment`; `Tick` only marks the passing of time.
#[derive(Debug, Clone, PartialEq, Eq)]
pub enum Item {
    Segment(Segment),
    Tick(Nanos),
}

impl Item {
    /// When the item happened.
    pub open spec fn time(self) -> Nanos {
        match self {
            Item::Segment(seg) => seg.ts,
            Item::Tick(t) => t,
        }
    }
}

} // verus!
