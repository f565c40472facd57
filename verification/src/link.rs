//! Link layers: which are supported, and where the IP packet starts in a frame.

use vstd::prelude::*;
use vstd::slice::slice_subrange;

use crate::ingest::SkipReason;

verus! {

/// The supported link layers.
#[derive(Debug, Clone, Copy, PartialEq, Eq, Structural)]
pub enum LinkType {
    Ethernet,
    LinuxSll,
    LinuxSll2,
    RawIp,
    Null,
}

impl LinkType {
    /// The link layer with the data-link number `dlt`.
    pub open spec fn numbered(dlt: int) -> Option<LinkType> {
        if dlt == 1 {
            Some(LinkType::Ethernet)
        } else if dlt == 0 {
            Some(LinkType::Null)
        } else if dlt == 101 {
            Some(LinkType::RawIp)
        } else if dlt == 113 {
            Some(LinkType::LinuxSll)
        } else if dlt == 276 {
            Some(LinkType::LinuxSll2)
        } else {
            None
        }
    }

    /// The link layer with the data-link number `dlt`, if it is supported.
    #[must_use]
    pub fn from_dlt(dlt: u16) -> (res: Option<LinkType>)
        ensures
            res == Self::numbered(dlt as int),
    {
        match dlt {
            1 => Some(LinkType::Ethernet),
            0 => Some(LinkType::Null),
            101 => Some(LinkType::RawIp),
            113 => Some(LinkType::LinuxSll),
            276 => Some(LinkType::LinuxSll2),
            _ => None,
        }
    }
}

/// The IP packet of a frame, or the reason why there is none.
pub enum Stripped<'a> {
    Ip(&'a [u8]),
    Skip(SkipReason),
}

pub const ETHERTYPE_IPV4: u16 = 0x0800;

pub const ETHERTYPE_IPV6: u16 = 0x86DD;

pub const VLAN_8021Q: u16 = 0x8100;

pub const VLAN_8021AD: u16 = 0x88A8;

/// The big-endian number at `off`.
pub open spec fn be16_at(b: Seq<u8>, off: int) -> Option<u16> {
    if 0 <= off && off + 2 <= b.len() {
        Some((b[off] * 256 + b[off + 1]) as u16)
    } else {
        None
    }
}

/// Where the IP packet starts, given where its type and the packet itself are found.
pub open spec fn typed_offset(frame: Seq<u8>, type_off: int, ip_off: int) -> Result<
    int,
    SkipReason,
> {
    match be16_at(frame, type_off) {
        None => Err(SkipReason::Malformed),
        Some(kind) => if kind != ETHERTYPE_IPV4 && kind != ETHERTYPE_IPV6 {
            Err(SkipReason::NonTcp)
        } else if ip_off > frame.len() {
            Err(SkipReason::Malformed)
        } else {
            Ok(ip_off)
        },
    }
}

/// Where the IP packet starts in an Ethernet frame whose type is looked for at `off`. Each VLAN
/// tag moves the type on by four bytes.
pub open spec fn ethernet_offset(frame: Seq<u8>, off: int) -> Result<int, SkipReason>
    decreases frame.len() + 4 - off,
{
    match be16_at(frame, off) {
        Some(kind) if kind == VLAN_8021Q || kind == VLAN_8021AD => ethernet_offset(frame, off + 4),
        _ => typed_offset(frame, off, off + 2),
    }
}

/// Where the IP packet starts in `frame`, or why it is skipped. Raw frames are IP from the first
/// byte, null frames after four bytes whatever those say.
pub open spec fn ip_offset(link: LinkType, frame: Seq<u8>) -> Result<int, SkipReason> {
    match link {
        LinkType::RawIp => Ok(0),
        LinkType::Null => if frame.len() >= 4 {
            Ok(4)
        } else {
            Err(SkipReason::Malformed)
        },
        LinkType::LinuxSll2 => typed_offset(frame, 0, 20),
        LinkType::LinuxSll => typed_offset(frame, 14, 16),
        LinkType::Ethernet => ethernet_offset(frame, 12),
    }
}

/// `res` is the part of `frame` from `start` on, or the reason why there is none.
pub open spec fn stripped_at(
    frame: Seq<u8>,
    start: Result<int, SkipReason>,
    res: Stripped<'_>,
) -> bool {
    match (start, res) {
        (Ok(off), Stripped::Ip(ip)) => 0 <= off <= frame.len() && ip@ == frame.skip(off),
        (Err(reason), Stripped::Skip(skipped)) => skipped == reason,
        _ => false,
    }
}

fn be16(b: &[u8], off: usize) -> (res: Option<u16>)
    ensures
        res == be16_at(b@, off as int),
{
    if b.len() < 2 || off > b.len() - 2 {
        None
    } else {
        Some(b[off] as u16 * 256 + b[off + 1] as u16)
    }
}

fn strip_after_ethertype(frame: &[u8], et_off: usize, ip_off: usize) -> (res: Stripped<'_>)
    ensures
        stripped_at(frame@, typed_offset(frame@, et_off as int, ip_off as int), res),
{
    match be16(frame, et_off) {
        None => Stripped::Skip(SkipReason::Malformed),
        Some(kind) => {
            if kind != ETHERTYPE_IPV4 && kind != ETHERTYPE_IPV6 {
                Stripped::Skip(SkipReason::NonTcp)
            } else if ip_off > frame.len() {
                Stripped::Skip(SkipReason::Malformed)
            } else {
                Stripped::Ip(slice_subrange(frame, ip_off, frame.len()))
            }
        },
    }
}

fn strip_ethernet(frame: &[u8]) -> (res: Stripped<'_>)
    ensures
        stripped_at(frame@, ethernet_offset(frame@, 12), res),
{
    let len: usize = frame.len();
    let mut off: usize = 12;
    loop
        invariant
            len == frame@.len(),
            ethernet_offset(frame@, 12) == ethernet_offset(frame@, off as int),
            off <= 12 || off <= frame@.len(),
        decreases frame@.len() + 16 - off,
    {
        match be16(frame, off) {
            Some(kind) => {
                if kind == VLAN_8021Q || kind == VLAN_8021AD {
                    if len - off < 4 {
                        proof {
                            assert(be16_at(frame@, off + 4) is None);
                            assert(ethernet_offset(frame@, off + 4) == Err::<int, SkipReason>(
                                SkipReason::Malformed,
                            ));
                        }
                        return Stripped::Skip(SkipReason::Malformed);
                    }
                    off = off + 4;
                } else {
                    return strip_after_ethertype(frame, off, off + 2);
                }
            },
            None => return Stripped::Skip(SkipReason::Malformed),
        }
    }
}

/// The IP packet in `frame`, or the reason why it is skipped.
#[must_use]
pub fn strip_link(link: LinkType, frame: &[u8]) -> (res: Stripped<'_>)
    ensures
        stripped_at(frame@, ip_offset(link, frame@), res),
{
    match link {
        LinkType::RawIp => {
            proof {
                assert(frame@.skip(0) =~= frame@);
            }
            Stripped::Ip(frame)
        },
        LinkType::Null => {
            if frame.len() >= 4 {
                Stripped::Ip(slice_subrange(frame, 4, frame.len()))
            } else {
                Stripped::Skip(SkipReason::Malformed)
            }
        },
        LinkType::LinuxSll2 => strip_after_ethertype(frame, 0, 20),
        LinkType::LinuxSll => strip_after_ethertype(frame, 14, 16),
        LinkType::Ethernet => strip_ethernet(frame),
    }
}

/// `frame` with the VLAN tag `tag`, of type and control information, behind its addresses.
pub open spec fn tagged(frame: Seq<u8>, tag: Seq<u8>) -> Seq<u8> {
    frame.take(12) + tag + frame.skip(12)
}

/// The place `start` moved on by four bytes.
pub open spec fn moved_on(start: Result<int, SkipReason>) -> Result<int, SkipReason> {
    match start {
        Ok(off) => Ok(off + 4),
        Err(reason) => Err(reason),
    }
}

proof fn lemma_tag_moves_the_type_on(frame: Seq<u8>, tag: Seq<u8>, off: int)
    requires
        12 <= frame.len(),
        12 <= off,
        tag.len() == 4,
    ensures
        ethernet_offset(tagged(frame, tag), off + 4) == moved_on(ethernet_offset(frame, off)),
    decreases frame.len() + 4 - off,
{
    let longer = tagged(frame, tag);
    assert(be16_at(longer, off + 4) == be16_at(frame, off));
    match be16_at(frame, off) {
        Some(kind) if kind == VLAN_8021Q || kind == VLAN_8021AD => {
            lemma_tag_moves_the_type_on(frame, tag, off + 4);
        },
        _ => {},
    }
}

/// A VLAN tag is transparent: a frame with one more tag behind its addresses holds the same IP
/// packet, or is skipped for the same reason.
pub proof fn law_vlan_tags_are_transparent(frame: Seq<u8>, tag: Seq<u8>)
    requires
        12 <= frame.len(),
        tag.len() == 4,
        be16_at(tag, 0) == Some(VLAN_8021Q) || be16_at(tag, 0) == Some(VLAN_8021AD),
    ensures
        ip_offset(LinkType::Ethernet, tagged(frame, tag)) == moved_on(
            ip_offset(LinkType::Ethernet, frame),
        ),
        ip_offset(LinkType::Ethernet, frame) matches Ok(off) ==> tagged(frame, tag).skip(off + 4)
            == frame.skip(off),
{
    lemma_tag_moves_the_type_on(frame, tag, 12);
    assert(be16_at(tagged(frame, tag), 12) == be16_at(tag, 0));
    law_ip_follows_its_type(frame, 12);
    if let Ok(off) = ip_offset(LinkType::Ethernet, frame) {
        assert(tagged(frame, tag).skip(off + 4) =~= frame.skip(off));
    }
}

/// The IP packet of an Ethernet frame starts right behind a type that says so.
pub proof fn law_ip_follows_its_type(frame: Seq<u8>, off: int)
    requires
        12 <= off,
    ensures
        ethernet_offset(frame, off) matches Ok(start) ==> off + 2 <= start <= frame.len() && (
        be16_at(frame, start - 2) == Some(ETHERTYPE_IPV4) || be16_at(frame, start - 2) == Some(
            ETHERTYPE_IPV6,
        )),
    decreases frame.len() + 4 - off,
{
    match be16_at(frame, off) {
        Some(kind) if kind == VLAN_8021Q || kind == VLAN_8021AD => {
            law_ip_follows_its_type(frame, off + 4);
        },
        _ => {},
    }
}

} // verus!
