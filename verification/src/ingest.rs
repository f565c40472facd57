//! What a capture yields besides segments: skipped packets, names, and failures.

use vstd::prelude::*;

use crate::link::LinkType;
use crate::name::NameObservation;
use crate::segment::Item;
use crate::text::append_decimal;

verus! {

/// Why a packet was skipped rather than decoded.
#[derive(Debug, Clone, Copy, PartialEq, Eq, Hash, Structural)]
pub enum SkipReason {
    NonTcp,
    Malformed,
    UnsupportedLinkType,
    Ipv6Fragment,
    UnsupportedExtChain,
    Truncated,
}

/// How many packets were skipped, by reason.
#[derive(Debug, Clone, Copy, PartialEq, Eq, Structural)]
pub struct SkipCounts {
    pub non_tcp: u64,
    pub malformed: u64,
    pub unsupported_link_type: u64,
    pub ipv6_fragment: u64,
    pub unsupported_ext_chain: u64,
    pub truncated: u64,
}

impl Default for SkipCounts {
    fn default() -> (res: SkipCounts)
        ensures
            res == SkipCounts::zero(),
    {
        SkipCounts {
            non_tcp: 0,
            malformed: 0,
            unsupported_link_type: 0,
            ipv6_fragment: 0,
            unsupported_ext_chain: 0,
            truncated: 0,
        }
    }
}

impl SkipCounts {
    /// Nothing skipped.
    pub open spec fn zero() -> SkipCounts {
        SkipCounts {
            non_tcp: 0,
            malformed: 0,
            unsupported_link_type: 0,
            ipv6_fragment: 0,
            unsupported_ext_chain: 0,
            truncated: 0,
        }
    }

    /// The count for `reason`.
    pub open spec fn count(self, reason: SkipReason) -> u64 {
        match reason {
            SkipReason::NonTcp => self.non_tcp,
            SkipReason::Malformed => self.malformed,
            SkipReason::UnsupportedLinkType => self.unsupported_link_type,
            SkipReason::Ipv6Fragment => self.ipv6_fragment,
            SkipReason::UnsupportedExtChain => self.unsupported_ext_chain,
            SkipReason::Truncated => self.truncated,
        }
    }

    /// The counts after one more skip for `reason`.
    pub open spec fn plus(self, reason: SkipReason) -> SkipCounts {
        match reason {
            SkipReason::NonTcp => SkipCounts { non_tcp: (self.non_tcp + 1) as u64, ..self },
            SkipReason::Malformed => SkipCounts { malformed: (self.malformed + 1) as u64, ..self },
            SkipReason::UnsupportedLinkType => SkipCounts {
                unsupported_link_type: (self.unsupported_link_type + 1) as u64,
                ..self
            },
            SkipReason::Ipv6Fragment => SkipCounts {
                ipv6_fragment: (self.ipv6_fragment + 1) as u64,
                ..self
            },
            SkipReason::UnsupportedExtChain => SkipCounts {
                unsupported_ext_chain: (self.unsupported_ext_chain + 1) as u64,
                ..self
            },
            SkipReason::Truncated => SkipCounts { truncated: (self.truncated + 1) as u64, ..self },
        }
    }

    /// The sum of all counts.
    pub open spec fn sum(self) -> nat {
        (self.non_tcp + self.malformed + self.unsupported_link_type + self.ipv6_fragment
            + self.unsupported_ext_chain + self.truncated) as nat
    }

    /// The reasons in the order in which they are listed, with their names.
    pub open spec fn listed(i: int) -> (SkipReason, Seq<char>) {
        if i == 0 {
            (SkipReason::NonTcp, "non_tcp"@)
        } else if i == 1 {
            (SkipReason::Malformed, "malformed"@)
        } else if i == 2 {
            (SkipReason::UnsupportedLinkType, "unsupported_link_type"@)
        } else if i == 3 {
            (SkipReason::Ipv6Fragment, "ipv6_fragment"@)
        } else if i == 4 {
            (SkipReason::UnsupportedExtChain, "unsupported_ext_chain"@)
        } else {
            (SkipReason::Truncated, "truncated"@)
        }
    }

    /// The names and counts of the first `upto` listed reasons that are not zero.
    pub open spec fn nonzero_spec(self, upto: nat) -> Seq<(Seq<char>, u64)>
        decreases upto,
    {
        if upto == 0 {
            Seq::empty()
        } else {
            let (reason, name) = Self::listed(upto - 1);
            let before = self.nonzero_spec((upto - 1) as nat);
            if self.count(reason) > 0 {
                before.push((name, self.count(reason)))
            } else {
                before
            }
        }
    }

    /// The reason at place `i` of the listing order, and its name.
    fn listed_at(i: u8) -> (res: (SkipReason, &'static str))
        ensures
            res.0 == Self::listed(i as int).0,
            res.1@ == Self::listed(i as int).1,
    {
        match i {
            0 => (SkipReason::NonTcp, "non_tcp"),
            1 => (SkipReason::Malformed, "malformed"),
            2 => (SkipReason::UnsupportedLinkType, "unsupported_link_type"),
            3 => (SkipReason::Ipv6Fragment, "ipv6_fragment"),
            4 => (SkipReason::UnsupportedExtChain, "unsupported_ext_chain"),
            _ => (SkipReason::Truncated, "truncated"),
        }
    }

    /// The count for `reason`.
    #[must_use]
    pub fn get(&self, reason: SkipReason) -> (res: u64)
        ensures
            res == self.count(reason),
    {
        match reason {
            SkipReason::NonTcp => self.non_tcp,
            SkipReason::Malformed => self.malformed,
            SkipReason::UnsupportedLinkType => self.unsupported_link_type,
            SkipReason::Ipv6Fragment => self.ipv6_fragment,
            SkipReason::UnsupportedExtChain => self.unsupported_ext_chain,
            SkipReason::Truncated => self.truncated,
        }
    }

    /// Counts one more skip for `reason`.
    pub fn record(&mut self, reason: SkipReason)
        requires
            old(self).count(reason) < u64::MAX,
        ensures
            *final(self) == old(self).plus(reason),
    {
        match reason {
            SkipReason::NonTcp => self.non_tcp = self.non_tcp + 1,
            SkipReason::Malformed => self.malformed = self.malformed + 1,
            SkipReason::UnsupportedLinkType => {
                self.unsupported_link_type = self.unsupported_link_type + 1;
            },
            SkipReason::Ipv6Fragment => self.ipv6_fragment = self.ipv6_fragment + 1,
            SkipReason::UnsupportedExtChain => {
                self.unsupported_ext_chain = self.unsupported_ext_chain + 1;
            },
            SkipReason::Truncated => self.truncated = self.truncated + 1,
        }
    }

    /// Whether one more skip of any kind can be counted, in its own count and in the total.
    #[must_use]
    pub fn has_room(&self) -> (res: bool)
        ensures
            res == (self.sum() < u64::MAX),
    {
        let sum: u128 = self.non_tcp as u128 + self.malformed as u128
            + self.unsupported_link_type as u128 + self.ipv6_fragment as u128
            + self.unsupported_ext_chain as u128 + self.truncated as u128;
        sum < u64::MAX as u128
    }

    /// The names and counts of the reasons that are not zero.
    #[must_use]
    pub fn nonzero(&self) -> (res: Vec<(&'static str, u64)>)
        ensures
            res@.map_values(|e: (&'static str, u64)| (e.0@, e.1)) == self.nonzero_spec(6),
    {
        let mut out: Vec<(&'static str, u64)> = Vec::new();
        let mut i: u8 = 0;
        proof {
            assert(out@.map_values(|e: (&'static str, u64)| (e.0@, e.1)) =~= self.nonzero_spec(0));
        }
        while i < 6
            invariant
                i <= 6,
                out@.map_values(|e: (&'static str, u64)| (e.0@, e.1)) == self.nonzero_spec(
                    i as nat,
                ),
            decreases 6 - i,
        {
            let (reason, name) = Self::listed_at(i);
            let count: u64 = self.get(reason);
            let ghost before = out@;
            if count > 0 {
                out.push((name, count));
                proof {
                    assert(out@.map_values(|e: (&'static str, u64)| (e.0@, e.1))
                        =~= before.map_values(|e: (&'static str, u64)| (e.0@, e.1)).push(
                        (name@, count),
                    ));
                }
            }
            i = i + 1;
        }
        out
    }

    /// How many packets were skipped.
    #[must_use]
    pub fn total(&self) -> (res: u64)
        requires
            self.sum() <= u64::MAX,
        ensures
            res == self.sum(),
    {
        self.non_tcp + self.malformed + self.unsupported_link_type + self.ipv6_fragment
            + self.unsupported_ext_chain + self.truncated
    }
}

/// Each skip raises its own count and the total by one, and no other count.
pub proof fn law_each_skip_counts_once(counts: SkipCounts, reason: SkipReason, other: SkipReason)
    requires
        counts.count(reason) < u64::MAX,
    ensures
        counts.plus(reason).sum() == counts.sum() + 1,
        counts.plus(reason).count(reason) == counts.count(reason) + 1,
        other != reason ==> counts.plus(reason).count(other) == counts.count(other),
{
}

/// The listing of the skips names each reason that occurred once, with its count, in the fixed order
/// of the reasons, and none that did not occur.
pub proof fn law_the_listing_names_what_occurred(counts: SkipCounts)
    ensures
        ({
            let part = |name: Seq<char>, n: u64|
                if n > 0 {
                    seq![(name, n)]
                } else {
                    Seq::empty()
                };
            counts.nonzero_spec(6) == part("non_tcp"@, counts.non_tcp) + part(
                "malformed"@,
                counts.malformed,
            ) + part("unsupported_link_type"@, counts.unsupported_link_type) + part(
                "ipv6_fragment"@,
                counts.ipv6_fragment,
            ) + part("unsupported_ext_chain"@, counts.unsupported_ext_chain) + part(
                "truncated"@,
                counts.truncated,
            )
        }),
{
    reveal_with_fuel(SkipCounts::nonzero_spec, 7);
    let part = |name: Seq<char>, n: u64|
        if n > 0 {
            seq![(name, n)]
        } else {
            Seq::empty()
        };
    let one = part("non_tcp"@, counts.non_tcp);
    let two = one + part("malformed"@, counts.malformed);
    let three = two + part("unsupported_link_type"@, counts.unsupported_link_type);
    let four = three + part("ipv6_fragment"@, counts.ipv6_fragment);
    let five = four + part("unsupported_ext_chain"@, counts.unsupported_ext_chain);
    assert(counts.nonzero_spec(1) =~= one);
    assert(counts.nonzero_spec(2) =~= two);
    assert(counts.nonzero_spec(3) =~= three);
    assert(counts.nonzero_spec(4) =~= four);
    assert(counts.nonzero_spec(5) =~= five);
    assert(counts.nonzero_spec(6) =~= five + part("truncated"@, counts.truncated));
}

/// The result of parsing a capture.
#[derive(Debug, PartialEq, Eq)]
pub struct ReplayParse {
    pub items: Vec<Item>,
    pub skipped: SkipCounts,
    pub link_type: LinkType,
    pub names: Vec<NameObservation>,
}

/// Failures of a whole capture; problems of single packets are counted instead.
#[derive(Debug, PartialEq, Eq)]
pub enum IngestError {
    Open { path: String, source: String },
    Container { path: String, detail: String },
    UnknownLinkType { dlt: u16 },
    MixedLinkTypes,
}

/// A failure by what it says.
#[verifier::ext_equal]
pub enum IngestErrorModel {
    Open { path: Seq<char>, source: Seq<char> },
    Container { path: Seq<char>, detail: Seq<char> },
    UnknownLinkType { dlt: u16 },
    MixedLinkTypes,
}

impl View for IngestError {
    type V = IngestErrorModel;

    open spec fn view(&self) -> IngestErrorModel {
        match self {
            IngestError::Open { path, source } => IngestErrorModel::Open {
                path: path@,
                source: source@,
            },
            IngestError::Container { path, detail } => IngestErrorModel::Container {
                path: path@,
                detail: detail@,
            },
            IngestError::UnknownLinkType { dlt } => IngestErrorModel::UnknownLinkType {
                dlt: *dlt,
            },
            IngestError::MixedLinkTypes => IngestErrorModel::MixedLinkTypes,
        }
    }
}

impl IngestError {
    /// The message shown to the user.
    pub open spec fn message_spec(self) -> Seq<char> {
        match self {
            IngestError::Open { path, source } => "opening capture "@ + path@ + ": "@ + source@
                + " (check the path and read permissions)"@,
            IngestError::Container { path, detail } => "parsing capture container "@ + path@
                + ": "@ + detail@,
            IngestError::UnknownLinkType { dlt } => "unsupported link type "@
                + crate::text::decimal(dlt as nat)
                + " (M1 supports Ethernet, SLL, SLL2, raw IP, null)"@,
            IngestError::MixedLinkTypes =>
                "capture mixes link types across interfaces; M1 supports a single link type"@,
        }
    }

    /// The message shown to the user.
    #[must_use]
    pub fn message(&self) -> (res: String)
        ensures
            res@ == self.message_spec(),
    {
        match self {
            IngestError::Open { path, source } => {
                let mut out = "opening capture ".to_owned();
                out.append(path.as_str());
                out.append(": ");
                out.append(source.as_str());
                out.append(" (check the path and read permissions)");
                out
            },
            IngestError::Container { path, detail } => {
                let mut out = "parsing capture container ".to_owned();
                out.append(path.as_str());
                out.append(": ");
                out.append(detail.as_str());
                out
            },
            IngestError::UnknownLinkType { dlt } => {
                let mut out = "unsupported link type ".to_owned();
                append_decimal(&mut out, *dlt as u64);
                out.append(" (M1 supports Ethernet, SLL, SLL2, raw IP, null)");
                out
            },
            IngestError::MixedLinkTypes => {
                "capture mixes link types across interfaces; M1 supports a single link type".to_owned()
            },
        }
    }
}

} // verus!
