//! One side of a TCP connection: an address and a port.

use vstd::prelude::*;

use crate::net::IpAddr;
use crate::text::append_decimal;

verus! {

/// A connection endpoint, ordered by address and then by port.
#[derive(Debug, Clone, Copy, PartialEq, Eq, Hash, PartialOrd, Ord, Structural)]
pub struct Endpoint {
    pub ip: IpAddr,
    pub port: u16,
}

impl Endpoint {
    /// `self` sorts strictly before `other`.
    pub open spec fn before(self, other: Endpoint) -> bool {
        self.ip.before(other.ip) || (self.ip == other.ip && self.port < other.port)
    }

    /// Whether `self` sorts strictly before `other`.
    #[must_use]
    pub fn sorts_before(self, other: Endpoint) -> (res: bool)
        ensures
            res == self.before(other),
    {
        self.ip.sorts_before(other.ip) || (self.ip == other.ip && self.port < other.port)
    }

    /// `ip:port`, with brackets round an IPv6 address.
    pub open spec fn text_spec(self) -> Seq<char> {
        match self.ip {
            IpAddr::V4(a) => a.text_spec() + seq![':'] + crate::text::decimal(self.port as nat),
            IpAddr::V6(a) => seq!['['] + a.text_spec() + "]:"@ + crate::text::decimal(
                self.port as nat,
            ),
        }
    }

    /// `ip:port`, with brackets round an IPv6 address.
    #[must_use]
    pub fn text(self) -> (res: String)
        ensures
            res@ == self.text_spec(),
    {
        let mut out = String::new();
        let ip = self.ip.text();
        match self.ip {
            IpAddr::V4(_) => {
                out.append(ip.as_str());
                out.push(':');
            },
            IpAddr::V6(_) => {
                out.push('[');
                out.append(ip.as_str());
                out.append("]:");
            },
        }
        append_decimal(&mut out, self.port as u64);
        proof {
            assert(out@ =~= self.text_spec());
        }
        out
    }
}

/// Endpoints are totally ordered: of two distinct endpoints exactly one sorts before the other,
/// and the order is transitive.
pub proof fn law_endpoints_are_totally_ordered(a: Endpoint, b: Endpoint, c: Endpoint)
    ensures
        !a.before(a),
        a != b ==> a.before(b) != b.before(a),
        a.before(b) && b.before(c) ==> a.before(c),
{
}

} // verus!
