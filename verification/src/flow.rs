//! The TCP 4-tuple as seen on the wire.

use vstd::prelude::*;

use crate::endpoint::Endpoint;
use crate::net::IpAddr;

verus! {

/// TCP 4-tuple, stored as seen and not put in canonical order.
#[derive(Debug, Clone, Copy, PartialEq, Eq, Hash, Structural)]
pub struct FlowKey {
    pub src_ip: IpAddr,
    pub src_port: u16,
    pub dst_ip: IpAddr,
    pub dst_port: u16,
}

impl FlowKey {
    /// The sending endpoint.
    pub open spec fn source_spec(self) -> Endpoint {
        Endpoint { ip: self.src_ip, port: self.src_port }
    }

    /// The receiving endpoint.
    pub open spec fn destination_spec(self) -> Endpoint {
        Endpoint { ip: self.dst_ip, port: self.dst_port }
    }

    /// The sending endpoint.
    #[must_use]
    pub fn source(self) -> (res: Endpoint)
        ensures
            res == self.source_spec(),
    {
        Endpoint { ip: self.src_ip, port: self.src_port }
    }

    /// The receiving endpoint.
    #[must_use]
    pub fn destination(self) -> (res: Endpoint)
        ensures
            res == self.destination_spec(),
    {
        Endpoint { ip: self.dst_ip, port: self.dst_port }
    }

    /// `source -> destination`.
    pub open spec fn text_spec(self) -> Seq<char> {
        self.source_spec().text_spec() + " -> "@ + self.destination_spec().text_spec()
    }

    /// `source -> destination`.
    #[must_use]
    pub fn text(self) -> (res: String)
        ensures
            res@ == self.text_spec(),
    {
        let mut out = self.source().text();
        out.append(" -> ");
        out.append(self.destination().text().as_str());
        out
    }
}

} // verus!
