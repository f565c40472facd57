//! Observed connection lifecycle. Coarser than the endpoint states of RFC 793: an observer on
//! the wire sees both directions but neither `TIME_WAIT` nor `LAST_ACK`.

use vstd::prelude::*;

verus! {

/// The lifecycle point a connection instance has reached, as observed from the wire.
#[derive(Debug, Clone, Copy, PartialEq, Eq, Structural)]
pub enum ConnState {
    SynSent,
    SynReceived,
    Established,
    FinWait,
    Closed,
    Reset,
}

impl ConnState {
    /// Position along the graceful path; `Reset` lies past its end.
    pub open spec fn position(self) -> u8 {
        match self {
            ConnState::SynSent => 0,
            ConnState::SynReceived => 1,
            ConnState::Established => 2,
            ConnState::FinWait => 3,
            ConnState::Closed => 4,
            ConnState::Reset => 5,
        }
    }

    /// The connection takes no further part in the exchange.
    pub open spec fn is_over(self) -> bool {
        self == ConnState::Closed || self == ConnState::Reset
    }

    /// `to` where it lies ahead of `self`, else `self`.
    pub open spec fn advanced(self, to: ConnState) -> ConnState {
        if to.position() > self.position() {
            to
        } else {
            self
        }
    }

    /// Position along the graceful path; `Reset` lies past its end.
    #[must_use]
    pub fn rank(self) -> (res: u8)
        ensures
            res == self.position(),
    {
        match self {
            ConnState::SynSent => 0,
            ConnState::SynReceived => 1,
            ConnState::Established => 2,
            ConnState::FinWait => 3,
            ConnState::Closed => 4,
            ConnState::Reset => 5,
        }
    }

    /// Moves to `to` only if that does not go backward along the graceful path.
    #[must_use]
    pub fn advance_to(self, to: ConnState) -> (res: ConnState)
        ensures
            res == self.advanced(to),
    {
        if to.rank() > self.rank() {
            to
        } else {
            self
        }
    }

    /// Whether the connection is closed or reset.
    #[must_use]
    pub fn is_terminal(self) -> (res: bool)
        ensures
            res == self.is_over(),
    {
        match self {
            ConnState::Closed | ConnState::Reset => true,
            _ => false,
        }
    }

    /// The name of the state.
    pub open spec fn label_spec(self) -> Seq<char> {
        match self {
            ConnState::SynSent => "SynSent"@,
            ConnState::SynReceived => "SynReceived"@,
            ConnState::Established => "Established"@,
            ConnState::FinWait => "FinWait"@,
            ConnState::Closed => "Closed"@,
            ConnState::Reset => "Reset"@,
        }
    }

    /// The name of the state.
    #[must_use]
    pub fn label(self) -> (res: &'static str)
        ensures
            res@ == self.label_spec(),
    {
        match self {
            ConnState::SynSent => "SynSent",
            ConnState::SynReceived => "SynReceived",
            ConnState::Established => "Established",
            ConnState::FinWait => "FinWait",
            ConnState::Closed => "Closed",
            ConnState::Reset => "Reset",
        }
    }
}

} // verus!
