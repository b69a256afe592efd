//! The wake service: holds the validated target MAC address and turns a
//! trigger request into a magic packet and a reported outcome.
//!
//! Transmitting the packet is I/O and stays with the caller: a trigger is
//! `packet()` (assemble the payload for the stored target), the caller's
//! broadcast of those bytes, and `complete()` (fold the transmission
//! outcome into the `WakeResult` reported for this call).  Each trigger
//! assembles its packet afresh from the stored octets, so concurrent or
//! repeated triggers are independent: every one of them works on the same
//! immutable address and its own freshly built bytes.
use vstd::prelude::*;
use crate::mac::MacAddress;
use crate::packet::{magic_bytes, MagicPacket, MagicPacketBuilder};

verus! {

/// Why a transmission attempt failed.
#[derive(Clone, Copy, Debug, PartialEq, Eq, Structural)]
pub enum SendError {
    /// The broadcast socket could not be created or configured.
    SocketSetupFailed,
    /// The send call itself reported an error.
    TransmitFailed,
}

/// The outcome of one trigger, reported only to its own caller.
#[derive(Clone, Copy, Debug, PartialEq, Eq, Structural)]
pub enum WakeResult {
    Success,
    Failure(SendError),
}

/// A wake service ready to trigger wakes for one fixed target.
pub struct WakeService {
    mac: MacAddress,
}

impl View for WakeService {
    type V = Seq<u8>;

    closed spec fn view(&self) -> Seq<u8> {
        self.mac@
    }
}

impl WakeService {
    /// A service for the given validated target address.
    pub fn new(mac: MacAddress) -> (s: WakeService)
        ensures
            s@ == mac@,
    {
        WakeService { mac }
    }

    /// The stored target address.
    pub fn mac(&self) -> (m: MacAddress)
        ensures
            m@ == self@,
    {
        self.mac
    }

    /// The first half of a trigger: the magic packet for the stored target,
    /// assembled afresh for this call.
    pub fn packet(&self) -> (p: MagicPacket)
        ensures
            p@ == magic_bytes(self@),
            p@.len() == 102,
    {
        MagicPacketBuilder::build(&self.mac)
    }

    /// The second half of a trigger: the result reported to the caller,
    /// `Success` exactly when the transmission went through, and otherwise
    /// the failure wrapping the transmission's own error.
    pub fn complete(outcome: Result<(), SendError>) -> (r: WakeResult)
        ensures
            r == (match outcome {
                Ok(_) => WakeResult::Success,
                Err(e) => WakeResult::Failure(e),
            }),
    {
        match outcome {
            Ok(_) => WakeResult::Success,
            Err(e) => WakeResult::Failure(e),
        }
    }
}

} // verus!
