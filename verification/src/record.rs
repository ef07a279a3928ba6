//! Value types of the membership protocol: network addresses, identities
//! (address plus heartbeat), and locally bookkept peer records.

use vstd::prelude::*;

verus! {

/// A compact network endpoint: an IPv4-style 32-bit host and a 16-bit port.
///
/// Host value `0` is the "unspecified" sentinel on the wire: the receiver
/// replaces it with the transport-observed sender address (see
/// `Message::patch`).
#[derive(Debug, Copy, Clone, PartialEq, Eq, Structural)]
pub struct Addr {
    pub host: u32,
    pub port: u16,
}

/// The minimal unit exchanged on the wire: an address paired with the
/// heartbeat counter of the node that owns that address.
#[derive(Debug, Copy, Clone, PartialEq, Eq, Structural)]
pub struct Info {
    pub addr: Addr,
    pub beat: u64,
}

/// An identity plus local bookkeeping: when the peer was last heard from,
/// and — if nonzero — when the failure detector declared it down.
///
/// `down == 0` means the peer is considered alive.
#[derive(Debug, Copy, Clone, PartialEq, Eq, Structural)]
pub struct Record {
    pub info: Info,
    pub time: u64,
    pub down: u64,
}

impl Record {
    /// A fresh record for a peer first observed at `time` with heartbeat
    /// `beat`; it starts alive (`down == 0`).
    pub fn new(addr: Addr, time: u64, beat: u64) -> (r: Record)
        ensures
            r == (Record { info: Info { addr, beat }, time, down: 0 }),
    {
        Record { info: Info { addr, beat }, time, down: 0 }
    }

    /// The identity carried by this record.
    pub fn info(&self) -> (r: Info)
        ensures
            r == self.info,
    {
        self.info
    }

    /// Whether the failure detector has declared this peer down.
    pub fn is_down(&self) -> (r: bool)
        ensures
            r == (self.down != 0),
    {
        self.down > 0
    }
}

} // verus!
