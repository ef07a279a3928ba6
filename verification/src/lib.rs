//! Decentralized cluster membership with gossip-based dissemination and
//! time-based failure detection.
//!
//! The crate is organized bottom-up: [`record`] holds the value types
//! (addresses, identities, peer records), [`wire`] the big-endian byte
//! helpers, [`message`] the wire envelope with its codec, and [`agent`]
//! the membership state machine that merges inbound heartbeats, times out
//! silent peers, and builds gossip payloads.

pub mod agent;
pub mod message;
pub mod record;
pub mod wire;
