use vstd::prelude::*;

pub mod context;
pub mod error;
pub mod handler;
pub mod message;
pub mod pending;
pub mod relay;
pub mod short_id;
pub mod simulation;
pub mod tx_pool;

verus! {

/// Index of a connected session within one node.
pub type PeerIndex = usize;

/// Identifier of a protocol multiplexed over one transport.
pub type ProtocolId = usize;

} // verus!
