//! Core of a peer-to-peer blockchain node: the peer manager (candidate /
//! peer / punishment state machine), the shared node context with its
//! network clock, the clock-sync heartbeat, the inbound firewall and the
//! RPC dispatcher. All network and time endpoints are modelled as plain
//! values so that every rule in this crate is stated and proved; the
//! process around it (sockets, tasks, the wall clock) hands values in and
//! takes values out.

pub mod assoc;
pub mod clock;
pub mod context;
pub mod firewall;
pub mod heartbeat;
pub mod peer_manager;
pub mod rpc;
pub mod sampling;
pub mod types;

use vstd::prelude::*;

verus! {

/// Seconds a candidate may sit in the candidate table without promotion
/// before `refresh` drops it.
pub const CANDIDATE_TTL: u32 = 600;

} // verus!
