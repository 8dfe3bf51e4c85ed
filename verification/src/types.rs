//! Identifiers and wire types: endpoints, peers, transactions, blocks,
//! request/response envelopes and the error taxonomy.

use vstd::prelude::*;

verus! {

/// One kibibyte, for request/response size limits.
pub const KB: u64 = 1024;

/// One gibibyte, for the firewall's byte budget.
pub const GB: u64 = 1024 * 1024 * 1024;

/// One second expressed in the unit of `Limit::time` (milliseconds).
pub const SECOND: u64 = 1000;

/// A network endpoint: an IP (a plain number) together with a port.
/// Punishment, candidacy and the peer table are keyed by the IP alone —
/// one peer slot per IP — while the port is kept so the exact endpoint
/// can be dialled again.
#[derive(Clone, Copy, PartialEq, Eq, Structural, Debug, Hash)]
pub struct PeerAddress {
    pub ip: u64,
    pub port: u16,
}

/// What a peer advertises about itself during a handshake.
#[derive(Clone, Copy, PartialEq, Eq, Structural, Debug)]
pub struct PeerInfo {
    pub height: u64,
}

/// Liveness bookkeeping for a peer. `power` is an advisory weight that
/// influences peer selection; `last_seen` / `last_failed_seen` record the
/// wall-clock seconds of the last successful and last failed contact.
#[derive(Clone, Copy, PartialEq, Eq, Structural, Debug)]
pub struct PeerStats {
    pub last_seen: u32,
    pub last_failed_seen: u32,
    pub power: u64,
}

impl PeerStats {
    /// A peer is transiently degraded when its most recent contact failed;
    /// such peers are left out of `active_peers` snapshots until a success
    /// is recorded again.
    pub open spec fn spec_is_degraded(&self) -> bool {
        self.last_failed_seen >= self.last_seen
    }

    /// Executable twin of [`Self::spec_is_degraded`].
    pub fn is_degraded(&self) -> (r: bool)
        ensures
            r == self.spec_is_degraded(),
    {
        self.last_failed_seen >= self.last_seen
    }
}

/// A peer that completed a handshake: its endpoint, what it advertised,
/// and our liveness bookkeeping for it.
#[derive(Clone, Copy, PartialEq, Eq, Structural, Debug)]
pub struct Peer {
    pub address: PeerAddress,
    pub info: PeerInfo,
    pub stats: PeerStats,
}

/// A transaction as the node core sees it: its canonical identifier.
/// Validation of the content is the blockchain handle's business.
#[derive(Clone, Copy, PartialEq, Eq, Structural, Debug)]
pub struct Transaction {
    pub id: u64,
}

/// Mempool bookkeeping for one transaction: the network timestamp at
/// which the node first observed it.
#[derive(Clone, Copy, PartialEq, Eq, Structural, Debug)]
pub struct TransactionStats {
    pub first_seen: u64,
}

/// A block as the node core sees it: its height and the identifiers of
/// the transactions it confirms.
#[derive(Clone, Debug)]
pub struct Block {
    pub height: u64,
    pub tx_ids: Vec<u64>,
}

/// Size/time limits on one outbound request. `None` means unlimited.
/// `time` is in milliseconds, `size` in bytes.
#[derive(Clone, Copy, Debug)]
pub struct Limit {
    pub size: Option<u64>,
    pub time: Option<u64>,
}

impl Limit {
    /// Replace the size limit.
    pub fn size(self, size: u64) -> (r: Limit)
        ensures
            r.size == Some(size),
            r.time == self.time,
    {
        Limit { size: Some(size), ..self }
    }

    /// Replace the time limit.
    pub fn time(self, time: u64) -> (r: Limit)
        ensures
            r.time == Some(time),
            r.size == self.size,
    {
        Limit { time: Some(time), ..self }
    }
}

impl Limit {
    /// The default limit on one outbound peer call: 1 KiB, 3 s.
    pub fn default_peer() -> (r: Limit)
        ensures
            r.size == Some(KB),
            r.time == Some((3 * SECOND) as u64),
    {
        Limit { size: Some(KB), time: Some(3 * SECOND) }
    }
}

impl Default for Limit {
    /// The default limit is no limit at all.
    fn default() -> (r: Limit)
        ensures
            r.size is None,
            r.time is None,
    {
        Limit { size: None, time: None }
    }
}

/// Failures of the blockchain handle the node consumes.
#[derive(Clone, Copy, PartialEq, Eq, Structural, Debug)]
pub enum BlockchainError {
    /// The underlying store failed.
    Internal,
    /// The block did not validate against the current chain.
    InvalidBlock,
    /// The transaction did not validate.
    InvalidTransaction,
}

/// The node-level error taxonomy.
#[derive(Clone, Copy, PartialEq, Eq, Structural, Debug)]
pub enum NodeError {
    /// Upstream store/ledger error.
    Blockchain(BlockchainError),
    /// A body failed to decode or encode.
    Serialization,
    /// Underlying HTTP I/O failed.
    Transport,
    /// `Limit::time` was exceeded.
    Timeout,
    /// The response body exceeded `Limit::size`.
    SizeLimitExceeded,
    /// The inbound dispatcher is gone (the server is shutting down).
    NotListeningError,
    /// The response channel closed before a reply arrived.
    NotAnsweringError,
    /// A peer sent malformed or semantically invalid data.
    ProtocolViolation,
}

impl NodeError {
    /// A short human-readable description, for transports that surface
    /// errors as text.
    pub fn describe(&self) -> (r: &'static str) {
        match self {
            NodeError::Blockchain(BlockchainError::Internal) => "blockchain: internal error",
            NodeError::Blockchain(BlockchainError::InvalidBlock) => "blockchain: invalid block",
            NodeError::Blockchain(BlockchainError::InvalidTransaction) => {
                "blockchain: invalid transaction"
            },
            NodeError::Serialization => "serialization error",
            NodeError::Transport => "transport error",
            NodeError::Timeout => "timeout",
            NodeError::SizeLimitExceeded => "size limit exceeded",
            NodeError::NotListeningError => "node not listening",
            NodeError::NotAnsweringError => "node not answering",
            NodeError::ProtocolViolation => "protocol violation",
        }
    }
}

/// A handshake, as sent to `/peers`: a full node announces the endpoint
/// it can be reached at; a client-only node announces nothing.
#[derive(Clone, Copy, PartialEq, Eq, Structural, Debug)]
pub enum HandshakeRequest {
    Node(PeerAddress),
    Client,
}

/// The `/peers` reply: the responder's network timestamp, what it
/// advertises about itself, and a sample of its active peers.
#[derive(Clone, Debug)]
pub struct HandshakeResponse {
    pub timestamp: u64,
    pub info: PeerInfo,
    pub peers: Vec<PeerAddress>,
}

/// The `/stats` reply: a read-only snapshot of the node.
#[derive(Clone, Copy, PartialEq, Eq, Structural, Debug)]
pub struct Stats {
    pub height: u64,
    pub peers: u64,
    pub mempool_size: u64,
    pub timestamp: u64,
}

} // verus!
