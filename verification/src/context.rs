//! The node context: the single in-memory hub holding the blockchain
//! handle, the mempool, the peer manager, the clock offset and the
//! immutable options bundle.

use crate::assoc::AssocMap;
use crate::clock::{network_time, spec_network_time};
use crate::peer_manager::PeerManager;
use crate::types::{
    Block, BlockchainError, NodeError, Peer, PeerAddress, PeerInfo, Transaction, TransactionStats,
};
use vstd::prelude::*;

verus! {

/// The capability set the node consumes from the blockchain engine. An
/// implementation supplies the spec functions describing its own
/// behaviour and proves its executable methods against them.
pub trait Blockchain: Sized {
    /// What `get_height` returns on this state.
    spec fn spec_height(&self) -> Result<u64, BlockchainError>;

    /// What `check_tx` returns on this state for a given transaction.
    spec fn spec_check_tx(&self, tx: Transaction) -> Result<bool, BlockchainError>;

    /// The state after applying a block, or the error if it does not
    /// apply (in which case the state is unchanged).
    spec fn spec_apply_block(&self, b: Block) -> Result<Self, BlockchainError>;

    /// The number of blocks in the chain.
    fn get_height(&self) -> (r: Result<u64, BlockchainError>)
        ensures
            r == self.spec_height(),
    ;

    /// Whether a transaction is admissible on the current state.
    fn check_tx(&self, tx: &Transaction) -> (r: Result<bool, BlockchainError>)
        ensures
            r == self.spec_check_tx(*tx),
    ;

    /// Apply a block, mutating the state on success and leaving it
    /// untouched on failure.
    fn apply_block(&mut self, b: &Block) -> (r: Result<(), BlockchainError>)
        ensures
            match old(self).spec_apply_block(*b) {
                Ok(next) => r is Ok && *final (self) == next,
                Err(e) => r == Err::<(), BlockchainError>(e) && *final (self) == *old(self),
            },
    ;
}

/// A minimal in-memory chain: it accepts every transaction and any block
/// whose height is exactly the next one.
#[derive(Clone, Copy, PartialEq, Eq, Structural, Debug)]
pub struct InMemoryChain {
    pub height: u64,
}

impl Blockchain for InMemoryChain {
    open spec fn spec_height(&self) -> Result<u64, BlockchainError> {
        Ok(self.height)
    }

    open spec fn spec_check_tx(&self, tx: Transaction) -> Result<bool, BlockchainError> {
        Ok(true)
    }

    open spec fn spec_apply_block(&self, b: Block) -> Result<Self, BlockchainError> {
        if b.height == self.height + 1 {
            Ok(InMemoryChain { height: b.height })
        } else {
            Err(BlockchainError::InvalidBlock)
        }
    }

    fn get_height(&self) -> (r: Result<u64, BlockchainError>) {
        Ok(self.height)
    }

    fn check_tx(&self, tx: &Transaction) -> (r: Result<bool, BlockchainError>) {
        Ok(true)
    }

    fn apply_block(&mut self, b: &Block) -> (r: Result<(), BlockchainError>) {
        if self.height < u64::MAX && b.height == self.height + 1 {
            self.height = b.height;
            Ok(())
        } else {
            Err(BlockchainError::InvalidBlock)
        }
    }
}

/// The immutable options bundle the node is started with.
#[derive(Clone, Copy, PartialEq, Eq, Structural, Debug)]
pub struct NodeOpts {
    /// How many peers heartbeat tasks sample.
    pub num_peers: usize,
    /// Cool-down in seconds for punished IPs.
    pub punish_secs: u32,
    /// How long an unconfirmed transaction is retained, in network-clock
    /// seconds.
    pub tx_retention: u64,
}

/// Relies on std::time::SystemTime::now and duration_since: seconds of
/// the system clock since the Unix epoch, zero for a clock before the
/// epoch. Nothing is assumed of the value.
#[verifier::external_body]
pub(crate) fn local_timestamp() -> (r: u64) {
    match std::time::SystemTime::now().duration_since(std::time::UNIX_EPOCH) {
        Ok(d) => d.as_secs(),
        Err(_) => 0,
    }
}

/// Whether a mempool entry first seen at `first_seen` has aged out at
/// network time `now`.
pub open spec fn tx_expired(first_seen: u64, now: u64, retention: u64) -> bool {
    first_seen + retention <= now
}

/// How one reap relates the mempool before to the mempool after: entries
/// confirmed by `included` or older than `retention` are dropped, every
/// surviving entry is unchanged.
pub open spec fn mempool_reaped(
    pre: Map<u64, (Transaction, TransactionStats)>,
    post: Map<u64, (Transaction, TransactionStats)>,
    now: u64,
    retention: u64,
    included: Seq<u64>,
) -> bool {
    &&& forall|id: u64|
        #[trigger] post.contains_key(id) <==> pre.contains_key(id) && !included.contains(id)
            && !tx_expired(pre[id].1.first_seen, now, retention)
    &&& forall|id: u64| #[trigger] post.contains_key(id) ==> post[id] == pre[id]
}

/// The single shared state hub of the node.
pub struct NodeContext<B: Blockchain> {
    pub blockchain: B,
    pub mempool: AssocMap<(Transaction, TransactionStats)>,
    pub peer_manager: PeerManager,
    pub timestamp_offset: i64,
    /// The endpoint this node can be reached at; a client-only node has
    /// none and does not advertise itself.
    pub external: Option<PeerAddress>,
    pub opts: NodeOpts,
}

impl<B: Blockchain> NodeContext<B> {
    /// Validity of the hub: tables well formed, the peer-manager
    /// invariant, and every mempool entry keyed by its own identifier.
    pub open spec fn wf(&self) -> bool {
        &&& self.mempool.wf()
        &&& self.peer_manager.inv()
        &&& forall|id: u64| #[trigger] self.mempool@.contains_key(id) ==> self.mempool@[id].0.id
            == id
    }

    /// A fresh context: empty mempool, candidates seeded from bootstrap,
    /// zero clock offset.
    pub fn new(
        blockchain: B,
        bootstrap: Vec<PeerAddress>,
        now: u32,
        external: Option<PeerAddress>,
        opts: NodeOpts,
    ) -> (ctx: NodeContext<B>)
        ensures
            ctx.wf(),
            ctx.blockchain == blockchain,
            ctx.mempool@ == Map::<u64, (Transaction, TransactionStats)>::empty(),
            ctx.peer_manager.candidates() == crate::peer_manager::seeded(bootstrap@, now),
            ctx.peer_manager.peers() == Map::<u64, Peer>::empty(),
            ctx.timestamp_offset == 0i64,
            ctx.external == external,
            ctx.opts == opts,
    {
        NodeContext {
            blockchain,
            mempool: AssocMap::new(),
            peer_manager: PeerManager::new(bootstrap, now),
            timestamp_offset: 0,
            external,
            opts,
        }
    }

    /// The network timestamp derived from a given local wall-clock
    /// reading: the reading shifted by the node's offset.
    pub fn network_timestamp_at(&self, local: u64) -> (r: u64)
        ensures
            r == spec_network_time(local, self.timestamp_offset),
    {
        network_time(local, self.timestamp_offset)
    }

    /// The current network timestamp: the system clock shifted by the
    /// node's offset. The clock reading itself is outside the logic, so
    /// all that is promised is that the result is the shift of some
    /// reading.
    pub fn network_timestamp(&self) -> (r: u64)
        ensures
            exists|local: u64| r == spec_network_time(local, self.timestamp_offset),
    {
        let local = local_timestamp();
        let r = network_time(local, self.timestamp_offset);
        proof {
            assert(r == spec_network_time(local, self.timestamp_offset));
        }
        r
    }

    /// Our own advertisement: the chain height wrapped in `PeerInfo`, or
    /// the blockchain's error.
    pub fn get_info(&self) -> (r: Result<PeerInfo, BlockchainError>)
        ensures
            match self.blockchain.spec_height() {
                Ok(h) => r == Ok::<PeerInfo, BlockchainError>(PeerInfo { height: h }),
                Err(e) => r == Err::<PeerInfo, BlockchainError>(e),
            },
    {
        match self.blockchain.get_height() {
            Ok(h) => Ok(PeerInfo { height: h }),
            Err(e) => Err(e),
        }
    }

    /// A snapshot of the peers that are not transiently degraded: every
    /// such peer exactly once.
    #[verifier::rlimit(50)]
    pub fn active_peers(&self) -> (r: Vec<Peer>)
        requires
            self.wf(),
        ensures
            forall|i: int|
                0 <= i < r@.len() ==> {
                    &&& self.peer_manager.peers().contains_key((#[trigger] r@[i]).address.ip)
                    &&& self.peer_manager.peers()[r@[i].address.ip] == r@[i]
                    &&& !r@[i].stats.spec_is_degraded()
                },
            forall|ip: u64|
                #[trigger] self.peer_manager.peers().contains_key(ip)
                    && !self.peer_manager.peers()[ip].stats.spec_is_degraded() ==> exists|i: int|
                    0 <= i < r@.len() && (#[trigger] r@[i]).address.ip == ip,
            forall|i: int, j: int|
                0 <= i < j < r@.len() ==> (#[trigger] r@[i]).address.ip != (
                #[trigger] r@[j]).address.ip,
    {
        let all = self.peer_manager.get_peers();
        let n = all.len();
        let mut r: Vec<Peer> = Vec::new();
        let mut i: usize = 0;
        while i < n
            invariant
                i <= n,
                n == all@.len(),
                self.wf(),
                forall|j: int|
                    0 <= j < all@.len() ==> {
                        &&& self.peer_manager.peers().contains_key(
                            (#[trigger] all@[j]).address.ip,
                        )
                        &&& self.peer_manager.peers()[all@[j].address.ip] == all@[j]
                    },
                forall|a: int, b: int|
                    0 <= a < b < all@.len() ==> (#[trigger] all@[a]).address.ip != (
                    #[trigger] all@[b]).address.ip,
                forall|k: int|
                    0 <= k < r@.len() ==> exists|j: int|
                        0 <= j < i && #[trigger] r@[k] == all@[j],
                forall|j: int|
                    0 <= j < i && !(#[trigger] all@[j]).stats.spec_is_degraded() ==> exists|k: int|
                        0 <= k < r@.len() && #[trigger] r@[k] == all@[j],
                forall|k: int|
                    0 <= k < r@.len() ==> !(#[trigger] r@[k]).stats.spec_is_degraded(),
                forall|k1: int, k2: int|
                    0 <= k1 < k2 < r@.len() ==> (#[trigger] r@[k1]).address.ip != (
                    #[trigger] r@[k2]).address.ip,
            decreases n - i,
        {
            let p = all[i];
            if !p.stats.is_degraded() {
                let ghost r_old = r@;
                proof {
                    assert forall|k: int| 0 <= k < r@.len() implies (#[trigger] r@[k]).address.ip
                        != p.address.ip by {
                        let j = choose|j: int| 0 <= j < i && #[trigger] r@[k] == all@[j];
                        assert(all@[j].address.ip != all@[i as int].address.ip);
                    }
                }
                r.push(p);
                proof {
                    assert forall|j: int|
                        0 <= j < i + 1 && !(#[trigger] all@[j]).stats.spec_is_degraded() implies
                    exists|k: int| 0 <= k < r@.len() && #[trigger] r@[k] == all@[j] by {
                        if j < i {
                            let k = choose|k: int|
                                0 <= k < r_old.len() && #[trigger] r_old[k] == all@[j];
                            assert(r@[k] == all@[j]);
                        } else {
                            assert(r@[r@.len() - 1] == all@[j]);
                        }
                    }
                }
            }
            i = i + 1;
        }
        proof {
            assert forall|ip: u64|
                #[trigger] self.peer_manager.peers().contains_key(ip)
                    && !self.peer_manager.peers()[ip].stats.spec_is_degraded() implies exists|
                i: int,
            | 0 <= i < r@.len() && (#[trigger] r@[i]).address.ip == ip by {
                let j = choose|j: int| 0 <= j < all@.len() && (#[trigger] all@[j]).address.ip == ip;
                assert(all@[j] == self.peer_manager.peers()[ip]);
                assert(!all@[j].stats.spec_is_degraded());
                let k = choose|k: int| 0 <= k < r@.len() && #[trigger] r@[k] == all@[j];
                assert(r@[k].address.ip == ip);
            }
            assert forall|i: int| 0 <= i < r@.len() implies {
                &&& self.peer_manager.peers().contains_key((#[trigger] r@[i]).address.ip)
                &&& self.peer_manager.peers()[r@[i].address.ip] == r@[i]
                &&& !r@[i].stats.spec_is_degraded()
            } by {
                let j = choose|j: int| 0 <= j < all@.len() && #[trigger] r@[i] == all@[j];
            }
        }
        r
    }

    /// Admit a transaction into the mempool. A transaction the chain
    /// rejects is a protocol violation; a chain error passes through; a
    /// valid transaction is inserted when new — stamped with the given
    /// network time — and left untouched when already present.
    pub fn admit_tx(&mut self, tx: Transaction, now_net: u64) -> (r: Result<bool, NodeError>)
        requires
            old(self).wf(),
        ensures
            final (self).wf(),
            final (self).blockchain == old(self).blockchain,
            final (self).peer_manager == old(self).peer_manager,
            final (self).timestamp_offset == old(self).timestamp_offset,
            final (self).external == old(self).external,
            final (self).opts == old(self).opts,
            match old(self).blockchain.spec_check_tx(tx) {
                Err(e) => r == Err::<bool, NodeError>(NodeError::Blockchain(e)) && final (
                self).mempool@ == old(self).mempool@,
                Ok(valid) => {
                    if !valid {
                        r == Err::<bool, NodeError>(NodeError::ProtocolViolation) && final (
                        self).mempool@ == old(self).mempool@
                    } else if old(self).mempool@.contains_key(tx.id) {
                        r == Ok::<bool, NodeError>(false) && final (self).mempool@ == old(
                        self).mempool@
                    } else {
                        r == Ok::<bool, NodeError>(true) && final (self).mempool@ == old(
                        self).mempool@.insert(
                            tx.id,
                            (tx, TransactionStats { first_seen: now_net }),
                        )
                    }
                },
            },
    {
        match self.blockchain.check_tx(&tx) {
            Ok(true) => {
                if self.mempool.contains_key(tx.id) {
                    Ok(false)
                } else {
                    self.mempool.insert(tx.id, (tx, TransactionStats { first_seen: now_net }));
                    proof {
                        assert forall|id: u64| #[trigger] self.mempool@.contains_key(id) implies
                        self.mempool@[id].0.id == id by {
                            if id != tx.id {
                                assert(old(self).mempool@.contains_key(id));
                            }
                        }
                    }
                    Ok(true)
                }
            },
            Ok(false) => Err(NodeError::ProtocolViolation),
            Err(e) => Err(NodeError::Blockchain(e)),
        }
    }

    /// Drop every mempool entry confirmed by `included` and every entry
    /// that has aged past the retention window.
    pub fn reap_mempool(&mut self, now_net: u64, included: &Vec<u64>)
        requires
            old(self).wf(),
        ensures
            final (self).wf(),
            final (self).blockchain == old(self).blockchain,
            final (self).peer_manager == old(self).peer_manager,
            final (self).timestamp_offset == old(self).timestamp_offset,
            final (self).external == old(self).external,
            final (self).opts == old(self).opts,
            mempool_reaped(
                old(self).mempool@,
                final (self).mempool@,
                now_net,
                old(self).opts.tx_retention,
                included@,
            ),
    {
        let ghost pre = self.mempool@;
        let retention = self.opts.tx_retention;
        let mut kept: AssocMap<(Transaction, TransactionStats)> = AssocMap::new();
        let ghost kvs = self.mempool.kvs();
        let n = self.mempool.len();
        let mut i: usize = 0;
        while i < n
            invariant
                i <= n,
                n == kvs.len(),
                kvs == self.mempool.kvs(),
                self.mempool.wf(),
                retention == self.opts.tx_retention,
                kept.wf(),
                forall|id: u64|
                    #[trigger] kept@.contains_key(id) ==> exists|j: int|
                        0 <= j < i && (#[trigger] kvs[j]).0 == id && !included@.contains(kvs[j].0)
                            && !tx_expired(kvs[j].1.1.first_seen, now_net, retention),
                forall|j: int|
                    0 <= j < i && !included@.contains((#[trigger] kvs[j]).0) && !tx_expired(
                        kvs[j].1.1.first_seen,
                        now_net,
                        retention,
                    ) ==> kept@.contains_key(kvs[j].0) && kept@[kvs[j].0] == kvs[j].1,
            decreases n - i,
        {
            let e = *self.mempool.pair_at(i);
            let confirmed = contains_id(included, e.0);
            let expired = now_net >= retention && e.1.1.first_seen <= now_net - retention;
            proof {
                assert(expired == tx_expired(e.1.1.first_seen, now_net, retention));
            }
            if !confirmed && !expired {
                kept.insert(e.0, e.1);
            }
            i = i + 1;
        }
        proof {
            assert forall|id: u64| #[trigger] kept@.contains_key(id) <==> (pre.contains_key(id)
                && !included@.contains(id) && !tx_expired(
                pre[id].1.first_seen,
                now_net,
                retention,
            )) by {
                crate::assoc::lemma_view_contains(kvs, id);
                if kept@.contains_key(id) {
                    let j = choose|j: int|
                        0 <= j < n && (#[trigger] kvs[j]).0 == id && !included@.contains(kvs[j].0)
                            && !tx_expired(kvs[j].1.1.first_seen, now_net, retention);
                    crate::assoc::lemma_view_index(kvs, j);
                }
                if pre.contains_key(id) {
                    let j = choose|j: int| 0 <= j < kvs.len() && (#[trigger] kvs[j]).0 == id;
                    crate::assoc::lemma_view_index(kvs, j);
                }
            }
            assert forall|id: u64| #[trigger] kept@.contains_key(id) implies kept@[id]
                == pre[id] by {
                let j = choose|j: int|
                    0 <= j < n && (#[trigger] kvs[j]).0 == id && !included@.contains(kvs[j].0)
                        && !tx_expired(kvs[j].1.1.first_seen, now_net, retention);
                crate::assoc::lemma_view_index(kvs, j);
            }
        }
        self.mempool = kept;
        proof {
            assert forall|id: u64| #[trigger] self.mempool@.contains_key(id) implies
            self.mempool@[id].0.id == id by {
                assert(pre.contains_key(id));
            }
        }
    }

    /// Hand a block to the blockchain handle; on success, reap the
    /// mempool of the transactions it confirmed and of aged entries.
    pub fn handle_block(&mut self, b: &Block, now_net: u64) -> (r: Result<(), NodeError>)
        requires
            old(self).wf(),
        ensures
            final (self).wf(),
            final (self).peer_manager == old(self).peer_manager,
            final (self).timestamp_offset == old(self).timestamp_offset,
            final (self).external == old(self).external,
            final (self).opts == old(self).opts,
            match old(self).blockchain.spec_apply_block(*b) {
                Ok(next) => r is Ok && final (self).blockchain == next && mempool_reaped(
                    old(self).mempool@,
                    final (self).mempool@,
                    now_net,
                    old(self).opts.tx_retention,
                    b.tx_ids@,
                ),
                Err(e) => r == Err::<(), NodeError>(NodeError::Blockchain(e)) && final (
                self).blockchain == old(self).blockchain && final (self).mempool@ == old(
                self).mempool@,
            },
    {
        match self.blockchain.apply_block(b) {
            Ok(_) => {
                self.reap_mempool(now_net, &b.tx_ids);
                Ok(())
            },
            Err(e) => Err(NodeError::Blockchain(e)),
        }
    }
}

/// Whether a list of identifiers holds a given one.
pub fn contains_id(v: &Vec<u64>, x: u64) -> (r: bool)
    ensures
        r == v@.contains(x),
{
    let n = v.len();
    let mut i: usize = 0;
    while i < n
        invariant
            i <= n,
            n == v@.len(),
            forall|j: int| 0 <= j < i ==> v@[j] != x,
        decreases n - i,
    {
        if v[i] == x {
            return true;
        }
        i = i + 1;
    }
    proof {
        assert(!v@.contains(x));
    }
    false
}

} // verus!
