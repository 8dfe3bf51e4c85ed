//! The RPC surface: firewall admission for inbound requests and the
//! dispatcher that routes a decoded request to its handler. The
//! dispatcher is a total function — every request that reaches it yields
//! exactly one reply value, success or error.

use crate::clock::spec_network_time;
use crate::context::{mempool_reaped, Blockchain, NodeContext};
use crate::firewall::{admits, byte_window_pred, Firewall};
use crate::peer_manager::add_candidate_rel;
use crate::types::{
    Block, HandshakeRequest, HandshakeResponse, NodeError, PeerInfo, Stats, Transaction,
};
use vstd::prelude::*;

verus! {

/// An inbound request body, already decoded from the wire.
pub enum NodeRequestBody {
    /// A handshake, answered with our clock, info and peer sample.
    Peers(HandshakeRequest),
    /// A read-only snapshot.
    Stats,
    /// A signed transaction for the mempool.
    Transact(Transaction),
    /// A block for the chain.
    Block(Block),
}

/// The reply a handler produces.
pub enum NodeResponseBody {
    Peers(HandshakeResponse),
    Stats(Stats),
    /// Whether the transaction was newly admitted (`false`: already
    /// known).
    Transact(bool),
    Block,
}

/// Firewall admission for one inbound request, consulted before the
/// request is enqueued. A request that trips the firewall is rejected
/// and its source IP is punished for the configured cool-down.
pub fn admit_request<B: Blockchain>(
    ctx: &mut NodeContext<B>,
    fw: &mut Firewall,
    now: u32,
    src_ip: u64,
    size: u64,
) -> (r: bool)
    requires
        old(ctx).wf(),
        old(fw).wf(),
        now + old(ctx).opts.punish_secs <= u32::MAX,
    ensures
        final (ctx).wf(),
        final (fw).wf(),
        r == admits(old(fw).log_of(src_ip), old(fw).rate_cap(), old(fw).byte_budget(), now, size),
        final (fw).rate_cap() == old(fw).rate_cap(),
        final (fw).byte_budget() == old(fw).byte_budget(),
        final (fw).log_of(src_ip) == if r {
            old(fw).log_of(src_ip).filter(byte_window_pred(now)).push((now, size))
        } else {
            old(fw).log_of(src_ip).filter(byte_window_pred(now))
        },
        forall|s: u64| s != src_ip ==> final (fw).log_of(s) == old(fw).log_of(s),
        r ==> *final (ctx) == *old(ctx),
        !r ==> {
            &&& final (ctx).peer_manager.punishments() == old(
                ctx,
            ).peer_manager.punishments().insert(
                src_ip,
                crate::peer_manager::PunishmentDetails {
                    punished_till: (now + old(ctx).opts.punish_secs) as u32,
                },
            )
            &&& final (ctx).peer_manager.candidates() == old(
                ctx,
            ).peer_manager.candidates().remove(src_ip)
            &&& final (ctx).peer_manager.peers() == old(ctx).peer_manager.peers().remove(src_ip)
            &&& final (ctx).blockchain == old(ctx).blockchain
            &&& final (ctx).mempool@ == old(ctx).mempool@
            &&& final (ctx).timestamp_offset == old(ctx).timestamp_offset
            &&& final (ctx).external == old(ctx).external
            &&& final (ctx).opts == old(ctx).opts
        },
{
    let punish_secs = ctx.opts.punish_secs;
    let ok = fw.allow(now, src_ip, size);
    if !ok {
        ctx.peer_manager.punish_ip_for(now, src_ip, punish_secs);
    }
    ok
}

/// `addrs` is exactly the set of addresses of the peers of `pm` that
/// are not transiently degraded.
pub open spec fn active_addresses_of(
    pm: crate::peer_manager::PeerManager,
    addrs: Seq<crate::types::PeerAddress>,
) -> bool {
    &&& forall|k: int|
        0 <= k < addrs.len() ==> {
            let ad = #[trigger] addrs[k];
            &&& pm.peers().contains_key(ad.ip)
            &&& pm.peers()[ad.ip].address == ad
            &&& !pm.peers()[ad.ip].stats.spec_is_degraded()
        }
    &&& forall|ip: u64|
        #[trigger] pm.peers().contains_key(ip) && !pm.peers()[ip].stats.spec_is_degraded()
            ==> exists|k: int| 0 <= k < addrs.len() && (#[trigger] addrs[k]).ip == ip
}

/// The `/peers` handler: on a `Node` handshake offer the sender as a
/// candidate; always answer with our network time, our info and the
/// addresses of our active peers.
#[verifier::rlimit(100)]
#[verifier::spinoff_prover]
fn handle_peers<B: Blockchain>(
    ctx: &mut NodeContext<B>,
    now: u32,
    local: u64,
    hs: &HandshakeRequest,
) -> (r: Result<HandshakeResponse, NodeError>)
    requires
        old(ctx).wf(),
    ensures
        final (ctx).wf(),
        final (ctx).external == old(ctx).external,
        final (ctx).opts == old(ctx).opts,
        final (ctx).timestamp_offset == old(ctx).timestamp_offset,
        final (ctx).blockchain == old(ctx).blockchain,
        final (ctx).mempool@ == old(ctx).mempool@,
        match *hs {
            HandshakeRequest::Node(a) => add_candidate_rel(
                old(ctx).peer_manager,
                final (ctx).peer_manager,
                now,
                a,
            ),
            HandshakeRequest::Client => final (ctx).peer_manager == old(ctx).peer_manager,
        },
        match old(ctx).blockchain.spec_height() {
            Ok(h) => r matches Ok(resp) && {
                &&& resp.timestamp == spec_network_time(local, old(ctx).timestamp_offset)
                &&& resp.info == (PeerInfo { height: h })
                &&& active_addresses_of(old(ctx).peer_manager, resp.peers@)
            },
            Err(e) => r == Err::<HandshakeResponse, NodeError>(NodeError::Blockchain(e)),
        },
{
    match hs {
        HandshakeRequest::Node(a) => {
            ctx.peer_manager.add_candidate(now, *a);
        },
        HandshakeRequest::Client => {},
    }
    let info = match ctx.get_info() {
        Ok(info) => info,
        Err(e) => {
            return Err(NodeError::Blockchain(e));
        },
    };
    let timestamp = ctx.network_timestamp_at(local);
    let active = ctx.active_peers();
    let mut peers: Vec<crate::types::PeerAddress> = Vec::new();
    let n = active.len();
    let mut i: usize = 0;
    let ghost ctx_mid = *ctx;
    while i < n
        invariant
            *ctx == ctx_mid,
            i <= n,
            n == active@.len(),
            peers@.len() == i,
            forall|k: int| 0 <= k < i ==> #[trigger] peers@[k] == active@[k].address,
        decreases n - i,
    {
        peers.push(active[i].address);
        i = i + 1;
    }
    let resp = HandshakeResponse { timestamp, info, peers };
    proof {
        assert(ctx.peer_manager.peers() == old(ctx).peer_manager.peers());
        assert forall|ip: u64|
            #[trigger] old(ctx).peer_manager.peers().contains_key(ip) && !old(
                ctx,
            ).peer_manager.peers()[ip].stats.spec_is_degraded() implies exists|k: int|
            0 <= k < resp.peers@.len() && (#[trigger] resp.peers@[k]).ip == ip by {
            assert(ctx.peer_manager.peers().contains_key(ip));
            let k = choose|k: int|
                0 <= k < active@.len() && (#[trigger] active@[k]).address.ip == ip;
            assert(resp.peers@[k] == active@[k].address);
            assert(resp.peers@[k].ip == ip);
        }
        assert(active_addresses_of(old(ctx).peer_manager, resp.peers@));
    }
    Ok(resp)
}

/// Route one decoded request to its handler. `now` is the wall clock in
/// seconds, `local` the local clock reading used to answer with network
/// time. Exactly one reply value comes back for every request.
pub fn dispatch<B: Blockchain>(
    ctx: &mut NodeContext<B>,
    now: u32,
    local: u64,
    req: &NodeRequestBody,
) -> (r: Result<NodeResponseBody, NodeError>)
    requires
        old(ctx).wf(),
    ensures
        final (ctx).wf(),
        final (ctx).external == old(ctx).external,
        final (ctx).opts == old(ctx).opts,
        final (ctx).timestamp_offset == old(ctx).timestamp_offset,
        match *req {
            NodeRequestBody::Peers(hs) => {
                &&& match hs {
                    HandshakeRequest::Node(a) => add_candidate_rel(
                        old(ctx).peer_manager,
                        final (ctx).peer_manager,
                        now,
                        a,
                    ),
                    HandshakeRequest::Client => final (ctx).peer_manager == old(ctx).peer_manager,
                }
                &&& final (ctx).blockchain == old(ctx).blockchain
                &&& final (ctx).mempool@ == old(ctx).mempool@
                &&& match old(ctx).blockchain.spec_height() {
                    Ok(h) => r matches Ok(NodeResponseBody::Peers(resp)) && {
                        &&& resp.timestamp == spec_network_time(local, old(ctx).timestamp_offset)
                        &&& resp.info == (PeerInfo { height: h })
                        &&& active_addresses_of(old(ctx).peer_manager, resp.peers@)
                    },
                    Err(e) => r == Err::<NodeResponseBody, NodeError>(NodeError::Blockchain(e)),
                }
            },
            NodeRequestBody::Stats => {
                &&& final (ctx).blockchain == old(ctx).blockchain
                &&& final (ctx).mempool@ == old(ctx).mempool@
                &&& final (ctx).peer_manager == old(ctx).peer_manager
                &&& match old(ctx).blockchain.spec_height() {
                    Ok(h) => r == Ok::<NodeResponseBody, NodeError>(
                        NodeResponseBody::Stats(
                            Stats {
                                height: h,
                                peers: old(ctx).peer_manager.peers().dom().len() as u64,
                                mempool_size: old(ctx).mempool@.dom().len() as u64,
                                timestamp: spec_network_time(local, old(ctx).timestamp_offset),
                            },
                        ),
                    ),
                    Err(e) => r == Err::<NodeResponseBody, NodeError>(NodeError::Blockchain(e)),
                }
            },
            NodeRequestBody::Transact(tx) => {
                &&& final (ctx).blockchain == old(ctx).blockchain
                &&& final (ctx).peer_manager == old(ctx).peer_manager
                &&& match old(ctx).blockchain.spec_check_tx(tx) {
                    Err(e) => r == Err::<NodeResponseBody, NodeError>(NodeError::Blockchain(e))
                        && final (ctx).mempool@ == old(ctx).mempool@,
                    Ok(valid) => {
                        if !valid {
                            r == Err::<NodeResponseBody, NodeError>(NodeError::ProtocolViolation)
                                && final (ctx).mempool@ == old(ctx).mempool@
                        } else if old(ctx).mempool@.contains_key(tx.id) {
                            r == Ok::<NodeResponseBody, NodeError>(NodeResponseBody::Transact(false))
                                && final (ctx).mempool@ == old(ctx).mempool@
                        } else {
                            r == Ok::<NodeResponseBody, NodeError>(NodeResponseBody::Transact(true))
                                && final (ctx).mempool@ == old(ctx).mempool@.insert(
                                tx.id,
                                (
                                    tx,
                                    crate::types::TransactionStats {
                                        first_seen: spec_network_time(
                                            local,
                                            old(ctx).timestamp_offset,
                                        ),
                                    },
                                ),
                            )
                        }
                    },
                }
            },
            NodeRequestBody::Block(ref b) => {
                &&& final (ctx).peer_manager == old(ctx).peer_manager
                &&& match old(ctx).blockchain.spec_apply_block(*b) {
                    Ok(next) => r == Ok::<NodeResponseBody, NodeError>(NodeResponseBody::Block)
                        && final (ctx).blockchain == next && mempool_reaped(
                        old(ctx).mempool@,
                        final (ctx).mempool@,
                        spec_network_time(local, old(ctx).timestamp_offset),
                        old(ctx).opts.tx_retention,
                        b.tx_ids@,
                    ),
                    Err(e) => r == Err::<NodeResponseBody, NodeError>(NodeError::Blockchain(e))
                        && final (ctx).blockchain == old(ctx).blockchain && final (ctx).mempool@
                        == old(ctx).mempool@,
                }
            },
        },
{
    match req {
        NodeRequestBody::Peers(hs) => {
            match handle_peers(ctx, now, local, hs) {
                Ok(resp) => Ok(NodeResponseBody::Peers(resp)),
                Err(e) => Err(e),
            }
        },
        NodeRequestBody::Stats => {
            let height = match ctx.get_info() {
                Ok(info) => info.height,
                Err(e) => {
                    return Err(NodeError::Blockchain(e));
                },
            };
            let peer_vec = ctx.peer_manager.get_peers();
            let mempool_size = ctx.mempool.len();
            let timestamp = ctx.network_timestamp_at(local);
            Ok(
                NodeResponseBody::Stats(
                    Stats {
                        height,
                        peers: peer_vec.len() as u64,
                        mempool_size: mempool_size as u64,
                        timestamp,
                    },
                ),
            )
        },
        NodeRequestBody::Transact(tx) => {
            let now_net = ctx.network_timestamp_at(local);
            match ctx.admit_tx(*tx, now_net) {
                Ok(added) => Ok(NodeResponseBody::Transact(added)),
                Err(e) => Err(e),
            }
        },
        NodeRequestBody::Block(b) => {
            let now_net = ctx.network_timestamp_at(local);
            match ctx.handle_block(b, now_net) {
                Ok(_) => Ok(NodeResponseBody::Block),
                Err(e) => Err(e),
            }
        },
    }
}

} // verus!
