//! Decision logic of the heartbeat tasks. The surrounding process
//! performs the network fan-out and hands the collected replies in; the
//! functions here punish non-responders, fold the timestamps into the
//! clock offset, and fold a handshake reply into the peer tables.

use crate::clock::spec_offset_update;
use crate::clock::offset_update;
use crate::context::{Blockchain, NodeContext};
use crate::types::{HandshakeRequest, HandshakeResponse, NodeError, Peer, PeerAddress, PeerStats};
use vstd::prelude::*;

verus! {

/// The timestamps of the successful replies, in reply order.
pub open spec fn collected_timestamps(
    rs: Seq<(Peer, Result<HandshakeResponse, NodeError>)>,
) -> Seq<u64>
    decreases rs.len(),
{
    if rs.len() == 0 {
        Seq::empty()
    } else {
        let rest = collected_timestamps(rs.drop_last());
        match rs.last().1 {
            Ok(resp) => rest.push(resp.timestamp),
            Err(_) => rest,
        }
    }
}

/// Whether some reply in the batch is a failure from this IP.
pub open spec fn non_responder_ip(
    rs: Seq<(Peer, Result<HandshakeResponse, NodeError>)>,
    ip: u64,
) -> bool {
    exists|i: int|
        0 <= i < rs.len() && (#[trigger] rs[i]).1 is Err && rs[i].0.address.ip == ip
}

/// The two peer managers agree at `ip`: same membership and same record
/// in each of the three tables.
pub open spec fn pm_same_at(a: crate::peer_manager::PeerManager, b: crate::peer_manager::PeerManager, ip: u64) -> bool {
    &&& b.punishments().contains_key(ip) == a.punishments().contains_key(ip)
    &&& (b.punishments().contains_key(ip) ==> b.punishments()[ip] == a.punishments()[ip])
    &&& b.peers().contains_key(ip) == a.peers().contains_key(ip)
    &&& (b.peers().contains_key(ip) ==> b.peers()[ip] == a.peers()[ip])
    &&& b.candidates().contains_key(ip) == a.candidates().contains_key(ip)
    &&& (b.candidates().contains_key(ip) ==> b.candidates()[ip] == a.candidates()[ip])
}

/// The peer manager holds `ip` banned until `till` and in no other table.
pub open spec fn punished_until_at(pm: crate::peer_manager::PeerManager, ip: u64, till: int) -> bool {
    &&& pm.punishments().contains_key(ip)
    &&& pm.punishments()[ip].punished_till == till
    &&& !pm.peers().contains_key(ip)
    &&& !pm.candidates().contains_key(ip)
}

/// The handshake this node sends out: a full node announces its external
/// endpoint, a client-only node announces nothing.
pub fn handshake_request<B: Blockchain>(ctx: &NodeContext<B>) -> (r: HandshakeRequest)
    ensures
        match ctx.external {
            Some(addr) => r == HandshakeRequest::Node(addr),
            None => r == HandshakeRequest::Client,
        },
{
    match &ctx.external {
        Some(addr) => HandshakeRequest::Node(*addr),
        None => HandshakeRequest::Client,
    }
}

/// Fold one round of handshake replies into the context: every peer that
/// failed to reply is punished for the configured cool-down, and the
/// clock offset becomes the median of the collected timestamps minus the
/// local reading (unchanged when nothing was collected).
#[verifier::rlimit(50)]
pub fn sync_clock<B: Blockchain>(
    ctx: &mut NodeContext<B>,
    now: u32,
    local: u64,
    responses: &Vec<(Peer, Result<HandshakeResponse, NodeError>)>,
)
    requires
        old(ctx).wf(),
        now + old(ctx).opts.punish_secs <= u32::MAX,
    ensures
        final (ctx).wf(),
        final (ctx).timestamp_offset == spec_offset_update(
            old(ctx).timestamp_offset,
            collected_timestamps(responses@),
            local,
        ),
        final (ctx).blockchain == old(ctx).blockchain,
        final (ctx).mempool@ == old(ctx).mempool@,
        final (ctx).external == old(ctx).external,
        final (ctx).opts == old(ctx).opts,
        forall|ip: u64|
            #[trigger] non_responder_ip(responses@, ip) ==> punished_until_at(
                final (ctx).peer_manager,
                ip,
                now + old(ctx).opts.punish_secs,
            ),
        forall|ip: u64|
            !(#[trigger] non_responder_ip(responses@, ip)) ==> pm_same_at(
                old(ctx).peer_manager,
                final (ctx).peer_manager,
                ip,
            ),
{
    let ghost ctx0 = *ctx;
    let punish_secs = ctx.opts.punish_secs;
    let n = responses.len();
    let mut timestamps: Vec<u64> = Vec::new();
    let mut i: usize = 0;
    proof {
        assert(responses@.take(0) =~= Seq::<(Peer, Result<HandshakeResponse, NodeError>)>::empty());
    }
    while i < n
        invariant
            i <= n,
            n == responses@.len(),
            ctx.wf(),
            now + punish_secs <= u32::MAX,
            punish_secs == ctx0.opts.punish_secs,
            ctx.blockchain == ctx0.blockchain,
            ctx.mempool@ == ctx0.mempool@,
            ctx.external == ctx0.external,
            ctx.opts == ctx0.opts,
            ctx.timestamp_offset == ctx0.timestamp_offset,
            ctx0 == *old(ctx),
            timestamps@ == collected_timestamps(responses@.take(i as int)),
            forall|ip: u64|
                #[trigger] non_responder_ip(responses@.take(i as int), ip) ==> punished_until_at(
                    ctx.peer_manager,
                    ip,
                    now + punish_secs,
                ),
            forall|ip: u64|
                !(#[trigger] non_responder_ip(responses@.take(i as int), ip)) ==> pm_same_at(
                    ctx0.peer_manager,
                    ctx.peer_manager,
                    ip,
                ),
        decreases n - i,
    {
        let ghost pre_take = responses@.take(i as int);
        let ghost cur_take = responses@.take(i as int + 1);
        proof {
            assert(cur_take.drop_last() =~= pre_take);
            assert(cur_take.last() == responses@[i as int]);
            assert forall|ip: u64| non_responder_ip(cur_take, ip) implies (non_responder_ip(
                pre_take,
                ip,
            ) || ((#[trigger] responses@[i as int]).1 is Err && responses@[i as int].0.address.ip
                == ip)) by {
                let j = choose|j: int|
                    0 <= j < cur_take.len() && (#[trigger] cur_take[j]).1 is Err
                        && cur_take[j].0.address.ip == ip;
                if j < i {
                    assert(pre_take[j] == cur_take[j]);
                }
            }
            assert forall|ip: u64| non_responder_ip(pre_take, ip) implies non_responder_ip(
                cur_take,
                ip,
            ) by {
                let j = choose|j: int|
                    0 <= j < pre_take.len() && (#[trigger] pre_take[j]).1 is Err
                        && pre_take[j].0.address.ip == ip;
                assert(cur_take[j] == pre_take[j]);
            }
        }
        let ghost pm_prev = ctx.peer_manager;
        match &responses[i].1 {
            Ok(resp) => {
                timestamps.push(resp.timestamp);
            },
            Err(_) => {
                let ip = responses[i].0.address.ip;
                ctx.peer_manager.punish_ip_for(now, ip, punish_secs);
                proof {
                    assert(responses@[i as int].1 is Err);
                    assert(non_responder_ip(cur_take, ip));
                }
            },
        }
        proof {
            assert forall|ip: u64| !(#[trigger] non_responder_ip(cur_take, ip)) implies pm_same_at(
                ctx0.peer_manager,
                ctx.peer_manager,
                ip,
            ) by {
                assert(!non_responder_ip(pre_take, ip));
                assert(pm_same_at(ctx0.peer_manager, pm_prev, ip));
                if responses@[i as int].1 is Err {
                    let ip0 = responses@[i as int].0.address.ip;
                    assert(non_responder_ip(cur_take, ip0));
                    assert(ip != ip0);
                }
            }
            assert forall|ip: u64| #[trigger] non_responder_ip(cur_take, ip) implies
            punished_until_at(ctx.peer_manager, ip, now + punish_secs) by {
                if responses@[i as int].1 is Err {
                    let ip0 = responses@[i as int].0.address.ip;
                    if ip != ip0 {
                        assert(non_responder_ip(pre_take, ip));
                        assert(punished_until_at(pm_prev, ip, now + punish_secs));
                    }
                } else {
                    assert(non_responder_ip(pre_take, ip));
                    assert(punished_until_at(pm_prev, ip, now + punish_secs));
                }
            }
        }
        i = i + 1;
    }
    proof {
        assert(responses@.take(n as int) =~= responses@);
    }
    let new_offset = offset_update(ctx.timestamp_offset, &timestamps, local);
    ctx.timestamp_offset = new_offset;
}

/// Fold a successful handshake reply from `addr` into the context:
/// promote `addr` to a peer carrying the advertised info, and offer every
/// endpoint of the reply's peer list as a candidate. An endpoint that is
/// neither a peer afterwards nor banned at `now` ends up in the
/// candidate table.
pub fn handle_handshake_reply<B: Blockchain>(
    ctx: &mut NodeContext<B>,
    now: u32,
    addr: PeerAddress,
    resp: &HandshakeResponse,
) -> (promoted: Peer)
    requires
        old(ctx).wf(),
    ensures
        final (ctx).wf(),
        promoted == (Peer {
            address: addr,
            info: resp.info,
            stats: PeerStats { last_seen: now, last_failed_seen: 0, power: resp.info.height },
        }),
        final (ctx).peer_manager.peers() == old(ctx).peer_manager.peers().insert(
            addr.ip,
            promoted,
        ),
        !final (ctx).peer_manager.punishments().contains_key(addr.ip),
        forall|i: int|
            0 <= i < resp.peers@.len() ==> {
                let a = #[trigger] resp.peers@[i];
                (!final (ctx).peer_manager.peers().contains_key(a.ip) && !old(
                ctx).peer_manager.spec_is_punished(now, a.ip)) ==> final (
                ctx).peer_manager.candidates().contains_key(a.ip)
            },
        final (ctx).blockchain == old(ctx).blockchain,
        final (ctx).mempool@ == old(ctx).mempool@,
        final (ctx).timestamp_offset == old(ctx).timestamp_offset,
        final (ctx).external == old(ctx).external,
        final (ctx).opts == old(ctx).opts,
{
    let peer = Peer {
        address: addr,
        info: resp.info,
        stats: PeerStats { last_seen: now, last_failed_seen: 0, power: resp.info.height },
    };
    ctx.peer_manager.add_peer(peer);
    let ghost peers_fixed = ctx.peer_manager.peers();
    let n = resp.peers.len();
    let mut i: usize = 0;
    while i < n
        invariant
            i <= n,
            n == resp.peers@.len(),
            ctx.wf(),
            ctx.peer_manager.peers() == peers_fixed,
            !ctx.peer_manager.punishments().contains_key(addr.ip),
            forall|ip: u64|
                #[trigger] ctx.peer_manager.spec_is_punished(now, ip) ==> old(
                    ctx,
                ).peer_manager.spec_is_punished(now, ip),
            forall|j: int|
                0 <= j < i ==> {
                    let a = #[trigger] resp.peers@[j];
                    (!ctx.peer_manager.peers().contains_key(a.ip) && !old(
                    ctx).peer_manager.spec_is_punished(now, a.ip))
                        ==> ctx.peer_manager.candidates().contains_key(a.ip)
                },
            ctx.blockchain == old(ctx).blockchain,
            ctx.mempool@ == old(ctx).mempool@,
            ctx.timestamp_offset == old(ctx).timestamp_offset,
            ctx.external == old(ctx).external,
            ctx.opts == old(ctx).opts,
        decreases n - i,
    {
        let a = resp.peers[i];
        let ghost pm_prev = ctx.peer_manager;
        ctx.peer_manager.add_candidate(now, a);
        proof {
            assert forall|ip: u64| #[trigger] ctx.peer_manager.spec_is_punished(now, ip) implies
            old(ctx).peer_manager.spec_is_punished(now, ip) by {
                assert(pm_prev.spec_is_punished(now, ip));
            }
            assert forall|j: int| 0 <= j < i + 1 implies {
                let b = #[trigger] resp.peers@[j];
                (!ctx.peer_manager.peers().contains_key(b.ip) && !old(
                ctx).peer_manager.spec_is_punished(now, b.ip))
                    ==> ctx.peer_manager.candidates().contains_key(b.ip)
            } by {
                let b = resp.peers@[j];
                if !ctx.peer_manager.peers().contains_key(b.ip) && !old(
                ctx).peer_manager.spec_is_punished(now, b.ip) {
                    if j < i {
                        assert(pm_prev.candidates().contains_key(b.ip));
                    } else {
                        assert(b == a);
                        assert(!pm_prev.peers().contains_key(a.ip));
                        assert(!pm_prev.spec_is_punished(now, a.ip));
                    }
                }
            }
        }
        i = i + 1;
    }
    peer
}

} // verus!
