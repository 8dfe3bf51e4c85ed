use bazuka::clock::{median, network_time, offset_update};
use bazuka::context::{InMemoryChain, NodeContext, NodeOpts};
use bazuka::firewall::Firewall;
use bazuka::heartbeat::{handle_handshake_reply, handshake_request, sync_clock};
use bazuka::peer_manager::PeerManager;
use bazuka::rpc::{admit_request, dispatch, NodeRequestBody, NodeResponseBody};
use bazuka::sampling::select_peers;
use bazuka::types::{
    Block, BlockchainError, HandshakeRequest, HandshakeResponse, NodeError, Peer, PeerAddress,
    PeerInfo, PeerStats, Stats, Transaction, GB,
};

fn addr(ip: u64) -> PeerAddress {
    PeerAddress { ip, port: 8765 }
}

fn opts() -> NodeOpts {
    NodeOpts { num_peers: 8, punish_secs: 3600, tx_retention: 86400 }
}

fn ctx_with_height(height: u64) -> NodeContext<InMemoryChain> {
    NodeContext::new(InMemoryChain { height }, Vec::new(), 0, Some(addr(1)), opts())
}

fn peer(ip: u64) -> Peer {
    Peer {
        address: addr(ip),
        info: PeerInfo { height: 7 },
        stats: PeerStats { last_seen: 5, last_failed_seen: 0, power: 1 },
    }
}

#[test]
fn bootstrap_and_handshake() {
    let b = addr(10);
    let c = addr(11);
    let mut ctx =
        NodeContext::new(InMemoryChain { height: 0 }, vec![b], 0, Some(addr(1)), opts());

    // Bootstrap seeded the candidate table with B.
    let cands = ctx.peer_manager.get_candidates();
    assert_eq!(cands, vec![b]);

    // B answers the handshake: promote B, add C as a candidate.
    let resp = HandshakeResponse {
        timestamp: 1_700_000_000,
        info: PeerInfo { height: 42 },
        peers: vec![c],
    };
    let promoted = handle_handshake_reply(&mut ctx, 3, b, &resp);
    let peers = ctx.peer_manager.get_peers();
    assert_eq!(peers.len(), 1);
    assert_eq!(peers[0].address, b);
    assert_eq!(peers[0].info.height, 42);
    let cands = ctx.peer_manager.get_candidates();
    assert!(cands.contains(&c));
    assert!(!cands.contains(&b));

    // Clock sync against B's timestamp.
    let local: u64 = 1_000;
    sync_clock(&mut ctx, 3, local, &vec![(promoted, Ok(resp))]);
    assert_eq!(ctx.timestamp_offset, 1_700_000_000 - 1_000);
}

#[test]
fn median_clock_sync_ignores_outlier() {
    let mut ctx = ctx_with_height(0);
    let ts = [100u64, 102, 105, 110, 10_000];
    let responses: Vec<(Peer, Result<HandshakeResponse, NodeError>)> = ts
        .iter()
        .enumerate()
        .map(|(i, &t)| {
            (
                peer(20 + i as u64),
                Ok(HandshakeResponse { timestamp: t, info: PeerInfo { height: 1 }, peers: vec![] }),
            )
        })
        .collect();
    let local: u64 = 50;
    sync_clock(&mut ctx, 1, local, &responses);
    assert_eq!(ctx.timestamp_offset, 105 - 50);
}

#[test]
fn sync_clock_empty_leaves_offset() {
    let mut ctx = ctx_with_height(0);
    ctx.timestamp_offset = 33;
    sync_clock(&mut ctx, 1, 50, &Vec::new());
    assert_eq!(ctx.timestamp_offset, 33);
}

#[test]
fn sync_clock_punishes_non_responders() {
    let mut ctx = ctx_with_height(0);
    let p = peer(30);
    let mut pm_peer = p;
    pm_peer.stats.last_seen = 1;
    ctx.peer_manager.add_peer(pm_peer);
    sync_clock(&mut ctx, 10, 50, &vec![(p, Err(NodeError::Timeout))]);
    assert!(ctx.peer_manager.is_ip_punished(11, 30));
    assert!(ctx.peer_manager.get_peers().is_empty());
}

#[test]
fn punishment_on_protocol_violation() {
    let mut pm = PeerManager::new(Vec::new(), 0);
    pm.add_peer(peer(40));
    assert_eq!(pm.get_peers().len(), 1);

    // A malformed body from the peer: punish for the cool-down.
    let now: u32 = 100;
    let cool_down: u32 = 3600;
    pm.punish_ip_for(now, 40, cool_down);
    assert!(pm.get_peers().is_empty());
    assert!(pm.is_ip_punished(now, 40));
    assert!(pm.is_ip_punished(now + cool_down - 1, 40));
    assert!(!pm.is_ip_punished(now + cool_down, 40));

    // A candidate offer within the window is rejected.
    pm.add_candidate(now + 10, addr(40));
    assert!(!pm.get_candidates().contains(&addr(40)));
}

#[test]
fn candidate_ttl() {
    let mut pm = PeerManager::new(Vec::new(), 0);
    pm.add_candidate(0, addr(50));
    pm.refresh(599);
    assert!(pm.get_candidates().contains(&addr(50)));
    pm.refresh(601);
    assert!(!pm.get_candidates().contains(&addr(50)));
}

#[test]
fn refresh_is_idempotent() {
    let mut pm = PeerManager::new(vec![addr(1), addr(2)], 0);
    pm.add_candidate(500, addr(3));
    pm.punish_ip_for(100, 9, 450);
    pm.refresh(550);
    let mut cands1 = pm.get_candidates();
    let punished1 = pm.is_ip_punished(550, 9);
    pm.refresh(550);
    let mut cands2 = pm.get_candidates();
    cands1.sort_by_key(|a| a.ip);
    cands2.sort_by_key(|a| a.ip);
    assert_eq!(cands1, cands2);
    assert_eq!(pm.is_ip_punished(550, 9), punished1);
}

#[test]
fn candidate_then_peer_leaves_ip_only_in_peers() {
    let mut pm = PeerManager::new(Vec::new(), 0);
    pm.add_candidate(5, addr(60));
    assert!(pm.get_candidates().contains(&addr(60)));
    pm.add_peer(peer(60));
    assert!(!pm.get_candidates().contains(&addr(60)));
    assert_eq!(pm.get_peers().len(), 1);
    assert!(!pm.is_ip_punished(5, 60));
}

#[test]
fn mark_as_candidate_demotes_only_peers() {
    let mut pm = PeerManager::new(Vec::new(), 0);
    pm.mark_as_candidate(5, &addr(70));
    assert!(pm.get_candidates().is_empty());
    pm.add_peer(peer(70));
    pm.mark_as_candidate(6, &addr(70));
    assert!(pm.get_peers().is_empty());
    assert!(pm.get_candidates().contains(&addr(70)));
}

#[test]
fn firewall_trip_and_punishment() {
    let mut ctx = ctx_with_height(0);
    let mut fw = Firewall::new(60, 4 * GB);
    let src: u64 = 80;
    for i in 0..60u32 {
        assert!(admit_request(&mut ctx, &mut fw, i, src, 100), "request {} was rejected", i + 1);
    }
    // The 61st request inside the same 60 s window trips the firewall.
    assert!(!admit_request(&mut ctx, &mut fw, 59, src, 100));
    assert!(ctx.peer_manager.is_ip_punished(60, src));
}

#[test]
fn firewall_window_slides() {
    let mut fw = Firewall::new(2, 4 * GB);
    assert!(fw.allow(0, 1, 10));
    assert!(fw.allow(1, 1, 10));
    assert!(!fw.allow(2, 1, 10));
    // 60 s later the first two left the window.
    assert!(fw.allow(61, 1, 10));
}

#[test]
fn firewall_byte_budget() {
    let mut fw = Firewall::new(100, 1000);
    assert!(fw.allow(0, 2, 600));
    assert!(!fw.allow(1, 2, 600));
    assert!(fw.allow(2, 2, 400));
    // Other sources have their own budget.
    assert!(fw.allow(3, 3, 600));
}

#[test]
fn stats_snapshot() {
    let mut ctx = ctx_with_height(42);
    ctx.timestamp_offset = 7;
    ctx.peer_manager.add_peer(peer(90));
    let r = dispatch(&mut ctx, 1, 100, &NodeRequestBody::Stats);
    match r {
        Ok(NodeResponseBody::Stats(s)) => {
            assert_eq!(
                s,
                Stats { height: 42, peers: 1, mempool_size: 0, timestamp: 107 }
            );
        },
        other => panic!("unexpected reply: {:?}", other.is_ok()),
    }
}

#[test]
fn peers_handshake_reply() {
    let mut ctx = ctx_with_height(42);
    ctx.peer_manager.add_peer(peer(91));
    let r = dispatch(&mut ctx, 1, 100, &NodeRequestBody::Peers(HandshakeRequest::Node(addr(92))));
    match r {
        Ok(NodeResponseBody::Peers(resp)) => {
            assert_eq!(resp.info, PeerInfo { height: 42 });
            assert_eq!(resp.timestamp, 100);
            assert_eq!(resp.peers, vec![addr(91)]);
        },
        _ => panic!("expected a handshake response"),
    }
    // The sender became a candidate.
    assert!(ctx.peer_manager.get_candidates().contains(&addr(92)));
}

#[test]
fn transact_and_block_reap() {
    let mut ctx = ctx_with_height(0);
    let tx = Transaction { id: 5 };
    assert_eq!(dispatch(&mut ctx, 1, 100, &NodeRequestBody::Transact(tx)).is_ok(), true);
    // A duplicate is not admitted twice.
    match dispatch(&mut ctx, 1, 100, &NodeRequestBody::Transact(tx)) {
        Ok(NodeResponseBody::Transact(added)) => assert!(!added),
        _ => panic!("expected a transact reply"),
    }
    // A block confirming the transaction reaps it.
    let b = Block { height: 1, tx_ids: vec![5] };
    match dispatch(&mut ctx, 2, 100, &NodeRequestBody::Block(b)) {
        Ok(NodeResponseBody::Block) => {},
        _ => panic!("expected a block reply"),
    }
    match dispatch(&mut ctx, 3, 100, &NodeRequestBody::Stats) {
        Ok(NodeResponseBody::Stats(s)) => {
            assert_eq!(s.height, 1);
            assert_eq!(s.mempool_size, 0);
        },
        _ => panic!("expected stats"),
    }
}

#[test]
fn block_at_wrong_height_is_rejected() {
    let mut ctx = ctx_with_height(0);
    let b = Block { height: 5, tx_ids: vec![] };
    match dispatch(&mut ctx, 1, 100, &NodeRequestBody::Block(b)) {
        Err(NodeError::Blockchain(BlockchainError::InvalidBlock)) => {},
        _ => panic!("expected an invalid-block error"),
    }
}

#[test]
fn median_takes_lower_middle() {
    assert_eq!(median(&vec![1, 2, 3, 4]), 2);
    assert_eq!(median(&vec![4, 3, 2, 1]), 2);
    assert_eq!(median(&vec![9]), 9);
    assert_eq!(median(&vec![5, 5, 1]), 5);
}

#[test]
fn network_time_clamps() {
    assert_eq!(network_time(100, 7), 107);
    assert_eq!(network_time(100, -100), 0);
    assert_eq!(network_time(100, -101), 0);
    assert_eq!(network_time(u64::MAX, 1), u64::MAX);
}

#[test]
fn offset_update_values() {
    assert_eq!(offset_update(9, &Vec::new(), 50), 9);
    assert_eq!(offset_update(9, &vec![100, 200, 300], 50), 150);
    assert_eq!(offset_update(9, &vec![10], 50), -40);
}

#[test]
fn network_timestamp_is_monotonic_in_local_clock() {
    let mut ctx = ctx_with_height(0);
    ctx.timestamp_offset = -30;
    let mut last = 0u64;
    for local in [0u64, 10, 29, 30, 31, 100] {
        let t = ctx.network_timestamp_at(local);
        assert!(t >= last);
        last = t;
    }
}

#[test]
fn active_peers_excludes_degraded() {
    let mut ctx = ctx_with_height(0);
    let good = peer(95);
    let mut bad = peer(96);
    bad.stats.last_failed_seen = 9;
    ctx.peer_manager.add_peer(good);
    ctx.peer_manager.add_peer(bad);
    let active = ctx.active_peers();
    assert_eq!(active.len(), 1);
    assert_eq!(active[0].address, addr(95));
}

#[test]
fn handshake_request_follows_external() {
    let ctx = ctx_with_height(0);
    assert_eq!(handshake_request(&ctx), HandshakeRequest::Node(addr(1)));
    let client = NodeContext::new(InMemoryChain { height: 0 }, Vec::new(), 0, None, opts());
    assert_eq!(handshake_request(&client), HandshakeRequest::Client);
}

#[test]
fn bootstrap_last_entry_wins_per_ip() {
    let pm = PeerManager::new(vec![addr(7), PeerAddress { ip: 7, port: 9999 }], 3);
    let cands = pm.get_candidates();
    assert_eq!(cands, vec![PeerAddress { ip: 7, port: 9999 }]);
}

#[test]
fn select_peers_ranks_by_power_recency_ip() {
    let mk = |ip: u64, power: u64, last_seen: u32| Peer {
        address: addr(ip),
        info: PeerInfo { height: 0 },
        stats: PeerStats { last_seen, last_failed_seen: 0, power },
    };
    let peers = vec![mk(4, 1, 50), mk(2, 9, 10), mk(3, 9, 40), mk(1, 1, 50)];
    let top = select_peers(&peers, 3);
    let ips: Vec<u64> = top.iter().map(|p| p.address.ip).collect();
    // Highest power first, then recency, then the smaller IP.
    assert_eq!(ips, vec![3, 2, 1]);
    let all = select_peers(&peers, 10);
    assert_eq!(all.len(), 4);
    assert_eq!(select_peers(&peers, 0).len(), 0);
}

/// A chain that rejects every transaction and block, for the error paths.
struct RejectingChain;

impl bazuka::context::Blockchain for RejectingChain {
    fn spec_height(&self) -> Result<u64, BlockchainError> {
        Err(BlockchainError::Internal)
    }

    fn spec_check_tx(&self, _tx: Transaction) -> Result<bool, BlockchainError> {
        Ok(false)
    }

    fn spec_apply_block(&self, _b: Block) -> Result<Self, BlockchainError> {
        Err(BlockchainError::InvalidBlock)
    }

    fn get_height(&self) -> Result<u64, BlockchainError> {
        Err(BlockchainError::Internal)
    }

    fn check_tx(&self, _tx: &Transaction) -> Result<bool, BlockchainError> {
        Ok(false)
    }

    fn apply_block(&mut self, _b: &Block) -> Result<(), BlockchainError> {
        Err(BlockchainError::InvalidBlock)
    }
}

#[test]
fn rejected_transaction_is_a_protocol_violation() {
    let mut ctx = NodeContext::new(RejectingChain, Vec::new(), 0, None, opts());
    match dispatch(&mut ctx, 1, 100, &NodeRequestBody::Transact(Transaction { id: 1 })) {
        Err(NodeError::ProtocolViolation) => {},
        _ => panic!("expected a protocol violation"),
    }
    match dispatch(&mut ctx, 1, 100, &NodeRequestBody::Stats) {
        Err(NodeError::Blockchain(BlockchainError::Internal)) => {},
        _ => panic!("expected the chain's error"),
    }
}

#[test]
fn mempool_ages_out() {
    let mut ctx = ctx_with_height(0);
    assert!(ctx.admit_tx(Transaction { id: 8 }, 100).unwrap());
    let retention = ctx.opts.tx_retention;
    ctx.reap_mempool(99 + retention, &Vec::new());
    match dispatch(&mut ctx, 1, 0, &NodeRequestBody::Stats) {
        Ok(NodeResponseBody::Stats(s)) => assert_eq!(s.mempool_size, 1),
        _ => panic!("expected stats"),
    }
    ctx.reap_mempool(100 + retention, &Vec::new());
    match dispatch(&mut ctx, 1, 0, &NodeRequestBody::Stats) {
        Ok(NodeResponseBody::Stats(s)) => assert_eq!(s.mempool_size, 0),
        _ => panic!("expected stats"),
    }
}

#[test]
fn expired_punishment_allows_candidacy_again() {
    let mut pm = PeerManager::new(Vec::new(), 0);
    pm.punish_ip_for(0, 5, 100);
    pm.refresh(101);
    assert!(!pm.is_ip_punished(101, 5));
    pm.add_candidate(101, addr(5));
    assert!(pm.get_candidates().contains(&addr(5)));
}
