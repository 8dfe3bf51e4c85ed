//! The peer manager: the per-IP state machine over candidates, peers and
//! punishments. Its central invariant is that the three tables are
//! pairwise IP-disjoint after every operation.

use crate::assoc::{lemma_view_contains, lemma_view_dom_len, lemma_view_index, AssocMap};
use crate::types::{Peer, PeerAddress};
use crate::CANDIDATE_TTL;
use vstd::prelude::*;

verus! {

/// A known address we have not yet completed a handshake with, and when
/// it entered the candidate table.
#[derive(Clone, Copy, PartialEq, Eq, Structural, Debug)]
pub struct CandidateDetails {
    pub address: PeerAddress,
    pub candidated_since: u32,
}

/// A time-bounded ban: the IP may not be a candidate or a peer while the
/// wall clock is before `punished_till`.
#[derive(Clone, Copy, PartialEq, Eq, Structural, Debug)]
pub struct PunishmentDetails {
    pub punished_till: u32,
}

/// Candidate, peer and punishment tables, all keyed by IP.
pub struct PeerManager {
    candidates: AssocMap<CandidateDetails>,
    punishments: AssocMap<PunishmentDetails>,
    peers: AssocMap<Peer>,
}

/// Whether a candidate installed at `since` is still fresh at `now`.
/// A clock that moved backwards (`now < since`) counts as age zero.
pub open spec fn candidate_live(now: u32, since: u32) -> bool {
    (now as int) < (since as int) + (CANDIDATE_TTL as int)
}

/// Whether a punishment record is still worth keeping at `now`: records
/// are dropped only once the clock has passed their end.
pub open spec fn punishment_live(now: u32, till: u32) -> bool {
    now <= till
}

/// The candidate table seeded from a bootstrap list: one entry per IP,
/// a later bootstrap entry for the same IP superseding an earlier one.
pub open spec fn seeded(bootstrap: Seq<PeerAddress>, now: u32) -> Map<u64, CandidateDetails>
    decreases bootstrap.len(),
{
    if bootstrap.len() == 0 {
        Map::empty()
    } else {
        seeded(bootstrap.drop_last(), now).insert(
            bootstrap.last().ip,
            CandidateDetails { address: bootstrap.last(), candidated_since: now },
        )
    }
}

/// How one `refresh(now)` relates the state before to the state after:
/// peers are untouched, expired punishments and stale candidates are
/// dropped, and every surviving record is unchanged.
pub open spec fn refresh_rel(pre: PeerManager, post: PeerManager, now: u32) -> bool {
    &&& post.peers() == pre.peers()
    &&& forall|ip: u64|
        #[trigger] post.punishments().contains_key(ip) <==> pre.punishments().contains_key(ip)
            && punishment_live(now, pre.punishments()[ip].punished_till)
    &&& forall|ip: u64|
        #[trigger] post.punishments().contains_key(ip) ==> post.punishments()[ip]
            == pre.punishments()[ip]
    &&& forall|ip: u64|
        #[trigger] post.candidates().contains_key(ip) <==> pre.candidates().contains_key(ip)
            && candidate_live(now, pre.candidates()[ip].candidated_since)
    &&& forall|ip: u64|
        #[trigger] post.candidates().contains_key(ip) ==> post.candidates()[ip]
            == pre.candidates()[ip]
}

/// How one `add_candidate(now, addr)` relates the state before to the
/// state after: the IP of a current peer or of an IP banned at `now` is
/// left alone; otherwise the candidate is installed and a leftover
/// (expired) ban record for the IP is cleared.
pub open spec fn add_candidate_rel(
    pre: PeerManager,
    post: PeerManager,
    now: u32,
    addr: PeerAddress,
) -> bool {
    if pre.peers().contains_key(addr.ip) || pre.spec_is_punished(now, addr.ip) {
        &&& post.peers() == pre.peers()
        &&& post.candidates() == pre.candidates()
        &&& post.punishments() == pre.punishments()
    } else {
        &&& post.peers() == pre.peers()
        &&& post.candidates() == pre.candidates().insert(
            addr.ip,
            CandidateDetails { address: addr, candidated_since: now },
        )
        &&& post.punishments() == pre.punishments().remove(addr.ip)
    }
}

impl PeerManager {
    /// The candidate table, keyed by IP.
    pub closed spec fn candidates(&self) -> Map<u64, CandidateDetails> {
        self.candidates@
    }

    /// The punishment table, keyed by IP.
    pub closed spec fn punishments(&self) -> Map<u64, PunishmentDetails> {
        self.punishments@
    }

    /// The peer table, keyed by IP.
    pub closed spec fn peers(&self) -> Map<u64, Peer> {
        self.peers@
    }

    /// Representation invariant of the three tables.
    pub closed spec fn wf(&self) -> bool {
        self.candidates.wf() && self.punishments.wf() && self.peers.wf()
    }

    /// The state-machine invariant: the tables are well formed, pairwise
    /// IP-disjoint, and every record sits under the IP of its own address.
    pub open spec fn inv(&self) -> bool {
        &&& self.wf()
        &&& forall|ip: u64|
            #[trigger] self.candidates().contains_key(ip) ==> !self.peers().contains_key(ip)
                && !self.punishments().contains_key(ip)
        &&& forall|ip: u64|
            #[trigger] self.peers().contains_key(ip) ==> !self.punishments().contains_key(ip)
        &&& forall|ip: u64|
            #[trigger] self.candidates().contains_key(ip) ==> self.candidates()[ip].address.ip
                == ip
        &&& forall|ip: u64|
            #[trigger] self.peers().contains_key(ip) ==> self.peers()[ip].address.ip == ip
    }

    /// Whether `ip` is banned at time `now`.
    pub open spec fn spec_is_punished(&self, now: u32, ip: u64) -> bool {
        self.punishments().contains_key(ip) && now < self.punishments()[ip].punished_till
    }

    /// Seed the candidate table from the bootstrap list; peers and
    /// punishments start empty.
    pub fn new(bootstrap: Vec<PeerAddress>, now: u32) -> (pm: PeerManager)
        ensures
            pm.inv(),
            pm.candidates() == seeded(bootstrap@, now),
            pm.peers() == Map::<u64, Peer>::empty(),
            pm.punishments() == Map::<u64, PunishmentDetails>::empty(),
    {
        let mut candidates: AssocMap<CandidateDetails> = AssocMap::new();
        let n = bootstrap.len();
        let mut i: usize = 0;
        while i < n
            invariant
                i <= n,
                n == bootstrap@.len(),
                candidates.wf(),
                candidates@ == seeded(bootstrap@.take(i as int), now),
                forall|ip: u64|
                    #[trigger] candidates@.contains_key(ip) ==> candidates@[ip].address.ip == ip,
            decreases n - i,
        {
            let b = bootstrap[i];
            candidates.insert(b.ip, CandidateDetails { address: b, candidated_since: now });
            proof {
                let pre = bootstrap@.take(i as int);
                let cur = bootstrap@.take(i as int + 1);
                assert(cur.drop_last() =~= pre);
                assert(cur.last() == bootstrap@[i as int]);
            }
            i = i + 1;
        }
        proof {
            assert(bootstrap@.take(n as int) =~= bootstrap@);
        }
        PeerManager { candidates, punishments: AssocMap::new(), peers: AssocMap::new() }
    }

    /// Drop punishments whose end the clock has passed and candidates
    /// older than `CANDIDATE_TTL`; peers are untouched. Running it twice
    /// at the same `now` changes nothing the second time (see
    /// [`lemma_refresh_idempotent`]), and it never flips whether an IP is
    /// punished right now.
    pub fn refresh(&mut self, now: u32)
        requires
            old(self).inv(),
        ensures
            final(self).inv(),
            refresh_rel(*old(self), *final(self), now),
            forall|ip: u64|
                #[trigger] final(self).spec_is_punished(now, ip) == old(self).spec_is_punished(
                    now,
                    ip,
                ),
    {
        let ghost pre = *self;
        // Keep only punishment records whose end has not passed.
        let mut kept_p: AssocMap<PunishmentDetails> = AssocMap::new();
        let np = self.punishments.len();
        let ghost pkvs = self.punishments.kvs();
        let mut i: usize = 0;
        while i < np
            invariant
                i <= np,
                np == pkvs.len(),
                pkvs == self.punishments.kvs(),
                self.punishments.wf(),
                kept_p.wf(),
                forall|ip: u64|
                    #[trigger] kept_p@.contains_key(ip) ==> exists|j: int|
                        0 <= j < i && (#[trigger] pkvs[j]).0 == ip && punishment_live(
                            now,
                            pkvs[j].1.punished_till,
                        ),
                forall|j: int|
                    0 <= j < i && punishment_live(now, (#[trigger] pkvs[j]).1.punished_till)
                        ==> kept_p@.contains_key(pkvs[j].0) && kept_p@[pkvs[j].0] == pkvs[j].1,
            decreases np - i,
        {
            let e = *self.punishments.pair_at(i);
            if now <= e.1.punished_till {
                kept_p.insert(e.0, e.1);
            }
            i = i + 1;
        }
        proof {
            assert forall|ip: u64| #[trigger] kept_p@.contains_key(ip) <==> (
            pre.punishments().contains_key(ip) && punishment_live(
                now,
                pre.punishments()[ip].punished_till,
            )) by {
                lemma_view_contains(pkvs, ip);
                if kept_p@.contains_key(ip) {
                    let j = choose|j: int|
                        0 <= j < np && (#[trigger] pkvs[j]).0 == ip && punishment_live(
                            now,
                            pkvs[j].1.punished_till,
                        );
                    lemma_view_index(pkvs, j);
                }
                if pre.punishments().contains_key(ip) {
                    let j = choose|j: int| 0 <= j < pkvs.len() && (#[trigger] pkvs[j]).0 == ip;
                    lemma_view_index(pkvs, j);
                }
            }
            assert forall|ip: u64| #[trigger] kept_p@.contains_key(ip) implies kept_p@[ip]
                == pre.punishments()[ip] by {
                let j = choose|j: int|
                    0 <= j < np && (#[trigger] pkvs[j]).0 == ip && punishment_live(
                        now,
                        pkvs[j].1.punished_till,
                    );
                lemma_view_index(pkvs, j);
            }
        }
        self.punishments = kept_p;

        // Keep only candidates that are still fresh.
        let mut kept_c: AssocMap<CandidateDetails> = AssocMap::new();
        let nc = self.candidates.len();
        let ghost ckvs = self.candidates.kvs();
        let mut i: usize = 0;
        while i < nc
            invariant
                i <= nc,
                nc == ckvs.len(),
                ckvs == self.candidates.kvs(),
                self.candidates.wf(),
                kept_c.wf(),
                forall|ip: u64|
                    #[trigger] kept_c@.contains_key(ip) ==> exists|j: int|
                        0 <= j < i && (#[trigger] ckvs[j]).0 == ip && candidate_live(
                            now,
                            ckvs[j].1.candidated_since,
                        ),
                forall|j: int|
                    0 <= j < i && candidate_live(now, (#[trigger] ckvs[j]).1.candidated_since)
                        ==> kept_c@.contains_key(ckvs[j].0) && kept_c@[ckvs[j].0] == ckvs[j].1,
            decreases nc - i,
        {
            let e = *self.candidates.pair_at(i);
            if (now as u64) < (e.1.candidated_since as u64) + (CANDIDATE_TTL as u64) {
                kept_c.insert(e.0, e.1);
            }
            i = i + 1;
        }
        proof {
            assert forall|ip: u64| #[trigger] kept_c@.contains_key(ip) <==> (
            pre.candidates().contains_key(ip) && candidate_live(
                now,
                pre.candidates()[ip].candidated_since,
            )) by {
                lemma_view_contains(ckvs, ip);
                if kept_c@.contains_key(ip) {
                    let j = choose|j: int|
                        0 <= j < nc && (#[trigger] ckvs[j]).0 == ip && candidate_live(
                            now,
                            ckvs[j].1.candidated_since,
                        );
                    lemma_view_index(ckvs, j);
                }
                if pre.candidates().contains_key(ip) {
                    let j = choose|j: int| 0 <= j < ckvs.len() && (#[trigger] ckvs[j]).0 == ip;
                    lemma_view_index(ckvs, j);
                }
            }
            assert forall|ip: u64| #[trigger] kept_c@.contains_key(ip) implies kept_c@[ip]
                == pre.candidates()[ip] by {
                let j = choose|j: int|
                    0 <= j < nc && (#[trigger] ckvs[j]).0 == ip && candidate_live(
                        now,
                        ckvs[j].1.candidated_since,
                    );
                lemma_view_index(ckvs, j);
            }
        }
        self.candidates = kept_c;
        proof {
            assert forall|ip: u64| #[trigger] self.candidates().contains_key(ip) implies
            !self.peers().contains_key(ip) && !self.punishments().contains_key(ip)
                && self.candidates()[ip].address.ip == ip by {
            assert(pre.candidates().contains_key(ip));
            assert(self.candidates()[ip] == pre.candidates()[ip]);
            if self.punishments().contains_key(ip) {
                assert(pre.punishments().contains_key(ip));
            }
        }
            assert forall|ip: u64| #[trigger] self.peers().contains_key(ip) implies
            !self.punishments().contains_key(ip) && self.peers()[ip].address.ip == ip by {
            assert(pre.peers().contains_key(ip));
            if self.punishments().contains_key(ip) {
                assert(pre.punishments().contains_key(ip));
            }
        }
            assert forall|ip: u64|
                #[trigger] self.spec_is_punished(now, ip) == pre.spec_is_punished(now, ip) by {
            if pre.spec_is_punished(now, ip) {
                assert(punishment_live(now, pre.punishments()[ip].punished_till));
            }
        }
        }
    }

    /// Whether `ip` is banned at time `now`. A record whose end has
    /// passed but that `refresh` has not dropped yet does not count.
    pub fn is_ip_punished(&self, now: u32, ip: u64) -> (r: bool)
        requires
            self.wf(),
        ensures
            r == self.spec_is_punished(now, ip),
    {
        match self.punishments.get(ip) {
            Some(det) => now < det.punished_till,
            None => false,
        }
    }

    /// Ban `ip` until `now + secs`, evicting it from the candidate and
    /// peer tables. An existing ban is overwritten, so a later call
    /// extends (or shortens) the window.
    pub fn punish_ip_for(&mut self, now: u32, ip: u64, secs: u32)
        requires
            old(self).inv(),
            now + secs <= u32::MAX,
        ensures
            final(self).inv(),
            final(self).punishments() == old(self).punishments().insert(
                ip,
                PunishmentDetails { punished_till: (now + secs) as u32 },
            ),
            final(self).candidates() == old(self).candidates().remove(ip),
            final(self).peers() == old(self).peers().remove(ip),
    {
        self.candidates.remove(ip);
        self.peers.remove(ip);
        self.punishments.insert(ip, PunishmentDetails { punished_till: now + secs });
        proof {
            assert forall|k: u64| #[trigger] self.candidates().contains_key(k) implies
            !self.peers().contains_key(k) && !self.punishments().contains_key(k)
                && self.candidates()[k].address.ip == k by {
            assert(old(self).candidates().contains_key(k) && k != ip);
        }
            assert forall|k: u64| #[trigger] self.peers().contains_key(k) implies
            !self.punishments().contains_key(k) && self.peers()[k].address.ip == k by {
            assert(old(self).peers().contains_key(k) && k != ip);
        }
        }
    }

    /// Demotion only: if `addr.ip` currently is a peer, move it back to
    /// the candidate table with a fresh `candidated_since`; otherwise do
    /// nothing.
    pub fn mark_as_candidate(&mut self, now: u32, addr: &PeerAddress)
        requires
            old(self).inv(),
        ensures
            final(self).inv(),
            old(self).peers().contains_key(addr.ip) ==> {
                &&& final(self).peers() == old(self).peers().remove(addr.ip)
                &&& final(self).candidates() == old(self).candidates().insert(
                    addr.ip,
                    CandidateDetails { address: *addr, candidated_since: now },
                )
                &&& final(self).punishments() == old(self).punishments()
            },
            !old(self).peers().contains_key(addr.ip) ==> {
                &&& final(self).peers() == old(self).peers()
                &&& final(self).candidates() == old(self).candidates()
                &&& final(self).punishments() == old(self).punishments()
            },
    {
        if self.peers.contains_key(addr.ip) {
            self.peers.remove(addr.ip);
            self.candidates.insert(
                addr.ip,
                CandidateDetails { address: *addr, candidated_since: now },
            );
            proof {
                assert forall|k: u64| #[trigger] self.candidates().contains_key(k) implies
                !self.peers().contains_key(k) && !self.punishments().contains_key(k)
                    && self.candidates()[k].address.ip == k by {
                if k != addr.ip {
                    assert(old(self).candidates().contains_key(k));
                } else {
                    assert(old(self).peers().contains_key(addr.ip));
                }
            }
                assert forall|k: u64| #[trigger] self.peers().contains_key(k) implies
                !self.punishments().contains_key(k) && self.peers()[k].address.ip == k by {
                assert(old(self).peers().contains_key(k));
            }
            }
        }
    }

    /// Install `addr` as a candidate. The IP of a current peer is left
    /// alone, and an IP banned at `now` is rejected. Installing a
    /// candidate clears a ban record whose end has already passed, so the
    /// tables stay disjoint.
    pub fn add_candidate(&mut self, now: u32, addr: PeerAddress)
        requires
            old(self).inv(),
        ensures
            final(self).inv(),
            add_candidate_rel(*old(self), *final(self), now, addr),
    {
        if !self.peers.contains_key(addr.ip) && !self.is_ip_punished(now, addr.ip) {
            self.punishments.remove(addr.ip);
            self.candidates.insert(
                addr.ip,
                CandidateDetails { address: addr, candidated_since: now },
            );
            proof {
                assert forall|k: u64| #[trigger] self.candidates().contains_key(k) implies
                !self.peers().contains_key(k) && !self.punishments().contains_key(k)
                    && self.candidates()[k].address.ip == k by {
                if k != addr.ip {
                    assert(old(self).candidates().contains_key(k));
                }
            }
                assert forall|k: u64| #[trigger] self.peers().contains_key(k) implies
                !self.punishments().contains_key(k) && self.peers()[k].address.ip == k by {
                assert(old(self).peers().contains_key(k) && k != addr.ip);
            }
            }
        }
    }

    /// Promote: remove the IP from the candidate table and insert the
    /// peer. Promotion follows a completed handshake, which supersedes
    /// any leftover ban record for the IP, so that record is cleared too.
    pub fn add_peer(&mut self, peer: Peer)
        requires
            old(self).inv(),
        ensures
            final(self).inv(),
            final(self).peers() == old(self).peers().insert(peer.address.ip, peer),
            final(self).candidates() == old(self).candidates().remove(peer.address.ip),
            final(self).punishments() == old(self).punishments().remove(peer.address.ip),
    {
        self.candidates.remove(peer.address.ip);
        self.punishments.remove(peer.address.ip);
        self.peers.insert(peer.address.ip, peer);
        proof {
            let ip = peer.address.ip;
            assert forall|k: u64| #[trigger] self.candidates().contains_key(k) implies
            !self.peers().contains_key(k) && !self.punishments().contains_key(k)
                && self.candidates()[k].address.ip == k by {
            assert(old(self).candidates().contains_key(k) && k != ip);
        }
            assert forall|k: u64| #[trigger] self.peers().contains_key(k) implies
            !self.punishments().contains_key(k) && self.peers()[k].address.ip == k by {
            if k != ip {
                assert(old(self).peers().contains_key(k));
            }
        }
        }
    }

    /// A snapshot of the peer table: every current peer exactly once.
    pub fn get_peers(&self) -> (r: Vec<Peer>)
        requires
            self.inv(),
        ensures
            r@.len() == self.peers().dom().len(),
            forall|i: int|
                0 <= i < r@.len() ==> self.peers().contains_key((#[trigger] r@[i]).address.ip)
                    && self.peers()[r@[i].address.ip] == r@[i],
            forall|ip: u64|
                #[trigger] self.peers().contains_key(ip) ==> exists|i: int|
                    0 <= i < r@.len() && (#[trigger] r@[i]).address.ip == ip,
            forall|i: int, j: int|
                0 <= i < j < r@.len() ==> (#[trigger] r@[i]).address.ip != (
                #[trigger] r@[j]).address.ip,
    {
        let ghost kvs = self.peers.kvs();
        let n = self.peers.len();
        let mut r: Vec<Peer> = Vec::new();
        let mut i: usize = 0;
        while i < n
            invariant
                i <= n,
                n == kvs.len(),
                kvs == self.peers.kvs(),
                self.inv(),
                r@.len() == i,
                forall|j: int| 0 <= j < i ==> #[trigger] r@[j] == kvs[j].1,
                forall|j: int| 0 <= j < i ==> (#[trigger] r@[j]).address.ip == kvs[j].0,
            decreases n - i,
        {
            let e = *self.peers.pair_at(i);
            proof {
                lemma_view_index(kvs, i as int);
                assert(self.peers().contains_key(e.0));
                assert(self.peers()[e.0].address.ip == e.0);
                assert(e.1.address.ip == e.0);
            }
            r.push(e.1);
            i = i + 1;
        }
        proof {
            lemma_view_dom_len(kvs);
            assert forall|j: int| 0 <= j < r@.len() implies self.peers().contains_key(
                (#[trigger] r@[j]).address.ip,
            ) && self.peers()[r@[j].address.ip] == r@[j] by {
                lemma_view_index(kvs, j);
            }
            assert forall|ip: u64| #[trigger] self.peers().contains_key(ip) implies exists|i: int|
                0 <= i < r@.len() && (#[trigger] r@[i]).address.ip == ip by {
                lemma_view_contains(kvs, ip);
                let j = choose|j: int| 0 <= j < kvs.len() && (#[trigger] kvs[j]).0 == ip;
                lemma_view_index(kvs, j);
                assert(r@[j].address.ip == ip);
            }
        }
        r
    }

    /// A snapshot of the candidate table: every candidate address exactly
    /// once.
    pub fn get_candidates(&self) -> (r: Vec<PeerAddress>)
        requires
            self.inv(),
        ensures
            r@.len() == self.candidates().dom().len(),
            forall|i: int|
                0 <= i < r@.len() ==> self.candidates().contains_key((#[trigger] r@[i]).ip)
                    && self.candidates()[r@[i].ip].address == r@[i],
            forall|ip: u64|
                #[trigger] self.candidates().contains_key(ip) ==> exists|i: int|
                    0 <= i < r@.len() && (#[trigger] r@[i]).ip == ip,
    {
        let ghost kvs = self.candidates.kvs();
        let n = self.candidates.len();
        let mut r: Vec<PeerAddress> = Vec::new();
        let mut i: usize = 0;
        while i < n
            invariant
                i <= n,
                n == kvs.len(),
                kvs == self.candidates.kvs(),
                self.inv(),
                r@.len() == i,
                forall|j: int| 0 <= j < i ==> #[trigger] r@[j] == kvs[j].1.address,
                forall|j: int| 0 <= j < i ==> (#[trigger] r@[j]).ip == kvs[j].0,
            decreases n - i,
        {
            let e = *self.candidates.pair_at(i);
            proof {
                lemma_view_index(kvs, i as int);
                assert(self.candidates().contains_key(e.0));
                assert(self.candidates()[e.0].address.ip == e.0);
                assert(e.1.address.ip == e.0);
            }
            r.push(e.1.address);
            i = i + 1;
        }
        proof {
            lemma_view_dom_len(kvs);
            assert forall|j: int| 0 <= j < r@.len() implies self.candidates().contains_key(
                (#[trigger] r@[j]).ip,
            ) && self.candidates()[r@[j].ip].address == r@[j] by {
                lemma_view_index(kvs, j);
            }
            assert forall|ip: u64| #[trigger] self.candidates().contains_key(ip) implies exists|
                i: int,
            | 0 <= i < r@.len() && (#[trigger] r@[i]).ip == ip by {
                lemma_view_contains(kvs, ip);
                let j = choose|j: int| 0 <= j < kvs.len() && (#[trigger] kvs[j]).0 == ip;
                lemma_view_index(kvs, j);
                assert(r@[j].ip == ip);
            }
        }
        r
    }
}

/// Law: under the state-machine invariant — which `new` establishes and
/// every operation preserves — no IP sits in two of the three tables.
pub proof fn lemma_tables_disjoint(pm: PeerManager, ip: u64)
    requires
        pm.inv(),
    ensures
        !(pm.candidates().contains_key(ip) && pm.peers().contains_key(ip)),
        !(pm.candidates().contains_key(ip) && pm.punishments().contains_key(ip)),
        !(pm.peers().contains_key(ip) && pm.punishments().contains_key(ip)),
{
}

/// Law: a fresh ban covers its whole window and nothing past it. With
/// `refresh`'s own contract (expired records are dropped, surviving ones
/// unchanged) this is the full punishment story: `punish_ip_for(now, ip,
/// secs)` makes `ip` punished at every `t` in `[now, now + secs)` and at
/// no `t` from `now + secs` on.
pub proof fn lemma_punish_window(
    pre: PeerManager,
    post: PeerManager,
    now: u32,
    ip: u64,
    secs: u32,
    t: u32,
)
    requires
        now + secs <= u32::MAX,
        post.punishments() == pre.punishments().insert(
            ip,
            PunishmentDetails { punished_till: (now + secs) as u32 },
        ),
    ensures
        now <= t < now + secs ==> post.spec_is_punished(t, ip),
        t >= now + secs ==> !post.spec_is_punished(t, ip),
{
}

/// Law: once the window has passed, a `refresh` at any `t` from
/// `now + secs` on drops the ban record, and the IP is not punished at
/// `t` or later.
pub proof fn lemma_punish_then_refresh(
    pm1: PeerManager,
    pm2: PeerManager,
    now: u32,
    ip: u64,
    secs: u32,
    t: u32,
)
    requires
        now + secs <= u32::MAX,
        pm1.punishments().contains_key(ip),
        pm1.punishments()[ip].punished_till == now + secs,
        refresh_rel(pm1, pm2, t),
        t > now + secs,
    ensures
        !pm2.punishments().contains_key(ip),
        forall|t2: u32| !pm2.spec_is_punished(t2, ip),
{
}

/// Law: after `add_candidate(now, a)` and then `add_peer(p)` with
/// `p.address == a`, the IP of `a` sits in the peer table and in neither
/// of the other two.
pub proof fn lemma_candidate_then_peer(mid: PeerManager, post: PeerManager, a: PeerAddress, p: Peer)
    requires
        p.address == a,
        post.peers() == mid.peers().insert(a.ip, p),
        post.candidates() == mid.candidates().remove(a.ip),
        post.punishments() == mid.punishments().remove(a.ip),
    ensures
        post.peers().contains_key(a.ip),
        !post.candidates().contains_key(a.ip),
        !post.punishments().contains_key(a.ip),
{
}

/// Law: `refresh` is idempotent. A second `refresh` at the same `now`
/// leaves all three tables exactly as the first left them.
pub proof fn lemma_refresh_idempotent(
    pm0: PeerManager,
    pm1: PeerManager,
    pm2: PeerManager,
    now: u32,
)
    requires
        refresh_rel(pm0, pm1, now),
        refresh_rel(pm1, pm2, now),
    ensures
        pm2.candidates() == pm1.candidates(),
        pm2.punishments() == pm1.punishments(),
        pm2.peers() == pm1.peers(),
{
    assert forall|ip: u64|
        #[trigger] pm2.punishments().contains_key(ip) == pm1.punishments().contains_key(ip) by {
        if pm1.punishments().contains_key(ip) {
            assert(pm1.punishments()[ip] == pm0.punishments()[ip]);
        }
    }
    assert forall|ip: u64|
        #[trigger] pm2.candidates().contains_key(ip) == pm1.candidates().contains_key(ip) by {
        if pm1.candidates().contains_key(ip) {
            assert(pm1.candidates()[ip] == pm0.candidates()[ip]);
        }
    }
    assert(pm2.punishments() =~= pm1.punishments());
    assert(pm2.candidates() =~= pm1.candidates());
}

} // verus!
