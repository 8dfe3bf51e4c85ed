//! Peer sampling for heartbeat tasks: rank a snapshot of peers by
//! advisory power and recency, break ties by IP so that the selection is
//! deterministic, and keep the best `n`.

use crate::types::Peer;
use vstd::prelude::*;

verus! {

/// The strict selection order: more advisory power first, then more
/// recent contact, ties broken by the smaller IP. On peers with distinct
/// IPs this orders totally.
pub open spec fn ranks_before(a: Peer, b: Peer) -> bool {
    ||| a.stats.power > b.stats.power
    ||| (a.stats.power == b.stats.power && a.stats.last_seen > b.stats.last_seen)
    ||| (a.stats.power == b.stats.power && a.stats.last_seen == b.stats.last_seen
        && a.address.ip < b.address.ip)
}

/// The order is transitive.
pub proof fn lemma_ranks_before_transitive(a: Peer, b: Peer, c: Peer)
    requires
        ranks_before(a, b),
        ranks_before(b, c),
    ensures
        ranks_before(a, c),
{
}

/// Peers with distinct IPs always compare one way or the other.
pub proof fn lemma_ranks_total(a: Peer, b: Peer)
    requires
        a.address.ip != b.address.ip,
    ensures
        ranks_before(a, b) || ranks_before(b, a),
{
}

fn ranks_before_exec(a: &Peer, b: &Peer) -> (r: bool)
    ensures
        r == ranks_before(*a, *b),
{
    a.stats.power > b.stats.power || (a.stats.power == b.stats.power && a.stats.last_seen
        > b.stats.last_seen) || (a.stats.power == b.stats.power && a.stats.last_seen
        == b.stats.last_seen && a.address.ip < b.address.ip)
}

/// Select up to `n` peers from a snapshot with pairwise-distinct IPs:
/// the result lists the best-ranked peers, best first, and every peer
/// left out ranks no better than any peer kept.
pub fn select_peers(peers: &Vec<Peer>, n: usize) -> (r: Vec<Peer>)
    requires
        forall|i: int, j: int|
            0 <= i < j < peers@.len() ==> (#[trigger] peers@[i]).address.ip != (
            #[trigger] peers@[j]).address.ip,
    ensures
        r@.len() == if n < peers@.len() {
            n as int
        } else {
            peers@.len() as int
        },
        forall|i: int| 0 <= i < r@.len() ==> peers@.contains(#[trigger] r@[i]),
        forall|i: int, j: int|
            0 <= i < j < r@.len() ==> (#[trigger] r@[i]).address.ip != (
            #[trigger] r@[j]).address.ip,
        forall|i: int, j: int|
            0 <= i < j < r@.len() ==> !ranks_before(#[trigger] r@[j], #[trigger] r@[i]),
        forall|k: int|
            0 <= k < peers@.len() && !r@.contains(#[trigger] peers@[k]) ==> forall|i: int|
                0 <= i < r@.len() ==> !ranks_before(peers@[k], #[trigger] r@[i]),
{
    let mut rest: Vec<Peer> = Vec::new();
    let total = peers.len();
    let mut i: usize = 0;
    while i < total
        invariant
            i <= total,
            total == peers@.len(),
            rest@ == peers@.take(i as int),
        decreases total - i,
    {
        rest.push(peers[i]);
        proof {
            assert(rest@ =~= peers@.take(i as int + 1));
        }
        i = i + 1;
    }
    proof {
        assert(rest@ =~= peers@);
    }

    let mut r: Vec<Peer> = Vec::new();
    while r.len() < n && rest.len() > 0
        invariant
            r@.len() <= n,
            r@.len() + rest@.len() == peers@.len(),
            r@.len() < n || rest@.len() == 0 || r@.len() == n,
            forall|i: int| 0 <= i < rest@.len() ==> peers@.contains(#[trigger] rest@[i]),
            forall|i: int| 0 <= i < r@.len() ==> peers@.contains(#[trigger] r@[i]),
            forall|i: int, j: int|
                0 <= i < j < rest@.len() ==> (#[trigger] rest@[i]).address.ip != (
                #[trigger] rest@[j]).address.ip,
            forall|i: int, j: int|
                0 <= i < j < r@.len() ==> (#[trigger] r@[i]).address.ip != (
                #[trigger] r@[j]).address.ip,
            forall|i: int, j: int|
                0 <= i < rest@.len() && 0 <= j < r@.len() ==> (#[trigger] rest@[i]).address.ip != (
                #[trigger] r@[j]).address.ip,
            forall|i: int, j: int|
                0 <= i < j < r@.len() ==> !ranks_before(#[trigger] r@[j], #[trigger] r@[i]),
            forall|i: int, j: int|
                0 <= i < rest@.len() && 0 <= j < r@.len() ==> !ranks_before(
                    #[trigger] rest@[i],
                    #[trigger] r@[j],
                ),
            forall|k: int|
                0 <= k < peers@.len() ==> r@.contains(#[trigger] peers@[k]) || rest@.contains(
                    peers@[k],
                ),
        decreases rest@.len(),
    {
        // Find the best-ranked remaining peer.
        let mut bi: usize = 0;
        let mut m: usize = 1;
        while m < rest.len()
            invariant
                bi < m <= rest@.len(),
                rest@.len() > 0,
                forall|idx: int| 0 <= idx < m ==> !ranks_before(#[trigger] rest@[idx], rest@[
                    bi as int
                ]),
            decreases rest@.len() - m,
        {
            if ranks_before_exec(&rest[m], &rest[bi]) {
                proof {
                    assert forall|idx: int| 0 <= idx < m + 1 implies !ranks_before(
                        #[trigger] rest@[idx],
                        rest@[m as int],
                    ) by {
                        if idx < m && ranks_before(rest@[idx], rest@[m as int]) {
                            lemma_ranks_before_transitive(
                                rest@[idx],
                                rest@[m as int],
                                rest@[bi as int],
                            );
                        }
                    }
                }
                bi = m;
            } else {
                proof {
                    assert(!ranks_before(rest@[m as int], rest@[bi as int]));
                }
            }
            m = m + 1;
        }
        let ghost rest0 = rest@;
        let best = rest.swap_remove(bi);
        proof {
            assert(best == rest0[bi as int]);
            assert(rest@ =~= rest0.update(bi as int, rest0.last()).drop_last());
            assert forall|i: int| 0 <= i < rest@.len() implies rest0.contains(
                #[trigger] rest@[i],
            ) by {
                if i == bi {
                    assert(rest@[i] == rest0[rest0.len() - 1]);
                } else {
                    assert(rest@[i] == rest0[i]);
                }
            }
            assert forall|i: int, j: int| 0 <= i < j < rest@.len() implies (
            #[trigger] rest@[i]).address.ip != (#[trigger] rest@[j]).address.ip by {
                let si: int = if i == bi {
                    rest0.len() - 1
                } else {
                    i
                };
                let sj: int = if j == bi {
                    rest0.len() - 1
                } else {
                    j
                };
                assert(rest@[i] == rest0[si]);
                assert(rest@[j] == rest0[sj]);
            }
        }
        let ghost r0 = r@;
        r.push(best);
        proof {
            assert(r@.drop_last() =~= r0);
            assert(r@.last() == best);
            assert(peers@.contains(best));
            assert forall|k: int|
                0 <= k < peers@.len() implies r@.contains(#[trigger] peers@[k]) || rest@.contains(
                    peers@[k],
                ) by {
                if r0.contains(peers@[k]) {
                    let w = choose|w: int| 0 <= w < r0.len() && r0[w] == peers@[k];
                    assert(r@[w] == peers@[k]);
                } else if rest0.contains(peers@[k]) {
                    let w = choose|w: int| 0 <= w < rest0.len() && rest0[w] == peers@[k];
                    if w == bi {
                        assert(r@[r@.len() - 1] == peers@[k]);
                    } else if w == rest0.len() - 1 {
                        if bi < rest0.len() - 1 {
                            assert(rest@[bi as int] == peers@[k]);
                            assert(rest@.contains(peers@[k]));
                        } else {
                            assert(r@[r@.len() - 1] == peers@[k]);
                        }
                    } else {
                        assert(rest@[w] == peers@[k]);
                        assert(rest@.contains(peers@[k]));
                    }
                }
            }
            assert forall|i: int| 0 <= i < rest@.len() implies !ranks_before(
                #[trigger] rest@[i],
                best,
            ) by {
                let si: int = if i == bi {
                    rest0.len() - 1
                } else {
                    i
                };
                assert(rest@[i] == rest0[si]);
            }
        }
    }
    proof {
        assert forall|k: int|
            0 <= k < peers@.len() && !r@.contains(#[trigger] peers@[k]) implies forall|i: int|
            0 <= i < r@.len() ==> !ranks_before(peers@[k], #[trigger] r@[i]) by {
            assert(rest@.contains(peers@[k]));
            let w = choose|w: int| 0 <= w < rest@.len() && rest@[w] == peers@[k];
            assert forall|i: int| 0 <= i < r@.len() implies !ranks_before(
                peers@[k],
                #[trigger] r@[i],
            ) by {
                assert(!ranks_before(rest@[w], r@[i]));
            }
        }
    }
    r
}

} // verus!
