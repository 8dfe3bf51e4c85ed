//! The network clock: the median of peer-reported timestamps drives a
//! signed offset that is applied to the local wall clock.

use vstd::prelude::*;
use vstd::relations::{sorted_by, total_ordering};
use vstd::seq_lib::lemma_sorted_unique;

verus! {

/// The ascending order on timestamps.
pub open spec fn u64_le() -> spec_fn(u64, u64) -> bool {
    |a: u64, b: u64| a <= b
}

/// `u64_le` is a total order, as `sort_by` demands.
pub proof fn lemma_u64_le_total_ordering()
    ensures
        total_ordering(u64_le()),
{
    let le = u64_le();
    assert forall|a: u64| #[trigger] le(a, a) by {}
    assert forall|a: u64, b: u64| #[trigger] le(a, b) && #[trigger] le(b, a) implies a == b by {}
    assert forall|a: u64, b: u64, c: u64|
        #[trigger] le(a, b) && #[trigger] le(b, c) implies le(a, c) by {}
    assert forall|a: u64, b: u64| !(#[trigger] le(a, b)) implies le(b, a) by {}
}

/// The median of a non-empty set of timestamps: sort ascending and take
/// the middle element, the lower of the two middle ones when the count
/// is even.
pub open spec fn spec_median(s: Seq<u64>) -> u64
    recommends
        s.len() > 0,
{
    s.sort_by(u64_le())[((s.len() - 1) / 2) as int]
}

/// An integer clamped into the range of `u64`.
pub open spec fn clamp_u64(v: int) -> u64 {
    if v < 0 {
        0
    } else if v > u64::MAX {
        u64::MAX
    } else {
        v as u64
    }
}

/// An integer clamped into the range of `i64`.
pub open spec fn clamp_i64(v: int) -> i64 {
    if v < i64::MIN {
        i64::MIN
    } else if v > i64::MAX {
        i64::MAX
    } else {
        v as i64
    }
}

/// The network timestamp a node derives from a local wall-clock reading
/// and its signed offset: their sum, clamped into `u64`.
pub open spec fn spec_network_time(local: u64, offset: i64) -> u64 {
    clamp_u64(local as int + offset as int)
}

/// What clock sync does to the offset: the median of the collected peer
/// timestamps minus the local reading, and no change when nothing was
/// collected.
pub open spec fn spec_offset_update(old_offset: i64, timestamps: Seq<u64>, local: u64) -> i64 {
    if timestamps.len() == 0 {
        old_offset
    } else {
        clamp_i64(spec_median(timestamps) as int - local as int)
    }
}

/// Sort timestamps ascending (insertion sort).
fn sort_u64(v: &Vec<u64>) -> (r: Vec<u64>)
    ensures
        r@ == v@.sort_by(u64_le()),
        r@.len() == v@.len(),
{
    broadcast use vstd::seq_lib::group_to_multiset_ensures;

    let n = v.len();
    let mut r: Vec<u64> = Vec::new();
    let mut i: usize = 0;
    while i < n
        invariant
            i <= n,
            n == v@.len(),
            r@.len() == i,
            sorted_by(r@, u64_le()),
            r@.to_multiset() == v@.take(i as int).to_multiset(),
        decreases n - i,
    {
        let x = v[i];
        let mut j: usize = 0;
        while j < r.len() && r[j] <= x
            invariant
                j <= r@.len(),
                forall|k: int| 0 <= k < j ==> #[trigger] r@[k] <= x,
            decreases r@.len() - j,
        {
            j = j + 1;
        }
        proof {
            assert(j == r@.len() || r@[j as int] > x);
        }
        let ghost r0 = r@;
        r.insert(j, x);
        proof {
            let t = r0.insert(j as int, x);
            assert(r@ == t);
            assert(j < r0.len() ==> x < r0[j as int]);
            r0.insert_ensures(j as int, x);
            assert forall|a: int, b: int| 0 <= a < b < t.len() implies u64_le()(t[a], t[b]) by {
                if b < j {
                    assert(t[a] == r0[a] && t[b] == r0[b]);
                } else if a < j && b == j {
                    assert(t[a] == r0[a] && t[b] == x);
                } else if a < j && b > j {
                    assert(t[a] == r0[a] && t[b] == r0[b - 1]);
                    if b - 1 >= j {
                        if b - 1 == a {
                        } else {
                            assert(u64_le()(r0[a], r0[b - 1]));
                        }
                    }
                } else if a == j {
                    assert(t[a] == x && t[b] == r0[b - 1]);
                    assert(j < r0.len() ==> !(r0[j as int] <= x));
                    assert(b - 1 >= j);
                    if b - 1 == j {
                        assert(x <= r0[j as int]);
                    } else {
                        assert(u64_le()(r0[j as int], r0[b - 1]));
                        assert(x <= r0[j as int]);
                    }
                } else {
                    assert(t[a] == r0[a - 1] && t[b] == r0[b - 1]);
                }
            }
            vstd::seq_lib::to_multiset_insert(r0, j as int, x);
            assert(t.to_multiset() == r0.to_multiset().insert(x));
            assert(v@.take(i as int + 1) =~= v@.take(i as int).push(v@[i as int]));
            vstd::seq_lib::to_multiset_build(v@.take(i as int), v@[i as int]);
            assert(v@.take(i as int).push(v@[i as int]).to_multiset() == v@.take(
                i as int,
            ).to_multiset().insert(v@[i as int]));
            assert(r@.to_multiset() == v@.take(i as int + 1).to_multiset());
        }
        i = i + 1;
    }
    proof {
        assert(v@.take(n as int) =~= v@);
        lemma_u64_le_total_ordering();
        v@.lemma_sort_by_ensures(u64_le());
        lemma_sorted_unique(r@, v@.sort_by(u64_le()), u64_le());
        assert(r@ =~= v@.sort_by(u64_le()));
        assert(v@.to_multiset().len() == v@.len()) by {
            broadcast use vstd::seq_lib::group_to_multiset_ensures;

        }
        assert(r@.to_multiset().len() == r@.len()) by {
            broadcast use vstd::seq_lib::group_to_multiset_ensures;

        }
    }
    r
}

/// The median of a non-empty list of timestamps, as [`spec_median`]
/// defines it: the lower middle element of the ascending order.
pub fn median(v: &Vec<u64>) -> (r: u64)
    requires
        v@.len() > 0,
    ensures
        r == spec_median(v@),
{
    let sorted = sort_u64(v);
    sorted[(sorted.len() - 1) / 2]
}

/// A local wall-clock reading combined with the node's signed offset
/// into a network timestamp.
pub fn network_time(local: u64, offset: i64) -> (r: u64)
    ensures
        r == spec_network_time(local, offset),
{
    let sum: i128 = local as i128 + offset as i128;
    if sum < 0 {
        0
    } else if sum > u64::MAX as i128 {
        u64::MAX
    } else {
        sum as u64
    }
}

/// The new offset after one round of clock sync: the median of the
/// collected peer timestamps minus the local reading; an empty
/// collection leaves the offset as it was.
pub fn offset_update(old_offset: i64, timestamps: &Vec<u64>, local: u64) -> (r: i64)
    ensures
        r == spec_offset_update(old_offset, timestamps@, local),
{
    if timestamps.len() == 0 {
        old_offset
    } else {
        let m = median(timestamps);
        let diff: i128 = m as i128 - local as i128;
        if diff < i64::MIN as i128 {
            i64::MIN
        } else if diff > i64::MAX as i128 {
            i64::MAX
        } else {
            diff as i64
        }
    }
}

/// Law: with a fixed offset, the network timestamp is monotonic in the
/// local clock, so a monotonic local clock yields a monotonic network
/// clock.
pub proof fn lemma_network_time_monotonic(l1: u64, l2: u64, offset: i64)
    requires
        l1 <= l2,
    ensures
        spec_network_time(l1, offset) <= spec_network_time(l2, offset),
{
}

} // verus!
