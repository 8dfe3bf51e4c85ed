//! The inbound firewall: per-source sliding-window request-rate and
//! byte-budget enforcement, consulted before a request is enqueued.

use crate::assoc::AssocMap;
use vstd::prelude::*;

verus! {

/// The request-rate window, in seconds.
pub const RATE_WINDOW: u32 = 60;

/// The byte-budget window, in seconds.
pub const BYTE_WINDOW: u32 = 900;

/// Whether an event at time `t` still lies within the last `w` seconds
/// at time `now`. An event stamped after `now` (a clock that moved
/// backwards) counts as age zero and so lies within every window.
pub open spec fn in_window(t: u32, now: u32, w: u32) -> bool {
    (now as int) < (t as int) + (w as int)
}

/// The predicate for the byte window, over one admitted (time, size)
/// entry.
pub open spec fn byte_window_pred(now: u32) -> spec_fn((u32, u64)) -> bool {
    |e: (u32, u64)| in_window(e.0, now, BYTE_WINDOW)
}

/// The predicate for the rate window, over one admitted (time, size)
/// entry.
pub open spec fn rate_window_pred(now: u32) -> spec_fn((u32, u64)) -> bool {
    |e: (u32, u64)| in_window(e.0, now, RATE_WINDOW)
}

/// The sizes of a log's entries, added up.
pub open spec fn sum_sizes(s: Seq<(u32, u64)>) -> int
    decreases s.len(),
{
    if s.len() == 0 {
        0
    } else {
        sum_sizes(s.drop_last()) + s.last().1
    }
}

/// How many of a source's admitted requests lie within the rate window.
pub open spec fn rate_count(log: Seq<(u32, u64)>, now: u32) -> int {
    log.filter(rate_window_pred(now)).len() as int
}

/// How many admitted bytes lie within the byte window.
pub open spec fn bytes_in_window(log: Seq<(u32, u64)>, now: u32) -> int {
    sum_sizes(log.filter(byte_window_pred(now)))
}

/// The admission rule: a request is admitted exactly when the source has
/// fewer admitted requests in the rate window than the cap and the new
/// body still fits the byte budget.
pub open spec fn admits(
    log: Seq<(u32, u64)>,
    rate_cap: u32,
    byte_budget: u64,
    now: u32,
    size: u64,
) -> bool {
    &&& rate_count(log, now) < rate_cap
    &&& bytes_in_window(log, now) + size <= byte_budget
}

/// A sum of sizes is never negative.
pub proof fn lemma_sum_nonneg(s: Seq<(u32, u64)>)
    ensures
        sum_sizes(s) >= 0,
    decreases s.len(),
{
    if s.len() > 0 {
        lemma_sum_nonneg(s.drop_last());
    }
}

/// Filtering a log can only shrink the sum of its sizes.
pub proof fn lemma_sum_filter_le(s: Seq<(u32, u64)>, pred: spec_fn((u32, u64)) -> bool)
    ensures
        sum_sizes(s.filter(pred)) <= sum_sizes(s),
    decreases s.len(),
{
    reveal(Seq::filter);
    if s.len() > 0 {
        lemma_sum_filter_le(s.drop_last(), pred);
        let f0 = s.drop_last().filter(pred);
        if pred(s.last()) {
            assert(s.filter(pred) == f0.push(s.last()));
            assert(f0.push(s.last()).drop_last() =~= f0);
            assert(sum_sizes(f0.push(s.last())) == sum_sizes(f0) + s.last().1);
        } else {
            assert(s.filter(pred) == f0);
        }
    }
}

/// A prefix's sum of sizes is at most the whole log's.
pub proof fn lemma_sum_take_le(s: Seq<(u32, u64)>, i: int)
    requires
        0 <= i <= s.len(),
    ensures
        sum_sizes(s.take(i)) <= sum_sizes(s),
    decreases s.len() - i,
{
    if i == s.len() {
        assert(s.take(i) =~= s);
    } else {
        lemma_sum_take_le(s, i + 1);
        assert(s.take(i + 1).drop_last() =~= s.take(i));
        assert(sum_sizes(s.take(i + 1)) == sum_sizes(s.take(i)) + s[i].1);
    }
}

/// Per-source sliding-window counters. Each source's log holds the
/// (time, size) of its admitted requests, pruned to the byte window.
pub struct Firewall {
    rate_cap: u32,
    byte_budget: u64,
    sources: AssocMap<Vec<(u32, u64)>>,
}

impl Firewall {
    /// Requests admitted per source and rate window.
    pub closed spec fn rate_cap(&self) -> u32 {
        self.rate_cap
    }

    /// Bytes admitted per source and byte window.
    pub closed spec fn byte_budget(&self) -> u64 {
        self.byte_budget
    }

    /// The admitted log of one source, oldest first; an unknown source
    /// has an empty log.
    pub closed spec fn log_of(&self, src: u64) -> Seq<(u32, u64)> {
        if self.sources@.contains_key(src) {
            self.sources@[src]@
        } else {
            Seq::empty()
        }
    }

    /// Validity: the table is well formed and no retained log outweighs
    /// the byte budget (which keeps the byte counting overflow-free).
    pub closed spec fn wf(&self) -> bool {
        &&& self.sources.wf()
        &&& forall|s: u64| sum_sizes(#[trigger] self.log_of(s)) <= self.byte_budget
    }

    /// A firewall with the given caps and no history.
    pub fn new(rate_cap: u32, byte_budget: u64) -> (fw: Firewall)
        ensures
            fw.wf(),
            fw.rate_cap() == rate_cap,
            fw.byte_budget() == byte_budget,
            forall|s: u64| #[trigger] fw.log_of(s) == Seq::<(u32, u64)>::empty(),
    {
        let fw = Firewall { rate_cap, byte_budget, sources: AssocMap::new() };
        proof {
            assert forall|s: u64| sum_sizes(#[trigger] fw.log_of(s)) <= fw.byte_budget by {
                assert(fw.log_of(s) == Seq::<(u32, u64)>::empty());
            }
        }
        fw
    }

    /// Admission check for one inbound request of `size` bytes from
    /// `src` at time `now`. Exactly the requests [`admits`] allows get
    /// in; an admitted request is recorded, and entries that left the
    /// byte window are pruned either way.
    #[verifier::rlimit(50)]
    pub fn allow(&mut self, now: u32, src: u64, size: u64) -> (r: bool)
        requires
            old(self).wf(),
        ensures
            final (self).wf(),
            final (self).rate_cap() == old(self).rate_cap(),
            final (self).byte_budget() == old(self).byte_budget(),
            r == admits(old(self).log_of(src), old(self).rate_cap(), old(self).byte_budget(), now, size),
            final (self).log_of(src) == if r {
                old(self).log_of(src).filter(byte_window_pred(now)).push((now, size))
            } else {
                old(self).log_of(src).filter(byte_window_pred(now))
            },
            forall|s: u64| s != src ==> final (self).log_of(s) == old(self).log_of(s),
    {
        broadcast use vstd::seq_lib::group_filter_ensures;

        let ghost log = self.log_of(src);
        let budget = self.byte_budget;
        let rate_cap = self.rate_cap;
        let mut pruned: Vec<(u32, u64)> = Vec::new();
        let mut count: usize = 0;
        let mut bytes: u64 = 0;
        proof {
            reveal(Seq::filter);
            assert(log.take(0) =~= Seq::<(u32, u64)>::empty());
        }
        if let Some(v) = self.sources.get(src) {
            let n = v.len();
            let mut i: usize = 0;
            while i < n
                invariant
                    i <= n,
                    n == v@.len(),
                    v@ == log,
                    sum_sizes(log) <= budget,
                    pruned@ == log.take(i as int).filter(byte_window_pred(now)),
                    count == log.take(i as int).filter(rate_window_pred(now)).len(),
                    count <= i,
                    bytes == sum_sizes(pruned@),
                    bytes <= budget,
                decreases n - i,
            {
                let e = v[i];
                proof {
                    reveal(Seq::filter);
                    assert(log.take(i as int + 1).drop_last() =~= log.take(i as int));
                    assert(log.take(i as int + 1).last() == log[i as int]);
                    lemma_sum_filter_le(log.take(i as int + 1), byte_window_pred(now));
                    lemma_sum_take_le(log, i as int + 1);
                    lemma_sum_nonneg(log.take(i as int + 1).filter(byte_window_pred(now)));
                }
                let ghost t1 = log.take(i as int + 1);
                let ghost fb0 = log.take(i as int).filter(byte_window_pred(now));
                let ghost fr0 = log.take(i as int).filter(rate_window_pred(now));
                if (now as u64) < (e.0 as u64) + (BYTE_WINDOW as u64) {
                    proof {
                        assert(byte_window_pred(now)(log[i as int]));
                        assert(t1.filter(byte_window_pred(now)) == fb0.push(log[i as int]));
                        assert(fb0.push(log[i as int]).drop_last() =~= fb0);
                        assert(sum_sizes(fb0.push(log[i as int])) == sum_sizes(fb0) + log[i
                            as int].1);
                        assert(sum_sizes(fb0) + log[i as int].1 <= budget);
                    }
                    pruned.push(e);
                    bytes = bytes + e.1;
                    if (now as u64) < (e.0 as u64) + (RATE_WINDOW as u64) {
                        proof {
                            assert(rate_window_pred(now)(log[i as int]));
                            assert(t1.filter(rate_window_pred(now)) == fr0.push(log[i as int]));
                        }
                        count = count + 1;
                    } else {
                        proof {
                            assert(!rate_window_pred(now)(log[i as int]));
                            assert(t1.filter(rate_window_pred(now)) == fr0);
                        }
                    }
                } else {
                    proof {
                        assert(!byte_window_pred(now)(log[i as int]));
                        assert(!rate_window_pred(now)(log[i as int]));
                        assert(t1.filter(byte_window_pred(now)) == fb0);
                        assert(t1.filter(rate_window_pred(now)) == fr0);
                    }
                }
                i = i + 1;
            }
            proof {
                assert(log.take(n as int) =~= log);
            }
        } else {
            proof {
                assert(log =~= Seq::<(u32, u64)>::empty());
                assert(log.filter(byte_window_pred(now)) =~= Seq::<(u32, u64)>::empty());
                assert(log.filter(rate_window_pred(now)) =~= Seq::<(u32, u64)>::empty());
            }
        }
        let admitted = (count as u64) < (rate_cap as u64) && size <= budget && bytes <= budget
            - size;
        if admitted {
            pruned.push((now, size));
            proof {
                assert(pruned@.drop_last() =~= log.filter(byte_window_pred(now)));
            }
        }
        let ghost newlog = pruned@;
        self.sources.insert(src, pruned);
        proof {
            assert(self.log_of(src) == newlog);
            assert(sum_sizes(newlog) <= budget);
            assert forall|s: u64| sum_sizes(#[trigger] self.log_of(s)) <= self.byte_budget by {
                if s != src {
                    assert(self.log_of(s) == old(self).log_of(s));
                }
            }
            assert forall|s: u64| s != src implies #[trigger] self.log_of(s) == old(self).log_of(
                s,
            ) by {}
        }
        admitted
    }
}

/// Law: a source with fewer admitted requests in the rate window than
/// the cap and room in the byte budget is admitted; once the window
/// holds as many admitted requests as the cap, the next request is
/// rejected whatever its size.
pub proof fn lemma_rate_cap(log: Seq<(u32, u64)>, cap: u32, budget: u64, now: u32, size: u64)
    ensures
        rate_count(log, now) >= cap ==> !admits(log, cap, budget, now, size),
        rate_count(log, now) < cap && bytes_in_window(log, now) + size <= budget ==> admits(
            log,
            cap,
            budget,
            now,
            size,
        ),
{
}

} // verus!
