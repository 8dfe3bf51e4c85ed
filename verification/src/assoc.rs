//! A small finite map from a numeric key to a value, kept as an
//! association list with unique keys. The peer manager, the mempool and
//! the firewall all key their tables by a number (an IP, a transaction
//! identifier), and every operation here is specified against the
//! abstract `Map` the entries spell out.

use vstd::prelude::*;

verus! {

/// No two entries carry the same key.
pub open spec fn unique_keys<V>(s: Seq<(u64, V)>) -> bool {
    forall|i: int, j: int| 0 <= i < j < s.len() ==> (#[trigger] s[i]).0 != (#[trigger] s[j]).0
}

/// Some entry carries the key `k`.
pub open spec fn keyed<V>(s: Seq<(u64, V)>, k: u64) -> bool {
    exists|i: int| 0 <= i < s.len() && (#[trigger] s[i]).0 == k
}

/// The finite map an association list spells out. With unique keys the
/// chosen witness index is the only one, so the map is well defined.
pub open spec fn assoc_view<V>(s: Seq<(u64, V)>) -> Map<u64, V> {
    Map::new(
        |k: u64| keyed(s, k),
        |k: u64| s[choose|i: int| 0 <= i < s.len() && (#[trigger] s[i]).0 == k].1,
    )
}

/// Membership in the view is exactly `keyed`.
pub proof fn lemma_view_contains<V>(s: Seq<(u64, V)>, k: u64)
    ensures
        assoc_view(s).contains_key(k) <==> keyed(s, k),
{
}

/// With unique keys, the entry at any index gives the view's value at
/// that entry's key.
pub proof fn lemma_view_index<V>(s: Seq<(u64, V)>, i: int)
    requires
        unique_keys(s),
        0 <= i < s.len(),
    ensures
        assoc_view(s).contains_key(s[i].0),
        assoc_view(s)[s[i].0] == s[i].1,
{
    let k = s[i].0;
    assert(keyed(s, k));
    let j = choose|j: int| 0 <= j < s.len() && (#[trigger] s[j]).0 == k;
    if j < i {
        assert((s[j]).0 != (s[i]).0);
    } else if i < j {
        assert((s[i]).0 != (s[j]).0);
    }
}

/// Pushing a fresh key is a map insert.
pub proof fn lemma_view_push<V>(s: Seq<(u64, V)>, k: u64, v: V)
    requires
        unique_keys(s),
        !keyed(s, k),
    ensures
        unique_keys(s.push((k, v))),
        assoc_view(s.push((k, v))) == assoc_view(s).insert(k, v),
{
    let t = s.push((k, v));
    assert forall|i: int, j: int| 0 <= i < j < t.len() implies (#[trigger] t[i]).0 != (
    #[trigger] t[j]).0 by {
        if j < s.len() {
            assert(t[i] == s[i] && t[j] == s[j]);
        } else {
            assert(t[j].0 == k);
            assert(t[i] == s[i]);
        }
    }
    assert forall|x: u64| #[trigger] assoc_view(t).contains_key(x) <==> assoc_view(s).insert(
        k,
        v,
    ).contains_key(x) by {
        lemma_view_contains(t, x);
        lemma_view_contains(s, x);
        if keyed(s, x) {
            let i = choose|i: int| 0 <= i < s.len() && (#[trigger] s[i]).0 == x;
            assert(t[i] == s[i]);
            assert(keyed(t, x));
        }
        if x != k && keyed(t, x) {
            let i = choose|i: int| 0 <= i < t.len() && (#[trigger] t[i]).0 == x;
            assert(i < s.len());
            assert(s[i] == t[i]);
            assert(keyed(s, x));
        }
        if x == k {
            assert(t[s.len() as int].0 == k);
            assert(keyed(t, k));
        }
    }
    assert forall|x: u64| assoc_view(t).contains_key(x) implies #[trigger] assoc_view(t)[x]
        == assoc_view(s).insert(k, v)[x] by {
        if x == k {
            lemma_view_index(t, s.len() as int);
        } else {
            lemma_view_contains(t, x);
            let i = choose|i: int| 0 <= i < t.len() && (#[trigger] t[i]).0 == x;
            assert(i < s.len());
            assert(t[i] == s[i]);
            lemma_view_index(t, i);
            lemma_view_index(s, i);
        }
    }
    assert(assoc_view(t) =~= assoc_view(s).insert(k, v));
}

/// Removing the entry at an index is a map remove of that entry's key.
pub proof fn lemma_view_remove<V>(s: Seq<(u64, V)>, i: int)
    requires
        unique_keys(s),
        0 <= i < s.len(),
    ensures
        unique_keys(s.remove(i)),
        assoc_view(s.remove(i)) == assoc_view(s).remove(s[i].0),
{
    let t = s.remove(i);
    let k = s[i].0;
    s.remove_ensures(i);
    assert forall|a: int, b: int| 0 <= a < b < t.len() implies (#[trigger] t[a]).0 != (
    #[trigger] t[b]).0 by {
        let sa: int = if a < i { a } else { a + 1 };
        let sb: int = if b < i { b } else { b + 1 };
        assert(t[a] == s[sa]);
        assert(t[b] == s[sb]);
        assert((s[sa]).0 != (s[sb]).0);
    }
    assert forall|x: u64| #[trigger] assoc_view(t).contains_key(x) <==> assoc_view(s).remove(
        k,
    ).contains_key(x) by {
        lemma_view_contains(t, x);
        lemma_view_contains(s, x);
        if keyed(t, x) {
            let a = choose|a: int| 0 <= a < t.len() && (#[trigger] t[a]).0 == x;
            let sa: int = if a < i { a } else { a + 1 };
            assert(t[a] == s[sa]);
            assert(keyed(s, x));
            if x == k {
                if sa < i {
                    assert((s[sa]).0 != (s[i]).0);
                } else {
                    assert((s[i]).0 != (s[sa]).0);
                }
            }
        }
        if x != k && keyed(s, x) {
            let a = choose|a: int| 0 <= a < s.len() && (#[trigger] s[a]).0 == x;
            if a < i {
                assert(t[a] == s[a]);
                assert(keyed(t, x));
            } else if a == i {
                assert(false);
            } else {
                assert(t[a - 1] == s[a]);
                assert(keyed(t, x));
            }
        }
    }
    assert forall|x: u64| assoc_view(t).contains_key(x) implies #[trigger] assoc_view(t)[x]
        == assoc_view(s).remove(k)[x] by {
        lemma_view_contains(t, x);
        let a = choose|a: int| 0 <= a < t.len() && (#[trigger] t[a]).0 == x;
        let sa: int = if a < i { a } else { a + 1 };
        assert(t[a] == s[sa]);
        lemma_view_index(t, a);
        lemma_view_index(s, sa);
    }
    assert(assoc_view(t) =~= assoc_view(s).remove(k));
}

/// With unique keys the view's domain is finite and as large as the list.
pub proof fn lemma_view_dom_len<V>(s: Seq<(u64, V)>)
    requires
        unique_keys(s),
    ensures
        assoc_view(s).dom().finite(),
        assoc_view(s).dom().len() == s.len(),
    decreases s.len(),
{
    broadcast use vstd::set::group_set_axioms;

    if s.len() == 0 {
        assert(assoc_view(s) =~= Map::<u64, V>::empty());
        assert(assoc_view(s).dom() =~= Set::<u64>::empty());
    } else {
        let s0 = s.drop_last();
        let last = s.last();
        assert forall|i: int, j: int| 0 <= i < j < s0.len() implies (#[trigger] s0[i]).0 != (
        #[trigger] s0[j]).0 by {
            assert(s0[i] == s[i] && s0[j] == s[j]);
        }
        assert forall|i: int| 0 <= i < s0.len() implies (#[trigger] s0[i]).0 != last.0 by {
            assert(s0[i] == s[i]);
            assert((s[i]).0 != (s[s.len() - 1]).0);
        }
        assert(!keyed(s0, last.0));
        assert(s =~= s0.push((last.0, last.1)));
        lemma_view_push(s0, last.0, last.1);
        lemma_view_dom_len(s0);
        lemma_view_contains(s0, last.0);
        assert(assoc_view(s).dom() =~= assoc_view(s0).dom().insert(last.0));
    }
}

/// An association list from a numeric key to a value, with unique keys.
/// Its abstract view (`m@`) is the finite map the entries spell out.
pub struct AssocMap<V> {
    entries: Vec<(u64, V)>,
}

impl<V> View for AssocMap<V> {
    type V = Map<u64, V>;

    open spec fn view(&self) -> Map<u64, V> {
        assoc_view(self.kvs())
    }
}

impl<V> AssocMap<V> {
    /// The raw entry sequence, for callers that walk the table by index.
    pub closed spec fn kvs(&self) -> Seq<(u64, V)> {
        self.entries@
    }

    /// Representation invariant: no key occurs twice.
    pub open spec fn wf(&self) -> bool {
        unique_keys(self.kvs())
    }

    /// The empty map.
    pub fn new() -> (m: Self)
        ensures
            m.wf(),
            m@ == Map::<u64, V>::empty(),
            m.kvs() == Seq::<(u64, V)>::empty(),
    {
        let m = AssocMap { entries: Vec::new() };
        proof {
            assert(m@ =~= Map::<u64, V>::empty());
        }
        m
    }

    /// Number of entries, which equals the size of the view's domain.
    pub fn len(&self) -> (n: usize)
        requires
            self.wf(),
        ensures
            n == self.kvs().len(),
            n == self@.dom().len(),
            self@.dom().finite(),
    {
        proof {
            lemma_view_dom_len(self.kvs());
        }
        self.entries.len()
    }

    /// The entry at an index, for walking the table.
    pub fn pair_at(&self, i: usize) -> (r: &(u64, V))
        requires
            i < self.kvs().len(),
        ensures
            *r == self.kvs()[i as int],
    {
        &self.entries[i]
    }

    fn find_index(&self, k: u64) -> (r: Option<usize>)
        ensures
            match r {
                Some(i) => i < self.kvs().len() && self.kvs()[i as int].0 == k,
                None => !keyed(self.kvs(), k),
            },
    {
        let n = self.entries.len();
        let mut i: usize = 0;
        while i < n
            invariant
                i <= n,
                n == self.kvs().len(),
                forall|j: int| 0 <= j < i ==> (#[trigger] self.kvs()[j]).0 != k,
            decreases n - i,
        {
            if self.entries[i].0 == k {
                return Some(i);
            }
            i = i + 1;
        }
        None
    }

    /// Whether the map holds the key.
    pub fn contains_key(&self, k: u64) -> (r: bool)
        ensures
            r == self@.contains_key(k),
    {
        proof {
            lemma_view_contains(self.kvs(), k);
        }
        match self.find_index(k) {
            Some(_) => true,
            None => false,
        }
    }

    /// Look a key up.
    pub fn get(&self, k: u64) -> (r: Option<&V>)
        requires
            self.wf(),
        ensures
            match r {
                Some(v) => self@.contains_key(k) && *v == self@[k],
                None => !self@.contains_key(k),
            },
    {
        match self.find_index(k) {
            Some(i) => {
                proof {
                    lemma_view_index(self.kvs(), i as int);
                }
                Some(&self.entries[i].1)
            },
            None => {
                proof {
                    lemma_view_contains(self.kvs(), k);
                }
                None
            },
        }
    }

    /// Insert, overwriting any entry under the same key.
    pub fn insert(&mut self, k: u64, v: V)
        requires
            old(self).wf(),
        ensures
            final(self).wf(),
            final(self)@ == old(self)@.insert(k, v),
            final(self).kvs().len() <= old(self).kvs().len() + 1,
    {
        let ghost s0 = self.kvs();
        match self.find_index(k) {
            Some(i) => {
                let _ = self.entries.remove(i);
                proof {
                    lemma_view_remove(s0, i as int);
                    lemma_view_contains(self.kvs(), k);
                    assert(!self@.contains_key(k));
                }
            },
            None => {},
        }
        let ghost s1 = self.kvs();
        proof {
            lemma_view_contains(s1, k);
        }
        self.entries.push((k, v));
        proof {
            lemma_view_push(s1, k, v);
            assert(self@ =~= old(self)@.insert(k, v));
        }
    }

    /// Remove a key; a no-op if the key is absent.
    pub fn remove(&mut self, k: u64)
        requires
            old(self).wf(),
        ensures
            final(self).wf(),
            final(self)@ == old(self)@.remove(k),
            final(self).kvs().len() <= old(self).kvs().len(),
    {
        let ghost s0 = self.kvs();
        match self.find_index(k) {
            Some(i) => {
                let _ = self.entries.remove(i);
                proof {
                    lemma_view_remove(s0, i as int);
                }
            },
            None => {
                proof {
                    lemma_view_contains(s0, k);
                    assert(self@ =~= old(self)@.remove(k));
                }
            },
        }
    }
}

} // verus!
