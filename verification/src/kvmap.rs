//! A small association map with byte-string keys, the backing store of the
//! overlay's in-memory caches.
//!
//! Lookups are linear; the intended sizes (sentinel lines, archive handles,
//! package descriptors) are modest and the contracts stay simple: the map
//! behaves like `find_key` over its entry sequence.

use vstd::prelude::*;

verus! {

use crate::util::bytes_eq;

/// The value bound to `k` in `s`, scanning from the most recent entry.
pub open spec fn find_key<V>(s: Seq<(Vec<u8>, V)>, k: Seq<u8>) -> Option<V>
    decreases s.len(),
{
    if s.len() == 0 {
        None
    } else if s.last().0@ == k {
        Some(s.last().1)
    } else {
        find_key(s.drop_last(), k)
    }
}

/// No two entries share a key.
pub open spec fn distinct_keys<V>(s: Seq<(Vec<u8>, V)>) -> bool {
    forall|i: int, j: int| 0 <= i < j < s.len() ==> (#[trigger] s[i]).0@ != (#[trigger] s[j]).0@
}


/// A bound key is bound at some position.
pub proof fn lemma_find_key_some_index<V>(s: Seq<(Vec<u8>, V)>, k: Seq<u8>)
    requires
        find_key(s, k) is Some,
    ensures
        exists|i: int|
            0 <= i < s.len() && (#[trigger] s[i]).0@ == k && find_key(s, k) == Some(s[i].1),
    decreases s.len(),
{
    if s.len() == 0 {
    } else if s.last().0@ == k {
        assert(s[s.len() - 1].0@ == k && find_key(s, k) == Some(s[s.len() - 1].1));
    } else {
        lemma_find_key_some_index(s.drop_last(), k);
        let i = choose|i: int|
            0 <= i < s.drop_last().len() && (#[trigger] s.drop_last()[i]).0@ == k && find_key(
                s.drop_last(),
                k,
            ) == Some(s.drop_last()[i].1);
        assert(s[i].0@ == k && find_key(s, k) == Some(s[i].1));
    }
}

/// In a distinct-keys sequence, the entry at `i` is what `find_key` returns
/// for its key.
pub proof fn lemma_find_key_at<V>(s: Seq<(Vec<u8>, V)>, i: int)
    requires
        distinct_keys(s),
        0 <= i < s.len(),
    ensures
        find_key(s, s[i].0@) == Some(s[i].1),
    decreases s.len(),
{
    if i == s.len() - 1 {
    } else {
        assert(s[i].0@ != s[s.len() - 1].0@);
        lemma_find_key_at(s.drop_last(), i);
        assert(s.drop_last()[i] == s[i]);
    }
}

/// Replacing the entry at `i` by one with the same key rebinds that key and
/// nothing else.
pub proof fn lemma_find_key_update<V>(s: Seq<(Vec<u8>, V)>, i: int, e: (Vec<u8>, V), k: Seq<u8>)
    requires
        0 <= i < s.len(),
        e.0@ == s[i].0@,
        distinct_keys(s),
    ensures
        find_key(s.update(i, e), k) == if k == e.0@ {
            Some(e.1)
        } else {
            find_key(s, k)
        },
    decreases s.len(),
{
    let t = s.update(i, e);
    if i == s.len() - 1 {
        assert(t.last() == e);
        assert(t.drop_last() =~= s.drop_last());
        if k != e.0@ {
            assert(find_key(s, k) == find_key(s.drop_last(), k));
        } else {
            if s.last().0@ != k {
                lemma_find_key_none_absent(s.drop_last(), k);
            }
        }
    } else {
        assert(t.last() == s.last());
        assert(t.drop_last() =~= s.drop_last().update(i, e));
        lemma_find_key_update(s.drop_last(), i, e, k);
        if k == e.0@ {
            assert(s[i].0@ != s[s.len() - 1].0@);
            assert(t.last().0@ != k);
        }
    }
}

/// A key that no entry carries is unbound.
pub proof fn lemma_find_key_none_absent<V>(s: Seq<(Vec<u8>, V)>, k: Seq<u8>)
    requires
        forall|i: int| 0 <= i < s.len() ==> (#[trigger] s[i]).0@ != k,
    ensures
        find_key(s, k) is None,
    decreases s.len(),
{
    if s.len() > 0 {
        lemma_find_key_none_absent(s.drop_last(), k);
    }
}

/// An association map from byte-string keys to values.
pub struct KvMap<V> {
    entries: Vec<(Vec<u8>, V)>,
}

impl<V> KvMap<V> {
    /// The entry sequence; contracts speak of `find_key` over it.
    pub closed spec fn entries_view(&self) -> Seq<(Vec<u8>, V)> {
        self.entries@
    }

    /// The binding of `k`.
    pub open spec fn spec_get(&self, k: Seq<u8>) -> Option<V> {
        find_key(self.entries_view(), k)
    }

    /// The map never holds two entries for one key.
    pub open spec fn wf(&self) -> bool {
        distinct_keys(self.entries_view())
    }

    /// The number of keys bound.
    pub open spec fn spec_len(&self) -> nat {
        self.entries_view().len()
    }

    pub fn new() -> (r: Self)
        ensures
            r.wf(),
            r.spec_len() == 0,
            forall|k: Seq<u8>| r.spec_get(k) is None,
    {
        let r = KvMap { entries: Vec::new() };
        proof {
            assert forall|k: Seq<u8>| r.spec_get(k) is None by {
                assert(r.entries@.len() == 0);
            }
        }
        r
    }

    pub fn len(&self) -> (r: usize)
        ensures
            r == self.spec_len(),
    {
        self.entries.len()
    }

    /// Look `k` up.
    pub fn get(&self, k: &[u8]) -> (r: Option<&V>)
        requires
            self.wf(),
        ensures
            match r {
                Some(v) => self.spec_get(k@) == Some(*v),
                None => self.spec_get(k@) is None,
            },
    {
        let mut i: usize = 0;
        while i < self.entries.len()
            invariant
                self.wf(),
                i <= self.entries@.len(),
                forall|t: int| 0 <= t < i ==> (#[trigger] self.entries@[t]).0@ != k@,
            decreases self.entries.len() - i,
        {
            if bytes_eq(self.entries[i].0.as_slice(), k) {
                proof {
                    lemma_find_key_at(self.entries@, i as int);
                }
                return Some(&self.entries[i].1);
            }
            i += 1;
        }
        proof {
            lemma_find_key_none_absent(self.entries@, k@);
        }
        None
    }

    /// Bind `k` to `v`, replacing any earlier binding.
    pub fn insert(&mut self, k: Vec<u8>, v: V)
        requires
            old(self).wf(),
        ensures
            final(self).wf(),
            final(self).spec_get(k@) == Some(v),
            forall|q: Seq<u8>|
                q != k@ ==> #[trigger] final(self).spec_get(q) == old(self).spec_get(q),
            final(self).spec_len() <= old(self).spec_len() + 1,
            old(self).spec_get(k@) is None ==> final(self).entries_view() == old(
                self,
            ).entries_view().push((k, v)),
            old(self).spec_get(k@) is Some ==> exists|i: int|
                0 <= i < old(self).entries_view().len() && (#[trigger] old(
                    self,
                ).entries_view()[i]).0@ == k@ && final(self).entries_view() == old(
                    self,
                ).entries_view().update(i, (k, v)),
    {
        let ghost s0 = self.entries@;
        let mut i: usize = 0;
        while i < self.entries.len()
            invariant
                self.entries@ == s0,
                s0 == old(self).entries_view(),
                distinct_keys(s0),
                i <= s0.len(),
                forall|t: int| 0 <= t < i ==> (#[trigger] s0[t]).0@ != k@,
            decreases self.entries.len() - i,
        {
            if bytes_eq(self.entries[i].0.as_slice(), k.as_slice()) {
                proof {
                    lemma_find_key_at(s0, i as int);
                }
                self.entries.remove(i);
                self.entries.insert(i, (k, v));
                proof {
                    assert(self.entries@ =~= s0.update(i as int, self.entries@[i as int]));
                    assert(s0[i as int].0@ == k@);
                    assert(self.entries@[i as int] == (k, v));
                    assert(find_key(s0, k@) is Some);
                    assert(self.entries@ == s0.update(i as int, (k, v)));
                    let ii: int = i as int;
                    assert(exists|t: int|
                        0 <= t < old(self).entries_view().len() && (#[trigger] old(
                            self,
                        ).entries_view()[t]).0@ == k@ && self.entries@ == old(
                            self,
                        ).entries_view().update(t, (k, v))) by {
                        assert(0 <= ii < old(self).entries_view().len() && (old(
                            self,
                        ).entries_view()[ii]).0@ == k@ && self.entries@ == old(
                            self,
                        ).entries_view().update(ii, (k, v)));
                    }
                    assert forall|q: Seq<u8>| true implies #[trigger] find_key(
                        self.entries@,
                        q,
                    ) == if q == self.entries@[i as int].0@ {
                        Some(self.entries@[i as int].1)
                    } else {
                        find_key(s0, q)
                    } by {
                        lemma_find_key_update(s0, i as int, self.entries@[i as int], q);
                    }
                    assert forall|a: int, b: int|
                        0 <= a < b < self.entries@.len() implies (#[trigger] self.entries@[a]).0@
                        != (#[trigger] self.entries@[b]).0@ by {
                        assert(s0[a].0@ != s0[b].0@);
                    }
                }
                return ;
            }
            i += 1;
        }
        self.entries.push((k, v));
        proof {
            lemma_find_key_none_absent(s0, k@);
            assert(self.entries@.drop_last() =~= s0);
            assert(find_key(self.entries@, k@) == Some(v));
            assert forall|q: Seq<u8>| q != k@ implies #[trigger] find_key(self.entries@, q)
                == find_key(s0, q) by {
                assert(self.entries@.last().0@ == k@);
            }
        }
    }

    /// Drop every binding.
    pub fn clear(&mut self)
        ensures
            final(self).wf(),
            final(self).spec_len() == 0,
            forall|k: Seq<u8>| final(self).spec_get(k) is None,
    {
        self.entries.clear();
        proof {
            assert forall|k: Seq<u8>| final(self).spec_get(k) is None by {
                assert(self.entries@.len() == 0);
            }
        }
    }

    /// Remove the entry at position `i`, exposing the keys in order.
    pub fn key_at(&self, i: usize) -> (r: &Vec<u8>)
        requires
            i < self.spec_len(),
        ensures
            r == self.entries_view()[i as int].0,
    {
        &self.entries[i].0
    }

    /// The position of `k`'s entry, if it is bound.
    pub fn index_of(&self, k: &[u8]) -> (r: Option<usize>)
        requires
            self.wf(),
        ensures
            match r {
                Some(i) => i < self.spec_len() && self.entries_view()[i as int].0@ == k@
                    && self.spec_get(k@) == Some(self.entries_view()[i as int].1),
                None => self.spec_get(k@) is None,
            },
    {
        let mut i: usize = 0;
        while i < self.entries.len()
            invariant
                self.wf(),
                i <= self.entries@.len(),
                forall|t: int| 0 <= t < i ==> (#[trigger] self.entries@[t]).0@ != k@,
            decreases self.entries.len() - i,
        {
            if bytes_eq(self.entries[i].0.as_slice(), k) {
                proof {
                    lemma_find_key_at(self.entries@, i as int);
                }
                return Some(i);
            }
            i += 1;
        }
        proof {
            lemma_find_key_none_absent(self.entries@, k@);
        }
        None
    }

    /// The value at position `i`.
    pub fn value_at(&self, i: usize) -> (r: &V)
        requires
            i < self.spec_len(),
        ensures
            r == self.entries_view()[i as int].1,
    {
        &self.entries[i].1
    }

    /// Remove and return the binding at position `i`.
    pub fn take_at(&mut self, i: usize) -> (r: (Vec<u8>, V))
        requires
            old(self).wf(),
            i < old(self).spec_len(),
        ensures
            final(self).wf(),
            r == old(self).entries_view()[i as int],
            final(self).entries_view() == old(self).entries_view().remove(i as int),
            final(self).spec_get(r.0@) is None,
            forall|q: Seq<u8>|
                q != old(self).entries_view()[i as int].0@ ==> #[trigger] final(self).spec_get(q)
                    == old(self).spec_get(q),
    {
        let ghost s0 = self.entries@;
        let r = self.entries.remove(i);
        proof {
            lemma_find_key_remove(s0, i as int);
        }
        r
    }

    /// Remove the binding at position `i`.
    pub fn remove_at(&mut self, i: usize)
        requires
            old(self).wf(),
            i < old(self).spec_len(),
        ensures
            final(self).wf(),
            final(self).entries_view() == old(self).entries_view().remove(i as int),
            final(self).spec_get(old(self).entries_view()[i as int].0@) is None,
            forall|q: Seq<u8>|
                q != old(self).entries_view()[i as int].0@ ==> #[trigger] final(self).spec_get(q)
                    == old(self).spec_get(q),
    {
        let ghost s0 = self.entries@;
        self.entries.remove(i);
        proof {
            lemma_find_key_remove(s0, i as int);
        }
    }
}

/// Removing the entry at `i` unbinds its key and nothing else.
pub proof fn lemma_find_key_remove<V>(s: Seq<(Vec<u8>, V)>, i: int)
    requires
        distinct_keys(s),
        0 <= i < s.len(),
    ensures
        distinct_keys(s.remove(i)),
        find_key(s.remove(i), s[i].0@) is None,
        forall|q: Seq<u8>|
            q != s[i].0@ ==> #[trigger] find_key(s.remove(i), q) == find_key(s, q),
{
    let t = s.remove(i);
    assert forall|a: int, b: int| 0 <= a < b < t.len() implies (#[trigger] t[a]).0@
        != (#[trigger] t[b]).0@ by {
        let a0 = if a < i {
            a
        } else {
            a + 1
        };
        let b0 = if b < i {
            b
        } else {
            b + 1
        };
        assert(t[a] == s[a0] && t[b] == s[b0]);
    }
    assert forall|t0: int| 0 <= t0 < t.len() implies (#[trigger] t[t0]).0@ != s[i].0@ by {
        let t1 = if t0 < i {
            t0
        } else {
            t0 + 1
        };
        assert(t[t0] == s[t1]);
    }
    lemma_find_key_none_absent(t, s[i].0@);
    assert forall|q: Seq<u8>| q != s[i].0@ implies #[trigger] find_key(t, q) == find_key(s, q) by {
        lemma_find_key_remove_other(s, i, q);
    }
}

proof fn lemma_find_key_remove_other<V>(s: Seq<(Vec<u8>, V)>, i: int, q: Seq<u8>)
    requires
        distinct_keys(s),
        0 <= i < s.len(),
        q != s[i].0@,
    ensures
        find_key(s.remove(i), q) == find_key(s, q),
    decreases s.len(),
{
    let t = s.remove(i);
    if i == s.len() - 1 {
        assert(t =~= s.drop_last());
        assert(find_key(s, q) == find_key(s.drop_last(), q));
    } else {
        assert(t.last() == s.last());
        assert(t.drop_last() =~= s.drop_last().remove(i));
        if s.last().0@ == q {
        } else {
            assert(distinct_keys(s.drop_last())) by {
                assert forall|a: int, b: int|
                    0 <= a < b < s.drop_last().len() implies (#[trigger] s.drop_last()[a]).0@
                    != (#[trigger] s.drop_last()[b]).0@ by {
                    assert(s.drop_last()[a] == s[a] && s.drop_last()[b] == s[b]);
                }
            }
            lemma_find_key_remove_other(s.drop_last(), i, q);
        }
    }
}

} // verus!
