//! The in-memory archive cache: each loaded archive's files, keyed by
//! entry path with the top component stripped, evicted least-recently-used
//! under a byte budget.
//!
//! Recency is a logical counter, not wall time: every access stamps the
//! touched archive with the next tick.

use vstd::prelude::*;

verus! {

use crate::FsError;
use crate::archive::{decode_tgz, tar_entries_view, tar_entry_view, tgz_entries, ArchiveEntry};
use crate::kvmap::{find_key, KvMap};
use crate::text::{find_first, first_index};
use crate::util::{SEP, copy_bytes, is_prefix_of, push_all, subrange_vec};

/// Everything after the first separator, or the whole path when it has
/// none: npm archives root their contents under one top directory.
pub open spec fn strip_first_spec(s: Seq<u8>) -> Seq<u8> {
    let i = first_index(s, SEP);
    if i == s.len() {
        s
    } else {
        s.subrange(i + 1, s.len() as int)
    }
}

/// Strip the first path component.
pub fn strip_first_component(path: &[u8]) -> (r: Vec<u8>)
    ensures
        r@ == strip_first_spec(path@),
{
    let i = find_first(path, SEP);
    if i == path.len() {
        copy_bytes(path)
    } else {
        subrange_vec(path, i + 1, path.len())
    }
}

/// The bytes a fresh decode of `es` serves for the stripped entry path
/// `key`: the last non-directory entry whose stripped path is `key`.
pub open spec fn stripped_lookup(es: Seq<(Seq<u8>, bool, bool, Seq<u8>)>, key: Seq<u8>) -> Option<
    Seq<u8>,
>
    decreases es.len(),
{
    if es.len() == 0 {
        None
    } else {
        let l = es.last();
        if !l.2 && strip_first_spec(l.0) == key {
            Some(l.3)
        } else {
            stripped_lookup(es.drop_last(), key)
        }
    }
}


/// The bytes a loaded archive occupies: the sum of its non-directory
/// entries' sizes.
pub open spec fn entries_total(es: Seq<(Seq<u8>, bool, bool, Seq<u8>)>) -> int
    decreases es.len(),
{
    if es.len() == 0 {
        0
    } else {
        entries_total(es.drop_last()) + if es.last().2 {
            0
        } else {
            es.last().3.len() as int
        }
    }
}

/// A prefix of the entries occupies no more than all of them.
pub proof fn lemma_entries_total_take(es: Seq<(Seq<u8>, bool, bool, Seq<u8>)>, j: int)
    requires
        0 <= j <= es.len(),
    ensures
        entries_total(es.take(j)) <= entries_total(es),
    decreases es.len() - j,
{
    if j == es.len() {
        assert(es.take(j) =~= es);
    } else {
        lemma_entries_total_take(es, j + 1);
        assert(es.take(j + 1).drop_last() =~= es.take(j));
        assert(es.take(j + 1).last() == es[j]);
    }
}

/// The bytes a files map holds for `k`.
pub open spec fn files_lookup(files: KvMap<Vec<u8>>, k: Seq<u8>) -> Option<Seq<u8>> {
    match files.spec_get(k) {
        Some(v) => Some(v@),
        None => None,
    }
}

/// The content of one cached archive.
pub struct TgzCacheEntry {
    /// Stripped entry path to file bytes.
    pub files: KvMap<Vec<u8>>,
    /// The sum of the file sizes, as admitted.
    pub total_size: usize,
    /// The logical tick of the last access.
    pub last_accessed: u64,
}

/// The sum of the cached archives' admitted sizes.
pub open spec fn sum_sizes(s: Seq<(Vec<u8>, TgzCacheEntry)>) -> int
    decreases s.len(),
{
    if s.len() == 0 {
        0
    } else {
        sum_sizes(s.drop_last()) + s.last().1.total_size
    }
}

pub proof fn lemma_sum_remove(s: Seq<(Vec<u8>, TgzCacheEntry)>, i: int)
    requires
        0 <= i < s.len(),
    ensures
        sum_sizes(s.remove(i)) == sum_sizes(s) - s[i].1.total_size,
    decreases s.len(),
{
    if i == s.len() - 1 {
        assert(s.remove(i) =~= s.drop_last());
    } else {
        assert(s.remove(i).last() == s.last());
        assert(s.remove(i).drop_last() =~= s.drop_last().remove(i));
        lemma_sum_remove(s.drop_last(), i);
    }
}


pub proof fn lemma_sum_nonneg(s: Seq<(Vec<u8>, TgzCacheEntry)>)
    ensures
        sum_sizes(s) >= 0,
    decreases s.len(),
{
    if s.len() > 0 {
        lemma_sum_nonneg(s.drop_last());
    }
}

/// The entry at `i` is least-recently accessed.
pub open spec fn min_stamp_at(s: Seq<(Vec<u8>, TgzCacheEntry)>, i: int) -> bool {
    &&& 0 <= i < s.len()
    &&& forall|j: int|
        0 <= j < s.len() ==> s[i].1.last_accessed <= (#[trigger] s[j]).1.last_accessed
}

/// Between two cache states, every archive bound in both is at least as
/// recently accessed as every archive that went away: evictions take the
/// least-recently-accessed first.
pub open spec fn lru_preserved(
    before: Seq<(Vec<u8>, TgzCacheEntry)>,
    after: Seq<(Vec<u8>, TgzCacheEntry)>,
) -> bool {
    forall|t1: Seq<u8>, t2: Seq<u8>|
        #[trigger] find_key(after, t1) is Some && find_key(before, t1) is Some && find_key(
            before,
            t2,
        ) is Some && #[trigger] find_key(after, t2) is None ==> find_key(
            before,
            t2,
        ).unwrap().last_accessed <= find_key(before, t1).unwrap().last_accessed
}

/// Chaining LRU eviction steps whose survivors keep their values.
proof fn lemma_lru_trans(
    s1: Seq<(Vec<u8>, TgzCacheEntry)>,
    s2: Seq<(Vec<u8>, TgzCacheEntry)>,
    s3: Seq<(Vec<u8>, TgzCacheEntry)>,
)
    requires
        lru_preserved(s1, s2),
        lru_preserved(s2, s3),
        forall|t: Seq<u8>| #[trigger] find_key(s2, t) is Some ==> find_key(s2, t) == find_key(s1, t),
        forall|t: Seq<u8>| #[trigger] find_key(s3, t) is Some ==> find_key(s3, t) == find_key(s2, t),
    ensures
        lru_preserved(s1, s3),
{
    assert forall|t1: Seq<u8>, t2: Seq<u8>|
        #[trigger] find_key(s3, t1) is Some && find_key(s1, t1) is Some && find_key(s1, t2) is Some
            && #[trigger] find_key(s3, t2) is None implies find_key(
        s1,
        t2,
    ).unwrap().last_accessed <= find_key(s1, t1).unwrap().last_accessed by {
        assert(find_key(s3, t1) == find_key(s2, t1));
        if find_key(s2, t2) is Some {
            assert(find_key(s2, t2) == find_key(s1, t2));
            assert(find_key(s2, t1) == find_key(s1, t1));
        }
    }
}

/// The archive cache.
pub struct TarCache {
    cache: KvMap<TgzCacheEntry>,
    current_size: usize,
    max_size: usize,
    tick: u64,
}

impl TarCache {
    /// The cached archives.
    pub closed spec fn spec_entries(&self) -> Seq<(Vec<u8>, TgzCacheEntry)> {
        self.cache.entries_view()
    }

    /// The cached archive at `tgz`, if loaded.
    pub open spec fn spec_entry(&self, tgz: Seq<u8>) -> Option<TgzCacheEntry> {
        find_key(self.spec_entries(), tgz)
    }

    /// The sum of the cached archives' sizes, as tracked.
    pub closed spec fn spec_current(&self) -> int {
        self.current_size as int
    }

    /// The byte budget.
    pub closed spec fn spec_max(&self) -> int {
        self.max_size as int
    }

    /// The bytes the cache holds for entry `entry` of archive `tgz`.
    pub open spec fn cached_file(&self, tgz: Seq<u8>, entry: Seq<u8>) -> Option<Seq<u8>> {
        match self.spec_entry(tgz) {
            Some(e) => match e.files.spec_get(entry) {
                Some(v) => Some(v@),
                None => None,
            },
            None => None,
        }
    }

    /// The cache's invariant: the tracked size is the sum of the admitted
    /// sizes and never exceeds the budget.
    pub closed spec fn wf(&self) -> bool {
        &&& self.cache.wf()
        &&& self.spec_current() == sum_sizes(self.spec_entries())
        &&& self.spec_current() <= self.spec_max()
        &&& forall|i: int|
            0 <= i < self.spec_entries().len() ==> (#[trigger] self.spec_entries()[i]).1.files.wf()
    }

    /// Law: the sum of the cached archives' admitted sizes never exceeds
    /// the configured budget; every operation preserves this.
    pub proof fn lemma_wf_budget(&self)
        requires
            self.wf(),
        ensures
            sum_sizes(self.spec_entries()) <= self.spec_max(),
    {
    }

    pub fn new(max_size: usize) -> (r: Self)
        ensures
            r.wf(),
            r.spec_max() == max_size,
            r.spec_entries().len() == 0,
    {
        TarCache { cache: KvMap::new(), current_size: 0, max_size, tick: 0 }
    }

    /// Whether `tgz` is loaded.
    pub fn has_tgz(&self, tgz: &[u8]) -> (r: bool)
        requires
            self.wf(),
        ensures
            r == self.spec_entry(tgz@) is Some,
    {
        match self.cache.get(tgz) {
            Some(_) => true,
            None => false,
        }
    }

    fn next_tick(&mut self) -> (r: u64)
        ensures
            final(self).cache == old(self).cache,
            final(self).current_size == old(self).current_size,
            final(self).max_size == old(self).max_size,
    {
        let t = self.tick;
        if self.tick < u64::MAX {
            self.tick = self.tick + 1;
        }
        t
    }

    /// Read one file of a loaded archive, bumping its recency.
    pub fn get_file(&mut self, tgz: &[u8], normalized: &[u8]) -> (r: Option<Vec<u8>>)
        requires
            old(self).wf(),
        ensures
            final(self).wf(),
            match r {
                Some(b) => old(self).cached_file(tgz@, normalized@) == Some(b@),
                None => old(self).cached_file(tgz@, normalized@) is None,
            },
            forall|t: Seq<u8>, e: Seq<u8>|
                #[trigger] final(self).cached_file(t, e) == old(self).cached_file(t, e),
            final(self).spec_current() == old(self).spec_current(),
            final(self).spec_max() == old(self).spec_max(),
            forall|t: Seq<u8>|
                #[trigger] final(self).spec_entry(t) is Some <==> old(self).spec_entry(t) is Some,
    {
        let tk = self.next_tick();
        let ghost s0 = self.cache.entries_view();
        let i = match self.cache.index_of(tgz) {
            Some(i) => i,
            None => {
                proof {
                    assert forall|t: Seq<u8>, e: Seq<u8>|
                        #[trigger] final(self).cached_file(t, e) == old(self).cached_file(
                            t,
                            e,
                        ) by {}
                    ;
                }
                return None;
            },
        };
        let (key, mut entry) = self.cache.take_at(i);
        let ghost cache1 = self.cache;
        let ghost key0 = key@;
        let ghost old_entry = entry;
        let r = match entry.files.get(normalized) {
            Some(v) => Some(copy_bytes(v.as_slice())),
            None => None,
        };
        entry.last_accessed = tk;
        let ghost entry1 = entry;
        let ghost s1 = self.cache.entries_view();
        proof {
            lemma_sum_remove(s0, i as int);
            crate::kvmap::lemma_find_key_at(s0, i as int);
            assert(old_entry == s0[i as int].1);
            assert(entry1.files == old_entry.files);
            assert(entry1.total_size == old_entry.total_size);
        }
        self.cache.insert(key, entry);
        proof {
            assert(self.cache.entries_view() == s1.push((s0[i as int].0, entry1)));
            assert(self.cache.entries_view().drop_last() =~= s1);
            assert(sum_sizes(self.cache.entries_view()) == sum_sizes(s1) + entry1.total_size);
            assert forall|t: Seq<u8>, e: Seq<u8>|
                #[trigger] final(self).cached_file(t, e) == old(self).cached_file(t, e) by {
                if t == key0 {
                    assert(old(self).spec_entry(t) == Some(s0[i as int].1));
                    assert(final(self).spec_entry(t) == Some(entry1));
                } else {
                    assert(self.cache.spec_get(t) == cache1.spec_get(t));
                    assert(cache1.spec_get(t) == find_key(s0, t));
                }
            }
            assert forall|t: Seq<u8>| #[trigger]
                final(self).spec_entry(t) is Some <==> old(self).spec_entry(t) is Some by {
                if t == key0 {
                    assert(old(self).spec_entry(t) == Some(s0[i as int].1));
                    assert(final(self).spec_entry(t) == Some(entry1));
                } else {
                    assert(self.cache.spec_get(t) == cache1.spec_get(t));
                    assert(cache1.spec_get(t) == find_key(s0, t));
                }
            }
            assert forall|i2: int|
                0 <= i2 < self.cache.entries_view().len() implies (#[trigger] self.cache.entries_view()[i2]).1.files.wf() by {
                if i2 < s1.len() {
                    assert(self.cache.entries_view()[i2] == s1[i2]);
                    assert(s1[i2] == s0.remove(i as int)[i2]);
                    if i2 < i as int {
                        assert(s0.remove(i as int)[i2] == s0[i2]);
                    } else {
                        assert(s0.remove(i as int)[i2] == s0[i2 + 1]);
                    }
                } else {
                    assert(self.cache.entries_view()[i2].1 == entry1);
                }
            }
        }
        r
    }

    /// Evict the least-recently-accessed archive.
    pub fn evict_oldest(&mut self)
        requires
            old(self).wf(),
            old(self).spec_entries().len() > 0,
        ensures
            final(self).wf(),
            final(self).spec_entries().len() == old(self).spec_entries().len() - 1,
            final(self).spec_max() == old(self).spec_max(),
            final(self).spec_current() <= old(self).spec_current(),
            forall|t: Seq<u8>|
                #[trigger] final(self).spec_entry(t) is Some ==> final(self).spec_entry(t) == old(self).spec_entry(t),
            exists|i: int|
                #[trigger] min_stamp_at(old(self).spec_entries(), i) && final(self).spec_entries()
                    == old(self).spec_entries().remove(i),
            lru_preserved(old(self).spec_entries(), final(self).spec_entries()),
    {
        let ghost s0 = self.cache.entries_view();
        let n = self.cache.len();
        let mut bi: usize = 0;
        let mut bstamp: u64 = self.cache.value_at(0).last_accessed;
        let mut i: usize = 1;
        while i < n
            invariant
                self.cache.entries_view() == s0,
                n == s0.len(),
                bi < i <= n,
                bstamp == s0[bi as int].1.last_accessed,
                forall|t: int| 0 <= t < i ==> bstamp <= (#[trigger] s0[t]).1.last_accessed,
            decreases n - i,
        {
            let st = self.cache.value_at(i).last_accessed;
            if st < bstamp {
                bi = i;
                bstamp = st;
            }
            i += 1;
        }
        proof {
            assert(min_stamp_at(s0, bi as int));
        }
        let sz = self.cache.value_at(bi).total_size;
        proof {
            lemma_sum_remove(s0, bi as int);
            lemma_sum_nonneg(s0.remove(bi as int));
            crate::kvmap::lemma_find_key_at(s0, bi as int);
        }
        self.cache.remove_at(bi);
        self.current_size = self.current_size - sz;
        proof {
            let ghost s1 = self.cache.entries_view();
            assert forall|i2: int|
                0 <= i2 < s1.len() implies (#[trigger] s1[i2]).1.files.wf() by {
                if i2 < bi as int {
                    assert(s1[i2] == s0[i2]);
                } else {
                    assert(s1[i2] == s0[i2 + 1]);
                }
            }
            assert forall|t: Seq<u8>|
                #[trigger] final(self).spec_entry(t) is Some implies final(self).spec_entry(t)
                == old(self).spec_entry(t) by {
                if t == s0[bi as int].0@ {
                    assert(self.cache.spec_get(t) is None);
                } else {
                    assert(self.cache.spec_get(t) == find_key(s0, t));
                }
            }
            assert(min_stamp_at(s0, bi as int) && s1 == s0.remove(bi as int));
            assert forall|t1: Seq<u8>, t2: Seq<u8>|
                #[trigger] find_key(s1, t1) is Some && find_key(s0, t1) is Some && find_key(
                    s0,
                    t2,
                ) is Some && #[trigger] find_key(s1, t2) is None implies find_key(
                s0,
                t2,
            ).unwrap().last_accessed <= find_key(s0, t1).unwrap().last_accessed by {
                assert(t2 == s0[bi as int].0@) by {
                    if t2 != s0[bi as int].0@ {
                        assert(self.cache.spec_get(t2) == find_key(s0, t2));
                    }
                }
                assert(find_key(s0, t2) == Some(s0[bi as int].1));
                crate::kvmap::lemma_find_key_some_index(s0, t1);
                let j = choose|j: int|
                    0 <= j < s0.len() && (#[trigger] s0[j]).0@ == t1 && find_key(s0, t1) == Some(
                        s0[j].1,
                    );
                assert(s0[bi as int].1.last_accessed <= s0[j].1.last_accessed);
            }
        }
    }

    /// Admit one decoded archive, evicting older ones until it fits; an
    /// archive larger than the whole budget is not cached.  The byte
    /// budget holds afterwards, as it does after every operation that
    /// preserves `wf`.
    pub fn put_tgz(&mut self, path: Vec<u8>, files: KvMap<Vec<u8>>, total_size: usize)
        requires
            old(self).wf(),
            files.wf(),
        ensures
            final(self).wf(),
            final(self).spec_max() == old(self).spec_max(),
            total_size <= old(self).spec_max() ==> match final(self).spec_entry(path@) {
                Some(e) => e.files == files && e.total_size == total_size,
                None => false,
            },
            total_size > old(self).spec_max() ==> *final(self) == *old(self),
            forall|q: Seq<u8>|
                q != path@ && #[trigger] final(self).spec_entry(q) is Some ==> final(self).spec_entry(q) == old(self).spec_entry(q),
            forall|t1: Seq<u8>, t2: Seq<u8>|
                t1 != path@ && #[trigger] final(self).spec_entry(t1) is Some && old(self).spec_entry(t2) is Some && #[trigger] final(self).spec_entry(t2) is None
                    ==> old(self).spec_entry(t2).unwrap().last_accessed <= old(self).spec_entry(t1).unwrap().last_accessed,
    {
        if total_size > self.max_size {
            return ;
        }
        let tk = self.next_tick();
        while self.current_size > self.max_size - total_size && self.cache.len() > 0
            invariant
                self.wf(),
                total_size <= self.max_size,
                self.max_size == old(self).max_size,
                forall|q: Seq<u8>|
                    #[trigger] self.spec_entry(q) is Some ==> self.spec_entry(q) == old(self).spec_entry(q),
                lru_preserved(old(self).spec_entries(), self.spec_entries()),
            decreases self.cache.spec_len(),
        {
            let ghost selfmid = *self;
            self.evict_oldest();
            proof {
                assert forall|t: Seq<u8>|
                    #[trigger] find_key(selfmid.spec_entries(), t) is Some implies find_key(
                    selfmid.spec_entries(),
                    t,
                ) == find_key(old(self).spec_entries(), t) by {
                    assert(selfmid.spec_entry(t) == find_key(selfmid.spec_entries(), t));
                }
                assert forall|t: Seq<u8>|
                    #[trigger] find_key(self.spec_entries(), t) is Some implies find_key(
                    self.spec_entries(),
                    t,
                ) == find_key(selfmid.spec_entries(), t) by {
                    assert(self.spec_entry(t) == find_key(self.spec_entries(), t));
                }
                lemma_lru_trans(
                    old(self).spec_entries(),
                    selfmid.spec_entries(),
                    self.spec_entries(),
                );
                assert forall|q: Seq<u8>|
                    #[trigger] self.spec_entry(q) is Some implies self.spec_entry(q) == old(self).spec_entry(q) by {
                    assert(selfmid.spec_entry(q) == self.spec_entry(q));
                }
            }
        }
        let ghost selfl = *self;
        let ghost s1 = self.cache.entries_view();
        if self.cache.len() == 0 {
            proof {
                assert(s1.len() == 0);
                assert(sum_sizes(s1) == 0);
            }
        }
        let mut removed: usize = 0;
        match self.cache.index_of(path.as_slice()) {
            Some(i) => {
                proof {
                    lemma_sum_remove(self.cache.entries_view(), i as int);
                    lemma_sum_nonneg(self.cache.entries_view().remove(i as int));
                }
                let (_k, e) = self.cache.take_at(i);
                removed = e.total_size;
                proof {
                    let s2 = self.cache.entries_view();
                    assert forall|i2: int|
                        0 <= i2 < s2.len() implies (#[trigger] s2[i2]).1.files.wf() by {
                        if i2 < i as int {
                            assert(s2[i2] == s1[i2]);
                        } else {
                            assert(s2[i2] == s1[i2 + 1]);
                        }
                    }
                }
            },
            None => {},
        }
        self.current_size = self.current_size - removed;
        let ghost s3 = self.cache.entries_view();
        let ghost cache3 = self.cache;
        let entry = TgzCacheEntry { files, total_size, last_accessed: tk };
        proof {
            assert(self.cache.spec_get(path@) is None) by {
                if removed == 0 {
                }
            }
        }
        self.cache.insert(path, entry);
        self.current_size = self.current_size + total_size;
        proof {
            assert(self.cache.entries_view() == s3.push((path, entry)));
            assert(self.cache.entries_view().drop_last() =~= s3);
            assert(sum_sizes(self.cache.entries_view()) == sum_sizes(s3) + total_size);
            let sf = self.cache.entries_view();
            assert forall|i2: int|
                0 <= i2 < sf.len() implies (#[trigger] sf[i2]).1.files.wf() by {
                if i2 < s3.len() {
                    assert(sf[i2] == s3[i2]);
                } else {
                    assert(sf[i2].1 == entry);
                }
            }
            assert forall|q: Seq<u8>|
                q != path@ && #[trigger] final(self).spec_entry(q) is Some implies final(self).spec_entry(q) == old(self).spec_entry(q) by {
                assert(self.cache.spec_get(q) == cache3.spec_get(q));
                assert(cache3.spec_get(q) == selfl.cache.spec_get(q));
                assert(selfl.spec_entry(q) == selfl.cache.spec_get(q));
                if selfl.spec_entry(q) is Some {
                    assert(selfl.spec_entry(q) == old(self).spec_entry(q));
                }
            }
            assert forall|t1: Seq<u8>, t2: Seq<u8>|
                t1 != path@ && #[trigger] final(self).spec_entry(t1) is Some && old(self).spec_entry(t2) is Some && #[trigger] final(self).spec_entry(t2) is None
                    implies old(self).spec_entry(t2).unwrap().last_accessed <= old(self).spec_entry(t1).unwrap().last_accessed by {
                assert(t2 != path@);
                assert(self.cache.spec_get(t1) == cache3.spec_get(t1));
                assert(cache3.spec_get(t1) == selfl.cache.spec_get(t1));
                assert(selfl.spec_entry(t1) == selfl.cache.spec_get(t1));
                assert(selfl.spec_entry(t1) == old(self).spec_entry(t1));
                assert(self.cache.spec_get(t2) == cache3.spec_get(t2));
                assert(cache3.spec_get(t2) == selfl.cache.spec_get(t2));
                assert(selfl.spec_entry(t2) == selfl.cache.spec_get(t2));
                assert(find_key(selfl.spec_entries(), t1) is Some);
                assert(find_key(selfl.spec_entries(), t2) is None);
                assert(find_key(old(self).spec_entries(), t2).unwrap().last_accessed <= find_key(
                    old(self).spec_entries(),
                    t1,
                ).unwrap().last_accessed);
            }
        }
    }

    /// Decode `bytes` and admit the archive at `path`.  Once admitted, the
    /// cache serves for each stripped entry path exactly what a fresh
    /// decode of `bytes` serves; an archive over budget is not admitted.
    pub fn load_tgz(&mut self, path: &[u8], bytes: &[u8]) -> (r: Result<bool, FsError>)
        requires
            old(self).wf(),
        ensures
            final(self).wf(),
            final(self).spec_max() == old(self).spec_max(),
            match r {
                Ok(admitted) => tgz_entries(bytes@) is Some && (admitted <==> entries_total(
                    tgz_entries(bytes@).unwrap(),
                ) <= old(self).spec_max()) && (admitted ==> forall|e: Seq<u8>|
                    #[trigger] final(self).cached_file(path@, e) == stripped_lookup(
                        tgz_entries(bytes@).unwrap(),
                        e,
                    )) && (!admitted ==> *final(self) == *old(self)),
                Err(err) => err == FsError::MalformedInput && tgz_entries(bytes@) is None
                    && *final(self) == *old(self),
            },
            forall|q: Seq<u8>|
                q != path@ && #[trigger] final(self).spec_entry(q) is Some ==> final(self).spec_entry(q) == old(self).spec_entry(q),
            forall|t1: Seq<u8>, t2: Seq<u8>|
                t1 != path@ && #[trigger] final(self).spec_entry(t1) is Some && old(self).spec_entry(t2) is Some && #[trigger] final(self).spec_entry(t2) is None
                    ==> old(self).spec_entry(t2).unwrap().last_accessed <= old(self).spec_entry(t1).unwrap().last_accessed,
    {
        let entries = match decode_tgz(bytes) {
            Some(es) => es,
            None => {
                return Err(FsError::MalformedInput);
            },
        };
        let ghost es = tar_entries_view(entries@);
        let ghost n = es.len();
        let mut files: KvMap<Vec<u8>> = KvMap::new();
        let mut total: usize = 0;
        let mut rest = entries;
        proof {
            assert(es.take(0) =~= Seq::<(Seq<u8>, bool, bool, Seq<u8>)>::empty());
            assert(tar_entries_view(rest@) =~= es.skip(0));
        }
        while rest.len() > 0
            invariant
                self == old(self),
                old(self).wf(),
                rest@.len() <= n,
                n == es.len(),
                es == tgz_entries(bytes@).unwrap(),
                tgz_entries(bytes@) is Some,
                tar_entries_view(rest@) == es.skip(n - rest@.len()),
                files.wf(),
                total <= self.max_size,
                total == entries_total(es.take(n - rest@.len())),
                forall|k: Seq<u8>|
                    #[trigger] files_lookup(files, k) == stripped_lookup(
                        es.take(n - rest@.len()),
                        k,
                    ),
            decreases rest.len(),
        {
            let ghost i = n - rest@.len();
            let ghost rv = rest@;
            let e = rest.remove(0);
            proof {
                assert(e == rv[0]);
                assert(rest@ =~= rv.subrange(1, rv.len() as int));
                assert(tar_entries_view(rv) == es.skip(i));
                assert(tar_entry_view(e) == tar_entries_view(rv)[0]);
                assert(tar_entry_view(e) == es[i as int]);
                assert(tar_entries_view(rest@) =~= es.skip(i + 1)) by {
                    assert forall|t: int| 0 <= t < rest@.len() implies tar_entries_view(rest@)[t]
                        == es.skip(i + 1)[t] by {
                        assert(tar_entries_view(rest@)[t] == tar_entry_view(rest@[t]));
                        assert(rest@[t] == rv[t + 1]);
                        assert(tar_entries_view(rv)[t + 1] == tar_entry_view(rv[t + 1]));
                        assert(es.skip(i)[t + 1] == es[i + 1 + t]);
                        assert(es.skip(i + 1)[t] == es[i + 1 + t]);
                    }
                    assert(tar_entries_view(rest@).len() == es.skip(i + 1).len());
                };
                assert(es.take(i + 1).drop_last() =~= es.take(i as int));
                assert(es.take(i + 1).last() == es[i as int]);
            }
            if !e.is_dir {
                let norm = strip_first_component(e.path.as_slice());
                let data = e.data;
                if data.len() > self.max_size - total {
                    proof {
                        assert(entries_total(es.take(i + 1)) == total + data@.len());
                        lemma_entries_total_take(es, i + 1);
                        assert(entries_total(es) > old(self).spec_max());
                    }
                    return Ok(false);
                }
                total = total + data.len();
                let ghost files0 = files;
                let ghost normv = norm@;
                let ghost dv = data@;
                files.insert(norm, data);
                proof {
                    assert(es[i as int].2 == false);
                    assert(strip_first_spec(es[i as int].0) == normv);
                    assert(es[i as int].3 == dv);
                    assert forall|k: Seq<u8>|
                        #[trigger] files_lookup(files, k) == stripped_lookup(
                            es.take(i + 1),
                            k,
                        ) by {
                        if k == normv {
                            assert(files_lookup(files, k) == Some(dv));
                            assert(es.take(i + 1).last() == es[i as int]);
                            assert(stripped_lookup(es.take(i + 1), k) == Some(es[i as int].3));
                        } else {
                            assert(files.spec_get(k) == files0.spec_get(k));
                            assert(files_lookup(files0, k) == stripped_lookup(
                                es.take(i as int),
                                k,
                            ));
                            assert(stripped_lookup(es.take(i + 1), k) == stripped_lookup(
                                es.take(i as int),
                                k,
                            ));
                        }
                    }
                }
            } else {
                proof {
                    assert(entries_total(es.take(i + 1)) == entries_total(es.take(i as int)));
                    assert forall|k: Seq<u8>|
                        #[trigger] files_lookup(files, k) == stripped_lookup(
                            es.take(i + 1),
                            k,
                        ) by {
                        assert(files_lookup(files, k) == stripped_lookup(es.take(i as int), k));
                    }
                }
            }
        }
        proof {
            assert(es.take(n as int) =~= es);
            assert(total == entries_total(es));
        }
        let ghost files_final = files;
        let key = copy_bytes(path);
        self.put_tgz(key, files, total);
        proof {
            assert forall|e: Seq<u8>|
                #[trigger] final(self).cached_file(path@, e) == stripped_lookup(
                    tgz_entries(bytes@).unwrap(),
                    e,
                ) by {
                assert(final(self).spec_entry(path@) is Some);
                assert(final(self).spec_entry(path@).unwrap().files == files_final);
                assert(files_lookup(files_final, e) == stripped_lookup(es, e));
            }
        }
        Ok(true)
    }

    /// Some stored path of the loaded archive `tgz` lies strictly under
    /// the logical directory `normalized`.
    pub fn entry_has_dir_prefix(&self, tgz: &[u8], normalized: &[u8]) -> (r: bool)
        requires
            self.wf(),
        ensures
            match self.spec_entry(tgz@) {
                Some(ent) => r == exists|i: int|
                    0 <= i < ent.files.entries_view().len() && is_prefix_of(
                        normalized@ + seq![SEP],
                        (#[trigger] ent.files.entries_view()[i]).0@,
                    ),
                None => r == false,
            },
    {
        let i = match self.cache.index_of(tgz) {
            Some(i) => i,
            None => {
                return false;
            },
        };
        let ent = self.cache.value_at(i);
        let mut pre = copy_bytes(normalized);
        pre.push(SEP);
        proof {
            assert(pre@ =~= normalized@ + seq![SEP]);
        }
        let m = ent.files.len();
        let mut j: usize = 0;
        while j < m
            invariant
                self.wf(),
                self.spec_entry(tgz@) == Some(*ent),
                ent.files.wf(),
                m == ent.files.spec_len(),
                j <= m,
                pre@ == normalized@ + seq![SEP],
                forall|t: int|
                    0 <= t < j ==> !is_prefix_of(
                        normalized@ + seq![SEP],
                        (#[trigger] ent.files.entries_view()[t]).0@,
                    ),
            decreases m - j,
        {
            if crate::util::starts_with(ent.files.key_at(j).as_slice(), pre.as_slice()) {
                proof {
                    let entv = self.spec_entry(tgz@).unwrap();
                    assert(entv == *ent);
                    let jj: int = j as int;
                    assert(0 <= jj < entv.files.entries_view().len() && is_prefix_of(
                        normalized@ + seq![SEP],
                        entv.files.entries_view()[jj].0@,
                    ));
                    assert(exists|i: int|
                        0 <= i < entv.files.entries_view().len() && is_prefix_of(
                            normalized@ + seq![SEP],
                            (#[trigger] entv.files.entries_view()[i]).0@,
                        ));
                }
                return true;
            }
            j += 1;
        }
        false
    }

    /// Drop every cached archive.
    pub fn clear(&mut self)
        ensures
            final(self).wf(),
            final(self).spec_entries().len() == 0,
            final(self).spec_max() == old(self).spec_max(),
            forall|t: Seq<u8>| final(self).spec_entry(t) is None,
    {
        self.cache.clear();
        self.current_size = 0;
        proof {
            assert forall|t: Seq<u8>| final(self).spec_entry(t) is None by {
                assert(self.cache.spec_get(t) is None);
            }
        }
    }

    /// Change the byte budget, evicting least-recently-accessed archives
    /// until the cache complies.
    pub fn set_max(&mut self, max_size_bytes: usize)
        requires
            old(self).wf(),
        ensures
            final(self).wf(),
            final(self).spec_max() == max_size_bytes,
            forall|t: Seq<u8>|
                #[trigger] final(self).spec_entry(t) is Some ==> final(self).spec_entry(t) == old(self).spec_entry(t),
            lru_preserved(old(self).spec_entries(), final(self).spec_entries()),
    {
        self.max_size = max_size_bytes;
        proof {
            lemma_sum_nonneg(self.cache.entries_view());
        }
        while self.current_size > self.max_size && self.cache.len() > 0
            invariant
                self.cache.wf(),
                self.spec_current() == sum_sizes(self.spec_entries()),
                forall|i: int|
                    0 <= i < self.spec_entries().len() ==> (#[trigger] self.spec_entries()[i]).1.files.wf(),
                self.max_size == max_size_bytes,
                forall|q: Seq<u8>|
                    #[trigger] self.spec_entry(q) is Some ==> self.spec_entry(q) == old(self).spec_entry(q),
                lru_preserved(old(self).spec_entries(), self.spec_entries()),
            decreases self.cache.spec_len(),
        {
            let ghost selfmid = *self;
            self.evict_oldest_unbounded();
            proof {
                assert forall|t: Seq<u8>|
                    #[trigger] find_key(selfmid.spec_entries(), t) is Some implies find_key(
                    selfmid.spec_entries(),
                    t,
                ) == find_key(old(self).spec_entries(), t) by {
                    assert(selfmid.spec_entry(t) == find_key(selfmid.spec_entries(), t));
                }
                assert forall|t: Seq<u8>|
                    #[trigger] find_key(self.spec_entries(), t) is Some implies find_key(
                    self.spec_entries(),
                    t,
                ) == find_key(selfmid.spec_entries(), t) by {
                    assert(self.spec_entry(t) == find_key(self.spec_entries(), t));
                }
                lemma_lru_trans(
                    old(self).spec_entries(),
                    selfmid.spec_entries(),
                    self.spec_entries(),
                );
                assert forall|q: Seq<u8>|
                    #[trigger] self.spec_entry(q) is Some implies self.spec_entry(q) == old(self).spec_entry(q) by {
                    assert(selfmid.spec_entry(q) == self.spec_entry(q));
                }
            }
        }
        proof {
            if self.cache.spec_len() == 0 {
                assert(sum_sizes(self.spec_entries()) == 0);
            }
        }
    }

    /// Evict the least-recently-accessed archive, without assuming the
    /// budget holds beforehand.
    fn evict_oldest_unbounded(&mut self)
        requires
            old(self).cache.wf(),
            old(self).spec_current() == sum_sizes(old(self).spec_entries()),
            forall|i: int|
                0 <= i < old(self).spec_entries().len() ==> (#[trigger] old(self).spec_entries()[i]).1.files.wf(),
            old(self).spec_entries().len() > 0,
        ensures
            final(self).cache.wf(),
            final(self).spec_current() == sum_sizes(final(self).spec_entries()),
            forall|i: int|
                0 <= i < final(self).spec_entries().len() ==> (#[trigger] final(self).spec_entries()[i]).1.files.wf(),
            final(self).spec_entries().len() == old(self).spec_entries().len() - 1,
            final(self).spec_max() == old(self).spec_max(),
            final(self).spec_current() <= old(self).spec_current(),
            forall|t: Seq<u8>|
                #[trigger] final(self).spec_entry(t) is Some ==> final(self).spec_entry(t) == old(self).spec_entry(t),
            exists|i: int|
                #[trigger] min_stamp_at(old(self).spec_entries(), i) && final(self).spec_entries()
                    == old(self).spec_entries().remove(i),
            lru_preserved(old(self).spec_entries(), final(self).spec_entries()),
    {
        let ghost s0 = self.cache.entries_view();
        let n = self.cache.len();
        let mut bi: usize = 0;
        let mut bstamp: u64 = self.cache.value_at(0).last_accessed;
        let mut i: usize = 1;
        while i < n
            invariant
                self.cache.entries_view() == s0,
                n == s0.len(),
                bi < i <= n,
                bstamp == s0[bi as int].1.last_accessed,
                forall|t: int| 0 <= t < i ==> bstamp <= (#[trigger] s0[t]).1.last_accessed,
            decreases n - i,
        {
            let st = self.cache.value_at(i).last_accessed;
            if st < bstamp {
                bi = i;
                bstamp = st;
            }
            i += 1;
        }
        proof {
            assert(min_stamp_at(s0, bi as int));
        }
        let sz = self.cache.value_at(bi).total_size;
        proof {
            lemma_sum_remove(s0, bi as int);
            lemma_sum_nonneg(s0.remove(bi as int));
            crate::kvmap::lemma_find_key_at(s0, bi as int);
        }
        self.cache.remove_at(bi);
        self.current_size = self.current_size - sz;
        proof {
            let ghost s1 = self.cache.entries_view();
            assert forall|i2: int|
                0 <= i2 < s1.len() implies (#[trigger] s1[i2]).1.files.wf() by {
                if i2 < bi as int {
                    assert(s1[i2] == s0[i2]);
                } else {
                    assert(s1[i2] == s0[i2 + 1]);
                }
            }
            assert forall|t: Seq<u8>|
                #[trigger] final(self).spec_entry(t) is Some implies final(self).spec_entry(t)
                == old(self).spec_entry(t) by {
                if t == s0[bi as int].0@ {
                    assert(self.cache.spec_get(t) is None);
                } else {
                    assert(self.cache.spec_get(t) == find_key(s0, t));
                }
            }
            assert(min_stamp_at(s0, bi as int) && s1 == s0.remove(bi as int));
            assert forall|t1: Seq<u8>, t2: Seq<u8>|
                #[trigger] find_key(s1, t1) is Some && find_key(s0, t1) is Some && find_key(
                    s0,
                    t2,
                ) is Some && #[trigger] find_key(s1, t2) is None implies find_key(
                s0,
                t2,
            ).unwrap().last_accessed <= find_key(s0, t1).unwrap().last_accessed by {
                assert(t2 == s0[bi as int].0@) by {
                    if t2 != s0[bi as int].0@ {
                        assert(self.cache.spec_get(t2) == find_key(s0, t2));
                    }
                }
                assert(find_key(s0, t2) == Some(s0[bi as int].1));
                crate::kvmap::lemma_find_key_some_index(s0, t1);
                let j = choose|j: int|
                    0 <= j < s0.len() && (#[trigger] s0[j]).0@ == t1 && find_key(s0, t1) == Some(
                        s0[j].1,
                    );
                assert(s0[bi as int].1.last_accessed <= s0[j].1.last_accessed);
            }
        }
    }
}


/// A stored path lies strictly under the logical directory with bytes
/// prefix `pre` (empty, or the directory with a trailing separator).
pub open spec fn child_of(key: Seq<u8>, pre: Seq<u8>) -> bool {
    is_prefix_of(pre, key) && key.len() > pre.len()
}

/// The immediate child name a stored path contributes to a listing.
pub open spec fn child_name(key: Seq<u8>, pre: Seq<u8>) -> Seq<u8> {
    let rem = key.subrange(pre.len() as int, key.len() as int);
    rem.subrange(0, first_index(rem, SEP))
}

/// The child is itself a directory: the remainder has a separator.
pub open spec fn child_is_dir(key: Seq<u8>, pre: Seq<u8>) -> bool {
    let rem = key.subrange(pre.len() as int, key.len() as int);
    first_index(rem, SEP) < rem.len()
}

/// The byte prefix a logical directory contributes to its children.
pub open spec fn listing_prefix(dir: Seq<u8>) -> Seq<u8> {
    if dir.len() == 0 {
        Seq::empty()
    } else {
        dir + seq![SEP]
    }
}

/// Some stored path under `pre` contributes exactly this child name, with
/// this kind: a directory when that path continues past the name.
pub open spec fn entry_listed(fs: Seq<(Vec<u8>, Vec<u8>)>, pre: Seq<u8>, name: Seq<u8>, d: bool)
    -> bool {
    exists|i: int|
        0 <= i < fs.len() && child_of((#[trigger] fs[i]).0@, pre) && name == child_name(
            fs[i].0@,
            pre,
        ) && d == child_is_dir(fs[i].0@, pre)
}

/// The listing already carries `name`.
pub open spec fn listed_names_contain(items: Seq<(Vec<u8>, bool)>, name: Seq<u8>) -> bool {
    exists|a: int| 0 <= a < items.len() && (#[trigger] items[a]).0@ == name
}

/// Whether `items` already lists `name`.
fn items_contain(items: &Vec<(Vec<u8>, bool)>, name: &[u8]) -> (r: bool)
    ensures
        r == listed_names_contain(items@, name@),
{
    let mut a: usize = 0;
    while a < items.len()
        invariant
            a <= items@.len(),
            forall|t: int| 0 <= t < a ==> (#[trigger] items@[t]).0@ != name@,
        decreases items.len() - a,
    {
        if crate::util::bytes_eq(items[a].0.as_slice(), name) {
            proof {
                assert((items@[a as int]).0@ == name@);
            }
            return true;
        }
        a += 1;
    }
    proof {
        assert(!listed_names_contain(items@, name@)) by {
            if listed_names_contain(items@, name@) {
                let a0 = choose|t: int|
                    0 <= t < items@.len() && (#[trigger] items@[t]).0@ == name@;
            }
        }
    }
    false
}

impl TarCache {
    /// List the immediate children of a logical directory of a loaded
    /// archive: the names are exactly the first remaining components of
    /// the stored paths under it, each listed once.
    #[verifier::rlimit(100)]
    pub fn list_dir(&self, tgz: &[u8], normalized_dir: &[u8]) -> (r: Option<Vec<(Vec<u8>, bool)>>)
        requires
            self.wf(),
        ensures
            match self.spec_entry(tgz@) {
                Some(ent) => match r {
                    Some(items) => {
                        let fs = ent.files.entries_view();
                        let pre = listing_prefix(normalized_dir@);
                        &&& forall|a: int, b: int|
                            0 <= a < b < items@.len() ==> (#[trigger] items@[a]).0@ != (
                            #[trigger] items@[b]).0@
                        &&& forall|a: int|
                            0 <= a < items@.len() ==> entry_listed(
                                fs,
                                pre,
                                (#[trigger] items@[a]).0@,
                                items@[a].1,
                            )
                        &&& forall|i: int|
                            0 <= i < fs.len() && child_of((#[trigger] fs[i]).0@, pre)
                                ==> listed_names_contain(items@, child_name(fs[i].0@, pre))
                    },
                    None => false,
                },
                None => r is None,
            },
    {
        let i = match self.cache.index_of(tgz) {
            Some(i) => i,
            None => {
                return None;
            },
        };
        let ent = self.cache.value_at(i);
        let mut pre: Vec<u8> = Vec::new();
        if normalized_dir.len() > 0 {
            pre = copy_bytes(normalized_dir);
            pre.push(SEP);
            proof {
                assert(pre@ =~= normalized_dir@ + seq![SEP]);
            }
        }
        proof {
            assert(pre@ == listing_prefix(normalized_dir@));
        }
        let mut items: Vec<(Vec<u8>, bool)> = Vec::new();
        let m = ent.files.len();
        let mut j: usize = 0;
        while j < m
            invariant
                self.wf(),
                self.spec_entry(tgz@) == Some(*ent),
                ent.files.wf(),
                m == ent.files.spec_len(),
                j <= m,
                pre@ == listing_prefix(normalized_dir@),
                forall|a: int, b: int|
                    0 <= a < b < items@.len() ==> (#[trigger] items@[a]).0@ != (
                    #[trigger] items@[b]).0@,
                forall|a: int|
                    0 <= a < items@.len() ==> entry_listed(
                        ent.files.entries_view(),
                        pre@,
                        (#[trigger] items@[a]).0@,
                        items@[a].1,
                    ),
                forall|i2: int|
                    0 <= i2 < j && child_of((#[trigger] ent.files.entries_view()[i2]).0@, pre@)
                        ==> listed_names_contain(
                        items@,
                        child_name(ent.files.entries_view()[i2].0@, pre@),
                    ),
            decreases m - j,
        {
            let ghost fs = ent.files.entries_view();
            let key = ent.files.key_at(j);
            let klen = key.len();
            if crate::util::starts_with(key.as_slice(), pre.as_slice()) && klen > pre.len() {
                proof {
                    assert(child_of(fs[j as int].0@, pre@));
                }
                let rem = &key.as_slice()[pre.len()..klen];
                let idx = crate::text::find_first(rem, SEP);
                let name = crate::util::subrange_vec(rem, 0, idx);
                let d = idx < rem.len();
                let ghost namev = name@;
                proof {
                    assert(rem@ == key@.subrange(pre@.len() as int, key@.len() as int));
                    assert(namev == child_name(fs[j as int].0@, pre@));
                }
                if !items_contain(&items, name.as_slice()) {
                    let ghost items0 = items@;
                    items.push((name, d));
                    proof {
                        assert(forall|t: int| 0 <= t < items0.len() ==> items@[t] == items0[t]);
                        assert((items@[items@.len() - 1]).0@ == namev);
                        assert((items@[items@.len() - 1]).1 == d);
                        assert(entry_listed(fs, pre@, namev, d)) by {
                            let jj: int = j as int;
                            assert(0 <= jj < fs.len() && child_of(fs[jj].0@, pre@) && namev
                                == child_name(fs[jj].0@, pre@) && d == child_is_dir(
                                fs[jj].0@,
                                pre@,
                            ));
                        }
                        assert forall|a: int|
                            0 <= a < items@.len() implies entry_listed(
                            fs,
                            pre@,
                            (#[trigger] items@[a]).0@,
                            items@[a].1,
                        ) by {
                            if a < items0.len() {
                                assert(items@[a] == items0[a]);
                                assert(entry_listed(fs, pre@, (items0[a]).0@, items0[a].1));
                            } else {
                                assert((items@[a]).0@ == namev && items@[a].1 == d);
                            }
                        }
                        assert forall|a: int, b: int|
                            0 <= a < b < items@.len() implies (#[trigger] items@[a]).0@ != (
                        #[trigger] items@[b]).0@ by {
                            if b < items0.len() {
                                assert((items@[a]).0@ == (items0[a]).0@);
                                assert((items@[b]).0@ == (items0[b]).0@);
                            } else {
                                assert((items@[b]).0@ == namev);
                                assert(!listed_names_contain(items0, namev));
                                assert((items@[a]).0@ == (items0[a]).0@);
                                assert((items0[a]).0@ != namev);
                            }
                        }
                        assert forall|i2: int|
                            0 <= i2 < j + 1 && child_of((#[trigger] fs[i2]).0@, pre@)
                                implies listed_names_contain(
                            items@,
                            child_name(fs[i2].0@, pre@),
                        ) by {
                            if i2 < j as int {
                                let a0 = choose|a: int|
                                    0 <= a < items0.len() && (#[trigger] items0[a]).0@
                                        == child_name(fs[i2].0@, pre@);
                                assert((items@[a0]).0@ == child_name(fs[i2].0@, pre@));
                            } else {
                                assert((items@[items@.len() - 1]).0@ == child_name(
                                    fs[i2].0@,
                                    pre@,
                                ));
                            }
                        }
                    }
                } else {
                    proof {
                        assert forall|i2: int|
                            0 <= i2 < j + 1 && child_of((#[trigger] fs[i2]).0@, pre@)
                                implies listed_names_contain(
                            items@,
                            child_name(fs[i2].0@, pre@),
                        ) by {
                            if i2 == j as int {
                                assert(listed_names_contain(items@, namev));
                            }
                        }
                    }
                }
            } else {
                proof {
                    assert(!child_of(fs[j as int].0@, pre@));
                }
            }
            j += 1;
        }
        Some(items)
    }
}


/// The outcome of serving a file from the cache.
pub enum FileReadOutcome {
    /// The entry's bytes.
    Bytes(Vec<u8>),
    /// The archive is not loaded: read its bytes, hand them to
    /// `TarCache::load_tgz`, and retry.
    NeedArchive,
    /// The archive is loaded but the entry is a directory or absent.
    Failed(FsError),
}

/// Serve `file_path` of the archive at `tgz_path` from the cache, keying by
/// the path with its first component stripped.
pub fn extract_file_cached(cache: &mut TarCache, tgz_path: &[u8], file_path: &[u8]) -> (r:
    FileReadOutcome)
    requires
        old(cache).wf(),
    ensures
        final(cache).wf(),
        ({
            let norm = strip_first_spec(file_path@);
            match r {
                FileReadOutcome::Bytes(b) => old(cache).cached_file(tgz_path@, norm) == Some(b@),
                FileReadOutcome::NeedArchive => old(cache).spec_entry(tgz_path@) is None,
                FileReadOutcome::Failed(e) => old(cache).spec_entry(tgz_path@) is Some && old(
                    cache,
                ).cached_file(tgz_path@, norm) is None && ({
                    let ent = old(cache).spec_entry(tgz_path@).unwrap();
                    let deeper = exists|i: int|
                        0 <= i < ent.files.entries_view().len() && is_prefix_of(
                            norm + seq![SEP],
                            (#[trigger] ent.files.entries_view()[i]).0@,
                        );
                    e == if deeper {
                        FsError::IsADirectory
                    } else {
                        FsError::NotFound
                    }
                }),
            }
        }),
        forall|t: Seq<u8>, e: Seq<u8>|
            #[trigger] final(cache).cached_file(t, e) == old(cache).cached_file(t, e),
        forall|t: Seq<u8>|
            #[trigger] final(cache).spec_entry(t) is Some <==> old(cache).spec_entry(t) is Some,
        final(cache).spec_current() == old(cache).spec_current(),
        final(cache).spec_max() == old(cache).spec_max(),
{
    let norm = strip_first_component(file_path);
    if !cache.has_tgz(tgz_path) {
        proof {
            assert forall|t: Seq<u8>, e: Seq<u8>|
                #[trigger] final(cache).cached_file(t, e) == old(cache).cached_file(t, e) by {}
            ;
        }
        return FileReadOutcome::NeedArchive;
    }
    let deeper = cache.entry_has_dir_prefix(tgz_path, norm.as_slice());
    match cache.get_file(tgz_path, norm.as_slice()) {
        Some(b) => FileReadOutcome::Bytes(b),
        None => {
            if deeper {
                FileReadOutcome::Failed(FsError::IsADirectory)
            } else {
                FileReadOutcome::Failed(FsError::NotFound)
            }
        },
    }
}

/// The outcome of listing a directory from the cache.
pub enum ListDirOutcome {
    /// The children: name and whether it is a directory.
    Items(Vec<(Vec<u8>, bool)>),
    /// The archive is not loaded: read its bytes, hand them to
    /// `TarCache::load_tgz`, and retry.
    NeedArchive,
}

/// List the logical directory `dir_path` of the archive at `tgz_path`,
/// keying by the path with its first component stripped.
pub fn list_dir_cached(cache: &TarCache, tgz_path: &[u8], dir_path: &[u8]) -> (r: ListDirOutcome)
    requires
        cache.wf(),
    ensures
        ({
            let pre = listing_prefix(strip_first_spec(dir_path@));
            match r {
                ListDirOutcome::Items(items) => cache.spec_entry(tgz_path@) is Some && ({
                    let fs = cache.spec_entry(tgz_path@).unwrap().files.entries_view();
                    &&& forall|a: int, b: int|
                        0 <= a < b < items@.len() ==> (#[trigger] items@[a]).0@ != (
                        #[trigger] items@[b]).0@
                    &&& forall|a: int|
                        0 <= a < items@.len() ==> entry_listed(
                            fs,
                            pre,
                            (#[trigger] items@[a]).0@,
                            items@[a].1,
                        )
                    &&& forall|i: int|
                        0 <= i < fs.len() && child_of((#[trigger] fs[i]).0@, pre)
                            ==> listed_names_contain(items@, child_name(fs[i].0@, pre))
                }),
                ListDirOutcome::NeedArchive => cache.spec_entry(tgz_path@) is None,
            }
        }),
{
    let norm = strip_first_component(dir_path);
    match cache.list_dir(tgz_path, norm.as_slice()) {
        Some(items) => ListDirOutcome::Items(items),
        None => ListDirOutcome::NeedArchive,
    }
}

/// Drop every cached archive.
pub fn clear_cache(cache: &mut TarCache)
    ensures
        final(cache).wf(),
        final(cache).spec_entries().len() == 0,
        final(cache).spec_max() == old(cache).spec_max(),
{
    cache.clear();
}

/// Change the byte budget, evicting until the cache complies.
pub fn set_max_size(cache: &mut TarCache, max_size_bytes: usize)
    requires
        old(cache).wf(),
    ensures
        final(cache).wf(),
        final(cache).spec_max() == max_size_bytes,
        forall|t: Seq<u8>|
            #[trigger] final(cache).spec_entry(t) is Some ==> final(cache).spec_entry(t) == old(
                cache,
            ).spec_entry(t),
{
    cache.set_max(max_size_bytes);
}

} // verus!
