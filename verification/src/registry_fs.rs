//! The registry-backed virtual filesystem: per-path URLs and cache paths,
//! the package-descriptor cache with its bounds, longest-prefix lookup,
//! and the synthetic listings at the well-known roots.
//!
//! HTTP transfers and disk caching are the embedding process's work; it
//! acts only on what these functions compute.

use vstd::prelude::*;

verus! {

use crate::EntryKind;
use crate::kvmap::KvMap;
use crate::names::{
    default_registry_bytes, files_segment_bytes, json_suffix_bytes, meta_prefix_bytes,
    meta_root_bytes, meta_query_bytes, node_modules_bytes, registry_fs_prefix_bytes,
    unknown_name_bytes,
};
use crate::util::{
    SEP, bounds_ok, bytes_eq, component_bounds, copy_bytes, is_prefix_of, join_under, join_path,
    lemma_join_take, push_all, split_path, starts_with, subrange_vec,
};

broadcast use vstd::array::group_array_axioms;

/// One package's registry identity, keyed by its install path.
pub struct PackageMetadata {
    pub name: Vec<u8>,
    pub version: Vec<u8>,
    /// The registry base, scheme and host.
    pub registry_url: Vec<u8>,
    pub install_path: Vec<u8>,
}

impl PackageMetadata {
    /// Parse a resolved URL down to its registry base.
    pub fn parse_registry_url(resolved: &[u8]) -> (r: Vec<u8>)
        ensures
            r@ == registry_base_of(resolved@),
    {
        parse_registry_url_bytes(resolved)
    }

    /// Copy the descriptor.
    pub fn duplicate(&self) -> (r: PackageMetadata)
        ensures
            r.name@ == self.name@,
            r.version@ == self.version@,
            r.registry_url@ == self.registry_url@,
            r.install_path@ == self.install_path@,
    {
        PackageMetadata {
            name: copy_bytes(self.name.as_slice()),
            version: copy_bytes(self.version.as_slice()),
            registry_url: copy_bytes(self.registry_url.as_slice()),
            install_path: copy_bytes(self.install_path.as_slice()),
        }
    }
}

/// The host part of a URL: its third `/`-separated segment, `unknown` when
/// the URL is too short.
pub open spec fn host_of(url: Seq<u8>) -> Seq<u8> {
    if split_path(url).len() > 2 {
        split_path(url)[2]
    } else {
        crate::names::unknown_name_seq()
    }
}

/// Extract the host from a URL.
pub fn extract_host(url: &[u8]) -> (r: Vec<u8>)
    ensures
        r@ == host_of(url@),
{
    let bounds = component_bounds(url);
    if bounds.len() > 2 {
        let (s, e) = bounds[2];
        proof {
            assert(url@.subrange((#[trigger] bounds@[2]).0 as int, bounds@[2].1 as int)
                == split_path(url@)[2]);
        }
        subrange_vec(url, s, e)
    } else {
        let u = unknown_name_bytes();
        let mut v: Vec<u8> = Vec::new();
        push_all(&mut v, u.as_slice());
        proof {
            assert(v@ =~= crate::names::unknown_name_seq());
        }
        v
    }
}

/// The registry base of a resolved URL: its first three `/`-separated
/// segments (scheme and host), or the default registry when there are
/// fewer.
pub open spec fn registry_base_of(resolved: Seq<u8>) -> Seq<u8> {
    if split_path(resolved).len() >= 3 {
        join_path(split_path(resolved).take(3))
    } else {
        crate::names::default_registry_seq()
    }
}

/// Parse a resolved URL down to its registry base.
pub fn parse_registry_url_bytes(resolved: &[u8]) -> (r: Vec<u8>)
    ensures
        r@ == registry_base_of(resolved@),
{
    let bounds = component_bounds(resolved);
    if bounds.len() >= 3 {
        let (_s, e) = bounds[2];
        proof {
            lemma_join_take(resolved@, bounds@, 2);
        }
        subrange_vec(resolved, 0, e)
    } else {
        let d = default_registry_bytes();
        let mut v: Vec<u8> = Vec::new();
        push_all(&mut v, d.as_slice());
        proof {
            assert(v@ =~= crate::names::default_registry_seq());
        }
        v
    }
}

/// `/registry-fs/<host>/<name>/<version>`.
pub open spec fn cache_base_spec(m: PackageMetadata) -> Seq<u8> {
    crate::names::registry_fs_prefix_seq() + seq![SEP] + host_of(m.registry_url@) + seq![SEP]
        + m.name@ + seq![SEP] + m.version@
}

fn cache_base(metadata: &PackageMetadata) -> (r: Vec<u8>)
    ensures
        r@ == cache_base_spec(*metadata),
{
    let host = extract_host(metadata.registry_url.as_slice());
    let p = registry_fs_prefix_bytes();
    let mut v: Vec<u8> = Vec::new();
    push_all(&mut v, p.as_slice());
    v.push(SEP);
    push_all(&mut v, host.as_slice());
    v.push(SEP);
    push_all(&mut v, metadata.name.as_slice());
    v.push(SEP);
    push_all(&mut v, metadata.version.as_slice());
    proof {
        assert(v@ =~= cache_base_spec(*metadata));
    }
    v
}

/// Where one fetched file of a package is cached on storage.
pub fn get_cache_file_path(metadata: &PackageMetadata, relative_path: &[u8]) -> (r: Vec<u8>)
    ensures
        r@ == cache_base_spec(*metadata) + seq![SEP] + relative_path@,
{
    let mut v = cache_base(metadata);
    v.push(SEP);
    push_all(&mut v, relative_path);
    proof {
        assert(v@ =~= cache_base_spec(*metadata) + seq![SEP] + relative_path@);
    }
    v
}

/// `subpath` with every separator replaced by a dash.
pub open spec fn dashed(s: Seq<u8>) -> Seq<u8> {
    s.map_values(
        |c: u8|
            if c == SEP {
                45u8
            } else {
                c
            },
    )
}

/// Where a fetched directory listing of a package is cached:
/// `.meta-root.json` for the package root, else `.meta-<subpath>.json`
/// with the subpath's separators dashed.
pub fn get_cache_meta_path(metadata: &PackageMetadata, subpath: &[u8]) -> (r: Vec<u8>)
    ensures
        subpath@.len() == 0 ==> r@ == cache_base_spec(*metadata) + seq![SEP]
            + crate::names::meta_root_seq(),
        subpath@.len() > 0 ==> r@ == cache_base_spec(*metadata) + seq![SEP]
            + crate::names::meta_prefix_seq() + dashed(subpath@)
            + crate::names::json_suffix_seq(),
{
    let mut v = cache_base(metadata);
    v.push(SEP);
    if subpath.len() == 0 {
        let m = meta_root_bytes();
        push_all(&mut v, m.as_slice());
        proof {
            assert(v@ =~= cache_base_spec(*metadata) + seq![SEP] + crate::names::meta_root_seq());
        }
        return v;
    }
    let mp = meta_prefix_bytes();
    push_all(&mut v, mp.as_slice());
    let ghost v0 = v@;
    let mut k: usize = 0;
    while k < subpath.len()
        invariant
            k <= subpath@.len(),
            v@ == v0 + dashed(subpath@.subrange(0, k as int)),
        decreases subpath.len() - k,
    {
        let c = subpath[k];
        if c == SEP {
            v.push(45);
        } else {
            v.push(c);
        }
        proof {
            assert(dashed(subpath@.subrange(0, k + 1)) =~= dashed(
                subpath@.subrange(0, k as int),
            ) + seq![
                if subpath@[k as int] == SEP {
                    45u8
                } else {
                    subpath@[k as int]
                },
            ]);
            assert(v@ =~= v0 + dashed(subpath@.subrange(0, k + 1)));
        }
        k += 1;
    }
    proof {
        assert(subpath@.subrange(0, subpath@.len() as int) =~= subpath@);
    }
    let js = json_suffix_bytes();
    push_all(&mut v, js.as_slice());
    proof {
        assert(v@ =~= cache_base_spec(*metadata) + seq![SEP] + crate::names::meta_prefix_seq()
            + dashed(subpath@) + crate::names::json_suffix_seq());
    }
    v
}

/// `s` with leading and trailing separators removed.
pub open spec fn trim_seps(s: Seq<u8>) -> Seq<u8> {
    trim_seps_back(trim_seps_front(s))
}

pub open spec fn trim_seps_front(s: Seq<u8>) -> Seq<u8>
    decreases s.len(),
{
    if s.len() > 0 && s[0] == SEP {
        trim_seps_front(s.subrange(1, s.len() as int))
    } else {
        s
    }
}

pub open spec fn trim_seps_back(s: Seq<u8>) -> Seq<u8>
    decreases s.len(),
{
    if s.len() > 0 && s[s.len() - 1] == SEP {
        trim_seps_back(s.subrange(0, s.len() - 1))
    } else {
        s
    }
}

proof fn lemma_trim_seps_front_at(s: Seq<u8>, lo: int)
    requires
        0 <= lo <= s.len(),
        forall|i: int| 0 <= i < lo ==> s[i] == SEP,
        lo < s.len() ==> s[lo] != SEP,
    ensures
        trim_seps_front(s) == s.subrange(lo, s.len() as int),
    decreases s.len(),
{
    if s.len() == 0 {
        assert(s.subrange(0, 0) =~= s);
    } else if s[0] == SEP {
        let tail = s.subrange(1, s.len() as int);
        lemma_trim_seps_front_at(tail, lo - 1);
        assert(tail.subrange(lo - 1, tail.len() as int) =~= s.subrange(lo, s.len() as int));
    } else {
        assert(lo == 0);
        assert(s.subrange(0, s.len() as int) =~= s);
    }
}

proof fn lemma_trim_seps_back_at(s: Seq<u8>, hi: int)
    requires
        0 <= hi <= s.len(),
        forall|i: int| hi <= i < s.len() ==> s[i] == SEP,
        hi > 0 ==> s[hi - 1] != SEP,
    ensures
        trim_seps_back(s) == s.subrange(0, hi),
    decreases s.len(),
{
    if s.len() == 0 {
        assert(s.subrange(0, 0) =~= s);
    } else if s[s.len() - 1] == SEP {
        let head = s.subrange(0, s.len() - 1);
        lemma_trim_seps_back_at(head, hi);
        assert(head.subrange(0, hi) =~= s.subrange(0, hi));
    } else {
        assert(hi == s.len());
        assert(s.subrange(0, s.len() as int) =~= s);
    }
}

/// The bounds of `a` with separators trimmed from both ends.
fn trim_sep_bounds(a: &[u8]) -> (r: (usize, usize))
    ensures
        r.0 <= r.1 <= a@.len(),
        a@.subrange(r.0 as int, r.1 as int) == trim_seps(a@),
{
    let mut lo: usize = 0;
    while lo < a.len() && a[lo] == SEP
        invariant
            lo <= a@.len(),
            forall|i: int| 0 <= i < lo ==> a@[i] == SEP,
        decreases a.len() - lo,
    {
        lo += 1;
    }
    proof {
        lemma_trim_seps_front_at(a@, lo as int);
    }
    let mut hi: usize = a.len();
    while hi > lo && a[hi - 1] == SEP
        invariant
            lo <= hi <= a@.len(),
            forall|i: int| 0 <= i < lo ==> a@[i] == SEP,
            forall|i: int| hi <= i < a@.len() ==> a@[i] == SEP,
        decreases hi,
    {
        hi -= 1;
    }
    proof {
        let f = trim_seps_front(a@);
        assert(f == a@.subrange(lo as int, a@.len() as int));
        lemma_trim_seps_back_at(f, hi - lo);
        assert(f.subrange(0, hi - lo) =~= a@.subrange(lo as int, hi as int));
    }
    (lo, hi)
}

/// The listing endpoint for a subpath of a package:
/// `<base>/<name>/<version>/files/<subpath>/?meta`, the subpath segment
/// collapsing to a single `/` when empty.
pub fn file_list_url_of(metadata: &PackageMetadata, subpath: &[u8]) -> (r: Vec<u8>)
    ensures
        subpath@.len() == 0 ==> r@ == metadata.registry_url@ + seq![SEP] + metadata.name@
            + seq![SEP] + metadata.version@ + crate::names::files_segment_seq()
            + crate::names::meta_query_seq(),
        subpath@.len() > 0 ==> r@ == metadata.registry_url@ + seq![SEP] + metadata.name@
            + seq![SEP] + metadata.version@ + crate::names::files_segment_seq() + trim_seps(
            subpath@,
        ) + seq![SEP] + crate::names::meta_query_seq(),
{
    let mut v = copy_bytes(metadata.registry_url.as_slice());
    v.push(SEP);
    push_all(&mut v, metadata.name.as_slice());
    v.push(SEP);
    push_all(&mut v, metadata.version.as_slice());
    let fs = files_segment_bytes();
    let q = meta_query_bytes();
    if subpath.len() == 0 {
        push_all(&mut v, fs.as_slice());
        push_all(&mut v, q.as_slice());
        proof {
            assert(v@ =~= metadata.registry_url@ + seq![SEP] + metadata.name@ + seq![SEP]
                + metadata.version@ + crate::names::files_segment_seq()
                + crate::names::meta_query_seq());
        }
        return v;
    }
    let (lo, hi) = trim_sep_bounds(subpath);
    push_all(&mut v, fs.as_slice());
    push_all(&mut v, &subpath[lo..hi]);
    v.push(SEP);
    push_all(&mut v, q.as_slice());
    proof {
        assert(v@ =~= metadata.registry_url@ + seq![SEP] + metadata.name@ + seq![SEP]
            + metadata.version@ + crate::names::files_segment_seq() + trim_seps(subpath@)
            + seq![SEP] + crate::names::meta_query_seq());
    }
    v
}

impl PackageMetadata {
    /// The listing endpoint for a subpath of this package.
    pub fn file_list_url(&self, subpath: &[u8]) -> (r: Vec<u8>)
        ensures
            subpath@.len() == 0 ==> r@ == self.registry_url@ + seq![SEP] + self.name@ + seq![SEP]
                + self.version@ + crate::names::files_segment_seq()
                + crate::names::meta_query_seq(),
            subpath@.len() > 0 ==> r@ == self.registry_url@ + seq![SEP] + self.name@ + seq![SEP]
                + self.version@ + crate::names::files_segment_seq() + trim_seps(subpath@)
                + seq![SEP] + crate::names::meta_query_seq(),
    {
        file_list_url_of(self, subpath)
    }

    /// The content endpoint for one file of this package.
    pub fn file_content_url(&self, file_path: &[u8]) -> (r: Vec<u8>)
        ensures
            r@ == self.registry_url@ + seq![SEP] + self.name@ + seq![SEP] + self.version@
                + crate::names::files_segment_seq() + trim_seps_front(file_path@),
    {
        file_content_url_of(self, file_path)
    }
}

/// `s` with leading separators removed.
pub fn trim_lead_seps(a: &[u8]) -> (r: (usize, usize))
    ensures
        r.0 <= r.1 == a@.len(),
        a@.subrange(r.0 as int, r.1 as int) == trim_seps_front(a@),
{
    let mut lo: usize = 0;
    while lo < a.len() && a[lo] == SEP
        invariant
            lo <= a@.len(),
            forall|i: int| 0 <= i < lo ==> a@[i] == SEP,
        decreases a.len() - lo,
    {
        lo += 1;
    }
    proof {
        lemma_trim_seps_front_at(a@, lo as int);
    }
    (lo, a.len())
}

/// The content endpoint for one file of a package:
/// `<base>/<name>/<version>/files/<path>` with the path's leading
/// separators dropped.
pub fn file_content_url_of(metadata: &PackageMetadata, file_path: &[u8]) -> (r: Vec<u8>)
    ensures
        r@ == metadata.registry_url@ + seq![SEP] + metadata.name@ + seq![SEP] + metadata.version@
            + crate::names::files_segment_seq() + trim_seps_front(file_path@),
{
    let mut v = copy_bytes(metadata.registry_url.as_slice());
    v.push(SEP);
    push_all(&mut v, metadata.name.as_slice());
    v.push(SEP);
    push_all(&mut v, metadata.version.as_slice());
    let fs = files_segment_bytes();
    push_all(&mut v, fs.as_slice());
    let (lo, hi) = trim_lead_seps(file_path);
    push_all(&mut v, &file_path[lo..hi]);
    proof {
        assert(v@ =~= metadata.registry_url@ + seq![SEP] + metadata.name@ + seq![SEP]
            + metadata.version@ + crate::names::files_segment_seq() + trim_seps_front(
            file_path@,
        ));
    }
    v
}


/// Two descriptors carry the same fields.
pub open spec fn meta_eq(a: PackageMetadata, b: PackageMetadata) -> bool {
    a.name@ == b.name@ && a.version@ == b.version@ && a.registry_url@ == b.registry_url@
        && a.install_path@ == b.install_path@
}

/// The process-wide registry state: package descriptors keyed by install
/// path, and the directories already fetched in this process.
pub struct RegistryCache {
    pub metadata: KvMap<PackageMetadata>,
    pub fetched_dirs: KvMap<()>,
}

impl RegistryCache {
    pub fn new() -> (r: Self)
        ensures
            r.metadata.wf(),
            r.fetched_dirs.wf(),
            r.metadata.spec_len() == 0,
            r.fetched_dirs.spec_len() == 0,
    {
        RegistryCache { metadata: KvMap::new(), fetched_dirs: KvMap::new() }
    }
}

/// Cache statistics, as reported to diagnostics.
#[derive(Debug, Clone, Copy)]
pub struct CacheStats {
    pub file_count: usize,
    pub total_size: u64,
}

/// Forget all registry state.
pub fn clear_cache(cache: &mut RegistryCache)
    ensures
        final(cache).metadata.wf(),
        final(cache).fetched_dirs.wf(),
        final(cache).metadata.spec_len() == 0,
        final(cache).fetched_dirs.spec_len() == 0,
{
    cache.metadata.clear();
    cache.fetched_dirs.clear();
}

/// How many descriptors are cached.
pub fn get_cache_stats(cache: &RegistryCache) -> (r: usize)
    ensures
        r == cache.metadata.spec_len(),
{
    cache.metadata.len()
}

/// A descriptor derived from one lockfile entry.
pub open spec fn meta_from_entry(
    m: PackageMetadata,
    path: Seq<u8>,
    p: crate::package_lock::LockPackage,
) -> bool {
    &&& p.resolved is Some
    &&& m.registry_url@ == registry_base_of(p.resolved.unwrap()@)
    &&& m.name@ == crate::package_lock::package_name_of(
        crate::package_manager::option_bytes_view(p.name),
        path,
    )
    &&& m.version@ == match p.version {
        Some(v) => v@,
        None => crate::names::unknown_name_seq(),
    }
    &&& m.install_path@ == path
}

/// Some lockfile entry at install path `q` yields exactly this descriptor.
pub open spec fn descriptor_sourced(
    es: Seq<(Vec<u8>, crate::package_lock::LockPackage)>,
    q: Seq<u8>,
    m: PackageMetadata,
) -> bool {
    exists|i: int|
        0 <= i < es.len() && (#[trigger] es[i]).0@ == q && meta_from_entry(m, q, es[i].1)
}

/// Populate the descriptor cache from parsed lockfile entries, skipping
/// the root entry and records with no resolved URL.  Every admitted
/// binding is derived from an entry at its own install path.
pub fn init_metadata(
    cache: &mut RegistryCache,
    entries: &Vec<(Vec<u8>, crate::package_lock::LockPackage)>,
)
    requires
        old(cache).metadata.wf(),
        forall|q: Seq<u8>|
            #[trigger] old(cache).metadata.spec_get(q) matches Some(m) ==> m.install_path@ == q,
    ensures
        final(cache).metadata.wf(),
        final(cache).fetched_dirs == old(cache).fetched_dirs,
        forall|q: Seq<u8>|
            #[trigger] final(cache).metadata.spec_get(q) matches Some(m) ==> m.install_path@ == q,
        forall|q: Seq<u8>|
            #[trigger] final(cache).metadata.spec_get(q) matches Some(m) ==> old(
                cache,
            ).metadata.spec_get(q) == Some(m) || descriptor_sourced(entries@, q, m),
        forall|i: int|
            0 <= i < entries@.len() && (#[trigger] entries@[i]).0@.len() > 0
                && entries@[i].1.resolved is Some ==> final(cache).metadata.spec_get(
                entries@[i].0@,
            ) is Some,
{
    let n = entries.len();
    let mut i: usize = 0;
    while i < n
        invariant
            i <= n,
            n == entries@.len(),
            cache.metadata.wf(),
            cache.fetched_dirs == old(cache).fetched_dirs,
            forall|q: Seq<u8>|
                #[trigger] cache.metadata.spec_get(q) matches Some(m) ==> m.install_path@ == q,
            forall|q: Seq<u8>|
                #[trigger] cache.metadata.spec_get(q) matches Some(m) ==> old(
                    cache,
                ).metadata.spec_get(q) == Some(m) || descriptor_sourced(entries@, q, m),
            forall|i2: int|
                0 <= i2 < i && (#[trigger] entries@[i2]).0@.len() > 0 && entries@[i2].1.resolved
                    is Some ==> cache.metadata.spec_get(entries@[i2].0@) is Some,
        decreases n - i,
    {
        let path = &entries[i].0;
        let pkg = &entries[i].1;
        if path.len() > 0 {
            match &pkg.resolved {
                Some(resolved) => {
                    let name = pkg.get_name(path.as_slice());
                    let version = pkg.get_version();
                    let registry_url = parse_registry_url_bytes(resolved.as_slice());
                    let m = PackageMetadata {
                        name,
                        version,
                        registry_url,
                        install_path: copy_bytes(path.as_slice()),
                    };
                    proof {
                        assert(meta_from_entry(m, path@, entries@[i as int].1));
                        assert(descriptor_sourced(entries@, path@, m)) by {
                            let ii: int = i as int;
                            assert(0 <= ii < entries@.len() && (entries@[ii]).0@ == path@
                                && meta_from_entry(m, path@, entries@[ii].1));
                        }
                    }
                    cache.metadata.insert(copy_bytes(path.as_slice()), m);
                },
                None => {},
            }
        }
        i += 1;
    }
}

/// The descriptor whose install path is the longest prefix of `rel`.
pub fn lookup_metadata(cache: &KvMap<PackageMetadata>, rel: &[u8]) -> (r: Option<PackageMetadata>)
    requires
        cache.wf(),
    ensures
        match r {
            Some(m) => exists|i: int|
                0 <= i < cache.entries_view().len() && is_prefix_of(
                    (#[trigger] cache.entries_view()[i]).0@,
                    rel@,
                ) && meta_eq(m, cache.entries_view()[i].1) && forall|j: int|
                    0 <= j < cache.entries_view().len() && is_prefix_of(
                        (#[trigger] cache.entries_view()[j]).0@,
                        rel@,
                    ) ==> cache.entries_view()[j].0@.len() <= cache.entries_view()[i].0@.len(),
            None => forall|j: int|
                0 <= j < cache.entries_view().len() ==> !is_prefix_of(
                    (#[trigger] cache.entries_view()[j]).0@,
                    rel@,
                ),
        },
{
    let n = cache.len();
    let mut best: Option<usize> = None;
    let mut best_len: usize = 0;
    let mut i: usize = 0;
    while i < n
        invariant
            i <= n,
            cache.wf(),
            n == cache.spec_len(),
            match best {
                Some(b) => b < i && is_prefix_of(cache.entries_view()[b as int].0@, rel@)
                    && best_len == cache.entries_view()[b as int].0@.len() && forall|j: int|
                    0 <= j < i && is_prefix_of((#[trigger] cache.entries_view()[j]).0@, rel@)
                        ==> cache.entries_view()[j].0@.len() <= best_len,
                None => forall|j: int|
                    0 <= j < i ==> !is_prefix_of((#[trigger] cache.entries_view()[j]).0@, rel@),
            },
        decreases n - i,
    {
        let key = cache.key_at(i);
        if starts_with(rel, key.as_slice()) {
            let kl = key.len();
            match best {
                Some(_b) => {
                    if kl > best_len {
                        best = Some(i);
                        best_len = kl;
                    }
                },
                None => {
                    best = Some(i);
                    best_len = kl;
                },
            }
        }
        i += 1;
    }
    match best {
        Some(b) => {
            let m = cache.value_at(b).duplicate();
            proof {
                let ii: int = b as int;
                assert(0 <= ii < cache.entries_view().len() && is_prefix_of(
                    (cache.entries_view()[ii]).0@,
                    rel@,
                ) && meta_eq(m, cache.entries_view()[ii].1));
            }
            Some(m)
        },
        None => None,
    }
}

/// The consumer path relative to the working directory: the prefix and any
/// leading separators dropped.
pub open spec fn cwd_relative(p: Seq<u8>, cwd: Seq<u8>) -> Seq<u8> {
    if is_prefix_of(cwd, p) {
        trim_seps_front(p.subrange(cwd.len() as int, p.len() as int))
    } else {
        p
    }
}

/// Make the consumer path relative to the working directory.
pub fn to_cwd_relative(p: &[u8], cwd: &[u8]) -> (r: Vec<u8>)
    ensures
        r@ == cwd_relative(p@, cwd@),
{
    if starts_with(p, cwd) {
        let rest = &p[cwd.len()..p.len()];
        let (lo, hi) = trim_lead_seps(rest);
        subrange_vec(rest, lo, hi)
    } else {
        copy_bytes(p)
    }
}

/// The path inside the package: the consumer path with the working
/// directory and the install path stripped, or empty when the install
/// path does not prefix it.
pub open spec fn rel_in_package_spec(p: Seq<u8>, install_path: Seq<u8>, cwd: Seq<u8>) -> Seq<u8> {
    let rp = cwd_relative(p, cwd);
    if is_prefix_of(install_path, rp) {
        trim_seps_front(rp.subrange(install_path.len() as int, rp.len() as int))
    } else {
        Seq::empty()
    }
}

/// Compute the path inside the package.
pub fn get_relative_path_in_package(p: &[u8], install_path: &[u8], cwd: &[u8]) -> (r: Vec<u8>)
    ensures
        r@ == rel_in_package_spec(p@, install_path@, cwd@),
{
    let rp = to_cwd_relative(p, cwd);
    if starts_with(rp.as_slice(), install_path) {
        let rest = &rp.as_slice()[install_path.len()..rp.len()];
        let (lo, hi) = trim_lead_seps(rest);
        subrange_vec(rest, lo, hi)
    } else {
        Vec::new()
    }
}

/// The path names the root `node_modules` directory under `cwd`.
pub fn is_root_node_modules(p: &[u8], cwd: &[u8]) -> (r: bool)
    ensures
        r == (p@ == join_under(cwd@, crate::names::node_modules_seq())),
{
    let nm = node_modules_bytes();
    let mut expect = copy_bytes(cwd);
    if !(cwd.len() > 0 && cwd[cwd.len() - 1] == SEP) {
        expect.push(SEP);
    }
    push_all(&mut expect, nm.as_slice());
    proof {
        assert(expect@ =~= join_under(cwd@, crate::names::node_modules_seq()));
    }
    bytes_eq(p, expect.as_slice())
}

/// The scope name when the path names a scope directory
/// (`node_modules/@scope` under `cwd`), with nothing below it.
pub open spec fn scope_dir_spec(p: Seq<u8>, cwd: Seq<u8>) -> Option<Seq<u8>> {
    let rel = cwd_relative(p, cwd);
    let pre = crate::names::node_modules_seq() + seq![SEP];
    if is_prefix_of(pre, rel) {
        let after = rel.subrange(pre.len() as int, rel.len() as int);
        if after.len() > 0 && after[0] == 64 && (forall|i: int|
            0 <= i < after.len() ==> after[i] != SEP) {
            Some(after)
        } else {
            None
        }
    } else {
        None
    }
}

/// Recognize a scope directory.
pub fn is_scope_directory(p: &[u8], cwd: &[u8]) -> (r: Option<Vec<u8>>)
    ensures
        match r {
            Some(s) => scope_dir_spec(p@, cwd@) == Some(s@),
            None => scope_dir_spec(p@, cwd@) is None,
        },
{
    let rel = to_cwd_relative(p, cwd);
    let nm = node_modules_bytes();
    let mut pre: Vec<u8> = Vec::new();
    push_all(&mut pre, nm.as_slice());
    pre.push(SEP);
    proof {
        assert(pre@ =~= crate::names::node_modules_seq() + seq![SEP]);
    }
    if !starts_with(rel.as_slice(), pre.as_slice()) {
        return None;
    }
    let after = subrange_vec(rel.as_slice(), pre.len(), rel.len());
    if after.len() == 0 || after[0] != 64 {
        return None;
    }
    let mut i: usize = 0;
    while i < after.len()
        invariant
            i <= after@.len(),
            pre@ == crate::names::node_modules_seq() + seq![SEP],
            rel@ == cwd_relative(p@, cwd@),
            is_prefix_of(pre@, rel@),
            after@ == rel@.subrange(pre@.len() as int, rel@.len() as int),
            after@.len() > 0 && after@[0] == 64,
            forall|t: int| 0 <= t < i ==> after@[t] != SEP,
        decreases after.len() - i,
    {
        if after[i] == SEP {
            return None;
        }
        i += 1;
    }
    Some(after)
}

/// The path names the working directory itself, in any of its spellings:
/// itself, with `/.` appended, or with trailing separators replaced by
/// `.` or `/.`.
pub open spec fn is_cwd_spec(p: Seq<u8>, cwd: Seq<u8>) -> bool {
    ||| p == cwd
    ||| p == join_under(cwd, seq![46u8])
    ||| p == trim_seps_back(cwd) + seq![46u8]
    ||| p == trim_seps_back(cwd) + seq![SEP, 46u8]
}

/// Recognize the working directory.
pub fn is_cwd(p: &[u8], cwd: &[u8]) -> (r: bool)
    ensures
        r == is_cwd_spec(p@, cwd@),
{
    if bytes_eq(p, cwd) {
        return true;
    }
    let mut joined = copy_bytes(cwd);
    if !(cwd.len() > 0 && cwd[cwd.len() - 1] == SEP) {
        joined.push(SEP);
    }
    joined.push(46);
    proof {
        assert(joined@ =~= join_under(cwd@, seq![46u8]));
    }
    if bytes_eq(p, joined.as_slice()) {
        return true;
    }
    let mut hi: usize = cwd.len();
    while hi > 0 && cwd[hi - 1] == SEP
        invariant
            hi <= cwd@.len(),
            forall|i: int| hi <= i < cwd@.len() ==> cwd@[i] == SEP,
        decreases hi,
    {
        hi -= 1;
    }
    proof {
        lemma_trim_seps_back_at(cwd@, hi as int);
    }
    let mut dotted = subrange_vec(cwd, 0, hi);
    dotted.push(46);
    proof {
        assert(dotted@ =~= trim_seps_back(cwd@) + seq![46u8]);
    }
    if bytes_eq(p, dotted.as_slice()) {
        return true;
    }
    let mut slash_dotted = subrange_vec(cwd, 0, hi);
    slash_dotted.push(SEP);
    slash_dotted.push(46);
    proof {
        assert(slash_dotted@ =~= trim_seps_back(cwd@) + seq![SEP, 46u8]);
    }
    bytes_eq(p, slash_dotted.as_slice())
}


/// Trim the descriptor cache when it is far over its soft limit: eviction
/// here only costs later disk lookups, so it waits for twice the limit and
/// then cuts back to the limit itself.
pub fn check_metadata_cache_size(cache: &mut KvMap<PackageMetadata>, soft_limit: usize)
    requires
        old(cache).wf(),
    ensures
        final(cache).wf(),
        final(cache).spec_len() == if old(cache).spec_len() > 2 * soft_limit {
            soft_limit as nat
        } else {
            old(cache).spec_len()
        },
        forall|q: Seq<u8>|
            #[trigger] final(cache).spec_get(q) is Some ==> final(cache).spec_get(q) == old(
                cache,
            ).spec_get(q),
{
    let len = cache.len();
    if len > soft_limit && len - soft_limit > soft_limit {
        while cache.len() > soft_limit
            invariant
                cache.wf(),
                cache.spec_len() >= soft_limit,
                forall|q: Seq<u8>|
                    #[trigger] cache.spec_get(q) is Some ==> cache.spec_get(q) == old(
                        cache,
                    ).spec_get(q),
            decreases cache.spec_len(),
        {
            let ghost c0 = *cache;
            cache.remove_at(0);
            proof {
                assert forall|q: Seq<u8>|
                    #[trigger] cache.spec_get(q) is Some implies cache.spec_get(q) == old(
                    cache,
                ).spec_get(q) by {
                    assert(cache.spec_get(q) == c0.spec_get(q));
                }
            }
        }
    }
}

/// Trim the fetched-directories set when it exceeds its cap, down to half
/// the cap.
pub fn check_fetched_dirs_cache_size(set: &mut KvMap<()>, cap: usize)
    requires
        old(set).wf(),
    ensures
        final(set).wf(),
        final(set).spec_len() == if old(set).spec_len() > cap {
            (cap / 2) as nat
        } else {
            old(set).spec_len()
        },
        forall|q: Seq<u8>|
            #[trigger] final(set).spec_get(q) is Some ==> final(set).spec_get(q) == old(
                set,
            ).spec_get(q),
{
    let len = set.len();
    if len > cap {
        while set.len() > cap / 2
            invariant
                set.wf(),
                set.spec_len() >= cap / 2,
                forall|q: Seq<u8>|
                    #[trigger] set.spec_get(q) is Some ==> set.spec_get(q) == old(
                        set,
                    ).spec_get(q),
            decreases set.spec_len(),
        {
            let ghost c0 = *set;
            set.remove_at(0);
            proof {
                assert forall|q: Seq<u8>|
                    #[trigger] set.spec_get(q) is Some implies set.spec_get(q) == old(
                    set,
                ).spec_get(q) by {
                    assert(set.spec_get(q) == c0.spec_get(q));
                }
            }
        }
    }
}

/// Membership of a name in a name list.
pub open spec fn names_contain(ns: Seq<Vec<u8>>, q: Seq<u8>) -> bool {
    exists|a: int| 0 <= a < ns.len() && (#[trigger] ns[a])@ == q
}

fn names_member(ns: &Vec<Vec<u8>>, q: &[u8]) -> (r: bool)
    ensures
        r == names_contain(ns@, q@),
{
    let mut a: usize = 0;
    while a < ns.len()
        invariant
            a <= ns@.len(),
            forall|t: int| 0 <= t < a ==> (#[trigger] ns@[t])@ != q@,
        decreases ns.len() - a,
    {
        if bytes_eq(ns[a].as_slice(), q) {
            proof {
                assert((ns@[a as int])@ == q@);
            }
            return true;
        }
        a += 1;
    }
    proof {
        if names_contain(ns@, q@) {
            let w = choose|t: int| 0 <= t < ns@.len() && (#[trigger] ns@[t])@ == q@;
        }
    }
    false
}

/// The first-level logical name an install path contributes to the root
/// `node_modules` listing: the component after a leading `node_modules`,
/// for paths with no nested `node_modules` component.  A scope appears as
/// its own directory.
pub open spec fn root_child_name(path: Seq<u8>) -> Option<Seq<u8>> {
    let cs = split_path(path);
    if cs.len() >= 2 && cs[0] == crate::names::node_modules_seq() && cs[1].len() > 0 && (forall|
        k: int,
    |
        1 <= k < cs.len() ==> cs[k] != crate::names::node_modules_seq()) {
        Some(cs[1])
    } else {
        None
    }
}

/// Some install path contributes this root-level name.
pub open spec fn derived_root_name(paths: Seq<Vec<u8>>, q: Seq<u8>) -> bool {
    exists|i: int| 0 <= i < paths.len() && root_child_name((#[trigger] paths[i])@) == Some(q)
}

/// The names the root `node_modules` listing synthesizes from the
/// lockfile's install paths, each once.
#[verifier::rlimit(100)]
pub fn root_level_names(paths: &Vec<Vec<u8>>) -> (r: Vec<Vec<u8>>)
    ensures
        forall|a: int, b: int| 0 <= a < b < r@.len() ==> (#[trigger] r@[a])@ != (#[trigger] r@[b])@,
        forall|a: int| 0 <= a < r@.len() ==> derived_root_name(paths@, (#[trigger] r@[a])@),
        forall|i: int|
            0 <= i < paths@.len() && root_child_name((#[trigger] paths@[i])@) is Some
                ==> names_contain(r@, root_child_name(paths@[i]@).unwrap()),
{
    let nm = node_modules_bytes();
    let mut r: Vec<Vec<u8>> = Vec::new();
    let mut i: usize = 0;
    while i < paths.len()
        invariant
            i <= paths@.len(),
            nm@ == crate::names::node_modules_seq(),
            forall|a: int, b: int|
                0 <= a < b < r@.len() ==> (#[trigger] r@[a])@ != (#[trigger] r@[b])@,
            forall|a: int| 0 <= a < r@.len() ==> derived_root_name(paths@, (#[trigger] r@[a])@),
            forall|i2: int|
                0 <= i2 < i && root_child_name((#[trigger] paths@[i2])@) is Some ==> names_contain(
                    r@,
                    root_child_name(paths@[i2]@).unwrap(),
                ),
        decreases paths.len() - i,
    {
        let p = &paths[i];
        let bounds = component_bounds(p.as_slice());
        let ghost cs = split_path(p@);
        let mut derived: Option<Vec<u8>> = None;
        if bounds.len() >= 2 {
            let (s0, e0) = bounds[0];
            proof {
                assert(p@.subrange((#[trigger] bounds@[0]).0 as int, bounds@[0].1 as int)
                    == cs[0]);
            }
            if bytes_eq(&p.as_slice()[s0..e0], nm.as_slice()) {
                let (s1, e1) = bounds[1];
                proof {
                    assert(p@.subrange((#[trigger] bounds@[1]).0 as int, bounds@[1].1 as int)
                        == cs[1]);
                }
                if e1 > s1 {
                    let mut clean = true;
                    let mut k: usize = 1;
                    while k < bounds.len()
                        invariant
                            1 <= k <= bounds@.len(),
                            cs == split_path(p@),
                            bounds_ok(p@, bounds@),
                            nm@ == crate::names::node_modules_seq(),
                            clean == (forall|t: int|
                                1 <= t < k ==> cs[t] != crate::names::node_modules_seq()),
                        decreases bounds.len() - k,
                    {
                        let (sk, ek) = bounds[k];
                        proof {
                            assert(p@.subrange(
                                (#[trigger] bounds@[k as int]).0 as int,
                                bounds@[k as int].1 as int,
                            ) == cs[k as int]);
                        }
                        if bytes_eq(&p.as_slice()[sk..ek], nm.as_slice()) {
                            clean = false;
                        }
                        k += 1;
                    }
                    if clean {
                        derived = Some(subrange_vec(p.as_slice(), s1, e1));
                        proof {
                            assert(root_child_name(p@) == Some(cs[1]));
                        }
                    } else {
                        proof {
                            assert(root_child_name(p@) is None);
                        }
                    }
                } else {
                    proof {
                        assert(root_child_name(p@) is None);
                    }
                }
            } else {
                proof {
                    assert(root_child_name(p@) is None);
                }
            }
        } else {
            proof {
                assert(root_child_name(p@) is None);
            }
        }
        match derived {
            Some(name) => {
                let ghost namev = name@;
                if !names_member(&r, name.as_slice()) {
                    let ghost r0 = r@;
                    r.push(name);
                    proof {
                        assert(forall|t: int| 0 <= t < r0.len() ==> r@[t] == r0[t]);
                        assert((r@[r@.len() - 1])@ == namev);
                        assert forall|a: int|
                            0 <= a < r@.len() implies derived_root_name(
                            paths@,
                            (#[trigger] r@[a])@,
                        ) by {
                            if a < r0.len() {
                                assert((r@[a])@ == (r0[a])@);
                                assert(derived_root_name(paths@, (r0[a])@));
                            } else {
                                let ii: int = i as int;
                                assert(0 <= ii < paths@.len() && root_child_name(
                                    (#[trigger] paths@[ii])@,
                                ) == Some((r@[a])@));
                            }
                        }
                        assert forall|i2: int|
                            0 <= i2 < i + 1 && root_child_name((#[trigger] paths@[i2])@) is Some
                                implies names_contain(
                            r@,
                            root_child_name(paths@[i2]@).unwrap(),
                        ) by {
                            if i2 < i as int {
                                let a0 = choose|a: int|
                                    0 <= a < r0.len() && (#[trigger] r0[a])@ == root_child_name(
                                        paths@[i2]@,
                                    ).unwrap();
                                assert((r@[a0])@ == root_child_name(paths@[i2]@).unwrap());
                            } else {
                                assert((r@[r@.len() - 1])@ == root_child_name(
                                    paths@[i2]@,
                                ).unwrap());
                            }
                        }
                    }
                } else {
                    proof {
                        assert forall|i2: int|
                            0 <= i2 < i + 1 && root_child_name((#[trigger] paths@[i2])@) is Some
                                implies names_contain(
                            r@,
                            root_child_name(paths@[i2]@).unwrap(),
                        ) by {
                            if i2 == i as int {
                                assert(names_contain(r@, namev));
                            }
                        }
                    }
                }
            },
            None => {},
        }
        i += 1;
    }
    r
}


/// The name an install path contributes to a scope directory's listing:
/// the single component under `node_modules/<scope>`.
pub open spec fn scope_child_name(path: Seq<u8>, scope: Seq<u8>) -> Option<Seq<u8>> {
    let cs = split_path(path);
    if cs.len() == 3 && cs[0] == crate::names::node_modules_seq() && cs[1] == scope && cs[2].len()
        > 0 && cs[2] != crate::names::node_modules_seq() {
        Some(cs[2])
    } else {
        None
    }
}

/// Some install path contributes this scope-level name.
pub open spec fn derived_scope_name(paths: Seq<Vec<u8>>, scope: Seq<u8>, q: Seq<u8>) -> bool {
    exists|i: int|
        0 <= i < paths.len() && scope_child_name((#[trigger] paths[i])@, scope) == Some(q)
}

/// The install paths the descriptor cache currently knows, in order.
pub fn metadata_paths(cache: &RegistryCache) -> (r: Vec<Vec<u8>>)
    ensures
        r@.len() == cache.metadata.spec_len(),
        forall|i: int|
            0 <= i < r@.len() ==> (#[trigger] r@[i])@ == cache.metadata.entries_view()[i].0@,
{
    let n = cache.metadata.len();
    let mut r: Vec<Vec<u8>> = Vec::new();
    let mut i: usize = 0;
    while i < n
        invariant
            i <= n,
            n == cache.metadata.spec_len(),
            r@.len() == i,
            forall|t: int|
                0 <= t < i ==> (#[trigger] r@[t])@ == cache.metadata.entries_view()[t].0@,
        decreases n - i,
    {
        r.push(copy_bytes(cache.metadata.key_at(i).as_slice()));
        i += 1;
    }
    r
}

/// The names a scope directory's listing synthesizes from the known
/// install paths, each once.
#[verifier::rlimit(100)]
pub fn scope_level_names(paths: &Vec<Vec<u8>>, scope: &[u8]) -> (r: Vec<Vec<u8>>)
    ensures
        forall|a: int, b: int| 0 <= a < b < r@.len() ==> (#[trigger] r@[a])@ != (#[trigger] r@[b])@,
        forall|a: int|
            0 <= a < r@.len() ==> derived_scope_name(paths@, scope@, (#[trigger] r@[a])@),
        forall|i: int|
            0 <= i < paths@.len() && scope_child_name((#[trigger] paths@[i])@, scope@) is Some
                ==> names_contain(r@, scope_child_name(paths@[i]@, scope@).unwrap()),
{
    let nm = node_modules_bytes();
    let mut r: Vec<Vec<u8>> = Vec::new();
    let mut i: usize = 0;
    while i < paths.len()
        invariant
            i <= paths@.len(),
            nm@ == crate::names::node_modules_seq(),
            forall|a: int, b: int|
                0 <= a < b < r@.len() ==> (#[trigger] r@[a])@ != (#[trigger] r@[b])@,
            forall|a: int|
                0 <= a < r@.len() ==> derived_scope_name(paths@, scope@, (#[trigger] r@[a])@),
            forall|i2: int|
                0 <= i2 < i && scope_child_name((#[trigger] paths@[i2])@, scope@) is Some
                    ==> names_contain(r@, scope_child_name(paths@[i2]@, scope@).unwrap()),
        decreases paths.len() - i,
    {
        let p = &paths[i];
        let bounds = component_bounds(p.as_slice());
        let ghost cs = split_path(p@);
        let mut derived: Option<Vec<u8>> = None;
        if bounds.len() == 3 {
            let (s0, e0) = bounds[0];
            let (s1, e1) = bounds[1];
            let (s2, e2) = bounds[2];
            proof {
                assert(p@.subrange((#[trigger] bounds@[0]).0 as int, bounds@[0].1 as int)
                    == cs[0]);
                assert(p@.subrange((#[trigger] bounds@[1]).0 as int, bounds@[1].1 as int)
                    == cs[1]);
                assert(p@.subrange((#[trigger] bounds@[2]).0 as int, bounds@[2].1 as int)
                    == cs[2]);
            }
            if bytes_eq(&p.as_slice()[s0..e0], nm.as_slice()) && bytes_eq(
                &p.as_slice()[s1..e1],
                scope,
            ) && e2 > s2 && !bytes_eq(&p.as_slice()[s2..e2], nm.as_slice()) {
                derived = Some(subrange_vec(p.as_slice(), s2, e2));
                proof {
                    assert(scope_child_name(p@, scope@) == Some(cs[2]));
                }
            } else {
                proof {
                    assert(scope_child_name(p@, scope@) is None);
                }
            }
        } else {
            proof {
                assert(scope_child_name(p@, scope@) is None);
            }
        }
        match derived {
            Some(name) => {
                let ghost namev = name@;
                if !names_member(&r, name.as_slice()) {
                    let ghost r0 = r@;
                    r.push(name);
                    proof {
                        assert(forall|t: int| 0 <= t < r0.len() ==> r@[t] == r0[t]);
                        assert((r@[r@.len() - 1])@ == namev);
                        assert forall|a: int|
                            0 <= a < r@.len() implies derived_scope_name(
                            paths@,
                            scope@,
                            (#[trigger] r@[a])@,
                        ) by {
                            if a < r0.len() {
                                assert((r@[a])@ == (r0[a])@);
                                assert(derived_scope_name(paths@, scope@, (r0[a])@));
                            } else {
                                let ii: int = i as int;
                                assert(0 <= ii < paths@.len() && scope_child_name(
                                    (#[trigger] paths@[ii])@,
                                    scope@,
                                ) == Some((r@[a])@));
                            }
                        }
                        assert forall|i2: int|
                            0 <= i2 < i + 1 && scope_child_name(
                                (#[trigger] paths@[i2])@,
                                scope@,
                            ) is Some implies names_contain(
                            r@,
                            scope_child_name(paths@[i2]@, scope@).unwrap(),
                        ) by {
                            if i2 < i as int {
                                let a0 = choose|a: int|
                                    0 <= a < r0.len() && (#[trigger] r0[a])@ == scope_child_name(
                                        paths@[i2]@,
                                        scope@,
                                    ).unwrap();
                                assert((r@[a0])@ == scope_child_name(
                                    paths@[i2]@,
                                    scope@,
                                ).unwrap());
                            } else {
                                assert((r@[r@.len() - 1])@ == scope_child_name(
                                    paths@[i2]@,
                                    scope@,
                                ).unwrap());
                            }
                        }
                    }
                } else {
                    proof {
                        assert forall|i2: int|
                            0 <= i2 < i + 1 && scope_child_name(
                                (#[trigger] paths@[i2])@,
                                scope@,
                            ) is Some implies names_contain(
                            r@,
                            scope_child_name(paths@[i2]@, scope@).unwrap(),
                        ) by {
                            if i2 == i as int {
                                assert(names_contain(r@, namev));
                            }
                        }
                    }
                }
            },
            None => {},
        }
        i += 1;
    }
    r
}

/// One entry of a registry file listing.
pub struct RegistryFileEntry {
    pub path: Vec<u8>,
    pub kind: EntryKind,
}

/// The immediate-child name a listing entry contributes under the package
/// subpath `rel`: its path with leading separators and the subpath
/// stripped, kept only when no separator remains.
pub open spec fn reg_entry_name(path: Seq<u8>, rel: Seq<u8>) -> Option<Seq<u8>> {
    let clean = trim_seps_front(path);
    let er = if rel.len() > 0 && is_prefix_of(rel + seq![SEP], clean) {
        clean.subrange(rel.len() + 1 as int, clean.len() as int)
    } else {
        clean
    };
    if crate::text::first_index(er, SEP) == er.len() {
        Some(er)
    } else {
        None
    }
}

/// The directory records a listing translates to, in order.
pub open spec fn translate_spec(es: Seq<RegistryFileEntry>, rel: Seq<u8>, base: Seq<u8>) -> Seq<
    (Seq<u8>, Seq<u8>, EntryKind),
>
    decreases es.len(),
{
    if es.len() == 0 {
        Seq::empty()
    } else {
        let l = es.last();
        translate_spec(es.drop_last(), rel, base) + match reg_entry_name(l.path@, rel) {
            Some(n) => seq![(join_under(base, n), n, l.kind)],
            None => Seq::empty(),
        }
    }
}

/// Translate a fetched file listing to directory records: immediate
/// children only, named relative to the subpath, placed under `base`.
pub fn translate_file_entries(entries: Vec<RegistryFileEntry>, relative_path: &[u8], base: &[u8])
    -> (r: Vec<crate::DirEntry>)
    ensures
        r@.map_values(|e: crate::DirEntry| (e.path@, e.name@, e.kind)) == translate_spec(
            entries@,
            relative_path@,
            base@,
        ),
{
    let ghost es = entries@;
    let ghost n = es.len();
    let mut pre: Vec<u8> = Vec::new();
    if relative_path.len() > 0 {
        pre = copy_bytes(relative_path);
        pre.push(SEP);
        proof {
            assert(pre@ =~= relative_path@ + seq![SEP]);
        }
    }
    let mut r: Vec<crate::DirEntry> = Vec::new();
    let mut rest = entries;
    proof {
        assert(es.take(0) =~= Seq::<RegistryFileEntry>::empty());
        assert(rest@ =~= es.skip(0));
    }
    while rest.len() > 0
        invariant
            rest@.len() <= n,
            n == es.len(),
            rest@ == es.skip(n - rest@.len()),
            relative_path@.len() > 0 ==> pre@ == relative_path@ + seq![SEP],
            relative_path@.len() == 0 ==> pre@.len() == 0,
            r@.map_values(|e: crate::DirEntry| (e.path@, e.name@, e.kind)) == translate_spec(
                es.take(n - rest@.len()),
                relative_path@,
                base@,
            ),
        decreases rest.len(),
    {
        let ghost i = n - rest@.len();
        let ghost rv = rest@;
        let e = rest.remove(0);
        proof {
            assert(e == rv[0]);
            assert(rest@ =~= rv.subrange(1, rv.len() as int));
            assert(rest@ =~= es.skip(i + 1));
            assert(es.take(i + 1).drop_last() =~= es.take(i as int));
            assert(es.take(i + 1).last() == es[i as int]);
        }
        let (lo, hi) = trim_lead_seps(e.path.as_slice());
        let clean = &e.path.as_slice()[lo..hi];
        proof {
            assert(clean@ == trim_seps_front(e.path@));
        }
        let er: &[u8] = if relative_path.len() > 0 && starts_with(clean, pre.as_slice()) {
            &clean[relative_path.len() + 1..clean.len()]
        } else {
            clean
        };
        let sep_at = crate::text::find_first(er, SEP);
        if sep_at == er.len() {
            let name = subrange_vec(er, 0, er.len());
            proof {
                assert(er@.subrange(0, er@.len() as int) =~= er@);
                assert(reg_entry_name(e.path@, relative_path@) == Some(er@));
            }
            let mut path = copy_bytes(base);
            if !(base.len() > 0 && base[base.len() - 1] == SEP) {
                path.push(SEP);
            }
            push_all(&mut path, name.as_slice());
            proof {
                assert(path@ =~= join_under(base@, name@));
            }
            let ghost r0 = r@;
            r.push(crate::DirEntry { path, name, kind: e.kind });
            proof {
                let m = |e2: crate::DirEntry| (e2.path@, e2.name@, e2.kind);
                assert(r@.map_values(m) =~= r0.map_values(m) + seq![
                    (join_under(base@, er@), er@, es[i as int].kind),
                ]);
            }
        } else {
            proof {
                assert(reg_entry_name(e.path@, relative_path@) is None);
                assert(translate_spec(es.take(i + 1), relative_path@, base@) =~= translate_spec(
                    es.take(i as int),
                    relative_path@,
                    base@,
                ));
            }
        }
    }
    proof {
        assert(es.take(n as int) =~= es);
    }
    r
}


/// Overlay synthesized listing names with the physically present ones:
/// exactly their union, each name once, synthesized names first.
#[verifier::rlimit(100)]
pub fn overlay_listing_names(synthesized: &Vec<Vec<u8>>, physical: &Vec<Vec<u8>>) -> (r: Vec<
    Vec<u8>,
>)
    ensures
        forall|a: int, b: int| 0 <= a < b < r@.len() ==> (#[trigger] r@[a])@ != (#[trigger] r@[b])@,
        forall|q: Seq<u8>|
            #[trigger] names_contain(r@, q) <==> names_contain(synthesized@, q) || names_contain(
                physical@,
                q,
            ),
{
    let mut r: Vec<Vec<u8>> = Vec::new();
    let n = synthesized.len();
    let mut i: usize = 0;
    proof {
        assert(synthesized@.take(0) =~= Seq::<Vec<u8>>::empty());
    }
    while i < n
        invariant
            i <= n,
            n == synthesized@.len(),
            forall|a: int, b: int|
                0 <= a < b < r@.len() ==> (#[trigger] r@[a])@ != (#[trigger] r@[b])@,
            forall|q: Seq<u8>|
                #[trigger] names_contain(r@, q) <==> names_contain(synthesized@.take(i as int), q),
        decreases n - i,
    {
        let name = copy_bytes(synthesized[i].as_slice());
        let ghost namev = name@;
        proof {
            assert(synthesized@.take(i + 1).drop_last() =~= synthesized@.take(i as int));
            assert((synthesized@.take(i + 1)[i as int])@ == namev);
        }
        if !names_member(&r, name.as_slice()) {
            let ghost r0 = r@;
            r.push(name);
            proof {
                assert(forall|t: int| 0 <= t < r0.len() ==> r@[t] == r0[t]);
                assert((r@[r@.len() - 1])@ == namev);
                lemma_names_step(r0, r@, synthesized@, i as int, namev);
            }
        } else {
            proof {
                assert forall|q: Seq<u8>| #[trigger]
                    names_contain(r@, q) <==> names_contain(synthesized@.take(i + 1), q) by {
                    lemma_names_skip(r@, synthesized@, i as int, namev, q);
                }
            }
        }
        i += 1;
    }
    proof {
        assert(synthesized@.take(n as int) =~= synthesized@);
        assert(physical@.take(0) =~= Seq::<Vec<u8>>::empty());
        assert forall|q: Seq<u8>| !(#[trigger] names_contain(physical@.take(0), q)) by {
            if names_contain(physical@.take(0), q) {
                let a = choose|a: int|
                    0 <= a < physical@.take(0).len() && (#[trigger] physical@.take(0)[a])@ == q;
            }
        }
    }
    let m = physical.len();
    let mut j: usize = 0;
    while j < m
        invariant
            j <= m,
            m == physical@.len(),
            forall|a: int, b: int|
                0 <= a < b < r@.len() ==> (#[trigger] r@[a])@ != (#[trigger] r@[b])@,
            forall|q: Seq<u8>|
                #[trigger] names_contain(r@, q) <==> names_contain(synthesized@, q)
                    || names_contain(physical@.take(j as int), q),
        decreases m - j,
    {
        let name = copy_bytes(physical[j].as_slice());
        let ghost namev = name@;
        proof {
            assert(physical@.take(j + 1).drop_last() =~= physical@.take(j as int));
            assert((physical@.take(j + 1)[j as int])@ == namev);
        }
        if !names_member(&r, name.as_slice()) {
            let ghost r0 = r@;
            r.push(name);
            proof {
                assert(forall|t: int| 0 <= t < r0.len() ==> r@[t] == r0[t]);
                assert((r@[r@.len() - 1])@ == namev);
                assert forall|q: Seq<u8>| #[trigger]
                    names_contain(r@, q) <==> names_contain(synthesized@, q) || names_contain(
                    physical@.take(j + 1),
                    q,
                ) by {
                    if names_contain(r@, q) {
                        let a = choose|a: int| 0 <= a < r@.len() && (#[trigger] r@[a])@ == q;
                        if a < r0.len() {
                            assert((r0[a])@ == q);
                            assert(names_contain(r0, q));
                        } else {
                            assert(q == namev);
                            assert((physical@.take(j + 1)[j as int])@ == q);
                            assert(names_contain(physical@.take(j + 1), q));
                        }
                    }
                    if names_contain(physical@.take(j + 1), q) {
                        let w = choose|w: int|
                            0 <= w < physical@.take(j + 1).len() && (#[trigger] physical@.take(
                                j + 1,
                            )[w])@ == q;
                        if w < j as int {
                            assert((physical@.take(j as int)[w])@ == q);
                            assert(names_contain(physical@.take(j as int), q));
                        } else {
                            assert(q == namev);
                            assert((r@[r@.len() - 1])@ == q);
                            assert(names_contain(r@, q));
                        }
                    }
                    if names_contain(synthesized@, q) || names_contain(
                        physical@.take(j as int),
                        q,
                    ) {
                        assert(names_contain(r0, q));
                        let a = choose|a: int| 0 <= a < r0.len() && (#[trigger] r0[a])@ == q;
                        assert((r@[a])@ == q);
                        assert(names_contain(r@, q));
                    }
                }
            }
        } else {
            proof {
                assert forall|q: Seq<u8>| #[trigger]
                    names_contain(r@, q) <==> names_contain(synthesized@, q) || names_contain(
                    physical@.take(j + 1),
                    q,
                ) by {
                    if names_contain(physical@.take(j + 1), q) {
                        let w = choose|w: int|
                            0 <= w < physical@.take(j + 1).len() && (#[trigger] physical@.take(
                                j + 1,
                            )[w])@ == q;
                        if w < j as int {
                            assert((physical@.take(j as int)[w])@ == q);
                            assert(names_contain(physical@.take(j as int), q));
                        } else {
                            assert(q == namev);
                            assert(names_contain(r@, namev));
                        }
                    }
                    if names_contain(physical@.take(j as int), q) {
                        let w = choose|w: int|
                            0 <= w < physical@.take(j as int).len() && (#[trigger] physical@.take(
                                j as int,
                            )[w])@ == q;
                        assert((physical@.take(j + 1)[w])@ == q);
                        assert(names_contain(physical@.take(j + 1), q));
                    }
                }
            }
        }
        j += 1;
    }
    proof {
        assert(physical@.take(m as int) =~= physical@);
    }
    r
}

/// Pushing a fresh name onto the listing extends its membership by exactly
/// the name at position `i` of the source.
proof fn lemma_names_step(
    r0: Seq<Vec<u8>>,
    r1: Seq<Vec<u8>>,
    src: Seq<Vec<u8>>,
    i: int,
    namev: Seq<u8>,
)
    requires
        0 <= i < src.len(),
        (src[i])@ == namev,
        r1.len() == r0.len() + 1,
        forall|t: int| 0 <= t < r0.len() ==> r1[t] == r0[t],
        (r1[r1.len() - 1])@ == namev,
        forall|q: Seq<u8>| #[trigger] names_contain(r0, q) <==> names_contain(src.take(i), q),
    ensures
        forall|q: Seq<u8>| #[trigger] names_contain(r1, q) <==> names_contain(src.take(i + 1), q),
{
    assert forall|q: Seq<u8>| #[trigger]
        names_contain(r1, q) <==> names_contain(src.take(i + 1), q) by {
        if names_contain(r1, q) {
            let a = choose|a: int| 0 <= a < r1.len() && (#[trigger] r1[a])@ == q;
            if a < r0.len() {
                assert((r0[a])@ == q);
                assert(names_contain(r0, q));
                let w = choose|w: int|
                    0 <= w < src.take(i).len() && (#[trigger] src.take(i)[w])@ == q;
                assert((src.take(i + 1)[w])@ == q);
            } else {
                assert(q == namev);
                assert((src.take(i + 1)[i])@ == q);
            }
            assert(names_contain(src.take(i + 1), q));
        }
        if names_contain(src.take(i + 1), q) {
            let w = choose|w: int|
                0 <= w < src.take(i + 1).len() && (#[trigger] src.take(i + 1)[w])@ == q;
            if w < i {
                assert((src.take(i)[w])@ == q);
                assert(names_contain(src.take(i), q));
                assert(names_contain(r0, q));
                let a = choose|a: int| 0 <= a < r0.len() && (#[trigger] r0[a])@ == q;
                assert((r1[a])@ == q);
            } else {
                assert(q == namev);
                assert((r1[r1.len() - 1])@ == q);
            }
            assert(names_contain(r1, q));
        }
    }
}

/// Skipping a name already listed leaves the membership equal to the
/// source prefix grown by one.
proof fn lemma_names_skip(r: Seq<Vec<u8>>, src: Seq<Vec<u8>>, i: int, namev: Seq<u8>, q: Seq<u8>)
    requires
        0 <= i < src.len(),
        (src[i])@ == namev,
        names_contain(r, namev),
        names_contain(r, q) <==> names_contain(src.take(i), q),
    ensures
        names_contain(r, q) <==> names_contain(src.take(i + 1), q),
{
    if names_contain(src.take(i + 1), q) {
        let w = choose|w: int|
            0 <= w < src.take(i + 1).len() && (#[trigger] src.take(i + 1)[w])@ == q;
        if w < i {
            assert((src.take(i)[w])@ == q);
            assert(names_contain(src.take(i), q));
        } else {
            assert(q == namev);
        }
    }
    if names_contain(src.take(i), q) {
        let w = choose|w: int| 0 <= w < src.take(i).len() && (#[trigger] src.take(i)[w])@ == q;
        assert((src.take(i + 1)[w])@ == q);
        assert(names_contain(src.take(i + 1), q));
    }
}

} // verus!
