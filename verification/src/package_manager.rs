//! The installer: planning which packages to place where, deduplicating
//! downloads by resolved URL, deciding cache validity, verifying payloads,
//! and producing the sentinel content for every target.
//!
//! The surrounding process performs the fetches and writes; every decision
//! it acts on is made here.

use vstd::prelude::*;

verus! {

use crate::EntryKind;
use crate::FsError;
use crate::names::{
    dash_segment_bytes, package_bytes, package_tgz_bytes, resolved_suffix_bytes, stores_prefix_bytes,
    unpack_suffix_bytes,
};
use crate::pack::verify_integrity_spec;
use crate::package_lock::{last_segment, last_segment_of, package_name_of, LockPackage};
use crate::util::{copy_bytes, push_all, SEP};

broadcast use vstd::array::group_array_axioms;

/// The view of an optional byte string.
pub open spec fn option_bytes_view(o: Option<Vec<u8>>) -> Option<Seq<u8>> {
    match o {
        Some(v) => Some(v@),
        None => None,
    }
}

/// Copy an optional byte string.
pub fn copy_opt_bytes(o: &Option<Vec<u8>>) -> (r: Option<Vec<u8>>)
    ensures
        option_bytes_view(r) == option_bytes_view(*o),
{
    match o {
        Some(v) => Some(copy_bytes(v.as_slice())),
        None => None,
    }
}

/// The file name under which an archive is stored: the last segment of its
/// URL, or `package.tgz` when that is empty.
pub open spec fn archive_file_name(url: Seq<u8>) -> Seq<u8> {
    if last_segment(url).len() > 0 {
        last_segment(url)
    } else {
        crate::names::package_tgz_seq()
    }
}

/// `/stores/<name>/-/<file>`.
pub open spec fn store_path_spec(name: Seq<u8>, url: Seq<u8>) -> Seq<u8> {
    crate::names::stores_prefix_seq() + name + crate::names::dash_segment_seq()
        + archive_file_name(url)
}

/// `/stores/<name>/-/<file>-unpack`.
pub open spec fn unpack_dir_spec(name: Seq<u8>, url: Seq<u8>) -> Seq<u8> {
    store_path_spec(name, url) + crate::names::unpack_suffix_seq()
}

/// `/stores/<name>/-/<file>-unpack._resolved`.
pub open spec fn resolved_marker_spec(name: Seq<u8>, url: Seq<u8>) -> Seq<u8> {
    store_path_spec(name, url) + crate::names::resolved_suffix_seq()
}

/// Where one package's archive, tree, marker and link target live.
pub struct PackagePaths {
    pub tgz_store_path: Vec<u8>,
    pub unpacked_dir: Vec<u8>,
    pub resolved_marker: Vec<u8>,
    pub link_target_dir: Vec<u8>,
}

impl PackagePaths {
    /// Derive the store layout for a package from its name, archive URL
    /// and install path.
    pub fn new(name: &[u8], tgz_url: &[u8], path_key: &[u8]) -> (r: Self)
        ensures
            r.tgz_store_path@ == store_path_spec(name@, tgz_url@),
            r.unpacked_dir@ == unpack_dir_spec(name@, tgz_url@),
            r.resolved_marker@ == resolved_marker_spec(name@, tgz_url@),
            r.link_target_dir@ == path_key@,
    {
        let seg = last_segment_of(tgz_url);
        let file: Vec<u8> = if seg.len() > 0 {
            seg
        } else {
            let p = package_tgz_bytes();
            let mut v: Vec<u8> = Vec::new();
            push_all(&mut v, p.as_slice());
            proof {
                assert(v@ =~= crate::names::package_tgz_seq());
            }
            v
        };
        let sp = stores_prefix_bytes();
        let ds = dash_segment_bytes();
        let mut store: Vec<u8> = Vec::new();
        push_all(&mut store, sp.as_slice());
        push_all(&mut store, name);
        push_all(&mut store, ds.as_slice());
        push_all(&mut store, file.as_slice());
        proof {
            assert(store@ =~= store_path_spec(name@, tgz_url@));
        }
        let us = unpack_suffix_bytes();
        let mut unpack = copy_bytes(store.as_slice());
        push_all(&mut unpack, us.as_slice());
        let rs = resolved_suffix_bytes();
        let mut marker = copy_bytes(store.as_slice());
        push_all(&mut marker, rs.as_slice());
        PackagePaths {
            tgz_store_path: store,
            unpacked_dir: unpack,
            resolved_marker: marker,
            link_target_dir: copy_bytes(path_key),
        }
    }
}

/// What an install run omits and how it materializes.
pub struct InstallOptions {
    /// Skip entries marked `dev`.
    pub omit_dev: bool,
    /// Skip entries marked `optional`.
    pub omit_optional: bool,
    /// Extract at install time; otherwise sentinels point into archives.
    pub eager: bool,
    /// How many downloads the runner may keep in flight.
    pub max_concurrent_downloads: usize,
}

/// An entry the planner passes over: the root entry, an omitted
/// classification, a platform-constrained optional package (never runnable
/// in a sandbox), or a record with no resolved URL.
pub open spec fn skip_spec(path: Seq<u8>, p: LockPackage, omit_dev: bool, omit_optional: bool)
    -> bool {
    ||| path.len() == 0
    ||| (omit_dev && p.dev == Some(true))
    ||| (omit_optional && p.optional == Some(true))
    ||| (p.optional == Some(true) && (p.os is Some || p.cpu is Some))
    ||| p.resolved is None
}

/// Decide whether the planner passes an entry over.
pub fn is_skipped(path: &Vec<u8>, p: &LockPackage, opts: &InstallOptions) -> (r: bool)
    ensures
        r == skip_spec(path@, *p, opts.omit_dev, opts.omit_optional),
{
    if path.len() == 0 {
        return true;
    }
    let dev = match p.dev {
        Some(b) => b,
        None => false,
    };
    if opts.omit_dev && dev {
        return true;
    }
    let optional = match p.optional {
        Some(b) => b,
        None => false,
    };
    if opts.omit_optional && optional {
        return true;
    }
    if optional && (p.os.is_some() || p.cpu.is_some()) {
        return true;
    }
    p.resolved.is_none()
}

/// One download: the shared identity of every entry that resolves to the
/// same URL, and all the install paths it must be linked at.
pub struct InstallGroup {
    pub name: Vec<u8>,
    pub version: Vec<u8>,
    pub url: Vec<u8>,
    pub integrity: Option<Vec<u8>>,
    pub shasum: Option<Vec<u8>>,
    pub targets: Vec<Vec<u8>>,
}

/// The group's identity is that of an entry at `path`.
pub open spec fn group_from_entry(g: InstallGroup, path: Seq<u8>, p: LockPackage) -> bool {
    &&& p.resolved is Some
    &&& g.url@ == p.resolved.unwrap()@
    &&& g.name@ == package_name_of(option_bytes_view(p.name), path)
    &&& g.version@ == match p.version {
        Some(v) => v@,
        None => crate::names::unknown_name_seq(),
    }
    &&& option_bytes_view(g.integrity) == option_bytes_view(p.integrity)
    &&& option_bytes_view(g.shasum) == option_bytes_view(p.shasum)
}

/// Some group carries `q` as a target.
pub open spec fn plan_has_target(gs: Seq<InstallGroup>, q: Seq<u8>) -> bool {
    exists|g: int, t: int|
        0 <= g < gs.len() && 0 <= t < gs[g].targets@.len() && (#[trigger] gs[g].targets@[t])@ == q
}

/// Some entry among the first `n` is planned (not skipped) and sits at `q`.
pub open spec fn wants_upto(
    es: Seq<(Vec<u8>, LockPackage)>,
    omit_dev: bool,
    omit_optional: bool,
    q: Seq<u8>,
    n: int,
) -> bool {
    exists|i: int|
        0 <= i < n && !skip_spec((#[trigger] es[i]).0@, es[i].1, omit_dev, omit_optional)
            && es[i].0@ == q
}

/// Some planned entry among the first `n` has this group's identity.
pub open spec fn entry_yields_group(
    es: Seq<(Vec<u8>, LockPackage)>,
    omit_dev: bool,
    omit_optional: bool,
    n: int,
    g: InstallGroup,
) -> bool {
    exists|i: int|
        0 <= i < n && !skip_spec((#[trigger] es[i]).0@, es[i].1, omit_dev, omit_optional)
            && group_from_entry(g, es[i].0@, es[i].1)
}

/// Some planned entry among the first `n` sits at `q` and resolves to
/// `url`.
pub open spec fn target_from_entry(
    es: Seq<(Vec<u8>, LockPackage)>,
    omit_dev: bool,
    omit_optional: bool,
    n: int,
    q: Seq<u8>,
    url: Seq<u8>,
) -> bool {
    exists|i: int|
        0 <= i < n && !skip_spec((#[trigger] es[i]).0@, es[i].1, omit_dev, omit_optional)
            && es[i].0@ == q && es[i].1.resolved is Some && es[i].1.resolved.unwrap()@ == url
}

proof fn lemma_yields_mono(
    es: Seq<(Vec<u8>, LockPackage)>,
    od: bool,
    oo: bool,
    n: int,
    m: int,
    g: InstallGroup,
)
    requires
        n <= m,
        entry_yields_group(es, od, oo, n, g),
    ensures
        entry_yields_group(es, od, oo, m, g),
{
    let w = choose|i: int|
        0 <= i < n && !skip_spec((#[trigger] es[i]).0@, es[i].1, od, oo) && group_from_entry(
            g,
            es[i].0@,
            es[i].1,
        );
    assert(0 <= w < m && !skip_spec(es[w].0@, es[w].1, od, oo) && group_from_entry(
        g,
        es[w].0@,
        es[w].1,
    ));
}

proof fn lemma_target_mono(
    es: Seq<(Vec<u8>, LockPackage)>,
    od: bool,
    oo: bool,
    n: int,
    m: int,
    q: Seq<u8>,
    url: Seq<u8>,
)
    requires
        n <= m,
        target_from_entry(es, od, oo, n, q, url),
    ensures
        target_from_entry(es, od, oo, m, q, url),
{
    let w = choose|i: int|
        0 <= i < n && !skip_spec((#[trigger] es[i]).0@, es[i].1, od, oo) && es[i].0@ == q
            && es[i].1.resolved is Some && es[i].1.resolved.unwrap()@ == url;
    assert(0 <= w < m && !skip_spec(es[w].0@, es[w].1, od, oo) && es[w].0@ == q && es[w].1.resolved
        is Some && es[w].1.resolved.unwrap()@ == url);
}

/// The planned install: download groups and the entries passed over.
pub struct InstallPlan {
    pub groups: Vec<InstallGroup>,
    pub skipped: Vec<Vec<u8>>,
}

/// Find the group already holding `url`.
fn find_group(groups: &Vec<InstallGroup>, url: &[u8]) -> (r: Option<usize>)
    ensures
        match r {
            Some(g) => g < groups@.len() && groups@[g as int].url@ == url@,
            None => forall|g: int| 0 <= g < groups@.len() ==> (#[trigger] groups@[g]).url@ != url@,
        },
{
    let mut g: usize = 0;
    while g < groups.len()
        invariant
            g <= groups@.len(),
            forall|t: int| 0 <= t < g ==> (#[trigger] groups@[t]).url@ != url@,
        decreases groups.len() - g,
    {
        if crate::util::bytes_eq(groups[g].url.as_slice(), url) {
            return Some(g);
        }
        g += 1;
    }
    None
}

/// Plan an install run: skip the root entry, omitted classifications,
/// platform-constrained optionals and unresolved records; group what
/// remains by resolved URL, so that each URL is fetched at most once; and
/// record under each group every install path it must be linked at.
///
/// The contract carries the installer's two central laws: the groups'
/// URLs are pairwise distinct, and the targets across all groups are
/// exactly the non-skipped install paths.
#[verifier::rlimit(100)]
pub fn plan_install(entries: &Vec<(Vec<u8>, LockPackage)>, opts: &InstallOptions) -> (r:
    InstallPlan)
    ensures
        forall|g1: int, g2: int|
            0 <= g1 < g2 < r.groups@.len() ==> (#[trigger] r.groups@[g1]).url@ != (
            #[trigger] r.groups@[g2]).url@,
        forall|q: Seq<u8>|
            #[trigger] plan_has_target(r.groups@, q) <==> wants_upto(
                entries@,
                opts.omit_dev,
                opts.omit_optional,
                q,
                entries@.len() as int,
            ),
        forall|g: int|
            0 <= g < r.groups@.len() ==> entry_yields_group(
                entries@,
                opts.omit_dev,
                opts.omit_optional,
                entries@.len() as int,
                #[trigger] r.groups@[g],
            ),
        forall|g: int, t: int|
            0 <= g < r.groups@.len() && 0 <= t < r.groups@[g].targets@.len()
                ==> target_from_entry(
                entries@,
                opts.omit_dev,
                opts.omit_optional,
                entries@.len() as int,
                (#[trigger] r.groups@[g].targets@[t])@,
                r.groups@[g].url@,
            ),
        forall|g: int| 0 <= g < r.groups@.len() ==> (#[trigger] r.groups@[g]).targets@.len() >= 1,
{
    let n = entries.len();
    let od = opts.omit_dev;
    let oo = opts.omit_optional;
    let mut groups: Vec<InstallGroup> = Vec::new();
    let mut skipped: Vec<Vec<u8>> = Vec::new();
    let mut i: usize = 0;
    while i < n
        invariant
            i <= n,
            n == entries@.len(),
            od == opts.omit_dev,
            oo == opts.omit_optional,
            forall|g1: int, g2: int|
                0 <= g1 < g2 < groups@.len() ==> (#[trigger] groups@[g1]).url@ != (
                #[trigger] groups@[g2]).url@,
            forall|q: Seq<u8>|
                #[trigger] plan_has_target(groups@, q) <==> wants_upto(
                    entries@,
                    od,
                    oo,
                    q,
                    i as int,
                ),
            forall|g: int|
                0 <= g < groups@.len() ==> entry_yields_group(
                    entries@,
                    od,
                    oo,
                    i as int,
                    #[trigger] groups@[g],
                ),
            forall|g: int, t: int|
                0 <= g < groups@.len() && 0 <= t < groups@[g].targets@.len() ==> target_from_entry(
                    entries@,
                    od,
                    oo,
                    i as int,
                    (#[trigger] groups@[g].targets@[t])@,
                    groups@[g].url@,
                ),
            forall|g: int| 0 <= g < groups@.len() ==> (#[trigger] groups@[g]).targets@.len() >= 1,
        decreases n - i,
    {
        let path = &entries[i].0;
        let pkg = &entries[i].1;
        let skip_it = is_skipped(path, pkg, opts);
        if skip_it {
            skipped.push(copy_bytes(path.as_slice()));
            proof {
                assert forall|g: int|
                    0 <= g < groups@.len() implies entry_yields_group(
                    entries@,
                    od,
                    oo,
                    i + 1,
                    #[trigger] groups@[g],
                ) by {
                    lemma_yields_mono(entries@, od, oo, i as int, i + 1, groups@[g]);
                }
                assert forall|g: int, t: int|
                    0 <= g < groups@.len() && 0 <= t < groups@[g].targets@.len()
                        implies target_from_entry(
                    entries@,
                    od,
                    oo,
                    i + 1,
                    (#[trigger] groups@[g].targets@[t])@,
                    groups@[g].url@,
                ) by {
                    lemma_target_mono(
                        entries@,
                        od,
                        oo,
                        i as int,
                        i + 1,
                        (groups@[g].targets@[t])@,
                        groups@[g].url@,
                    );
                }
                assert forall|q: Seq<u8>| #[trigger]
                    plan_has_target(groups@, q) <==> wants_upto(entries@, od, oo, q, i + 1) by {
                    if wants_upto(entries@, od, oo, q, i + 1) {
                        let w = choose|i2: int|
                            0 <= i2 < i + 1 && !skip_spec(
                                (#[trigger] entries@[i2]).0@,
                                entries@[i2].1,
                                od,
                                oo,
                            ) && entries@[i2].0@ == q;
                        assert(w < i);
                        assert(wants_upto(entries@, od, oo, q, i as int));
                    }
                }
            }
        } else {
            let url = match &pkg.resolved {
                Some(u) => u,
                None => {
                    proof {
                        assert(false);
                    }
                    return InstallPlan { groups, skipped };
                },
            };
            let ghost groups0 = groups@;
            match find_group(&groups, url.as_slice()) {
                Some(g0) => {
                    let mut grp = groups.remove(g0);
                    let ghost grp0 = grp;
                    grp.targets.push(copy_bytes(path.as_slice()));
                    groups.insert(g0, grp);
                    proof {
                        assert(groups@ =~= groups0.update(g0 as int, groups@[g0 as int]));
                        let gnew = groups@[g0 as int];
                        assert(gnew.url@ == grp0.url@ && gnew.name@ == grp0.name@ && gnew.version@
                            == grp0.version@ && option_bytes_view(gnew.integrity)
                            == option_bytes_view(grp0.integrity) && option_bytes_view(gnew.shasum)
                            == option_bytes_view(grp0.shasum));
                        assert(gnew.targets@.drop_last() =~= grp0.targets@);
                        assert(gnew.targets@.last()@ == entries@[i as int].0@);
                        lemma_plan_extend_existing(
                            groups0,
                            groups@,
                            g0 as int,
                            entries@,
                            od,
                            oo,
                            i as int,
                        );
                        assert forall|g: int|
                            0 <= g < groups@.len() implies entry_yields_group(
                            entries@,
                            od,
                            oo,
                            i + 1,
                            #[trigger] groups@[g],
                        ) by {
                            if g == g0 as int {
                                let w = choose|i2: int|
                                    0 <= i2 < i && !skip_spec(
                                        (#[trigger] entries@[i2]).0@,
                                        entries@[i2].1,
                                        od,
                                        oo,
                                    ) && group_from_entry(grp0, entries@[i2].0@, entries@[i2].1);
                                assert(group_from_entry(gnew, entries@[w].0@, entries@[w].1));
                                assert(entry_yields_group(entries@, od, oo, i as int, gnew));
                            } else {
                                assert(groups@[g] == groups0[g]);
                            }
                            lemma_yields_mono(entries@, od, oo, i as int, i + 1, groups@[g]);
                        }
                        assert forall|g: int, t: int|
                            0 <= g < groups@.len() && 0 <= t < groups@[g].targets@.len()
                                implies target_from_entry(
                            entries@,
                            od,
                            oo,
                            i + 1,
                            (#[trigger] groups@[g].targets@[t])@,
                            groups@[g].url@,
                        ) by {
                            if g == g0 as int && t == groups@[g].targets@.len() - 1 {
                                let ii: int = i as int;
                                assert(0 <= ii < i + 1 && !skip_spec(
                                    entries@[ii].0@,
                                    entries@[ii].1,
                                    od,
                                    oo,
                                ) && entries@[ii].0@ == (groups@[g].targets@[t])@
                                    && entries@[ii].1.resolved is Some
                                    && entries@[ii].1.resolved.unwrap()@ == groups@[g].url@);
                            } else {
                                if g == g0 as int {
                                    assert(groups@[g].targets@[t] == grp0.targets@[t]);
                                    assert(target_from_entry(
                                        entries@,
                                        od,
                                        oo,
                                        i as int,
                                        (groups0[g].targets@[t])@,
                                        groups0[g].url@,
                                    ));
                                } else {
                                    assert(groups@[g] == groups0[g]);
                                }
                                lemma_target_mono(
                                    entries@,
                                    od,
                                    oo,
                                    i as int,
                                    i + 1,
                                    (groups@[g].targets@[t])@,
                                    groups@[g].url@,
                                );
                            }
                        }
                    }
                },
                None => {
                    let name = pkg.get_name(path.as_slice());
                    let version = pkg.get_version();
                    let grp = InstallGroup {
                        name,
                        version,
                        url: copy_bytes(url.as_slice()),
                        integrity: copy_opt_bytes(&pkg.integrity),
                        shasum: copy_opt_bytes(&pkg.shasum),
                        targets: {
                            let mut ts: Vec<Vec<u8>> = Vec::new();
                            ts.push(copy_bytes(path.as_slice()));
                            ts
                        },
                    };
                    proof {
                        assert(group_from_entry(grp, entries@[i as int].0@, entries@[i as int].1));
                    }
                    groups.push(grp);
                    proof {
                        assert(groups@.drop_last() =~= groups0);
                        lemma_plan_extend_new(groups0, groups@, entries@, od, oo, i as int);
                        assert forall|g: int|
                            0 <= g < groups@.len() implies entry_yields_group(
                            entries@,
                            od,
                            oo,
                            i + 1,
                            #[trigger] groups@[g],
                        ) by {
                            if g == groups@.len() - 1 {
                                let ii: int = i as int;
                                assert(0 <= ii < i + 1 && !skip_spec(
                                    entries@[ii].0@,
                                    entries@[ii].1,
                                    od,
                                    oo,
                                ) && group_from_entry(groups@[g], entries@[ii].0@, entries@[ii].1));
                            } else {
                                assert(groups@[g] == groups0[g]);
                                lemma_yields_mono(entries@, od, oo, i as int, i + 1, groups@[g]);
                            }
                        }
                        assert forall|g: int, t: int|
                            0 <= g < groups@.len() && 0 <= t < groups@[g].targets@.len()
                                implies target_from_entry(
                            entries@,
                            od,
                            oo,
                            i + 1,
                            (#[trigger] groups@[g].targets@[t])@,
                            groups@[g].url@,
                        ) by {
                            if g == groups@.len() - 1 {
                                let ii: int = i as int;
                                assert(t == 0);
                                assert(0 <= ii < i + 1 && !skip_spec(
                                    entries@[ii].0@,
                                    entries@[ii].1,
                                    od,
                                    oo,
                                ) && entries@[ii].0@ == (groups@[g].targets@[t])@
                                    && entries@[ii].1.resolved is Some
                                    && entries@[ii].1.resolved.unwrap()@ == groups@[g].url@);
                            } else {
                                assert(groups@[g] == groups0[g]);
                                lemma_target_mono(
                                    entries@,
                                    od,
                                    oo,
                                    i as int,
                                    i + 1,
                                    (groups@[g].targets@[t])@,
                                    groups@[g].url@,
                                );
                            }
                        }
                    }
                },
            }
        }
        i += 1;
    }
    InstallPlan { groups, skipped }
}

/// Pushing one more target onto group `g0` extends the planned-target set
/// by exactly the entry at `i`.
proof fn lemma_plan_extend_existing(
    gs0: Seq<InstallGroup>,
    gs1: Seq<InstallGroup>,
    g0: int,
    es: Seq<(Vec<u8>, LockPackage)>,
    omit_dev: bool,
    omit_optional: bool,
    i: int,
)
    requires
        0 <= g0 < gs0.len(),
        gs1.len() == gs0.len(),
        forall|g: int| 0 <= g < gs0.len() && g != g0 ==> gs1[g] == gs0[g],
        gs1[g0].targets@.drop_last() == gs0[g0].targets@,
        gs1[g0].targets@.len() == gs0[g0].targets@.len() + 1,
        0 <= i < es.len(),
        (gs1[g0].targets@.last())@ == es[i].0@,
        !skip_spec(es[i].0@, es[i].1, omit_dev, omit_optional),
        forall|q: Seq<u8>|
            #[trigger] plan_has_target(gs0, q) <==> wants_upto(es, omit_dev, omit_optional, q, i),
    ensures
        forall|q: Seq<u8>|
            #[trigger] plan_has_target(gs1, q) <==> wants_upto(
                es,
                omit_dev,
                omit_optional,
                q,
                i + 1,
            ),
{
    assert forall|q: Seq<u8>| #[trigger]
        plan_has_target(gs1, q) <==> wants_upto(es, omit_dev, omit_optional, q, i + 1) by {
        if plan_has_target(gs1, q) {
            let (g, t) = choose|g: int, t: int|
                0 <= g < gs1.len() && 0 <= t < gs1[g].targets@.len() && (
                #[trigger] gs1[g].targets@[t])@ == q;
            if g == g0 && t == gs1[g0].targets@.len() - 1 {
                assert(es[i].0@ == q);
            } else {
                if g == g0 {
                    assert(gs0[g0].targets@[t] == gs1[g0].targets@[t]);
                }
                assert(plan_has_target(gs0, q)) by {
                    assert(0 <= g < gs0.len() && 0 <= t < gs0[g].targets@.len() && (
                    #[trigger] gs0[g].targets@[t])@ == q);
                }
                assert(wants_upto(es, omit_dev, omit_optional, q, i));
                let w = choose|i2: int|
                    0 <= i2 < i && !skip_spec(
                        (#[trigger] es[i2]).0@,
                        es[i2].1,
                        omit_dev,
                        omit_optional,
                    ) && es[i2].0@ == q;
                assert(0 <= w < i + 1 && !skip_spec(es[w].0@, es[w].1, omit_dev, omit_optional)
                    && es[w].0@ == q);
            }
        }
        if wants_upto(es, omit_dev, omit_optional, q, i + 1) {
            let w = choose|i2: int|
                0 <= i2 < i + 1 && !skip_spec(
                    (#[trigger] es[i2]).0@,
                    es[i2].1,
                    omit_dev,
                    omit_optional,
                ) && es[i2].0@ == q;
            if w == i {
                let t = gs1[g0].targets@.len() - 1;
                assert(0 <= g0 < gs1.len() && 0 <= t < gs1[g0].targets@.len() && (
                #[trigger] gs1[g0].targets@[t])@ == q);
            } else {
                assert(wants_upto(es, omit_dev, omit_optional, q, i));
                assert(plan_has_target(gs0, q));
                let (g, t) = choose|g: int, t: int|
                    0 <= g < gs0.len() && 0 <= t < gs0[g].targets@.len() && (
                    #[trigger] gs0[g].targets@[t])@ == q;
                if g == g0 {
                    assert(gs1[g0].targets@[t] == gs0[g0].targets@[t]);
                }
                assert(0 <= g < gs1.len() && 0 <= t < gs1[g].targets@.len() && (
                #[trigger] gs1[g].targets@[t])@ == q);
            }
        }
    }
}

/// Appending a fresh one-target group extends the planned-target set by
/// exactly the entry at `i`.
proof fn lemma_plan_extend_new(
    gs0: Seq<InstallGroup>,
    gs1: Seq<InstallGroup>,
    es: Seq<(Vec<u8>, LockPackage)>,
    omit_dev: bool,
    omit_optional: bool,
    i: int,
)
    requires
        gs1.len() == gs0.len() + 1,
        gs1.drop_last() == gs0,
        gs1.last().targets@.len() == 1,
        0 <= i < es.len(),
        (gs1.last().targets@[0])@ == es[i].0@,
        !skip_spec(es[i].0@, es[i].1, omit_dev, omit_optional),
        forall|q: Seq<u8>|
            #[trigger] plan_has_target(gs0, q) <==> wants_upto(es, omit_dev, omit_optional, q, i),
    ensures
        forall|q: Seq<u8>|
            #[trigger] plan_has_target(gs1, q) <==> wants_upto(
                es,
                omit_dev,
                omit_optional,
                q,
                i + 1,
            ),
{
    assert forall|q: Seq<u8>| #[trigger]
        plan_has_target(gs1, q) <==> wants_upto(es, omit_dev, omit_optional, q, i + 1) by {
        if plan_has_target(gs1, q) {
            let (g, t) = choose|g: int, t: int|
                0 <= g < gs1.len() && 0 <= t < gs1[g].targets@.len() && (
                #[trigger] gs1[g].targets@[t])@ == q;
            if g == gs1.len() - 1 {
                assert(es[i].0@ == q);
            } else {
                assert(gs0[g] == gs1[g]);
                assert(plan_has_target(gs0, q)) by {
                    assert(0 <= g < gs0.len() && 0 <= t < gs0[g].targets@.len() && (
                    #[trigger] gs0[g].targets@[t])@ == q);
                }
                let w = choose|i2: int|
                    0 <= i2 < i && !skip_spec(
                        (#[trigger] es[i2]).0@,
                        es[i2].1,
                        omit_dev,
                        omit_optional,
                    ) && es[i2].0@ == q;
                assert(0 <= w < i + 1 && !skip_spec(es[w].0@, es[w].1, omit_dev, omit_optional)
                    && es[w].0@ == q);
            }
        }
        if wants_upto(es, omit_dev, omit_optional, q, i + 1) {
            let w = choose|i2: int|
                0 <= i2 < i + 1 && !skip_spec(
                    (#[trigger] es[i2]).0@,
                    es[i2].1,
                    omit_dev,
                    omit_optional,
                ) && es[i2].0@ == q;
            if w == i {
                let g = gs1.len() - 1;
                assert(0 <= g < gs1.len() && 0 <= 0 < gs1[g].targets@.len() && (
                #[trigger] gs1[g].targets@[0])@ == q);
            } else {
                assert(wants_upto(es, omit_dev, omit_optional, q, i));
                assert(plan_has_target(gs0, q));
                let (g, t) = choose|g: int, t: int|
                    0 <= g < gs0.len() && 0 <= t < gs0[g].targets@.len() && (
                    #[trigger] gs0[g].targets@[t])@ == q;
                assert(gs1[g] == gs0[g]);
                assert(0 <= g < gs1.len() && 0 <= t < gs1[g].targets@.len() && (
                #[trigger] gs1[g].targets@[t])@ == q);
            }
        }
    }
}


/// A prior install of a group counts as cached: in eager mode the marker
/// must exist as a regular file and the unpack tree as a directory; in
/// lazy mode the archive must exist as a file.  Anything else (a directory
/// at the marker path, a file at the unpack path) is corrupt and forces a
/// re-install.
pub open spec fn cached_spec(
    eager: bool,
    marker: Option<EntryKind>,
    unpack: Option<EntryKind>,
    store: Option<EntryKind>,
) -> bool {
    if eager {
        marker == Some(EntryKind::File) && unpack == Some(EntryKind::Directory)
    } else {
        store == Some(EntryKind::File)
    }
}

/// Decide from metadata observations whether a group's prior install is a
/// valid cache.
pub fn group_is_cached(
    eager: bool,
    marker: Option<EntryKind>,
    unpack: Option<EntryKind>,
    store: Option<EntryKind>,
) -> (r: bool)
    ensures
        r == cached_spec(eager, marker, unpack, store),
{
    if eager {
        let m = match marker {
            Some(EntryKind::File) => true,
            _ => false,
        };
        let u = match unpack {
            Some(EntryKind::Directory) => true,
            _ => false,
        };
        m && u
    } else {
        match store {
            Some(EntryKind::File) => true,
            _ => false,
        }
    }
}

/// What the download phase does about a file already at the store path.
pub enum DownloadDecision {
    /// The bytes on disk verify against the lockfile hashes: reuse them.
    UseExisting,
    /// Nothing usable on disk: fetch the archive.
    Fetch,
}

/// Reuse the stored bytes only when a hash is present and matches; absent
/// bytes, or bytes that fail (or cannot be) verified, are re-fetched.
pub fn download_decision(
    existing: Option<&Vec<u8>>,
    integrity: Option<&Vec<u8>>,
    shasum: Option<&Vec<u8>>,
) -> (r: DownloadDecision)
    ensures
        ({
            let iv = match integrity {
                Some(v) => Some(v@),
                None => None,
            };
            let sv = match shasum {
                Some(v) => Some(v@),
                None => None,
            };
            r == DownloadDecision::UseExisting <==> existing is Some && (iv is Some || sv is Some)
                && verify_integrity_spec(existing.unwrap()@, iv, sv)
        }),
{
    match existing {
        Some(bytes) => {
            if integrity.is_some() || shasum.is_some() {
                if crate::pack::verify_integrity(bytes.as_slice(), integrity, shasum) {
                    return DownloadDecision::UseExisting;
                }
            }
            DownloadDecision::Fetch
        },
        None => DownloadDecision::Fetch,
    }
}

/// Accept a downloaded payload: when the lockfile carries a hash the
/// payload must satisfy it, and a failure is an integrity failure; a
/// payload the lockfile carries no hash for is accepted as it is.
pub fn accept_download(bytes: &[u8], integrity: Option<&Vec<u8>>, shasum: Option<&Vec<u8>>) -> (r:
    Result<(), FsError>)
    ensures
        ({
            let iv = match integrity {
                Some(v) => Some(v@),
                None => None,
            };
            let sv = match shasum {
                Some(v) => Some(v@),
                None => None,
            };
            match r {
                Ok(()) => !(iv is Some || sv is Some) || verify_integrity_spec(bytes@, iv, sv),
                Err(e) => e == FsError::IntegrityFailure && (iv is Some || sv is Some)
                    && !verify_integrity_spec(bytes@, iv, sv),
            }
        }),
{
    if integrity.is_some() || shasum.is_some() {
        if !crate::pack::verify_integrity(bytes, integrity, shasum) {
            return Err(FsError::IntegrityFailure);
        }
    }
    Ok(())
}

/// The sentinel line written for a group's targets: in eager mode the
/// materialized tree's path; in lazy mode the archive path with the
/// conventional `package` prefix.
pub fn link_content_for(eager: bool, paths: &PackagePaths) -> (r: Vec<u8>)
    ensures
        eager ==> r@ == paths.unpacked_dir@ + seq![10u8],
        !eager ==> r@ == paths.tgz_store_path@ + seq![124u8] + crate::names::package_seq()
            + seq![10u8],
{
    if eager {
        crate::fuse::fuse_link_content(paths.unpacked_dir.as_slice())
    } else {
        let p = package_bytes();
        let mut prefix: Vec<u8> = Vec::new();
        push_all(&mut prefix, p.as_slice());
        proof {
            assert(prefix@ =~= crate::names::package_seq());
        }
        crate::fuse::fuse_link_with_prefix_content(paths.tgz_store_path.as_slice(), Some(&prefix))
    }
}

/// The root `package.json` is written only when the working directory has
/// none and the lockfile has a root entry.
pub fn needs_root_package_json(root_manifest_present: bool, has_root_entry: bool) -> (r: bool)
    ensures
        r == (!root_manifest_present && has_root_entry),
{
    !root_manifest_present && has_root_entry
}

/// The groups whose cache flag equals `want`, in order.
pub open spec fn selected_groups(gs: Seq<InstallGroup>, flags: Seq<bool>, want: bool) -> Seq<
    InstallGroup,
>
    decreases gs.len(),
{
    if gs.len() == 0 {
        Seq::empty()
    } else {
        let rest = selected_groups(gs.drop_last(), flags.drop_last(), want);
        if flags[gs.len() - 1] == want {
            rest + seq![gs.last()]
        } else {
            rest
        }
    }
}

/// When every flag is set, nothing selects the other way.
pub proof fn lemma_selected_none(gs: Seq<InstallGroup>, flags: Seq<bool>, want: bool)
    requires
        flags.len() == gs.len(),
        forall|i: int| 0 <= i < flags.len() ==> flags[i] == !want,
    ensures
        selected_groups(gs, flags, want) =~= Seq::<InstallGroup>::empty(),
    decreases gs.len(),
{
    if gs.len() > 0 {
        lemma_selected_none(gs.drop_last(), flags.drop_last(), want);
    }
}

/// Split the planned groups by their cache check: the first side holds
/// exactly the groups whose flag is set, the second exactly those the
/// runner must download, both in plan order.  When every group checked out
/// as cached, nothing is downloaded at all.
pub fn partition_groups(groups: Vec<InstallGroup>, cached: &Vec<bool>) -> (r: (
    Vec<InstallGroup>,
    Vec<InstallGroup>,
))
    requires
        cached@.len() == groups@.len(),
    ensures
        r.0@ == selected_groups(groups@, cached@, true),
        r.1@ == selected_groups(groups@, cached@, false),
        (forall|i: int| 0 <= i < cached@.len() ==> cached@[i]) ==> r.1@.len() == 0,
{
    let ghost gs = groups@;
    let cl = cached.len();
    let mut keep: Vec<InstallGroup> = Vec::new();
    let mut fetch: Vec<InstallGroup> = Vec::new();
    let mut rest = groups;
    let ghost n = gs.len();
    let mut i: usize = 0;
    proof {
        assert(gs.take(0) =~= Seq::<InstallGroup>::empty());
        assert(cached@.take(0) =~= Seq::<bool>::empty());
        assert(rest@ =~= gs.skip(0));
    }
    while rest.len() > 0
        invariant
            i + rest@.len() == n,
            n == gs.len(),
            cached@.len() == n,
            cl == n,
            rest@ == gs.skip(i as int),
            keep@ == selected_groups(gs.take(i as int), cached@.take(i as int), true),
            fetch@ == selected_groups(gs.take(i as int), cached@.take(i as int), false),
        decreases rest.len(),
    {
        let ghost rv = rest@;
        let g = rest.remove(0);
        proof {
            assert(g == rv[0]);
            assert(rv[0] == gs[i as int]);
            assert(rest@ =~= rv.subrange(1, rv.len() as int));
            assert(rest@ =~= gs.skip(i + 1));
            assert(gs.take(i + 1).drop_last() =~= gs.take(i as int));
            assert(cached@.take(i + 1).drop_last() =~= cached@.take(i as int));
            assert(gs.take(i + 1).last() == gs[i as int]);
            assert(cached@.take(i + 1)[gs.take(i + 1).len() - 1] == cached@[i as int]);
        }
        if cached[i] {
            keep.push(g);
            proof {
                assert(keep@ =~= selected_groups(gs.take(i + 1), cached@.take(i + 1), true));
                assert(fetch@ =~= selected_groups(gs.take(i + 1), cached@.take(i + 1), false));
            }
        } else {
            fetch.push(g);
            proof {
                assert(fetch@ =~= selected_groups(gs.take(i + 1), cached@.take(i + 1), false));
                assert(keep@ =~= selected_groups(gs.take(i + 1), cached@.take(i + 1), true));
            }
        }
        i += 1;
    }
    proof {
        assert(gs.take(n as int) =~= gs);
        assert(cached@.take(n as int) =~= cached@);
        if forall|i2: int| 0 <= i2 < cached@.len() ==> cached@[i2] {
            lemma_selected_none(gs, cached@, false);
        }
    }
    (keep, fetch)
}

} // verus!
