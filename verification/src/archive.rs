//! The extraction engine: decoding gzip+tar archives, detecting the
//! conventional top-level prefix, and planning where each file lands.
//!
//! Decoding is delegated to the `flate2` and `tar` crates; everything the
//! decoded entries are put through afterwards is verified.

use std::io::Read;
use vstd::prelude::*;

verus! {

use crate::names::{package_bytes, package_json_bytes};
use crate::util::{
    SEP, bytes_eq, copy_bytes, is_prefix_of, join_under, push_all, starts_with, subrange_vec,
};

broadcast use vstd::array::group_array_axioms;

/// One entry of a decoded archive: its stored path, its kind, and (for
/// non-directories) its bytes.
pub struct ArchiveEntry {
    pub path: Vec<u8>,
    pub is_file: bool,
    pub is_dir: bool,
    pub data: Vec<u8>,
}

impl ArchiveEntry {
    pub fn new(path: Vec<u8>, is_file: bool, is_dir: bool, data: Vec<u8>) -> (r: ArchiveEntry)
        ensures
            r.path == path && r.is_file == is_file && r.is_dir == is_dir && r.data == data,
    {
        ArchiveEntry { path, is_file, is_dir, data }
    }
}

/// The plain shape of an entry: path, is-file, is-directory, data.
pub open spec fn tar_entry_view(e: ArchiveEntry) -> (Seq<u8>, bool, bool, Seq<u8>) {
    (e.path@, e.is_file, e.is_dir, e.data@)
}

pub open spec fn tar_entries_view(s: Seq<ArchiveEntry>) -> Seq<(Seq<u8>, bool, bool, Seq<u8>)> {
    s.map_values(|e: ArchiveEntry| tar_entry_view(e))
}

/// What decoding a gzip-compressed tar stream yields: a function of the
/// bytes alone.  `None` stands for streams the decoder rejects.
pub uninterp spec fn tgz_entries(bytes: Seq<u8>) -> Option<Seq<(Seq<u8>, bool, bool, Seq<u8>)>>;

/// Relies on `flate2::read::GzDecoder` and `tar::Archive`: entries of the
/// decoded stream in order, with path, kind and content; the result
/// depends on the bytes alone.
#[verifier::external_body]
pub(crate) fn decode_tgz(bytes: &[u8]) -> (r: Option<Vec<ArchiveEntry>>)
    ensures
        match r {
            Some(es) => tgz_entries(bytes@) == Some(tar_entries_view(es@)),
            None => tgz_entries(bytes@) is None,
        },
{
    let mut archive = tar::Archive::new(flate2::read::GzDecoder::new(bytes));
    let mut out: Vec<ArchiveEntry> = Vec::new();
    for ent in archive.entries().ok()? {
        let mut ent = ent.ok()?;
        let path = ent.path().ok()?.to_string_lossy().into_owned().into_bytes();
        let k = ent.header().entry_type();
        let (is_file, is_dir) = (k.is_file(), k.is_dir());
        let mut data = Vec::new();
        if !is_dir { ent.read_to_end(&mut data).ok()?; }
        out.push(ArchiveEntry { path, is_file, is_dir, data });
    }
    Some(out)
}

/// Where an entry is materialized, `None` for the bare prefix directory
/// marker: the prefix is stripped when present, and the rest lands under
/// the extraction directory.
pub open spec fn output_path_spec(path: Seq<u8>, dir: Seq<u8>, pre: Option<Seq<u8>>) -> Option<
    Seq<u8>,
> {
    match pre {
        Some(p) => {
            if is_prefix_of(p + seq![SEP], path) {
                Some(join_under(dir, path.subrange(p.len() + 1 as int, path.len() as int)))
            } else if path == p {
                None
            } else {
                Some(join_under(dir, path))
            }
        },
        None => Some(join_under(dir, path)),
    }
}

/// Compute the output path for one entry.
pub fn calculate_output_path(entry_path: &[u8], extract_dir: &[u8], root_prefix: Option<&Vec<u8>>)
    -> (r: Option<Vec<u8>>)
    ensures
        match r {
            Some(out) => output_path_spec(
                entry_path@,
                extract_dir@,
                match root_prefix {
                    Some(p) => Some(p@),
                    None => None,
                },
            ) == Some(out@),
            None => output_path_spec(
                entry_path@,
                extract_dir@,
                match root_prefix {
                    Some(p) => Some(p@),
                    None => None,
                },
            ) is None,
        },
{
    let stripped: &[u8] = match root_prefix {
        Some(p) => {
            let mut pre_slash = copy_bytes(p.as_slice());
            pre_slash.push(SEP);
            proof {
                assert(pre_slash@ =~= p@ + seq![SEP]);
            }
            if starts_with(entry_path, pre_slash.as_slice()) {
                let n = entry_path.len();
                proof {
                    assert(p@.len() + 1 <= n);
                }
                &entry_path[p.len() + 1..n]
            } else if bytes_eq(entry_path, p.as_slice()) {
                return None;
            } else {
                entry_path
            }
        },
        None => entry_path,
    };
    let mut out = copy_bytes(extract_dir);
    if !(extract_dir.len() > 0 && extract_dir[extract_dir.len() - 1] == SEP) {
        out.push(SEP);
    }
    push_all(&mut out, stripped);
    proof {
        assert(out@ =~= join_under(extract_dir@, stripped@));
    }
    Some(out)
}

/// The path ends in `/package.json` and what precedes the suffix is a
/// single non-empty component: it names the archive's top directory.
pub open spec fn prefix_candidate(path: Seq<u8>) -> bool {
    let sfx = seq![SEP] + crate::names::package_json_seq();
    &&& path.len() > sfx.len()
    &&& path.subrange(path.len() - sfx.len(), path.len() as int) == sfx
    &&& forall|i: int| 0 <= i < path.len() - sfx.len() ==> path[i] != SEP
}

/// The prefix a candidate names.
pub open spec fn candidate_prefix(path: Seq<u8>) -> Seq<u8> {
    path.subrange(0, path.len() - (seq![SEP] + crate::names::package_json_seq()).len())
}

/// Check one path for being a prefix candidate, returning the candidate's
/// prefix length.
fn check_candidate(path: &[u8]) -> (r: Option<usize>)
    ensures
        match r {
            Some(plen) => prefix_candidate(path@) && plen == candidate_prefix(path@).len(),
            None => !prefix_candidate(path@),
        },
{
    let pj = package_json_bytes();
    let mut sfx: Vec<u8> = Vec::new();
    sfx.push(SEP);
    push_all(&mut sfx, pj.as_slice());
    proof {
        assert(sfx@ =~= seq![SEP] + crate::names::package_json_seq());
    }
    if path.len() <= sfx.len() {
        return None;
    }
    let plen = path.len() - sfx.len();
    let tail = &path[plen..path.len()];
    if !bytes_eq(tail, sfx.as_slice()) {
        proof {
            assert(tail@ == path@.subrange(
                path@.len() - sfx@.len(),
                path@.len() as int,
            ));
        }
        return None;
    }
    let mut i: usize = 0;
    while i < plen
        invariant
            i <= plen,
            plen < path@.len(),
            plen == path@.len() - (seq![SEP] + crate::names::package_json_seq()).len(),
            forall|t: int| 0 <= t < i ==> path@[t] != SEP,
        decreases plen - i,
    {
        if path[i] == SEP {
            return None;
        }
        i += 1;
    }
    proof {
        assert(prefix_candidate(path@));
    }
    Some(plen)
}


/// All the stored paths of a decoded archive.
pub open spec fn tar_paths(s: Seq<ArchiveEntry>) -> Seq<Seq<u8>> {
    s.map_values(|e: ArchiveEntry| e.path@)
}

/// `"package/package.json"`.
pub open spec fn package_package_json_seq() -> Seq<u8> {
    crate::names::package_seq() + seq![SEP] + crate::names::package_json_seq()
}

/// The best prefix candidate among `paths`: shortest path wins, the
/// earliest among equals.
pub open spec fn best_candidate(paths: Seq<Seq<u8>>) -> Option<int>
    decreases paths.len(),
{
    if paths.len() == 0 {
        None
    } else {
        let l = paths.len() - 1;
        let rest = best_candidate(paths.drop_last());
        if prefix_candidate(paths[l]) {
            match rest {
                Option::None => Some(l),
                Some(b) => if paths[b].len() <= paths[l].len() {
                    Some(b)
                } else {
                    Some(l)
                },
            }
        } else {
            rest
        }
    }
}

pub proof fn lemma_best_candidate_in_range(paths: Seq<Seq<u8>>)
    ensures
        match best_candidate(paths) {
            Some(b) => 0 <= b < paths.len() && prefix_candidate(paths[b]),
            None => true,
        },
    decreases paths.len(),
{
    if paths.len() > 0 {
        lemma_best_candidate_in_range(paths.drop_last());
    }
}

/// The top-level prefix stripped at extraction: `package` when
/// `package/package.json` exists; none when `package.json` sits at the
/// root; else the directory of the shallowest `<dir>/package.json`; else
/// `package` when anything lives under `package/`; else none.
pub open spec fn root_prefix_spec(paths: Seq<Seq<u8>>) -> Option<Seq<u8>> {
    if exists|i: int| 0 <= i < paths.len() && paths[i] == package_package_json_seq() {
        Some(crate::names::package_seq())
    } else if exists|i: int| 0 <= i < paths.len() && paths[i] == crate::names::package_json_seq() {
        None
    } else {
        match best_candidate(paths) {
            Some(b) => Some(candidate_prefix(paths[b])),
            Option::None => {
                if exists|i: int|
                    0 <= i < paths.len() && is_prefix_of(
                        crate::names::package_seq() + seq![SEP],
                        paths[i],
                    ) {
                    Some(crate::names::package_seq())
                } else {
                    None
                }
            },
        }
    }
}

/// Scan `paths` for an exact match of `q`.
fn any_equal(entries: &Vec<ArchiveEntry>, q: &[u8]) -> (r: bool)
    ensures
        r == exists|i: int| 0 <= i < tar_paths(entries@).len() && tar_paths(entries@)[i] == q@,
{
    let mut i: usize = 0;
    while i < entries.len()
        invariant
            i <= entries@.len(),
            forall|t: int| 0 <= t < i ==> tar_paths(entries@)[t] != q@,
        decreases entries.len() - i,
    {
        if bytes_eq(entries[i].path.as_slice(), q) {
            proof {
                assert(tar_paths(entries@)[i as int] == q@);
            }
            return true;
        }
        i += 1;
    }
    false
}

/// Scan `paths` for one beginning with `q`.
fn any_prefixed(entries: &Vec<ArchiveEntry>, q: &[u8]) -> (r: bool)
    ensures
        r == exists|i: int|
            0 <= i < tar_paths(entries@).len() && is_prefix_of(q@, tar_paths(entries@)[i]),
{
    let mut i: usize = 0;
    while i < entries.len()
        invariant
            i <= entries@.len(),
            forall|t: int| 0 <= t < i ==> !is_prefix_of(q@, tar_paths(entries@)[t]),
        decreases entries.len() - i,
    {
        if starts_with(entries[i].path.as_slice(), q) {
            proof {
                assert(is_prefix_of(q@, tar_paths(entries@)[i as int]));
            }
            return true;
        }
        i += 1;
    }
    false
}

/// Determine the top-level prefix to strip, from the entries' paths.
pub fn determine_root_prefix(entries: &Vec<ArchiveEntry>) -> (r: Option<Vec<u8>>)
    ensures
        match r {
            Some(p) => root_prefix_spec(tar_paths(entries@)) == Some(p@),
            None => root_prefix_spec(tar_paths(entries@)) is None,
        },
{
    let ghost paths = tar_paths(entries@);
    let pkg = package_bytes();
    let pj = package_json_bytes();
    let mut ppj = copy_bytes(pkg.as_slice());
    ppj.push(SEP);
    push_all(&mut ppj, pj.as_slice());
    proof {
        assert(ppj@ =~= package_package_json_seq());
    }
    if any_equal(entries, ppj.as_slice()) {
        return Some(copy_bytes(pkg.as_slice()));
    }
    if any_equal(entries, pj.as_slice()) {
        return None;
    }
    let mut best: Option<(usize, usize)> = None;
    let mut i: usize = 0;
    proof {
        assert(paths.take(0) =~= Seq::<Seq<u8>>::empty());
    }
    while i < entries.len()
        invariant
            i <= entries@.len(),
            paths == tar_paths(entries@),
            match best {
                Some((b, blen)) => b < i && best_candidate(paths.take(i as int)) == Some(b as int)
                    && blen == paths[b as int].len(),
                Option::None => best_candidate(paths.take(i as int)) is None,
            },
        decreases entries.len() - i,
    {
        let c = check_candidate(entries[i].path.as_slice());
        proof {
            assert(paths.take(i + 1).drop_last() =~= paths.take(i as int));
            assert(paths.take(i + 1).last() == paths[i as int]);
        }
        match c {
            Some(_plen) => {
                let plen_full = entries[i].path.len();
                match best {
                    Some((_b, blen)) => {
                        if plen_full < blen {
                            best = Some((i, plen_full));
                        }
                    },
                    None => {
                        best = Some((i, plen_full));
                    },
                }
            },
            None => {},
        }
        i += 1;
    }
    proof {
        assert(paths.take(entries@.len() as int) =~= paths);
    }
    match best {
        Some((b, _blen)) => {
            proof {
                lemma_best_candidate_in_range(paths);
            }
            let path = &entries[b].path;
            let plen = path.len() - 1 - package_json_bytes().len();
            let pre = subrange_vec(path.as_slice(), 0, plen);
            proof {
                assert(pre@ == candidate_prefix(paths[b as int]));
            }
            return Some(pre);
        },
        None => {},
    }
    let mut pkg_slash = copy_bytes(pkg.as_slice());
    pkg_slash.push(SEP);
    proof {
        assert(pkg_slash@ =~= crate::names::package_seq() + seq![SEP]);
    }
    if any_prefixed(entries, pkg_slash.as_slice()) {
        return Some(copy_bytes(pkg.as_slice()));
    }
    None
}

/// The write plan for a decoded archive: each file entry's output path and
/// bytes, in archive order, with the prefix directory marker skipped.
pub open spec fn planned_writes(
    es: Seq<(Seq<u8>, bool, bool, Seq<u8>)>,
    dir: Seq<u8>,
    pre: Option<Seq<u8>>,
) -> Seq<(Seq<u8>, Seq<u8>)>
    decreases es.len(),
{
    if es.len() == 0 {
        Seq::empty()
    } else {
        let l = es.last();
        planned_writes(es.drop_last(), dir, pre) + if l.1 && output_path_spec(l.0, dir, pre)
            is Some {
            seq![(output_path_spec(l.0, dir, pre).unwrap(), l.3)]
        } else {
            Seq::empty()
        }
    }
}

/// Plan the materialization of every file entry under `extract_dir`.
pub fn plan_extraction(entries: Vec<ArchiveEntry>, extract_dir: &[u8], root_prefix: Option<&Vec<u8>>)
    -> (r: Vec<(Vec<u8>, Vec<u8>)>)
    ensures
        r@.map_values(|w: (Vec<u8>, Vec<u8>)| (w.0@, w.1@)) == planned_writes(
            tar_entries_view(entries@),
            extract_dir@,
            match root_prefix {
                Some(p) => Some(p@),
                None => None,
            },
        ),
{
    let ghost es = tar_entries_view(entries@);
    let ghost pre = match root_prefix {
        Some(p) => Some(p@),
        None => None,
    };
    let mut r: Vec<(Vec<u8>, Vec<u8>)> = Vec::new();
    let mut rest = entries;
    let ghost n = es.len();
    proof {
        assert(es.take(0) =~= Seq::<(Seq<u8>, bool, bool, Seq<u8>)>::empty());
        assert(rest@.map_values(|e: ArchiveEntry| tar_entry_view(e)) =~= es.skip(0));
    }
    while rest.len() > 0
        invariant
            rest@.len() <= n,
            n == es.len(),
            tar_entries_view(rest@) == es.skip(n - rest@.len()),
            pre == match root_prefix {
                Some(p) => Some(p@),
                None => None,
            },
            r@.map_values(|w: (Vec<u8>, Vec<u8>)| (w.0@, w.1@)) == planned_writes(
                es.take(n - rest@.len()),
                extract_dir@,
                pre,
            ),
        decreases rest.len(),
    {
        let ghost i = n - rest@.len();
        let ghost rv = rest@;
        let e = rest.remove(0);
        proof {
            assert(e == rv[0]);
            assert(rest@ =~= rv.subrange(1, rv.len() as int));
            assert(tar_entries_view(rv) == es.skip(i));
            assert(tar_entry_view(e) == tar_entries_view(rv)[0]);
            assert(tar_entry_view(e) == es.skip(i)[0]);
            assert(tar_entry_view(e) == es[i as int]);
            assert(tar_entries_view(rest@) =~= es.skip(i + 1)) by {
                assert forall|t: int| 0 <= t < rest@.len() implies tar_entries_view(rest@)[t]
                    == es.skip(i + 1)[t] by {
                    assert(tar_entries_view(rest@)[t] == tar_entry_view(rest@[t]));
                    assert(rest@[t] == rv[t + 1]);
                    assert(tar_entries_view(rv)[t + 1] == tar_entry_view(rv[t + 1]));
                    assert(es.skip(i)[t + 1] == es[i + 1 + t]);
                    assert(es.skip(i + 1)[t] == es[i + 1 + t]);
                }
                assert(tar_entries_view(rest@).len() == es.skip(i + 1).len());
            };
            assert(es.take(i + 1).drop_last() =~= es.take(i as int));
            assert(es.take(i + 1).last() == es[i as int]);
        }
        if e.is_file {
            match calculate_output_path(e.path.as_slice(), extract_dir, root_prefix) {
                Some(out) => {
                    let ghost r0 = r@;
                    r.push((out, e.data));
                    proof {
                        assert(r@.map_values(|w: (Vec<u8>, Vec<u8>)| (w.0@, w.1@)) =~= r0.map_values(
                            |w: (Vec<u8>, Vec<u8>)| (w.0@, w.1@),
                        ) + seq![(output_path_spec(es[i as int].0, extract_dir@, pre).unwrap(), es[i as int].3)]);
                    }
                },
                None => {},
            }
        }
    }
    proof {
        assert(es.take(n as int) =~= es);
    }
    r
}


/// The stored paths of the plain entry shapes.
pub open spec fn entry_view_paths(es: Seq<(Seq<u8>, bool, bool, Seq<u8>)>) -> Seq<Seq<u8>> {
    es.map_values(|t: (Seq<u8>, bool, bool, Seq<u8>)| t.0)
}

/// Decode an archive and plan its extraction under `extract_dir`: detect
/// the top-level prefix from the decoded paths, then lay out every file
/// entry with the prefix stripped.
pub fn extract_tgz_bytes(tgz_bytes: &[u8], extract_dir: &[u8]) -> (r: Result<
    Vec<(Vec<u8>, Vec<u8>)>,
    crate::FsError,
>)
    ensures
        match r {
            Ok(writes) => tgz_entries(tgz_bytes@) is Some && ({
                let ev = tgz_entries(tgz_bytes@).unwrap();
                writes@.map_values(|w: (Vec<u8>, Vec<u8>)| (w.0@, w.1@)) == planned_writes(
                    ev,
                    extract_dir@,
                    root_prefix_spec(entry_view_paths(ev)),
                )
            }),
            Err(e) => e == crate::FsError::MalformedInput && tgz_entries(tgz_bytes@) is None,
        },
{
    let entries = match decode_tgz(tgz_bytes) {
        Some(es) => es,
        None => {
            return Err(crate::FsError::MalformedInput);
        },
    };
    proof {
        assert(entry_view_paths(tar_entries_view(entries@)) =~= tar_paths(entries@));
    }
    let prefix = determine_root_prefix(&entries);
    let writes = plan_extraction(entries, extract_dir, prefix.as_ref());
    Ok(writes)
}
} // verus!
