//! The fuse-link layer: sentinel discovery, parsing and resolution.
//!
//! A `fuse.link` file at a package directory redirects reads of that
//! directory.  Its first line holds either a target directory path or an
//! archive path and a prefix separated by `|`.  Everything here is pure;
//! the caller reads sentinel files and target bytes from storage.

use vstd::prelude::*;

verus! {

use crate::names::{fuse_link_bytes, node_modules_bytes};
use crate::FsError;
use crate::kvmap::KvMap;
use crate::text::{find_first, first_line, trim, trim_bounds};
use crate::util::{
    SEP, bounds_ok, bytes_eq, component_bounds, copy_bytes, is_prefix_of, join_path,
    lemma_join_take, split_path, starts_with, subrange_vec, push_all,
};

broadcast use vstd::array::group_array_axioms;

/// Component `j` of `cs` is a package directory right under a
/// `node_modules` component: the component before it is literally
/// `node_modules`, it is non-empty, and when it is a scope (`@...`) a
/// non-empty package component follows it.
pub open spec fn anchor_ok(cs: Seq<Seq<u8>>, j: int) -> bool {
    &&& 1 <= j < cs.len()
    &&& cs[j - 1] == crate::names::node_modules_seq()
    &&& cs[j].len() > 0
    &&& (cs[j][0] == 64 ==> j + 1 < cs.len() && cs[j + 1].len() > 0)
}

/// The innermost anchor at or below position `j`.
pub open spec fn fuse_anchor_at(cs: Seq<Seq<u8>>, j: int) -> Option<int>
    decreases j,
{
    if j < 1 {
        None
    } else if anchor_ok(cs, j) {
        Some(j)
    } else {
        fuse_anchor_at(cs, j - 1)
    }
}

/// The sentinel path for the anchor at component `j` of `p`: the byte
/// prefix of `p` through the package directory, then `/fuse.link`.
pub open spec fn sentinel_at(p: Seq<u8>, j: int) -> Seq<u8> {
    let cs = split_path(p);
    let end = if cs[j][0] == 64 {
        j + 1
    } else {
        j
    };
    join_path(cs.take(end + 1)) + seq![SEP] + crate::names::fuse_link_seq()
}

/// Where the sentinel of `p`'s innermost enclosing package directory
/// lives, if `p` has one.
pub open spec fn find_fuse_link_spec(p: Seq<u8>) -> Option<Seq<u8>> {
    let cs = split_path(p);
    match fuse_anchor_at(cs, cs.len() - 1) {
        Some(j) => Some(sentinel_at(p, j)),
        None => None,
    }
}

/// The anchor the walk returns is the innermost one: no component past it
/// anchors, and when the walk returns nothing, nothing anchors at all.
pub proof fn lemma_fuse_anchor_innermost(cs: Seq<Seq<u8>>, j0: int)
    requires
        j0 < cs.len(),
    ensures
        match fuse_anchor_at(cs, j0) {
            Some(j) => anchor_ok(cs, j) && forall|t: int| j < t <= j0 ==> !anchor_ok(cs, t),
            None => forall|t: int| t <= j0 ==> !anchor_ok(cs, t),
        },
    decreases j0,
{
    if j0 < 1 {
    } else if anchor_ok(cs, j0) {
    } else {
        lemma_fuse_anchor_innermost(cs, j0 - 1);
    }
}

/// Law: for a path whose ancestry contains a `node_modules` component
/// followed by a non-scope-only package directory, the sentinel found is
/// that of the innermost such package directory; for every other path,
/// nothing is found.
pub proof fn lemma_find_fuse_link_innermost(p: Seq<u8>)
    ensures
        match find_fuse_link_spec(p) {
            Some(s) => exists|j: int|
                #[trigger] anchor_ok(split_path(p), j) && s == sentinel_at(p, j) && forall|t: int|
                    t > j ==> !anchor_ok(split_path(p), t),
            None => forall|t: int| !anchor_ok(split_path(p), t),
        },
{
    let cs = split_path(p);
    crate::util::lemma_split_path_len(p);
    lemma_fuse_anchor_innermost(cs, cs.len() - 1);
    match fuse_anchor_at(cs, cs.len() - 1) {
        Some(j) => {
            assert(anchor_ok(cs, j) && find_fuse_link_spec(p) == Some(sentinel_at(p, j))
                && forall|t: int| t > j ==> !anchor_ok(cs, t));
        },
        None => {},
    }
}

/// Build the sentinel path once the anchor component is known.
#[verifier::rlimit(100)]
fn sentinel_from(p: &[u8], bounds: &Vec<(usize, usize)>, j: usize, scoped: bool) -> (r: Vec<u8>)
    requires
        bounds_ok(p@, bounds@),
        1 <= j < bounds@.len(),
        anchor_ok(split_path(p@), j as int),
        fuse_anchor_at(split_path(p@), split_path(p@).len() - 1) == Some(j as int),
        scoped == (split_path(p@)[j as int][0] == 64),
    ensures
        find_fuse_link_spec(p@) == Some(r@),
{
    let ghost cs = split_path(p@);
    let n = bounds.len();
    let end: usize = if scoped {
        proof {
            assert(j + 1 < n);
        }
        j + 1
    } else {
        j
    };
    let (_se, ee) = bounds[end];
    let mut sentinel = subrange_vec(p, 0, ee);
    sentinel.push(SEP);
    let fl = fuse_link_bytes();
    push_all(&mut sentinel, fl.as_slice());
    proof {
        lemma_join_take(p@, bounds@, end as int);
        assert(sentinel@ =~= p@.subrange(0, ee as int) + seq![SEP]
            + crate::names::fuse_link_seq());
        assert(sentinel@ == sentinel_at(p@, j as int));
        assert(find_fuse_link_spec(p@) == Some(sentinel_at(p@, j as int)));
    }
    sentinel
}

/// Walk `p`'s ancestry for the sentinel of the innermost enclosing
/// package directory under a `node_modules` component.
#[verifier::rlimit(100)]
pub fn find_fuse_link(p: &[u8]) -> (r: Option<Vec<u8>>)
    ensures
        match r {
            Some(s) => find_fuse_link_spec(p@) == Some(s@),
            None => find_fuse_link_spec(p@) is None,
        },
{
    let ghost cs = split_path(p@);
    let bounds = component_bounds(p);
    let nm = node_modules_bytes();
    let n = bounds.len();
    proof {
        assert(n - 1 < cs.len());
    }
    let mut j: usize = n - 1;
    while j >= 1
        invariant
            bounds_ok(p@, bounds@),
            cs == split_path(p@),
            n == bounds@.len(),
            nm@ == crate::names::node_modules_seq(),
            j <= n - 1,
            fuse_anchor_at(cs, n - 1) == fuse_anchor_at(cs, j as int),
        decreases j,
    {
        let (s0, e0) = bounds[j - 1];
        let (s1, e1) = bounds[j];
        proof {
            assert(p@.subrange((#[trigger] bounds@[j - 1]).0 as int, bounds@[j - 1].1 as int)
                == cs[j - 1]);
            assert(p@.subrange((#[trigger] bounds@[j as int]).0 as int, bounds@[j as int].1 as int)
                == cs[j as int]);
        }
        if bytes_eq(&p[s0..e0], nm.as_slice()) && e1 > s1 {
            let scoped = p[s1] == 64;
            proof {
                assert(cs[j as int][0] == p@[s1 as int]);
            }
            let mut fits = true;
            if scoped {
                if j + 1 < n {
                    let (s2, e2) = bounds[j + 1];
                    proof {
                        assert(p@.subrange(
                            (#[trigger] bounds@[j + 1]).0 as int,
                            bounds@[j + 1].1 as int,
                        ) == cs[j + 1]);
                    }
                    fits = e2 > s2;
                } else {
                    fits = false;
                }
            }
            if fits {
                proof {
                    assert(anchor_ok(cs, j as int));
                    assert(fuse_anchor_at(cs, j as int) == Some(j as int));
                }
                return Some(sentinel_from(p, &bounds, j, scoped));
            }
        }
        proof {
            assert(!anchor_ok(cs, j as int));
        }
        j -= 1;
    }
    None
}


/// The first line of a sentinel file, trimmed: all that is significant.
pub open spec fn sentinel_line(content: Seq<u8>) -> Seq<u8> {
    trim(first_line(content))
}

/// What a sentinel's line encodes: a target path and, in archive mode, a
/// prefix.  Nothing when the line is empty or the target part is; a `|`
/// with nothing after it means directory mode.
pub open spec fn parse_sentinel_spec(content: Seq<u8>) -> Option<(Seq<u8>, Option<Seq<u8>>)> {
    let line = sentinel_line(content);
    if line.len() == 0 {
        None
    } else {
        let bar = crate::text::first_index(line, 124);
        if bar == line.len() {
            Some((line, None))
        } else if bar == 0 {
            None
        } else if bar + 1 == line.len() {
            Some((line.subrange(0, bar), None))
        } else {
            Some((line.subrange(0, bar), Some(line.subrange(bar + 1, line.len() as int))))
        }
    }
}

/// The parsed redirection target of a sentinel.
pub enum FuseTarget {
    /// Contents live in a materialized directory.
    Directory { target: Vec<u8> },
    /// Contents live in an archive whose stored paths begin with `prefix`.
    Archive { archive: Vec<u8>, prefix: Vec<u8> },
}

/// Parse a sentinel file's content at its first `|`.
pub fn parse_sentinel(content: &[u8]) -> (r: Option<FuseTarget>)
    ensures
        match r {
            Some(FuseTarget::Directory { target }) => parse_sentinel_spec(content@) == Some(
                (target@, Option::<Seq<u8>>::None),
            ),
            Some(FuseTarget::Archive { archive, prefix }) => parse_sentinel_spec(content@) == Some(
                (archive@, Some(prefix@)),
            ),
            None => parse_sentinel_spec(content@) is None,
        },
{
    let nl = find_first(content, 10);
    let line0 = &content[0..nl];
    proof {
        assert(line0@ == first_line(content@));
    }
    let (lo, hi) = trim_bounds(line0);
    let line = &line0[lo..hi];
    proof {
        assert(line@ == sentinel_line(content@));
    }
    if line.len() == 0 {
        return None;
    }
    let bar = find_first(line, 124);
    if bar == line.len() {
        return Some(FuseTarget::Directory { target: copy_bytes(line) });
    }
    if bar == 0 {
        return None;
    }
    let target = subrange_vec(line, 0, bar);
    if bar + 1 == line.len() {
        return Some(FuseTarget::Directory { target });
    }
    let prefix = subrange_vec(line, bar + 1, line.len());
    Some(FuseTarget::Archive { archive: target, prefix })
}

/// The suffix every sentinel path ends with: `/fuse.link`.
pub open spec fn sentinel_suffix() -> Seq<u8> {
    seq![SEP] + crate::names::fuse_link_seq()
}

/// A sentinel path names the `fuse.link` file of some directory.
pub open spec fn sentinel_well_formed(s: Seq<u8>) -> bool {
    s.len() >= sentinel_suffix().len() && s.subrange(
        s.len() - sentinel_suffix().len(),
        s.len() as int,
    ) == sentinel_suffix()
}

/// The directory a sentinel sits in.
pub open spec fn sentinel_dir(s: Seq<u8>) -> Seq<u8> {
    s.subrange(0, s.len() - sentinel_suffix().len())
}

/// The consumer path relative to the sentinel's directory, with one
/// leading separator dropped.
pub open spec fn rel_under(p: Seq<u8>, dir: Seq<u8>) -> Seq<u8> {
    let start = if p.len() > dir.len() && (p[dir.len() as int] == SEP || p[dir.len() as int]
        == 92) {
        dir.len() + 1
    } else {
        dir.len()
    };
    p.subrange(start as int, p.len() as int)
}

/// The target-side path for a consumer path: the target itself when the
/// relative part is empty, else the two joined.
pub open spec fn joined_target(target: Seq<u8>, rel: Seq<u8>) -> Seq<u8> {
    if rel.len() == 0 {
        target
    } else {
        target + seq![SEP] + rel
    }
}

/// What a fuse-link file read must do next.
pub enum FuseReadPlan {
    /// Directory mode: read these bytes directly from storage.
    File { path: Vec<u8> },
    /// Archive mode: serve this entry of the archive through the tar cache.
    ArchiveEntry { archive: Vec<u8>, entry: Vec<u8> },
}

/// What a fuse-link directory read must do next.
pub enum FuseListPlan {
    /// Directory mode: list this storage directory.
    Dir { path: Vec<u8> },
    /// Archive mode: list this logical directory of the archive.
    ArchiveDir { archive: Vec<u8>, entry: Vec<u8> },
}

/// Split `sentinel` into its directory and check `p` lies under it.
fn resolve_rel(p: &[u8], sentinel: &[u8]) -> (r: Result<(usize, usize), FsError>)
    ensures
        match r {
            Ok((dlen, start)) => sentinel_well_formed(sentinel@) && is_prefix_of(
                sentinel_dir(sentinel@),
                p@,
            ) && dlen == sentinel_dir(sentinel@).len() && p@.subrange(start as int, p@.len() as int)
                == rel_under(p@, sentinel_dir(sentinel@)) && start <= p@.len(),
            Err(e) => e == FsError::InvariantViolated && (!sentinel_well_formed(sentinel@)
                || !is_prefix_of(sentinel_dir(sentinel@), p@)),
        },
{
    let sfx = crate::names::fuse_link_bytes();
    if sentinel.len() < sfx.len() + 1 {
        return Err(FsError::InvariantViolated);
    }
    let dlen = sentinel.len() - sfx.len() - 1;
    let tail = &sentinel[dlen..sentinel.len()];
    let mut sep_sfx: Vec<u8> = Vec::new();
    sep_sfx.push(SEP);
    push_all(&mut sep_sfx, sfx.as_slice());
    proof {
        assert(sep_sfx@ =~= sentinel_suffix());
    }
    if !bytes_eq(tail, sep_sfx.as_slice()) {
        proof {
            assert(tail@ == sentinel@.subrange(
                sentinel@.len() - sentinel_suffix().len(),
                sentinel@.len() as int,
            ));
        }
        return Err(FsError::InvariantViolated);
    }
    let dir = &sentinel[0..dlen];
    proof {
        assert(dir@ == sentinel_dir(sentinel@));
    }
    if !starts_with(p, dir) {
        return Err(FsError::InvariantViolated);
    }
    let start: usize = if p.len() > dlen && (p[dlen] == SEP || p[dlen] == 92) {
        dlen + 1
    } else {
        dlen
    };
    Ok((dlen, start))
}

/// Decide how to serve a file read at `p` through the sentinel at
/// `sentinel` whose file holds `content`.
pub fn plan_fuse_read(p: &[u8], sentinel: &[u8], content: &[u8]) -> (r: Result<
    Option<FuseReadPlan>,
    FsError,
>)
    ensures
        ({
            let parsed = parse_sentinel_spec(content@);
            match r {
                Ok(Option::None) => parsed is None,
                Err(e) => parsed is Some && if !sentinel_well_formed(sentinel@) || !is_prefix_of(
                    sentinel_dir(sentinel@),
                    p@,
                ) {
                    e == FsError::InvariantViolated
                } else {
                    e == FsError::IsADirectory && parsed.unwrap().1 is Some && rel_under(
                        p@,
                        sentinel_dir(sentinel@),
                    ).len() == 0
                },
                Ok(Some(plan)) => parsed is Some && sentinel_well_formed(sentinel@)
                    && is_prefix_of(sentinel_dir(sentinel@), p@) && ({
                    let target = parsed.unwrap().0;
                    let pfx = parsed.unwrap().1;
                    let rel = rel_under(p@, sentinel_dir(sentinel@));
                    match plan {
                        FuseReadPlan::File { path } => pfx is None && path@ == joined_target(
                            target,
                            rel,
                        ),
                        FuseReadPlan::ArchiveEntry { archive, entry } => pfx is Some && rel.len()
                            > 0 && archive@ == target && entry@ == pfx.unwrap() + seq![SEP] + rel,
                    }
                }),
            }
        }),
{
    let parsed = match parse_sentinel(content) {
        Some(t) => t,
        None => {
            return Ok(None);
        },
    };
    let (_dlen, start) = match resolve_rel(p, sentinel) {
        Ok(pair) => pair,
        Err(e) => {
            return Err(e);
        },
    };
    let rel = &p[start..p.len()];
    match parsed {
        FuseTarget::Directory { target } => {
            let mut path = target;
            if rel.len() > 0 {
                path.push(SEP);
                push_all(&mut path, rel);
            }
            Ok(Some(FuseReadPlan::File { path }))
        },
        FuseTarget::Archive { archive, prefix } => {
            if rel.len() == 0 {
                return Err(FsError::IsADirectory);
            }
            let mut entry = prefix;
            entry.push(SEP);
            push_all(&mut entry, rel);
            Ok(Some(FuseReadPlan::ArchiveEntry { archive, entry }))
        },
    }
}

/// Decide how to list the directory at `p` through the sentinel at
/// `sentinel` whose file holds `content`.
pub fn plan_fuse_list(p: &[u8], sentinel: &[u8], content: &[u8]) -> (r: Result<
    Option<FuseListPlan>,
    FsError,
>)
    ensures
        ({
            let parsed = parse_sentinel_spec(content@);
            match r {
                Ok(Option::None) => parsed is None,
                Err(e) => parsed is Some && e == FsError::InvariantViolated && (
                !sentinel_well_formed(sentinel@) || !is_prefix_of(sentinel_dir(sentinel@), p@)),
                Ok(Some(plan)) => parsed is Some && sentinel_well_formed(sentinel@)
                    && is_prefix_of(sentinel_dir(sentinel@), p@) && ({
                    let target = parsed.unwrap().0;
                    let pfx = parsed.unwrap().1;
                    let rel = rel_under(p@, sentinel_dir(sentinel@));
                    match plan {
                        FuseListPlan::Dir { path } => pfx is None && path@ == joined_target(
                            target,
                            rel,
                        ),
                        FuseListPlan::ArchiveDir { archive, entry } => pfx is Some && archive@
                            == target && entry@ == if rel.len() == 0 {
                            Seq::<u8>::empty()
                        } else {
                            pfx.unwrap() + seq![SEP] + rel
                        },
                    }
                }),
            }
        }),
{
    let parsed = match parse_sentinel(content) {
        Some(t) => t,
        None => {
            return Ok(None);
        },
    };
    let (_dlen, start) = match resolve_rel(p, sentinel) {
        Ok(pair) => pair,
        Err(e) => {
            return Err(e);
        },
    };
    let rel = &p[start..p.len()];
    match parsed {
        FuseTarget::Directory { target } => {
            let mut path = target;
            if rel.len() > 0 {
                path.push(SEP);
                push_all(&mut path, rel);
            }
            Ok(Some(FuseListPlan::Dir { path }))
        },
        FuseTarget::Archive { archive, prefix } => {
            let mut entry: Vec<u8> = Vec::new();
            if rel.len() > 0 {
                entry = prefix;
                entry.push(SEP);
                push_all(&mut entry, rel);
            }
            Ok(Some(FuseListPlan::ArchiveDir { archive, entry }))
        },
    }
}

/// The sentinel line written for a directory target: `"<src>\n"`.
pub fn fuse_link_content(src: &[u8]) -> (r: Vec<u8>)
    ensures
        r@ == src@ + seq![10u8],
{
    let mut r = copy_bytes(src);
    r.push(10);
    proof {
        assert(r@ =~= src@ + seq![10u8]);
    }
    r
}

/// The sentinel line written for an archive target:
/// `"<archive>|<prefix>\n"`, or `"<archive>\n"` without a prefix.
pub fn fuse_link_with_prefix_content(archive: &[u8], prefix: Option<&Vec<u8>>) -> (r: Vec<u8>)
    ensures
        match prefix {
            Some(p) => r@ == archive@ + seq![124u8] + p@ + seq![10u8],
            None => r@ == archive@ + seq![10u8],
        },
{
    let mut r = copy_bytes(archive);
    match prefix {
        Some(p) => {
            r.push(124);
            push_all(&mut r, p.as_slice());
            r.push(10);
            proof {
                assert(r@ =~= archive@ + seq![124u8] + p@ + seq![10u8]);
            }
        },
        None => {
            r.push(10);
            proof {
                assert(r@ =~= archive@ + seq![10u8]);
            }
        },
    }
    r
}

/// A byte that a sentinel line's fields may hold: not a newline, and not
/// whitespace at the field's ends.
pub open spec fn plain_field(s: Seq<u8>) -> bool {
    &&& s.len() > 0
    &&& forall|i: int| 0 <= i < s.len() ==> #[trigger] s[i] != 10
    &&& !crate::text::is_ws(s[0])
    &&& !crate::text::is_ws(s[s.len() - 1])
}

/// Round trip: a directory sentinel written for a plain target parses back
/// to that target, with no prefix.
pub proof fn lemma_sentinel_dir_round_trip(target: Seq<u8>)
    requires
        plain_field(target),
        forall|i: int| 0 <= i < target.len() ==> #[trigger] target[i] != 124,
    ensures
        parse_sentinel_spec(target + seq![10u8]) == Some((target, Option::<Seq<u8>>::None)),
{
    let c = target + seq![10u8];
    crate::text::lemma_first_index_char(c, 10, target.len() as int);
    assert(first_line(c) =~= target);
    crate::text::lemma_trim_plain(target);
    crate::text::lemma_first_index_char(target, 124, target.len() as int);
}

/// Round trip: an archive sentinel written for a plain archive path and
/// prefix parses back to both.
pub proof fn lemma_sentinel_archive_round_trip(archive: Seq<u8>, prefix: Seq<u8>)
    requires
        plain_field(archive),
        forall|i: int| 0 <= i < archive.len() ==> #[trigger] archive[i] != 124,
        plain_field(prefix),
    ensures
        parse_sentinel_spec(archive + seq![124u8] + prefix + seq![10u8]) == Some(
            (archive, Some(prefix)),
        ),
{
    let line = archive + seq![124u8] + prefix;
    let c = line + seq![10u8];
    assert(forall|i: int| 0 <= i < line.len() ==> #[trigger] line[i] != 10);
    crate::text::lemma_first_index_char(c, 10, line.len() as int);
    assert(first_line(c) =~= line);
    crate::text::lemma_trim_plain(line);
    crate::text::lemma_first_index_char(line, 124, archive.len() as int);
    assert(line.subrange(0, archive.len() as int) =~= archive);
    assert(line.subrange(archive.len() + 1 as int, line.len() as int) =~= prefix);
    assert((archive + seq![124u8] + prefix + seq![10u8]) =~= c);
}

/// The union listing a fused directory presents: the physical entries with
/// any `fuse.link` dropped, then the target's entries.
pub open spec fn not_sentinel_entry(e: crate::DirEntry) -> bool {
    e.name@ != crate::names::fuse_link_seq()
}

/// Combine the physical entries of a fused directory with the entries of
/// its target, hiding the sentinel itself.
pub fn fuse_dir_union(original: Vec<crate::DirEntry>, target: Vec<crate::DirEntry>) -> (r: Vec<
    crate::DirEntry,
>)
    ensures
        r@ == original@.filter(|e: crate::DirEntry| not_sentinel_entry(e)) + target@,
{
    let ghost pred = |e: crate::DirEntry| not_sentinel_entry(e);
    let fl = fuse_link_bytes();
    let mut r: Vec<crate::DirEntry> = Vec::new();
    let mut rest = original;
    let ghost orig0 = rest@;
    proof {
        assert(orig0.take(0).filter(pred) =~= Seq::<crate::DirEntry>::empty());
        assert(orig0.skip(0) =~= orig0);
    }
    while rest.len() > 0
        invariant
            fl@ == crate::names::fuse_link_seq(),
            pred == (|e: crate::DirEntry| not_sentinel_entry(e)),
            rest@.len() <= orig0.len(),
            rest@ == orig0.skip(orig0.len() - rest@.len()),
            r@ == orig0.take(orig0.len() - rest@.len()).filter(pred),
        decreases rest.len(),
    {
        let ghost i = orig0.len() - rest@.len();
        let e = rest.remove(0);
        proof {
            assert(e == orig0[i as int]);
            assert(rest@ =~= orig0.skip(i + 1));
            assert(orig0.take(i + 1).drop_last() =~= orig0.take(i as int));
            assert(orig0.take(i + 1).last() == orig0[i as int]);
            reveal_with_fuel(Seq::filter, 2);
        }
        if !bytes_eq(e.name.as_slice(), fl.as_slice()) {
            r.push(e);
        }
    }
    proof {
        assert(orig0.take(orig0.len() as int) =~= orig0);
    }
    let mut tgt = target;
    r.append(&mut tgt);
    r
}

/// Law: no entry of a fused listing is named `fuse.link`, as long as the
/// target itself presents no entry of that name.
pub proof fn lemma_union_hides_sentinel(original: Seq<crate::DirEntry>, target: Seq<crate::DirEntry>)
    requires
        forall|i: int| 0 <= i < target.len() ==> not_sentinel_entry(#[trigger] target[i]),
    ensures
        ({
            let u = original.filter(|e: crate::DirEntry| not_sentinel_entry(e)) + target;
            forall|i: int| 0 <= i < u.len() ==> not_sentinel_entry(#[trigger] u[i])
        }),
{
    let pred = |e: crate::DirEntry| not_sentinel_entry(e);
    let f = original.filter(pred);
    let u = f + target;
    assert forall|i: int| 0 <= i < u.len() implies not_sentinel_entry(#[trigger] u[i]) by {
        if i < f.len() {
            original.lemma_filter_pred(pred, i);
        } else {
            assert(u[i] == target[i - f.len()]);
        }
    }
}

/// Forget every cached sentinel line.
pub fn clear_fuse_link_cache(cache: &mut KvMap<Vec<u8>>)
    ensures
        final(cache).wf(),
        final(cache).spec_len() == 0,
        forall|k: Seq<u8>| final(cache).spec_get(k) is None,
{
    cache.clear();
}

/// How many sentinel lines are cached, and for which sentinel paths.
pub fn get_cache_stats(cache: &KvMap<Vec<u8>>) -> (r: (usize, Vec<Vec<u8>>))
    ensures
        r.0 == cache.spec_len(),
        r.1@.len() == cache.spec_len(),
        forall|i: int|
            0 <= i < r.1@.len() ==> (#[trigger] r.1@[i])@ == cache.entries_view()[i].0@,
{
    let n = cache.len();
    let mut keys: Vec<Vec<u8>> = Vec::new();
    let mut i: usize = 0;
    while i < n
        invariant
            i <= n,
            n == cache.spec_len(),
            keys@.len() == i,
            forall|t: int|
                0 <= t < i ==> (#[trigger] keys@[t])@ == cache.entries_view()[t].0@,
        decreases n - i,
    {
        let k = copy_bytes(cache.key_at(i).as_slice());
        keys.push(k);
        i += 1;
    }
    (n, keys)
}

} // verus!
