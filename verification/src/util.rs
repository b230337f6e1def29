//! Byte-level path utilities.
//!
//! Paths are plain byte strings with `/` as the separator, mirroring the
//! POSIX-like storage collaborator.  Everything here is pure computation.

use vstd::prelude::*;

verus! {

use crate::names::node_modules_bytes;

broadcast use vstd::array::group_array_axioms;

/// The path separator byte, `'/'`.
pub const SEP: u8 = 47;

/// `prefix` is a prefix of `s`.
pub open spec fn is_prefix_of(prefix: Seq<u8>, s: Seq<u8>) -> bool {
    prefix.len() <= s.len() && s.subrange(0, prefix.len() as int) == prefix
}

/// Equality of two byte slices.
pub fn bytes_eq(a: &[u8], b: &[u8]) -> (r: bool)
    ensures
        r == (a@ == b@),
{
    if a.len() != b.len() {
        assert(a@ != b@) by {
            assert(a@.len() != b@.len());
        }
        return false;
    }
    let mut i: usize = 0;
    while i < a.len()
        invariant
            i <= a.len(),
            a.len() == b.len(),
            forall|j: int| 0 <= j < i ==> a@[j] == b@[j],
        decreases a.len() - i,
    {
        if a[i] != b[i] {
            return false;
        }
        i += 1;
    }
    assert(a@ =~= b@);
    true
}

/// `a` starts with `prefix`.
pub fn starts_with(a: &[u8], prefix: &[u8]) -> (r: bool)
    ensures
        r == is_prefix_of(prefix@, a@),
{
    if prefix.len() > a.len() {
        return false;
    }
    let head = &a[0..prefix.len()];
    bytes_eq(head, prefix)
}

/// Copy the byte range `[i, j)` of `a` into a fresh vector.
pub fn subrange_vec(a: &[u8], i: usize, j: usize) -> (r: Vec<u8>)
    requires
        i <= j <= a@.len(),
    ensures
        r@ == a@.subrange(i as int, j as int),
{
    let mut r: Vec<u8> = Vec::new();
    let mut k: usize = i;
    while k < j
        invariant
            i <= k <= j <= a@.len(),
            r@ == a@.subrange(i as int, k as int),
        decreases j - k,
    {
        r.push(a[k]);
        assert(r@ =~= a@.subrange(i as int, k + 1 as int));
        k += 1;
    }
    r
}

/// The components of a path: `s` split at every separator byte.
/// An empty path has one empty component, like `"a//b"` has an empty
/// middle component.
pub open spec fn split_path(s: Seq<u8>) -> Seq<Seq<u8>>
    decreases s.len(),
{
    if s.len() == 0 {
        seq![Seq::<u8>::empty()]
    } else if s[0] == SEP {
        seq![Seq::<u8>::empty()] + split_path(s.subrange(1, s.len() as int))
    } else {
        let rest = split_path(s.subrange(1, s.len() as int));
        seq![seq![s[0]] + rest[0]] + rest.subrange(1, rest.len() as int)
    }
}

/// Joining components with the separator, the inverse of `split_path`.
pub open spec fn join_path(cs: Seq<Seq<u8>>) -> Seq<u8>
    decreases cs.len(),
{
    if cs.len() == 0 {
        Seq::empty()
    } else if cs.len() == 1 {
        cs[0]
    } else {
        join_path(cs.drop_last()) + seq![SEP] + cs.last()
    }
}

pub proof fn lemma_split_path_len(s: Seq<u8>)
    ensures
        split_path(s).len() >= 1,
    decreases s.len(),
{
    if s.len() == 0 {
    } else {
        lemma_split_path_len(s.subrange(1, s.len() as int));
    }
}

/// Splitting at the first separator: if `s` has no separator before `j` and
/// either ends at `j` or has one there, `split_path` divides accordingly.
pub proof fn lemma_split_path_head(s: Seq<u8>, j: int)
    requires
        0 <= j <= s.len(),
        forall|i: int| 0 <= i < j ==> s[i] != SEP,
        j < s.len() ==> s[j] == SEP,
    ensures
        j == s.len() ==> split_path(s) =~= seq![s],
        j < s.len() ==> split_path(s) =~= seq![s.subrange(0, j)] + split_path(
            s.subrange(j + 1, s.len() as int),
        ),
    decreases s.len(),
{
    if s.len() == 0 {
        assert(s =~= Seq::<u8>::empty());
        assert(split_path(s) =~= seq![s]);
    } else if s[0] == SEP {
        assert(j == 0);
        assert(s.subrange(0, 0) =~= Seq::<u8>::empty());
    } else {
        let tail = s.subrange(1, s.len() as int);
        lemma_split_path_head(tail, j - 1);
        lemma_split_path_len(tail);
        if j == s.len() {
            assert(tail =~= s.subrange(1, s.len() as int));
            assert(split_path(tail) =~= seq![tail]);
            assert(seq![s[0]] + tail =~= s);
            assert(split_path(s) =~= seq![s]);
        } else {
            let after = tail.subrange(j, tail.len() as int);
            assert(split_path(tail) =~= seq![tail.subrange(0, j - 1)] + split_path(after));
            assert(seq![s[0]] + tail.subrange(0, j - 1) =~= s.subrange(0, j));
            assert(after =~= s.subrange(j + 1, s.len() as int));
            assert(split_path(s) =~= seq![s.subrange(0, j)] + split_path(
                s.subrange(j + 1, s.len() as int),
            ));
        }
    }
}


/// The start and end byte offsets of each component of `s`, in order.
pub open spec fn bounds_ok(s: Seq<u8>, bs: Seq<(usize, usize)>) -> bool {
    &&& bs.len() == split_path(s).len()
    &&& bs.len() >= 1
    &&& bs[0].0 == 0
    &&& bs.last().1 == s.len()
    &&& forall|k: int|
        0 <= k < bs.len() ==> (#[trigger] bs[k]).0 <= bs[k].1 <= s.len()
    &&& forall|k: int|
        0 <= k < bs.len() ==> s.subrange((#[trigger] bs[k]).0 as int, bs[k].1 as int)
            == split_path(s)[k]
    &&& forall|k: int|
        1 <= k < bs.len() ==> (#[trigger] bs[k]).0 == bs[k - 1].1 + 1 && s[bs[k - 1].1 as int]
            == SEP
}

/// Compute the component boundaries of `p`.
#[verifier::rlimit(100)]
#[verifier::spinoff_prover]
pub fn component_bounds(p: &[u8]) -> (r: Vec<(usize, usize)>)
    ensures
        bounds_ok(p@, r@),
{
    let ghost s = p@;
    let mut r: Vec<(usize, usize)> = Vec::new();
    let mut start: usize = 0;
    let mut i: usize = 0;
    proof {
        assert(s.subrange(0, s.len() as int) =~= s);
        let m = |_k: int, b: (usize, usize)| s.subrange(b.0 as int, b.1 as int);
        assert(r@.map(m) =~= Seq::<Seq<u8>>::empty());
    }
    while i < p.len()
        invariant
            start <= i <= p@.len(),
            s == p@,
            forall|t: int| start <= t < i ==> s[t] != SEP,
            r@.len() >= 1 ==> r@[0].0 == 0,
            r@.len() == 0 ==> start == 0,
            forall|k: int| 0 <= k < r@.len() ==> (#[trigger] r@[k]).0 <= r@[k].1 < s.len(),
            forall|k: int|
                1 <= k < r@.len() ==> (#[trigger] r@[k]).0 == r@[k - 1].1 + 1
                    && s[r@[k - 1].1 as int] == SEP,
            r@.len() >= 1 ==> start == r@.last().1 + 1 && s[r@.last().1 as int] == SEP,
            split_path(s) =~= r@.map(|_k: int, b: (usize, usize)|
                s.subrange(b.0 as int, b.1 as int)) + split_path(
                s.subrange(start as int, s.len() as int)),
        decreases p.len() - i,
    {
        if p[i] == SEP {
            proof {
                let rem = s.subrange(start as int, s.len() as int);
                lemma_split_path_head(rem, i - start);
                assert(rem.subrange(0, i - start) =~= s.subrange(start as int, i as int));
                assert(rem.subrange(i - start + 1, rem.len() as int) =~= s.subrange(
                    i + 1 as int,
                    s.len() as int,
                ));
            }
            let ghost r0 = r@;
            r.push((start, i));
            proof {
                let m = |_k: int, b: (usize, usize)| s.subrange(b.0 as int, b.1 as int);
                assert(r@.subrange(0, r@.len() - 1) =~= r0);
                assert(r@.map(m) =~= r0.map(m) + seq![s.subrange(start as int, i as int)]);
            }
            start = i + 1;
        }
        i += 1;
    }
    proof {
        let rem = s.subrange(start as int, s.len() as int);
        lemma_split_path_head(rem, s.len() - start);
        assert(rem.subrange(0, s.len() - start) =~= rem);
    }
    let ghost r0 = r@;
    r.push((start, p.len()));
    proof {
        let m = |_k: int, b: (usize, usize)| s.subrange(b.0 as int, b.1 as int);
        assert(r@.subrange(0, r@.len() - 1) =~= r0);
        assert(r@.map(m) =~= r0.map(m) + seq![s.subrange(start as int, s.len() as int)]);
        assert(split_path(s) =~= r@.map(m));
        assert forall|k: int| 0 <= k < r@.len() implies s.subrange(
            (#[trigger] r@[k]).0 as int,
            r@[k].1 as int,
        ) == split_path(s)[k] by {
            assert(split_path(s)[k] == r@.map(m)[k]);
        }
    }
    r
}

/// Joining the first `k + 1` components of `s` gives back the byte prefix of
/// `s` that ends where component `k` ends.
#[verifier::rlimit(100)]
pub proof fn lemma_join_take(s: Seq<u8>, bs: Seq<(usize, usize)>, k: int)
    requires
        bounds_ok(s, bs),
        0 <= k < bs.len(),
    ensures
        join_path(split_path(s).take(k + 1)) == s.subrange(0, bs[k].1 as int),
    decreases k,
{
    let cs = split_path(s);
    if k == 0 {
        assert(cs.take(1) =~= seq![cs[0]]);
        assert(join_path(cs.take(1)) == cs[0]);
        assert(cs[0] == s.subrange(bs[0].0 as int, bs[0].1 as int));
        assert(s.subrange(0 as int, bs[0].1 as int) == s.subrange(bs[0].0 as int, bs[0].1 as int));
    } else {
        lemma_join_take(s, bs, k - 1);
        assert(cs.take(k + 1).drop_last() =~= cs.take(k));
        assert(cs.take(k + 1).last() == cs[k]);
        assert(join_path(cs.take(k + 1)) == join_path(cs.take(k)) + seq![SEP] + cs[k]);
        assert(s.subrange(0, bs[k - 1].1 as int) + seq![SEP] + s.subrange(
            bs[k].0 as int,
            bs[k].1 as int,
        ) =~= s.subrange(0, bs[k].1 as int));
    }
}

/// `cwd` with `rel` appended under it, adding a separator unless `cwd`
/// already ends with one.
pub open spec fn join_under(cwd: Seq<u8>, rel: Seq<u8>) -> Seq<u8> {
    if cwd.len() > 0 && cwd[cwd.len() - 1] == SEP {
        cwd + rel
    } else {
        cwd + seq![SEP] + rel
    }
}

/// What `prepare_path` returns: an absolute path is kept as it is; a
/// relative one is resolved against `cwd`, collapsing one leading `./`.
pub open spec fn prepare_path_spec(p: Seq<u8>, cwd: Seq<u8>) -> Seq<u8> {
    if p.len() > 0 && p[0] == SEP {
        p
    } else if p.len() >= 2 && p[0] == 46 && p[1] == SEP {
        join_under(cwd, p.subrange(2, p.len() as int))
    } else {
        join_under(cwd, p)
    }
}

/// Resolve `path` against the current working directory `cwd`.
pub fn prepare_path(path: &[u8], cwd: &[u8]) -> (r: Vec<u8>)
    ensures
        r@ == prepare_path_spec(path@, cwd@),
{
    if path.len() > 0 && path[0] == SEP {
        let mut r: Vec<u8> = Vec::new();
        push_all(&mut r, path);
        assert(r@ =~= path@);
        return r;
    }
    let rel: &[u8] = if path.len() >= 2 && path[0] == 46 && path[1] == SEP {
        &path[2..path.len()]
    } else {
        path
    };
    let mut r: Vec<u8> = Vec::new();
    push_all(&mut r, cwd);
    if !(cwd.len() > 0 && cwd[cwd.len() - 1] == SEP) {
        r.push(SEP);
    }
    push_all(&mut r, rel);
    proof {
        assert(r@ =~= prepare_path_spec(path@, cwd@));
    }
    r
}

/// The package name a `node_modules/...` component sequence points at: up
/// to two components after the first `node_modules`, two when the first of
/// them is a scope.
pub open spec fn package_name_of_components(cs: Seq<Seq<u8>>) -> Option<Seq<u8>>
    decreases cs.len(),
{
    if cs.len() == 0 {
        None
    } else if cs[0] == crate::names::node_modules_seq() {
        if cs.len() >= 2 && cs[1].len() > 0 {
            if cs[1][0] == 64 {
                if cs.len() >= 3 && cs[2].len() > 0 {
                    Some(cs[1] + seq![SEP] + cs[2])
                } else {
                    None
                }
            } else {
                Some(cs[1])
            }
        } else {
            None
        }
    } else {
        package_name_of_components(cs.subrange(1, cs.len() as int))
    }
}

/// The package name a path points at, if any.
pub open spec fn package_name_spec(p: Seq<u8>) -> Option<Seq<u8>> {
    package_name_of_components(split_path(p))
}

proof fn lemma_package_name_skip(cs: Seq<Seq<u8>>, k: int)
    requires
        0 <= k <= cs.len(),
        forall|i: int| 0 <= i < k ==> cs[i] != crate::names::node_modules_seq(),
    ensures
        package_name_of_components(cs) == package_name_of_components(
            cs.subrange(k, cs.len() as int),
        ),
    decreases k,
{
    if k == 0 {
        assert(cs.subrange(0, cs.len() as int) =~= cs);
    } else {
        lemma_package_name_skip(cs, k - 1);
        let rest = cs.subrange(k - 1, cs.len() as int);
        assert(rest[0] == cs[k - 1]);
        assert(rest.subrange(1, rest.len() as int) =~= cs.subrange(k, cs.len() as int));
    }
}

/// Read the package identity once the first `node_modules` component is
/// found at position `k`.
#[verifier::rlimit(100)]
#[verifier::spinoff_prover]
fn package_name_at(p: &[u8], bounds: &Vec<(usize, usize)>, k: usize) -> (r: Option<Vec<u8>>)
    requires
        bounds_ok(p@, bounds@),
        k < bounds@.len(),
        split_path(p@)[k as int] == crate::names::node_modules_seq(),
        forall|i: int| 0 <= i < k ==> split_path(p@)[i] != crate::names::node_modules_seq(),
    ensures
        match r {
            Some(name) => package_name_spec(p@) == Some(name@),
            None => package_name_spec(p@) is None,
        },
{
    let n = bounds.len();
    let ghost cs = split_path(p@);
    proof {
        lemma_package_name_skip(cs, k as int);
        let rest = cs.subrange(k as int, cs.len() as int);
        assert(rest[0] == cs[k as int]);
        if k + 1 < cs.len() {
            assert(rest[1] == cs[k + 1]);
        }
        if k + 2 < cs.len() {
            assert(rest[2] == cs[k + 2]);
        }
    }
    if k + 1 >= n {
        return None;
    }
    let (s1, e1) = bounds[k + 1];
    proof {
        assert(p@.subrange((#[trigger] bounds@[k + 1 as int]).0 as int, bounds@[k + 1 as int].1 as int)
            == cs[k + 1]);
    }
    if e1 <= s1 {
        return None;
    }
    if p[s1] != 64 {
        return Some(subrange_vec(p, s1, e1));
    }
    if k + 2 >= n {
        return None;
    }
    let (s2, e2) = bounds[k + 2];
    proof {
        assert(p@.subrange((#[trigger] bounds@[k + 2 as int]).0 as int, bounds@[k + 2 as int].1 as int)
            == cs[k + 2]);
    }
    if e2 <= s2 {
        return None;
    }
    let mut name = subrange_vec(p, s1, e1);
    name.push(SEP);
    let second = subrange_vec(p, s2, e2);
    push_all(&mut name, second.as_slice());
    proof {
        assert(name@ =~= cs[k + 1] + seq![SEP] + cs[k + 2]);
    }
    Some(name)
}

/// Extract the package identity from a `node_modules/...` path: the first
/// path component after `node_modules`, or the first two joined when the
/// first begins with `@`.  Nothing when `node_modules` is absent or
/// followed by empty content.
#[verifier::rlimit(100)]
pub fn get_package_name(p: &[u8]) -> (r: Option<Vec<u8>>)
    ensures
        match r {
            Some(name) => package_name_spec(p@) == Some(name@),
            None => package_name_spec(p@) is None,
        },
{
    let ghost cs = split_path(p@);
    let bounds = component_bounds(p);
    let nm = node_modules_bytes();
    let mut k: usize = 0;
    while k < bounds.len()
        invariant
            bounds_ok(p@, bounds@),
            cs == split_path(p@),
            k <= bounds@.len(),
            nm@ == crate::names::node_modules_seq(),
            forall|i: int| 0 <= i < k ==> cs[i] != crate::names::node_modules_seq(),
        decreases bounds.len() - k,
    {
        let (s0, e0) = bounds[k];
        proof {
            assert(p@.subrange((#[trigger] bounds@[k as int]).0 as int, bounds@[k as int].1 as int)
                == cs[k as int]);
        }
        let eq = bytes_eq(&p[s0..e0], nm.as_slice());
        if eq {
            return package_name_at(p, &bounds, k);
        }
        proof {
            assert(nm@ == crate::names::node_modules_seq());
            assert(p@.subrange(s0 as int, e0 as int) != crate::names::node_modules_seq());
            assert(cs[k as int] != crate::names::node_modules_seq());
        }
        k += 1;
    }
    proof {
        lemma_package_name_skip(cs, cs.len() as int);
    }
    None
}

/// Copy a byte slice into a fresh vector.
pub fn copy_bytes(a: &[u8]) -> (r: Vec<u8>)
    ensures
        r@ == a@,
{
    let r = subrange_vec(a, 0, a.len());
    proof {
        assert(a@.subrange(0, a@.len() as int) =~= a@);
    }
    r
}

/// Append all of `b` onto `a`.
pub fn push_all(a: &mut Vec<u8>, b: &[u8])
    ensures
        final(a)@ == old(a)@ + b@,
{
    let mut k: usize = 0;
    while k < b.len()
        invariant
            k <= b@.len(),
            a@ == old(a)@ + b@.subrange(0, k as int),
        decreases b.len() - k,
    {
        a.push(b[k]);
        assert(a@ =~= old(a)@ + b@.subrange(0, k + 1 as int));
        k += 1;
    }
    assert(a@ =~= old(a)@ + b@);
}


/// Law: an absolute path is prepared to itself; a relative one resolves
/// under the working directory, one leading `./` collapsed.
pub proof fn lemma_prepare_path_cases(p: Seq<u8>, cwd: Seq<u8>)
    ensures
        p.len() > 0 && p[0] == SEP ==> prepare_path_spec(p, cwd) == p,
        p.len() > 0 && p[0] != SEP && !(p.len() >= 2 && p[0] == 46 && p[1] == SEP) ==>
            prepare_path_spec(p, cwd) == join_under(cwd, p),
        p.len() >= 2 && p[0] == 46 && p[1] == SEP ==> prepare_path_spec(p, cwd) == join_under(
            cwd,
            p.subrange(2, p.len() as int),
        ),
{
}

} // verus!
