//! Text helpers: first line, whitespace trimming, first occurrence.
//!
//! Sentinel files and URLs are byte strings; these are the few lexical
//! operations their parsers need.

use vstd::prelude::*;

verus! {

/// ASCII whitespace, as trimmed from sentinel lines.
pub open spec fn is_ws(c: u8) -> bool {
    c == 32 || c == 9 || c == 13 || c == 10
}

/// The index of the first occurrence of `c` in `s`, or `s.len()` when `c`
/// does not occur.
pub open spec fn first_index(s: Seq<u8>, c: u8) -> int
    decreases s.len(),
{
    if s.len() == 0 {
        0
    } else if s[0] == c {
        0
    } else {
        1 + first_index(s.subrange(1, s.len() as int), c)
    }
}

pub proof fn lemma_first_index_char(s: Seq<u8>, c: u8, k: int)
    requires
        0 <= k <= s.len(),
        forall|i: int| 0 <= i < k ==> s[i] != c,
        k < s.len() ==> s[k] == c,
    ensures
        first_index(s, c) == k,
    decreases s.len(),
{
    if s.len() == 0 {
    } else if s[0] == c {
    } else {
        let tail = s.subrange(1, s.len() as int);
        lemma_first_index_char(tail, c, k - 1);
    }
}

/// Find the first occurrence of `c` in `a`.
pub fn find_first(a: &[u8], c: u8) -> (r: usize)
    ensures
        r == first_index(a@, c),
        r <= a@.len(),
        r < a@.len() ==> a@[r as int] == c,
        forall|i: int| 0 <= i < r ==> a@[i] != c,
{
    let mut i: usize = 0;
    while i < a.len()
        invariant
            i <= a@.len(),
            forall|j: int| 0 <= j < i ==> a@[j] != c,
        decreases a.len() - i,
    {
        if a[i] == c {
            proof {
                lemma_first_index_char(a@, c, i as int);
            }
            return i;
        }
        i += 1;
    }
    proof {
        lemma_first_index_char(a@, c, a@.len() as int);
    }
    a.len()
}

/// `s` up to (and not including) its first newline.
pub open spec fn first_line(s: Seq<u8>) -> Seq<u8> {
    s.subrange(0, first_index(s, 10))
}


/// `s` with leading whitespace removed.
pub open spec fn trim_front(s: Seq<u8>) -> Seq<u8>
    decreases s.len(),
{
    if s.len() > 0 && is_ws(s[0]) {
        trim_front(s.subrange(1, s.len() as int))
    } else {
        s
    }
}

/// `s` with trailing whitespace removed.
pub open spec fn trim_back(s: Seq<u8>) -> Seq<u8>
    decreases s.len(),
{
    if s.len() > 0 && is_ws(s[s.len() - 1]) {
        trim_back(s.subrange(0, s.len() - 1))
    } else {
        s
    }
}

/// `s` with whitespace removed from both ends.
pub open spec fn trim(s: Seq<u8>) -> Seq<u8> {
    trim_back(trim_front(s))
}

proof fn lemma_trim_front_at(s: Seq<u8>, lo: int)
    requires
        0 <= lo <= s.len(),
        forall|i: int| 0 <= i < lo ==> is_ws(s[i]),
        lo < s.len() ==> !is_ws(s[lo]),
    ensures
        trim_front(s) == s.subrange(lo, s.len() as int),
    decreases s.len(),
{
    if s.len() == 0 {
        assert(s.subrange(0, 0) =~= s);
    } else if is_ws(s[0]) {
        let tail = s.subrange(1, s.len() as int);
        lemma_trim_front_at(tail, lo - 1);
        assert(tail.subrange(lo - 1, tail.len() as int) =~= s.subrange(lo, s.len() as int));
    } else {
        assert(lo == 0);
        assert(s.subrange(0, s.len() as int) =~= s);
    }
}

proof fn lemma_trim_back_at(s: Seq<u8>, hi: int)
    requires
        0 <= hi <= s.len(),
        forall|i: int| hi <= i < s.len() ==> is_ws(s[i]),
        hi > 0 ==> !is_ws(s[hi - 1]),
    ensures
        trim_back(s) == s.subrange(0, hi),
    decreases s.len(),
{
    if s.len() == 0 {
        assert(s.subrange(0, 0) =~= s);
    } else if is_ws(s[s.len() - 1]) {
        let head = s.subrange(0, s.len() - 1);
        lemma_trim_back_at(head, hi);
        assert(head.subrange(0, hi) =~= s.subrange(0, hi));
    } else {
        assert(hi == s.len());
        assert(s.subrange(0, s.len() as int) =~= s);
    }
}

/// The bounds of `a` with whitespace trimmed from both ends:
/// `a[lo..hi]` is `trim(a)`.
pub fn trim_bounds(a: &[u8]) -> (r: (usize, usize))
    ensures
        r.0 <= r.1 <= a@.len(),
        a@.subrange(r.0 as int, r.1 as int) == trim(a@),
{
    let mut lo: usize = 0;
    while lo < a.len() && (a[lo] == 32 || a[lo] == 9 || a[lo] == 13 || a[lo] == 10)
        invariant
            lo <= a@.len(),
            forall|i: int| 0 <= i < lo ==> is_ws(a@[i]),
        decreases a.len() - lo,
    {
        lo += 1;
    }
    proof {
        lemma_trim_front_at(a@, lo as int);
    }
    let mut hi: usize = a.len();
    while hi > lo && (a[hi - 1] == 32 || a[hi - 1] == 9 || a[hi - 1] == 13 || a[hi - 1] == 10)
        invariant
            lo <= hi <= a@.len(),
            forall|i: int| 0 <= i < lo ==> is_ws(a@[i]),
            forall|i: int| hi <= i < a@.len() ==> is_ws(a@[i]),
        decreases hi,
    {
        hi -= 1;
    }
    proof {
        let f = trim_front(a@);
        assert(f == a@.subrange(lo as int, a@.len() as int));
        lemma_trim_back_at(f, hi - lo);
        assert(f.subrange(0, hi - lo) =~= a@.subrange(lo as int, hi as int));
    }
    (lo, hi)
}

/// Trimming does not change a string whose ends are not whitespace.
pub proof fn lemma_trim_plain(s: Seq<u8>)
    requires
        s.len() > 0,
        !is_ws(s[0]),
        !is_ws(s[s.len() - 1]),
    ensures
        trim(s) == s,
{
    lemma_trim_front_keeps(s);
    lemma_trim_back_keeps(s);
}

proof fn lemma_trim_front_keeps(s: Seq<u8>)
    requires
        s.len() == 0 || !is_ws(s[0]),
    ensures
        trim_front(s) == s,
{
}

proof fn lemma_trim_back_keeps(s: Seq<u8>)
    requires
        s.len() == 0 || !is_ws(s[s.len() - 1]),
    ensures
        trim_back(s) == s,
{
}

} // verus!
