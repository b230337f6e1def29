//! The logical lockfile model: one record per `node_modules/...` placement,
//! with identity, resolved URL, hashes, classification flags and platform
//! constraints.
//!
//! Parsing the wire JSON is the embedding process's concern; the model
//! holds only plain values.

use vstd::prelude::*;

verus! {

use crate::names::{root_name_bytes, unknown_name_bytes};
use crate::util::{copy_bytes, SEP};

broadcast use vstd::array::group_array_axioms;

/// One package record of a parsed lockfile.
pub struct LockPackage {
    pub name: Option<Vec<u8>>,
    pub version: Option<Vec<u8>>,
    pub resolved: Option<Vec<u8>>,
    pub integrity: Option<Vec<u8>>,
    pub shasum: Option<Vec<u8>>,
    pub peer: Option<bool>,
    pub dev: Option<bool>,
    pub optional: Option<bool>,
    pub has_install_script: Option<bool>,
    /// Operating systems the package is constrained to, when any.
    pub os: Option<Vec<Vec<u8>>>,
    /// Processor architectures the package is constrained to, when any.
    pub cpu: Option<Vec<Vec<u8>>>,
}

/// A parsed lockfile: the root identity and the package records, keyed by
/// install path.
pub struct PackageLock {
    pub name: Vec<u8>,
    pub version: Vec<u8>,
    pub lockfile_version: u32,
    pub requires: bool,
    pub packages: Vec<(Vec<u8>, LockPackage)>,
}

/// The last `/`-separated segment of `s`; all of `s` when it has no
/// separator, empty after a trailing one.
pub open spec fn last_segment(s: Seq<u8>) -> Seq<u8>
    decreases s.len(),
{
    if s.len() == 0 {
        s
    } else if s[s.len() - 1] == SEP {
        Seq::empty()
    } else {
        last_segment(s.drop_last()) + seq![s[s.len() - 1]]
    }
}

/// What `get_name` returns: the record's own name; `root` for the root
/// entry; else the last segment of the install path.
pub open spec fn package_name_of(pkg_name: Option<Seq<u8>>, path: Seq<u8>) -> Seq<u8> {
    match pkg_name {
        Some(n) => n,
        None => {
            if path.len() == 0 {
                crate::names::root_name_seq()
            } else {
                last_segment(path)
            }
        },
    }
}

proof fn lemma_last_segment_at(s: Seq<u8>, j: int)
    requires
        0 <= j <= s.len(),
        forall|i: int| j <= i < s.len() ==> s[i] != SEP,
        j > 0 ==> s[j - 1] == SEP,
    ensures
        last_segment(s) == s.subrange(j, s.len() as int),
    decreases s.len(),
{
    if s.len() == 0 {
        assert(s.subrange(0, 0) =~= s);
    } else if s[s.len() - 1] == SEP {
        assert(j == s.len());
        assert(s.subrange(j, s.len() as int) =~= Seq::<u8>::empty());
    } else {
        lemma_last_segment_at(s.drop_last(), j);
        assert(s.drop_last().subrange(j, s.len() - 1) =~= s.subrange(j, s.len() - 1));
        assert(s.subrange(j, s.len() - 1) + seq![s[s.len() - 1]] =~= s.subrange(
            j,
            s.len() as int,
        ));
    }
}

/// Extract the last `/`-separated segment of `s`.
pub fn last_segment_of(s: &[u8]) -> (r: Vec<u8>)
    ensures
        r@ == last_segment(s@),
{
    let mut j: usize = s.len();
    while j > 0 && s[j - 1] != SEP
        invariant
            j <= s@.len(),
            forall|i: int| j <= i < s@.len() ==> s@[i] != SEP,
        decreases j,
    {
        j -= 1;
    }
    proof {
        lemma_last_segment_at(s@, j as int);
    }
    crate::util::subrange_vec(s, j, s.len())
}

impl LockPackage {
    /// The package's name: its own, or inferred from the install path, the
    /// root entry being named `root`.
    pub fn get_name(&self, path: &[u8]) -> (r: Vec<u8>)
        ensures
            r@ == package_name_of(
                match self.name {
                    Some(ref n) => Some(n@),
                    None => None,
                },
                path@,
            ),
    {
        match &self.name {
            Some(n) => copy_bytes(n.as_slice()),
            None => {
                if path.len() == 0 {
                    let r = root_name_bytes();
                    let mut v: Vec<u8> = Vec::new();
                    crate::util::push_all(&mut v, r.as_slice());
                    proof {
                        assert(v@ =~= crate::names::root_name_seq());
                    }
                    v
                } else {
                    last_segment_of(path)
                }
            },
        }
    }

    /// The package's version, `unknown` when the record has none.
    pub fn get_version(&self) -> (r: Vec<u8>)
        ensures
            r@ == match self.version {
                Some(ref v) => v@,
                None => crate::names::unknown_name_seq(),
            },
    {
        match &self.version {
            Some(v) => copy_bytes(v.as_slice()),
            None => {
                let u = unknown_name_bytes();
                let mut v: Vec<u8> = Vec::new();
                crate::util::push_all(&mut v, u.as_slice());
                proof {
                    assert(v@ =~= crate::names::unknown_name_seq());
                }
                v
            },
        }
    }
}

} // verus!
