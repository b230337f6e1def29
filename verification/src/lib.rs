//! A lazy, content-addressed overlay filesystem for npm package installation.
//!
//! Given a parsed `package-lock.json`, the installer plans which packages to
//! fetch, verifies archive integrity, and places small `fuse.link` sentinel
//! files at every `node_modules/...` location named by the lockfile.  Later
//! reads walk those sentinels to the real bytes: either a materialized
//! directory in the store or a still-compressed archive served through an
//! in-memory tar cache.  An independent registry-backed mode serves reads
//! straight from an npm-compatible registry.
//!
//! All decision logic lives here as verified functions over plain values
//! (paths and file contents are byte vectors).  The surrounding process is
//! expected to perform the actual storage and network operations and hand
//! the results back in.

use vstd::prelude::*;

pub mod archive;
pub mod fuse;
pub mod kvmap;
pub mod names;
pub mod pack;
pub mod package_lock;
pub mod package_manager;
pub mod registry_fs;
pub mod tar_cache;
pub mod text;
pub mod util;

verus! {

/// The kind of a directory entry.
#[derive(Clone, Copy, Debug, PartialEq, Eq, Structural)]
pub enum EntryKind {
    File,
    Directory,
    Other,
}

/// A directory entry as the overlay reports it: the full path, the final
/// name component, and the kind.
#[derive(Clone, Debug)]
pub struct DirEntry {
    pub path: Vec<u8>,
    pub name: Vec<u8>,
    pub kind: EntryKind,
}

/// Abstract error taxonomy of the overlay.
///
/// `NotApplicable` ("this layer does not own this path") is expressed as
/// `Option::None` in layer results, never as a variant here.
#[derive(Clone, Copy, Debug, PartialEq, Eq, Structural)]
pub enum FsError {
    /// The path or archive entry does not exist after the owning layer tried.
    NotFound,
    /// A file read named a path that is a directory.
    IsADirectory,
    /// Hash mismatch on a downloaded or cached archive.
    IntegrityFailure,
    /// An HTTP transfer failed or returned a non-success status.
    NetworkFailure,
    /// A lockfile or listing could not be parsed.
    MalformedInput,
    /// A path was not under its sentinel's directory, or similar corruption.
    InvariantViolated,
    /// The underlying storage rejected an operation.
    StorageFailure,
}


/// What one overlay layer reported for a read.
#[derive(Clone, Copy, Debug, PartialEq, Eq, Structural)]
pub enum LayerOutcome {
    /// The layer owned the path and produced the result.
    Produced,
    /// The layer does not own the path; the next one is consulted.
    NotApplicable,
}

/// Which layer the read orchestrator consults next.
#[derive(Clone, Copy, Debug, PartialEq, Eq, Structural)]
pub enum ReadPhase {
    TryRegistry,
    TryFuse,
    Direct,
    Done,
}

/// The orchestration of one read: registry, then fuse-link, then direct
/// storage, each consulted only when every earlier layer declined; a
/// produced result ends the read.
pub open spec fn read_step_spec(phase: ReadPhase, outcome: LayerOutcome) -> ReadPhase {
    match (phase, outcome) {
        (ReadPhase::TryRegistry, LayerOutcome::NotApplicable) => ReadPhase::TryFuse,
        (ReadPhase::TryFuse, LayerOutcome::NotApplicable) => ReadPhase::Direct,
        _ => ReadPhase::Done,
    }
}

/// Advance the read orchestration by one layer's outcome.
pub fn read_step(phase: ReadPhase, outcome: LayerOutcome) -> (r: ReadPhase)
    ensures
        r == read_step_spec(phase, outcome),
{
    match (phase, outcome) {
        (ReadPhase::TryRegistry, LayerOutcome::NotApplicable) => ReadPhase::TryFuse,
        (ReadPhase::TryFuse, LayerOutcome::NotApplicable) => ReadPhase::Direct,
        _ => ReadPhase::Done,
    }
}

/// Law: the layers are strictly sequential.  The fuse layer is consulted
/// exactly when the registry declined, direct storage exactly when both
/// earlier layers declined, and a produced result ends the read at once.
pub proof fn lemma_read_order(o1: LayerOutcome, o2: LayerOutcome)
    ensures
        read_step_spec(ReadPhase::TryRegistry, o1) == ReadPhase::TryFuse <==> o1
            == LayerOutcome::NotApplicable,
        read_step_spec(read_step_spec(ReadPhase::TryRegistry, o1), o2) == ReadPhase::Direct <==> (
        o1 == LayerOutcome::NotApplicable && o2 == LayerOutcome::NotApplicable),
        o1 == LayerOutcome::Produced ==> read_step_spec(ReadPhase::TryRegistry, o1)
            == ReadPhase::Done,
        read_step_spec(ReadPhase::Done, o1) == ReadPhase::Done,
{
}

/// Law: addressing the tar cache through a lazy sentinel is exact.  A lazy
/// install's sentinel carries the `package` prefix, the fuse layer asks the
/// cache for `package/<rel>`, and the cache keys by the entry path with its
/// first component stripped: what comes back is the archive's own entry at
/// `<rel>`.
pub proof fn lemma_lazy_entry_normalizes(rel: Seq<u8>)
    ensures
        tar_cache::strip_first_spec(names::package_seq() + seq![util::SEP] + rel) == rel,
{
    let s = names::package_seq() + seq![util::SEP] + rel;
    assert(forall|i: int| 0 <= i < names::package_seq().len() ==> s[i] != util::SEP);
    assert(s[names::package_seq().len() as int] == util::SEP);
    text::lemma_first_index_char(s, util::SEP, names::package_seq().len() as int);
    assert(s.subrange(names::package_seq().len() + 1 as int, s.len() as int) =~= rel);
}


/// Forget all registry descriptor state.
pub fn clear_registry_cache(cache: &mut registry_fs::RegistryCache)
    ensures
        final(cache).metadata.wf(),
        final(cache).fetched_dirs.wf(),
        final(cache).metadata.spec_len() == 0,
        final(cache).fetched_dirs.spec_len() == 0,
{
    registry_fs::clear_cache(cache);
}

/// How many registry descriptors are cached.
pub fn get_registry_cache_stats(cache: &registry_fs::RegistryCache) -> (r: usize)
    ensures
        r == cache.metadata.spec_len(),
{
    registry_fs::get_cache_stats(cache)
}

} // verus!
