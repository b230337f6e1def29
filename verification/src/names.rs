//! The distinguished byte-string names of the overlay, as both spec
//! sequences and executable byte arrays.

use vstd::prelude::*;

verus! {

/// `"node_modules"`: the directory that holds installed packages.
pub open spec fn node_modules_seq() -> Seq<u8> {
    seq![110u8, 111, 100, 101, 95, 109, 111, 100, 117, 108, 101, 115]
}

/// `"node_modules"` as bytes.
pub fn node_modules_bytes() -> (r: [u8; 12])
    ensures
        r@ == node_modules_seq(),
{
    let r: [u8; 12] = [110, 111, 100, 101, 95, 109, 111, 100, 117, 108, 101, 115];
    proof {
        assert(r@ =~= node_modules_seq());
    }
    r
}

/// `"fuse.link"`: the sentinel file name.
pub open spec fn fuse_link_seq() -> Seq<u8> {
    seq![102u8, 117, 115, 101, 46, 108, 105, 110, 107]
}

/// `"fuse.link"` as bytes.
pub fn fuse_link_bytes() -> (r: [u8; 9])
    ensures
        r@ == fuse_link_seq(),
{
    let r: [u8; 9] = [102, 117, 115, 101, 46, 108, 105, 110, 107];
    proof {
        assert(r@ =~= fuse_link_seq());
    }
    r
}

/// `"package"`: the conventional archive top-level directory.
pub open spec fn package_seq() -> Seq<u8> {
    seq![112u8, 97, 99, 107, 97, 103, 101]
}

/// `"package"` as bytes.
pub fn package_bytes() -> (r: [u8; 7])
    ensures
        r@ == package_seq(),
{
    let r: [u8; 7] = [112, 97, 99, 107, 97, 103, 101];
    proof {
        assert(r@ =~= package_seq());
    }
    r
}

/// `"package.json"`: the manifest file name.
pub open spec fn package_json_seq() -> Seq<u8> {
    seq![112u8, 97, 99, 107, 97, 103, 101, 46, 106, 115, 111, 110]
}

/// `"package.json"` as bytes.
pub fn package_json_bytes() -> (r: [u8; 12])
    ensures
        r@ == package_json_seq(),
{
    let r: [u8; 12] = [112, 97, 99, 107, 97, 103, 101, 46, 106, 115, 111, 110];
    proof {
        assert(r@ =~= package_json_seq());
    }
    r
}

/// `"package.tgz"`: the fallback archive file name.
pub open spec fn package_tgz_seq() -> Seq<u8> {
    seq![112u8, 97, 99, 107, 97, 103, 101, 46, 116, 103, 122]
}

/// `"package.tgz"` as bytes.
pub fn package_tgz_bytes() -> (r: [u8; 11])
    ensures
        r@ == package_tgz_seq(),
{
    let r: [u8; 11] = [112, 97, 99, 107, 97, 103, 101, 46, 116, 103, 122];
    proof {
        assert(r@ =~= package_tgz_seq());
    }
    r
}

/// `"/stores/"`: the store area prefix.
pub open spec fn stores_prefix_seq() -> Seq<u8> {
    seq![47u8, 115, 116, 111, 114, 101, 115, 47]
}

/// `"/stores/"` as bytes.
pub fn stores_prefix_bytes() -> (r: [u8; 8])
    ensures
        r@ == stores_prefix_seq(),
{
    let r: [u8; 8] = [47, 115, 116, 111, 114, 101, 115, 47];
    proof {
        assert(r@ =~= stores_prefix_seq());
    }
    r
}

/// `"/-/"`: the store path segment between name and file.
pub open spec fn dash_segment_seq() -> Seq<u8> {
    seq![47u8, 45, 47]
}

/// `"/-/"` as bytes.
pub fn dash_segment_bytes() -> (r: [u8; 3])
    ensures
        r@ == dash_segment_seq(),
{
    let r: [u8; 3] = [47, 45, 47];
    proof {
        assert(r@ =~= dash_segment_seq());
    }
    r
}

/// `"-unpack"`: the suffix of a materialized tree.
pub open spec fn unpack_suffix_seq() -> Seq<u8> {
    seq![45u8, 117, 110, 112, 97, 99, 107]
}

/// `"-unpack"` as bytes.
pub fn unpack_suffix_bytes() -> (r: [u8; 7])
    ensures
        r@ == unpack_suffix_seq(),
{
    let r: [u8; 7] = [45, 117, 110, 112, 97, 99, 107];
    proof {
        assert(r@ =~= unpack_suffix_seq());
    }
    r
}

/// `"-unpack._resolved"`: the suffix of the extraction marker.
pub open spec fn resolved_suffix_seq() -> Seq<u8> {
    seq![45u8, 117, 110, 112, 97, 99, 107, 46, 95, 114, 101, 115, 111, 108, 118, 101, 100]
}

/// `"-unpack._resolved"` as bytes.
pub fn resolved_suffix_bytes() -> (r: [u8; 17])
    ensures
        r@ == resolved_suffix_seq(),
{
    let r: [u8; 17] = [45, 117, 110, 112, 97, 99, 107, 46, 95, 114, 101, 115, 111, 108, 118, 101, 100];
    proof {
        assert(r@ =~= resolved_suffix_seq());
    }
    r
}

/// `"sha512-"`: the integrity hash scheme prefix.
pub open spec fn sha512_prefix_seq() -> Seq<u8> {
    seq![115u8, 104, 97, 53, 49, 50, 45]
}

/// `"sha512-"` as bytes.
pub fn sha512_prefix_bytes() -> (r: [u8; 7])
    ensures
        r@ == sha512_prefix_seq(),
{
    let r: [u8; 7] = [115, 104, 97, 53, 49, 50, 45];
    proof {
        assert(r@ =~= sha512_prefix_seq());
    }
    r
}

/// `"./"`: the current-directory prefix.
pub open spec fn dot_slash_seq() -> Seq<u8> {
    seq![46u8, 47]
}

/// `"./"` as bytes.
pub fn dot_slash_bytes() -> (r: [u8; 2])
    ensures
        r@ == dot_slash_seq(),
{
    let r: [u8; 2] = [46, 47];
    proof {
        assert(r@ =~= dot_slash_seq());
    }
    r
}

/// `"/registry-fs"`: the registry cache area.
pub open spec fn registry_fs_prefix_seq() -> Seq<u8> {
    seq![47u8, 114, 101, 103, 105, 115, 116, 114, 121, 45, 102, 115]
}

/// `"/registry-fs"` as bytes.
pub fn registry_fs_prefix_bytes() -> (r: [u8; 12])
    ensures
        r@ == registry_fs_prefix_seq(),
{
    let r: [u8; 12] = [47, 114, 101, 103, 105, 115, 116, 114, 121, 45, 102, 115];
    proof {
        assert(r@ =~= registry_fs_prefix_seq());
    }
    r
}

/// `".meta-"`: the prefix of a cached directory listing.
pub open spec fn meta_prefix_seq() -> Seq<u8> {
    seq![46u8, 109, 101, 116, 97, 45]
}

/// `".meta-"` as bytes.
pub fn meta_prefix_bytes() -> (r: [u8; 6])
    ensures
        r@ == meta_prefix_seq(),
{
    let r: [u8; 6] = [46, 109, 101, 116, 97, 45];
    proof {
        assert(r@ =~= meta_prefix_seq());
    }
    r
}

/// `".meta-root.json"`: the cached root listing file name.
pub open spec fn meta_root_seq() -> Seq<u8> {
    seq![46u8, 109, 101, 116, 97, 45, 114, 111, 111, 116, 46, 106, 115, 111, 110]
}

/// `".meta-root.json"` as bytes.
pub fn meta_root_bytes() -> (r: [u8; 15])
    ensures
        r@ == meta_root_seq(),
{
    let r: [u8; 15] = [46, 109, 101, 116, 97, 45, 114, 111, 111, 116, 46, 106, 115, 111, 110];
    proof {
        assert(r@ =~= meta_root_seq());
    }
    r
}

/// `".json"`: the listing cache file extension.
pub open spec fn json_suffix_seq() -> Seq<u8> {
    seq![46u8, 106, 115, 111, 110]
}

/// `".json"` as bytes.
pub fn json_suffix_bytes() -> (r: [u8; 5])
    ensures
        r@ == json_suffix_seq(),
{
    let r: [u8; 5] = [46, 106, 115, 111, 110];
    proof {
        assert(r@ =~= json_suffix_seq());
    }
    r
}

/// `"/files/"`: the registry file endpoint segment.
pub open spec fn files_segment_seq() -> Seq<u8> {
    seq![47u8, 102, 105, 108, 101, 115, 47]
}

/// `"/files/"` as bytes.
pub fn files_segment_bytes() -> (r: [u8; 7])
    ensures
        r@ == files_segment_seq(),
{
    let r: [u8; 7] = [47, 102, 105, 108, 101, 115, 47];
    proof {
        assert(r@ =~= files_segment_seq());
    }
    r
}

/// `"?meta"`: the registry listing query.
pub open spec fn meta_query_seq() -> Seq<u8> {
    seq![63u8, 109, 101, 116, 97]
}

/// `"?meta"` as bytes.
pub fn meta_query_bytes() -> (r: [u8; 5])
    ensures
        r@ == meta_query_seq(),
{
    let r: [u8; 5] = [63, 109, 101, 116, 97];
    proof {
        assert(r@ =~= meta_query_seq());
    }
    r
}

/// `"https://registry.npmmirror.com"`: the fallback registry base.
pub open spec fn default_registry_seq() -> Seq<u8> {
    seq![104u8, 116, 116, 112, 115, 58, 47, 47, 114, 101, 103, 105, 115, 116, 114, 121, 46, 110, 112, 109, 109, 105, 114, 114, 111, 114, 46, 99, 111, 109]
}

/// `"https://registry.npmmirror.com"` as bytes.
pub fn default_registry_bytes() -> (r: [u8; 30])
    ensures
        r@ == default_registry_seq(),
{
    let r: [u8; 30] = [104, 116, 116, 112, 115, 58, 47, 47, 114, 101, 103, 105, 115, 116, 114, 121, 46, 110, 112, 109, 109, 105, 114, 114, 111, 114, 46, 99, 111, 109];
    proof {
        assert(r@ =~= default_registry_seq());
    }
    r
}

/// `"root"`: the name given to the lockfile root entry.
pub open spec fn root_name_seq() -> Seq<u8> {
    seq![114u8, 111, 111, 116]
}

/// `"root"` as bytes.
pub fn root_name_bytes() -> (r: [u8; 4])
    ensures
        r@ == root_name_seq(),
{
    let r: [u8; 4] = [114, 111, 111, 116];
    proof {
        assert(r@ =~= root_name_seq());
    }
    r
}

/// `"unknown"`: the fallback for a missing name or version.
pub open spec fn unknown_name_seq() -> Seq<u8> {
    seq![117u8, 110, 107, 110, 111, 119, 110]
}

/// `"unknown"` as bytes.
pub fn unknown_name_bytes() -> (r: [u8; 7])
    ensures
        r@ == unknown_name_seq(),
{
    let r: [u8; 7] = [117, 110, 107, 110, 111, 119, 110];
    proof {
        assert(r@ =~= unknown_name_seq());
    }
    r
}

} // verus!
