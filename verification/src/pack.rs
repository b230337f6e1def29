//! Integrity verification and archive creation.
//!
//! Hashes and the base64 alphabet come from the `sha2`, `sha1`, `md-5` and
//! `data-encoding` crates; their results are named, and the verification
//! rules over them are verified.

use sha2::Digest;
use vstd::prelude::*;

verus! {

use crate::names::sha512_prefix_bytes;
use crate::util::{bytes_eq, is_prefix_of, starts_with};

broadcast use vstd::array::group_array_axioms;

/// The MD5 digest of the bytes, in lowercase hex: a function of the bytes
/// alone.
pub uninterp spec fn md5_hex(bytes: Seq<u8>) -> Seq<u8>;

/// Relies on `md5::Md5` through the `Digest` trait: the MD5 of the bytes,
/// hex-encoded, 32 digits.
#[verifier::external_body]
pub fn sig_md5(content: &[u8]) -> (r: Vec<u8>)
    ensures
        r@ == md5_hex(content@),
        r@.len() == 32,
{
    let digest = md5::Md5::digest(content);
    let mut out = String::new();
    for b in digest.iter() {
        out.push_str(&format!("{:02x}", b));
    }
    out.into_bytes()
}

/// The SHA-512 digest of the bytes: a function of the bytes alone.
pub uninterp spec fn sha512_of(bytes: Seq<u8>) -> Seq<u8>;

/// Relies on `sha2::Sha512` through the `Digest` trait: the SHA-512 of the
/// bytes, 64 bytes long.
#[verifier::external_body]
fn sha512_digest(content: &[u8]) -> (r: Vec<u8>)
    ensures
        r@ == sha512_of(content@),
        r@.len() == 64,
{
    sha2::Sha512::digest(content).to_vec()
}

/// The SHA-1 digest of the bytes, in lowercase hex: a function of the
/// bytes alone.
pub uninterp spec fn sha1_hex(bytes: Seq<u8>) -> Seq<u8>;

/// Relies on `sha1::Sha1` through the `Digest` trait: the SHA-1 of the
/// bytes, hex-encoded, 40 digits.
#[verifier::external_body]
fn sha1_hex_digest(content: &[u8]) -> (r: Vec<u8>)
    ensures
        r@ == sha1_hex(content@),
        r@.len() == 40,
{
    let digest = sha1::Sha1::digest(content);
    let mut out = String::new();
    for b in digest.iter() {
        out.push_str(&format!("{:02x}", b));
    }
    out.into_bytes()
}

/// The padded base64 encoding of the bytes: a function of the bytes alone.
pub uninterp spec fn base64_of(bytes: Seq<u8>) -> Seq<u8>;

/// Relies on `data_encoding::BASE64`: the padded base64 encoding of the
/// bytes, four symbols per three-byte block; its length check panics on
/// inputs near the address-space limit, which the bound rules out.
#[verifier::external_body]
fn base64_encode(content: &[u8]) -> (r: Vec<u8>)
    requires
        content@.len() <= usize::MAX / 512,
    ensures
        r@ == base64_of(content@),
        r@.len() == ((content@.len() + 2) / 3) * 4,
{
    data_encoding::BASE64.encode(content).into_bytes()
}

/// When a payload passes verification: an `sha512-` integrity string must
/// match the base64 of the payload's SHA-512; otherwise a legacy shasum
/// must match the hex SHA-1; with neither, nothing is accepted.
pub open spec fn verify_integrity_spec(
    bytes: Seq<u8>,
    integrity: Option<Seq<u8>>,
    shasum: Option<Seq<u8>>,
) -> bool {
    if integrity is Some && is_prefix_of(crate::names::sha512_prefix_seq(), integrity.unwrap()) {
        base64_of(sha512_of(bytes)) == integrity.unwrap().subrange(
            crate::names::sha512_prefix_seq().len() as int,
            integrity.unwrap().len() as int,
        )
    } else if shasum is Some {
        sha1_hex(bytes) == shasum.unwrap()
    } else {
        false
    }
}

/// Verify a payload against its lockfile hashes.  The `sha512-` integrity
/// field takes precedence; a bare shasum is the SHA-1 fallback; content
/// with neither is never accepted.
pub fn verify_integrity(file_bytes: &[u8], integrity: Option<&Vec<u8>>, shasum: Option<&Vec<u8>>)
    -> (r: bool)
    ensures
        r == verify_integrity_spec(
            file_bytes@,
            match integrity {
                Some(v) => Some(v@),
                None => None,
            },
            match shasum {
                Some(v) => Some(v@),
                None => None,
            },
        ),
{
    let prefix = sha512_prefix_bytes();
    match integrity {
        Some(integrity_str) => {
            if starts_with(integrity_str.as_slice(), prefix.as_slice()) {
                let digest = sha512_digest(file_bytes);
                let calculated = base64_encode(digest.as_slice());
                let hash_part = &integrity_str.as_slice()[prefix.len()..integrity_str.len()];
                return bytes_eq(calculated.as_slice(), hash_part);
            }
        },
        None => {},
    }
    match shasum {
        Some(expected) => {
            let calculated = sha1_hex_digest(file_bytes);
            bytes_eq(calculated.as_slice(), expected.as_slice())
        },
        None => false,
    }
}

/// One file of an archive to be built.
#[derive(Debug, Clone)]
pub struct PackFile {
    /// The relative path inside the archive.
    pub path: Vec<u8>,
    /// The file's content.
    pub content: Vec<u8>,
}

impl PackFile {
    pub fn new(path: Vec<u8>, content: Vec<u8>) -> (r: Self)
        ensures
            r.path == path,
            r.content == content,
    {
        PackFile { path, content }
    }
}

/// The plain shape of the files handed to the archive builder.
pub open spec fn pack_files_view(s: Seq<PackFile>) -> Seq<(Seq<u8>, Seq<u8>)> {
    s.map_values(|f: PackFile| (f.path@, f.content@))
}

/// The gzip-compressed ustar archive of the files, stamped `mtime`: a
/// function of the files and the timestamp alone.  `None` stands for
/// inputs the builder rejects (a path it cannot store).
pub uninterp spec fn targz_of(files: Seq<(Seq<u8>, Seq<u8>)>, mtime: u64) -> Option<Seq<u8>>;

/// Relies on `tar::Builder` with `tar::Header::new_ustar` and
/// `flate2::GzBuilder`: each file is appended with the given modification
/// time and fixed mode and ownership, so the output depends on the files
/// and the timestamp alone.
#[verifier::external_body]
pub(crate) fn gzip_at(files: &Vec<PackFile>, mtime_secs: u64) -> (r: Option<Vec<u8>>)
    ensures
        match r {
            Some(b) => targz_of(pack_files_view(files@), mtime_secs) == Some(b@),
            None => targz_of(pack_files_view(files@), mtime_secs) is None,
        },
{
    let enc = flate2::GzBuilder::new().write(Vec::new(), flate2::Compression::default());
    let mut builder = tar::Builder::new(enc);
    for f in files.iter() {
        let mut h = tar::Header::new_ustar();
        h.set_path(std::str::from_utf8(&f.path).ok()?).ok()?;
        h.set_size(f.content.len() as u64); h.set_mode(0o644); h.set_mtime(mtime_secs);
        h.set_uid(1000); h.set_gid(1000); h.set_cksum();
        builder.append(&h, f.content.as_slice()).ok()?;
    }
    builder.into_inner().ok()?.finish().ok()
}

/// Relies on `web_time::SystemTime::now`: seconds since the Unix epoch;
/// nothing is promised of the clock's reading.
#[verifier::external_body]
fn unix_now_secs() -> u64 {
    web_time::SystemTime::now().duration_since(web_time::UNIX_EPOCH).unwrap_or_default().as_secs()
}

/// Build a gzip-compressed tar archive of the files, stamped with the
/// current time.
pub fn gzip(files: &Vec<PackFile>) -> (r: Option<Vec<u8>>)
    ensures
        match r {
            Some(b) => exists|m: u64| targz_of(pack_files_view(files@), m) == Some(b@),
            None => exists|m: u64| targz_of(pack_files_view(files@), m) is None,
        },
{
    let now = unix_now_secs();
    let r = gzip_at(files, now);
    proof {
        match &r {
            Some(b) => {
                assert(targz_of(pack_files_view(files@), now) == Some(b@));
            },
            None => {
                assert(targz_of(pack_files_view(files@), now) is None);
            },
        }
    }
    r
}



} // verus!
