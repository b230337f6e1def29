//! The tar cache against real archives, and integrity verification.

use npmfs::archive::{determine_root_prefix, calculate_output_path, extract_tgz_bytes, ArchiveEntry};
use npmfs::pack::{gzip, sig_md5, verify_integrity, PackFile};
use npmfs::tar_cache::{
    clear_cache, extract_file_cached, list_dir_cached, set_max_size, strip_first_component,
    FileReadOutcome, ListDirOutcome, TarCache,
};
use npmfs::FsError;

fn v(s: &str) -> Vec<u8> {
    s.as_bytes().to_vec()
}

/// A small gzip-compressed tar archive with the conventional `package/`
/// top directory.
fn sample_tgz() -> Vec<u8> {
    let files = vec![
        PackFile::new(v("package/package.json"), v("{\"name\": \"p\"}")),
        PackFile::new(v("package/index.js"), v("module.exports = 1;")),
        PackFile::new(v("package/lib/y.js"), v("exports.y = 2;")),
    ];
    gzip(&files).expect("archive construction")
}

#[test]
fn md5_of_known_bytes() {
    let hash = sig_md5(b"Hello, World!");
    assert_eq!(hash, v("65a8e27d8879283831b664bd8b7f0ad4"));
}

#[test]
fn integrity_sha512_accepts_matching_payload() {
    let good = v(
        "sha512-MJ7MSJwS1utMxA9QyQLytNDtd+5RGnx6m808qG1M2G+YndNbxf9JlnDaNCVbRbDP2DDoH2Bdz33FVC6TrpzXbw==",
    );
    assert!(verify_integrity(b"hello world", Some(&good), None));
    let bad = v("sha512-incorrect");
    assert!(!verify_integrity(b"hello world", Some(&bad), None));
}

#[test]
fn integrity_shasum_fallback() {
    let good = v("2aae6c35c94fcfb415dbe95f408b9ce91ee846ed");
    assert!(verify_integrity(b"hello world", None, Some(&good)));
    let bad = v("incorrect_hash");
    assert!(!verify_integrity(b"hello world", None, Some(&bad)));
}

#[test]
fn integrity_field_takes_precedence() {
    let good_integrity = v(
        "sha512-MJ7MSJwS1utMxA9QyQLytNDtd+5RGnx6m808qG1M2G+YndNbxf9JlnDaNCVbRbDP2DDoH2Bdz33FVC6TrpzXbw==",
    );
    let good_shasum = v("2aae6c35c94fcfb415dbe95f408b9ce91ee846ed");
    let wrong_shasum = v("wrong_shasum");
    let wrong_integrity = v("sha512-wrong");
    assert!(verify_integrity(b"hello world", Some(&good_integrity), Some(&wrong_shasum)));
    assert!(!verify_integrity(b"hello world", Some(&wrong_integrity), Some(&good_shasum)));
}

#[test]
fn integrity_without_hashes_never_accepts() {
    assert!(!verify_integrity(b"hello world", None, None));
}

#[test]
fn strip_first_component_cases() {
    assert_eq!(strip_first_component(b"package/index.js"), v("index.js"));
    assert_eq!(strip_first_component(b"package/lib/y.js"), v("lib/y.js"));
    assert_eq!(strip_first_component(b"plain"), v("plain"));
    assert_eq!(strip_first_component(b""), v(""));
}

#[test]
fn prefix_detection_conventional() {
    let entries = vec![
        ArchiveEntry::new(v("package/package.json"), true, false, v("{}")),
        ArchiveEntry::new(v("package/lib/x.js"), true, false, v("x")),
    ];
    assert_eq!(determine_root_prefix(&entries), Some(v("package")));
}

#[test]
fn prefix_detection_root_manifest() {
    let entries = vec![
        ArchiveEntry::new(v("package.json"), true, false, v("{}")),
        ArchiveEntry::new(v("lib/x.js"), true, false, v("x")),
    ];
    assert_eq!(determine_root_prefix(&entries), None);
}

#[test]
fn prefix_detection_renamed_top_directory() {
    let entries = vec![
        ArchiveEntry::new(v("mylib/package.json"), true, false, v("{}")),
        ArchiveEntry::new(v("mylib/a.js"), true, false, v("a")),
    ];
    assert_eq!(determine_root_prefix(&entries), Some(v("mylib")));
}

#[test]
fn prefix_detection_shallowest_manifest_wins() {
    let entries = vec![
        ArchiveEntry::new(v("deep/nested/package.json"), true, false, v("{}")),
        ArchiveEntry::new(v("top/package.json"), true, false, v("{}")),
    ];
    assert_eq!(determine_root_prefix(&entries), Some(v("top")));
}

#[test]
fn prefix_detection_package_directory_fallback() {
    let entries = vec![ArchiveEntry::new(v("package/data.bin"), true, false, v("d"))];
    assert_eq!(determine_root_prefix(&entries), Some(v("package")));
}

#[test]
fn prefix_detection_nothing_known() {
    let entries = vec![ArchiveEntry::new(v("data.bin"), true, false, v("d"))];
    assert_eq!(determine_root_prefix(&entries), None);
}

#[test]
fn output_path_strips_prefix() {
    let pre = v("package");
    let r = calculate_output_path(b"package/lib/x.js", b"/out", Some(&pre));
    assert_eq!(r, Some(v("/out/lib/x.js")));
}

#[test]
fn output_path_skips_bare_prefix() {
    let pre = v("package");
    assert_eq!(calculate_output_path(b"package", b"/out", Some(&pre)), None);
}

#[test]
fn output_path_keeps_foreign_entries() {
    let pre = v("package");
    let r = calculate_output_path(b"other/readme", b"/out", Some(&pre));
    assert_eq!(r, Some(v("/out/other/readme")));
}

#[test]
fn extraction_plan_from_real_archive() {
    let tgz = sample_tgz();
    let writes = extract_tgz_bytes(&tgz, b"/stores/p/-/p-1.0.0.tgz-unpack").expect("plan");
    let paths: Vec<Vec<u8>> = writes.iter().map(|w| w.0.clone()).collect();
    assert!(paths.contains(&v("/stores/p/-/p-1.0.0.tgz-unpack/package.json")));
    assert!(paths.contains(&v("/stores/p/-/p-1.0.0.tgz-unpack/index.js")));
    assert!(paths.contains(&v("/stores/p/-/p-1.0.0.tgz-unpack/lib/y.js")));
    assert_eq!(writes.len(), 3);
    for w in &writes {
        if w.0 == v("/stores/p/-/p-1.0.0.tgz-unpack/lib/y.js") {
            assert_eq!(w.1, v("exports.y = 2;"));
        }
    }
}

#[test]
fn extraction_rejects_garbage() {
    match extract_tgz_bytes(b"not a gzip stream", b"/out") {
        Err(e) => assert_eq!(e, FsError::MalformedInput),
        Ok(_) => panic!("garbage must not decode"),
    }
}

#[test]
fn tar_cache_serves_archive_entries() {
    let tgz = sample_tgz();
    let mut cache = TarCache::new(100 * 1024 * 1024);
    let tgz_path = v("/stores/p/-/p-1.0.0.tgz");

    match extract_file_cached(&mut cache, &tgz_path, b"package/index.js") {
        FileReadOutcome::NeedArchive => {},
        _ => panic!("the archive is not loaded yet"),
    }
    assert!(cache.load_tgz(&tgz_path, &tgz).expect("decode"));

    match extract_file_cached(&mut cache, &tgz_path, b"package/index.js") {
        FileReadOutcome::Bytes(b) => assert_eq!(b, v("module.exports = 1;")),
        _ => panic!("expected bytes"),
    }
    match extract_file_cached(&mut cache, &tgz_path, b"package/lib/y.js") {
        FileReadOutcome::Bytes(b) => assert_eq!(b, v("exports.y = 2;")),
        _ => panic!("expected bytes"),
    }
}

#[test]
fn tar_cache_distinguishes_directories_and_missing() {
    let tgz = sample_tgz();
    let mut cache = TarCache::new(100 * 1024 * 1024);
    let tgz_path = v("/stores/p/-/p-1.0.0.tgz");
    cache.load_tgz(&tgz_path, &tgz).expect("decode");

    match extract_file_cached(&mut cache, &tgz_path, b"package/lib") {
        FileReadOutcome::Failed(e) => assert_eq!(e, FsError::IsADirectory),
        _ => panic!("a directory prefix must fail as a directory"),
    }
    match extract_file_cached(&mut cache, &tgz_path, b"package/missing.js") {
        FileReadOutcome::Failed(e) => assert_eq!(e, FsError::NotFound),
        _ => panic!("an absent entry must fail as not found"),
    }
}

#[test]
fn tar_cache_lists_top_level() {
    let tgz = sample_tgz();
    let mut cache = TarCache::new(100 * 1024 * 1024);
    let tgz_path = v("/stores/p/-/p-1.0.0.tgz");
    cache.load_tgz(&tgz_path, &tgz).expect("decode");

    match list_dir_cached(&cache, &tgz_path, b"") {
        ListDirOutcome::Items(items) => {
            let mut names: Vec<(Vec<u8>, bool)> = items;
            names.sort();
            assert_eq!(
                names,
                vec![(v("index.js"), false), (v("lib"), true), (v("package.json"), false)],
            );
        },
        ListDirOutcome::NeedArchive => panic!("the archive is loaded"),
    }
    match list_dir_cached(&cache, &tgz_path, b"package/lib") {
        ListDirOutcome::Items(items) => {
            assert_eq!(items, vec![(v("y.js"), false)]);
        },
        ListDirOutcome::NeedArchive => panic!("the archive is loaded"),
    }
}

#[test]
fn tar_cache_respects_budget() {
    let tgz = sample_tgz();
    let mut cache = TarCache::new(4);
    let tgz_path = v("/stores/p/-/p-1.0.0.tgz");
    let admitted = cache.load_tgz(&tgz_path, &tgz).expect("decode");
    assert!(!admitted);
    assert!(!cache.has_tgz(&tgz_path));
}

#[test]
fn tar_cache_eviction_under_pressure() {
    let a = gzip(&vec![PackFile::new(v("package/a.txt"), vec![7u8; 64])]).expect("archive");
    let b = gzip(&vec![PackFile::new(v("package/b.txt"), vec![9u8; 64])]).expect("archive");
    let mut cache = TarCache::new(100);
    assert!(cache.load_tgz(b"/stores/a.tgz", &a).expect("decode"));
    assert!(cache.load_tgz(b"/stores/b.tgz", &b).expect("decode"));
    assert!(!cache.has_tgz(b"/stores/a.tgz"));
    assert!(cache.has_tgz(b"/stores/b.tgz"));
}

#[test]
fn tar_cache_evicts_least_recently_accessed() {
    let a = gzip(&vec![PackFile::new(v("package/a.txt"), vec![1u8; 60])]).expect("archive");
    let b = gzip(&vec![PackFile::new(v("package/b.txt"), vec![2u8; 60])]).expect("archive");
    let c = gzip(&vec![PackFile::new(v("package/c.txt"), vec![3u8; 60])]).expect("archive");
    let mut cache = TarCache::new(130);
    assert!(cache.load_tgz(b"/stores/a.tgz", &a).expect("decode"));
    assert!(cache.load_tgz(b"/stores/b.tgz", &b).expect("decode"));
    // Touch the older archive: it becomes the most recently accessed.
    match extract_file_cached(&mut cache, b"/stores/a.tgz", b"package/a.txt") {
        FileReadOutcome::Bytes(_) => {},
        _ => panic!("the archive is loaded"),
    }
    assert!(cache.load_tgz(b"/stores/c.tgz", &c).expect("decode"));
    assert!(cache.has_tgz(b"/stores/a.tgz"));
    assert!(!cache.has_tgz(b"/stores/b.tgz"));
    assert!(cache.has_tgz(b"/stores/c.tgz"));
}

#[test]
fn tar_cache_shrinking_budget_evicts_oldest_first() {
    let a = gzip(&vec![PackFile::new(v("package/a.txt"), vec![1u8; 60])]).expect("archive");
    let b = gzip(&vec![PackFile::new(v("package/b.txt"), vec![2u8; 60])]).expect("archive");
    let mut cache = TarCache::new(200);
    assert!(cache.load_tgz(b"/stores/a.tgz", &a).expect("decode"));
    assert!(cache.load_tgz(b"/stores/b.tgz", &b).expect("decode"));
    match extract_file_cached(&mut cache, b"/stores/a.tgz", b"package/a.txt") {
        FileReadOutcome::Bytes(_) => {},
        _ => panic!("the archive is loaded"),
    }
    set_max_size(&mut cache, 70);
    assert!(cache.has_tgz(b"/stores/a.tgz"));
    assert!(!cache.has_tgz(b"/stores/b.tgz"));
}

#[test]
fn tar_cache_shrinking_budget_evicts() {
    let tgz = sample_tgz();
    let mut cache = TarCache::new(100 * 1024 * 1024);
    cache.load_tgz(b"/stores/p.tgz", &tgz).expect("decode");
    assert!(cache.has_tgz(b"/stores/p.tgz"));
    set_max_size(&mut cache, 1);
    assert!(!cache.has_tgz(b"/stores/p.tgz"));
}

#[test]
fn tar_cache_clear_forgets_everything() {
    let tgz = sample_tgz();
    let mut cache = TarCache::new(100 * 1024 * 1024);
    cache.load_tgz(b"/stores/p.tgz", &tgz).expect("decode");
    clear_cache(&mut cache);
    assert!(!cache.has_tgz(b"/stores/p.tgz"));
}
