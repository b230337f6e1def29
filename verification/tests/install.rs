//! Installer planning, cache checks, verification decisions and sentinel
//! content; the registry path helpers; the read orchestrator.

use npmfs::fuse::{clear_fuse_link_cache, get_cache_stats};
use npmfs::kvmap::KvMap;
use npmfs::package_lock::LockPackage;
use npmfs::package_manager::{
    accept_download, download_decision, group_is_cached, is_skipped, link_content_for,
    needs_root_package_json, partition_groups, plan_install, DownloadDecision, InstallOptions,
    PackagePaths,
};
use npmfs::registry_fs::{
    check_fetched_dirs_cache_size, check_metadata_cache_size, extract_host, get_cache_file_path,
    get_cache_meta_path, get_relative_path_in_package, init_metadata, is_cwd, is_root_node_modules,
    is_scope_directory, lookup_metadata, metadata_paths, overlay_listing_names, root_level_names,
    scope_level_names, translate_file_entries, PackageMetadata, RegistryCache, RegistryFileEntry,
};
use npmfs::{read_step, EntryKind, FsError, LayerOutcome, ReadPhase};

fn v(s: &str) -> Vec<u8> {
    s.as_bytes().to_vec()
}

fn pkg(resolved: Option<&str>, dev: Option<bool>, optional: Option<bool>) -> LockPackage {
    LockPackage {
        name: None,
        version: Some(v("1.0.0")),
        resolved: resolved.map(v),
        integrity: None,
        shasum: None,
        peer: None,
        dev,
        optional,
        has_install_script: None,
        os: None,
        cpu: None,
    }
}

fn opts(omit_dev: bool, omit_optional: bool) -> InstallOptions {
    InstallOptions { omit_dev, omit_optional, eager: true, max_concurrent_downloads: 20 }
}

#[test]
fn package_paths_layout() {
    let paths = PackagePaths::new(
        b"lodash",
        b"https://registry.npmjs.org/lodash/-/lodash-4.17.21.tgz",
        b"node_modules/lodash",
    );
    assert_eq!(paths.tgz_store_path, v("/stores/lodash/-/lodash-4.17.21.tgz"));
    assert_eq!(paths.unpacked_dir, v("/stores/lodash/-/lodash-4.17.21.tgz-unpack"));
    assert_eq!(
        paths.resolved_marker,
        v("/stores/lodash/-/lodash-4.17.21.tgz-unpack._resolved"),
    );
    assert_eq!(paths.link_target_dir, v("node_modules/lodash"));
}

#[test]
fn package_paths_scoped_name() {
    let paths = PackagePaths::new(
        b"@types/node",
        b"https://registry.npmjs.org/@types/node/-/node-18.0.0.tgz",
        b"node_modules/@types/node",
    );
    assert_eq!(paths.tgz_store_path, v("/stores/@types/node/-/node-18.0.0.tgz"));
    assert_eq!(paths.unpacked_dir, v("/stores/@types/node/-/node-18.0.0.tgz-unpack"));
    assert_eq!(paths.link_target_dir, v("node_modules/@types/node"));
}

#[test]
fn package_paths_fallback_file_name() {
    let paths = PackagePaths::new(b"x", b"https://example.test/x/", b"node_modules/x");
    assert_eq!(paths.tgz_store_path, v("/stores/x/-/package.tgz"));
}

#[test]
fn plan_deduplicates_by_url() {
    let entries = vec![
        (v(""), pkg(None, None, None)),
        (v("node_modules/is-number"), pkg(Some("https://e/is-number-7.0.0.tgz"), None, None)),
        (
            v("node_modules/other/node_modules/is-number"),
            pkg(Some("https://e/is-number-7.0.0.tgz"), None, None),
        ),
    ];
    let plan = plan_install(&entries, &opts(false, false));
    assert_eq!(plan.groups.len(), 1);
    assert_eq!(plan.groups[0].url, v("https://e/is-number-7.0.0.tgz"));
    let mut targets = plan.groups[0].targets.clone();
    targets.sort();
    assert_eq!(
        targets,
        vec![v("node_modules/is-number"), v("node_modules/other/node_modules/is-number")],
    );
}

#[test]
fn plan_omits_dev_entries() {
    let entries = vec![
        (v("node_modules/prod"), pkg(Some("https://e/p.tgz"), None, None)),
        (v("node_modules/devp"), pkg(Some("https://e/p.tgz"), Some(true), None)),
    ];
    let plan = plan_install(&entries, &opts(true, false));
    assert_eq!(plan.groups.len(), 1);
    assert_eq!(plan.groups[0].targets, vec![v("node_modules/prod")]);
    assert!(plan.skipped.contains(&v("node_modules/devp")));
}

#[test]
fn plan_always_skips_platform_constrained_optionals() {
    let mut native = pkg(Some("https://e/native.tgz"), None, Some(true));
    native.os = Some(vec![v("darwin")]);
    native.cpu = Some(vec![v("arm64")]);
    let entries = vec![
        (v("node_modules/native-arm64"), native),
        (v("node_modules/pure"), pkg(Some("https://e/pure.tgz"), None, None)),
    ];
    let plan = plan_install(&entries, &opts(false, false));
    assert_eq!(plan.groups.len(), 1);
    assert_eq!(plan.groups[0].targets, vec![v("node_modules/pure")]);
    assert!(plan.skipped.contains(&v("node_modules/native-arm64")));
}

#[test]
fn plan_skips_unresolved_and_root() {
    let entries = vec![
        (v(""), pkg(None, None, None)),
        (v("node_modules/ghost"), pkg(None, None, None)),
    ];
    let plan = plan_install(&entries, &opts(false, false));
    assert_eq!(plan.groups.len(), 0);
    assert_eq!(plan.skipped.len(), 2);
}

#[test]
fn plan_group_identity_from_entry() {
    let entries = vec![(
        v("node_modules/is-number"),
        pkg(Some("https://e/is-number/-/is-number-7.0.0.tgz"), None, None),
    )];
    let plan = plan_install(&entries, &opts(false, false));
    assert_eq!(plan.groups.len(), 1);
    assert_eq!(plan.groups[0].name, v("is-number"));
    assert_eq!(plan.groups[0].version, v("1.0.0"));
}

#[test]
fn skip_decision_matrix() {
    let o = opts(false, true);
    assert!(is_skipped(&v(""), &pkg(Some("https://e/a.tgz"), None, None), &o));
    assert!(is_skipped(&v("node_modules/a"), &pkg(Some("https://e/a.tgz"), None, Some(true)), &o));
    assert!(!is_skipped(&v("node_modules/a"), &pkg(Some("https://e/a.tgz"), Some(true), None), &o));
    assert!(is_skipped(&v("node_modules/a"), &pkg(None, None, None), &o));
}

#[test]
fn cache_check_is_strict_about_kinds() {
    assert!(group_is_cached(
        true,
        Some(EntryKind::File),
        Some(EntryKind::Directory),
        None,
    ));
    assert!(!group_is_cached(true, None, Some(EntryKind::Directory), None));
    assert!(!group_is_cached(
        true,
        Some(EntryKind::Directory),
        Some(EntryKind::Directory),
        None,
    ));
    assert!(!group_is_cached(true, Some(EntryKind::File), Some(EntryKind::File), None));
    assert!(group_is_cached(false, None, None, Some(EntryKind::File)));
    assert!(!group_is_cached(false, None, None, Some(EntryKind::Directory)));
    assert!(!group_is_cached(false, None, None, None));
}

#[test]
fn stored_bytes_reused_only_when_verified() {
    let shasum = v("2aae6c35c94fcfb415dbe95f408b9ce91ee846ed");
    let good = v("hello world");
    let garbage = v("garbage bytes");
    match download_decision(Some(&good), None, Some(&shasum)) {
        DownloadDecision::UseExisting => {},
        DownloadDecision::Fetch => panic!("verified bytes must be reused"),
    }
    match download_decision(Some(&garbage), None, Some(&shasum)) {
        DownloadDecision::Fetch => {},
        DownloadDecision::UseExisting => panic!("garbage must be re-fetched"),
    }
    match download_decision(Some(&good), None, None) {
        DownloadDecision::Fetch => {},
        DownloadDecision::UseExisting => panic!("unverifiable bytes must be re-fetched"),
    }
    match download_decision(None, None, Some(&shasum)) {
        DownloadDecision::Fetch => {},
        DownloadDecision::UseExisting => panic!("absent bytes must be fetched"),
    }
}

#[test]
fn downloads_failing_their_hash_are_fatal() {
    let shasum = v("2aae6c35c94fcfb415dbe95f408b9ce91ee846ed");
    assert_eq!(accept_download(b"hello world", None, Some(&shasum)), Ok(()));
    assert_eq!(
        accept_download(b"tampered", None, Some(&shasum)),
        Err(FsError::IntegrityFailure),
    );
    assert_eq!(accept_download(b"anything", None, None), Ok(()));
}

#[test]
fn sentinel_content_per_mode() {
    let paths = PackagePaths::new(b"p", b"https://e/p/-/p-1.0.0.tgz", b"node_modules/p");
    assert_eq!(link_content_for(false, &paths), v("/stores/p/-/p-1.0.0.tgz|package\n"));
    assert_eq!(
        link_content_for(true, &paths),
        v("/stores/p/-/p-1.0.0.tgz-unpack\n"),
    );
}

#[test]
fn root_manifest_written_once() {
    assert!(needs_root_package_json(false, true));
    assert!(!needs_root_package_json(true, true));
    assert!(!needs_root_package_json(false, false));
}

#[test]
fn fully_cached_plan_downloads_nothing() {
    let entries = vec![
        (v("node_modules/a"), pkg(Some("https://e/a.tgz"), None, None)),
        (v("node_modules/b"), pkg(Some("https://e/b.tgz"), None, None)),
    ];
    let plan = plan_install(&entries, &opts(false, false));
    let flags = vec![true, true];
    let (cached, to_fetch) = partition_groups(plan.groups, &flags);
    assert_eq!(cached.len(), 2);
    assert_eq!(to_fetch.len(), 0);
}

#[test]
fn deduplicated_targets_share_sentinel_content() {
    let entries = vec![
        (v("node_modules/is-number"), pkg(Some("https://e/is-number-7.0.0.tgz"), None, None)),
        (
            v("node_modules/other/node_modules/is-number"),
            pkg(Some("https://e/is-number-7.0.0.tgz"), None, None),
        ),
    ];
    let plan = plan_install(&entries, &opts(false, false));
    assert_eq!(plan.groups.len(), 1);
    let group = &plan.groups[0];
    let contents: Vec<Vec<u8>> = group
        .targets
        .iter()
        .map(|t| link_content_for(true, &PackagePaths::new(&group.name, &group.url, t)))
        .collect();
    assert_eq!(contents.len(), 2);
    assert_eq!(contents[0], contents[1]);
}

#[test]
fn partition_keeps_plan_order_and_flags() {
    let entries = vec![
        (v("node_modules/a"), pkg(Some("https://e/a.tgz"), None, None)),
        (v("node_modules/b"), pkg(Some("https://e/b.tgz"), None, None)),
        (v("node_modules/c"), pkg(Some("https://e/c.tgz"), None, None)),
    ];
    let plan = plan_install(&entries, &opts(false, false));
    assert_eq!(plan.groups.len(), 3);
    let urls: Vec<Vec<u8>> = plan.groups.iter().map(|g| g.url.clone()).collect();
    let flags = vec![true, false, true];
    let (cached, to_fetch) = partition_groups(plan.groups, &flags);
    let cached_urls: Vec<Vec<u8>> = cached.iter().map(|g| g.url.clone()).collect();
    let fetch_urls: Vec<Vec<u8>> = to_fetch.iter().map(|g| g.url.clone()).collect();
    assert_eq!(cached_urls, vec![urls[0].clone(), urls[2].clone()]);
    assert_eq!(fetch_urls, vec![urls[1].clone()]);
}

#[test]
fn listing_overlay_unions_and_dedups() {
    let synthesized = vec![v("a"), v("@s")];
    let physical = vec![v("a"), v("zzz"), v("fuse.link")];
    let mut names = overlay_listing_names(&synthesized, &physical);
    names.sort();
    assert_eq!(names, vec![v("@s"), v("a"), v("fuse.link"), v("zzz")]);
    let none: Vec<Vec<u8>> = Vec::new();
    let only_physical = overlay_listing_names(&none, &physical);
    assert_eq!(only_physical.len(), 3);
}

#[test]
fn orchestrator_layer_order() {
    assert_eq!(
        read_step(ReadPhase::TryRegistry, LayerOutcome::Produced),
        ReadPhase::Done,
    );
    assert_eq!(
        read_step(ReadPhase::TryRegistry, LayerOutcome::NotApplicable),
        ReadPhase::TryFuse,
    );
    assert_eq!(read_step(ReadPhase::TryFuse, LayerOutcome::Produced), ReadPhase::Done);
    assert_eq!(
        read_step(ReadPhase::TryFuse, LayerOutcome::NotApplicable),
        ReadPhase::Direct,
    );
    assert_eq!(read_step(ReadPhase::Direct, LayerOutcome::Produced), ReadPhase::Done);
}

#[test]
fn host_and_registry_base() {
    assert_eq!(
        extract_host(b"https://registry.npmmirror.com/debug/-/debug-2.6.9.tgz"),
        v("registry.npmmirror.com"),
    );
    assert_eq!(extract_host(b"nonsense"), v("unknown"));
    assert_eq!(
        PackageMetadata::parse_registry_url(b"https://registry.npmmirror.com/debug/-/debug-2.6.9.tgz"),
        v("https://registry.npmmirror.com"),
    );
    assert_eq!(
        PackageMetadata::parse_registry_url(b"nonsense"),
        v("https://registry.npmmirror.com"),
    );
}

fn sample_meta() -> PackageMetadata {
    PackageMetadata {
        name: v("antd"),
        version: v("5.0.0"),
        registry_url: v("https://registry.npmmirror.com"),
        install_path: v("node_modules/antd"),
    }
}

#[test]
fn registry_cache_paths() {
    let m = sample_meta();
    assert_eq!(
        get_cache_file_path(&m, b"lib/index.js"),
        v("/registry-fs/registry.npmmirror.com/antd/5.0.0/lib/index.js"),
    );
    assert_eq!(
        get_cache_meta_path(&m, b""),
        v("/registry-fs/registry.npmmirror.com/antd/5.0.0/.meta-root.json"),
    );
    assert_eq!(
        get_cache_meta_path(&m, b"lib/sub"),
        v("/registry-fs/registry.npmmirror.com/antd/5.0.0/.meta-lib-sub.json"),
    );
}

#[test]
fn registry_endpoints() {
    let m = sample_meta();
    assert_eq!(
        m.file_list_url(b""),
        v("https://registry.npmmirror.com/antd/5.0.0/files/?meta"),
    );
    assert_eq!(
        m.file_list_url(b"/src/"),
        v("https://registry.npmmirror.com/antd/5.0.0/files/src/?meta"),
    );
    assert_eq!(
        m.file_content_url(b"/src/node.js"),
        v("https://registry.npmmirror.com/antd/5.0.0/files/src/node.js"),
    );
}

#[test]
fn descriptor_lookup_prefers_longest_prefix() {
    let mut cache: KvMap<PackageMetadata> = KvMap::new();
    cache.insert(
        v("node_modules/a"),
        PackageMetadata {
            name: v("a"),
            version: v("1.0.0"),
            registry_url: v("https://r"),
            install_path: v("node_modules/a"),
        },
    );
    cache.insert(
        v("node_modules/a/node_modules/b"),
        PackageMetadata {
            name: v("b"),
            version: v("2.0.0"),
            registry_url: v("https://r"),
            install_path: v("node_modules/a/node_modules/b"),
        },
    );
    let m = lookup_metadata(&cache, b"node_modules/a/node_modules/b/lib/x.js").expect("hit");
    assert_eq!(m.name, v("b"));
    let m = lookup_metadata(&cache, b"node_modules/a/src/y.js").expect("hit");
    assert_eq!(m.name, v("a"));
    assert!(lookup_metadata(&cache, b"node_modules/zzz").is_none());
}

#[test]
fn descriptor_init_from_lock_entries() {
    let mut cache = RegistryCache::new();
    let entries = vec![
        (v(""), pkg(None, None, None)),
        (v("node_modules/debug"), pkg(Some("https://r.example/debug/-/debug-4.4.3.tgz"), None, None)),
        (v("node_modules/ghost"), pkg(None, None, None)),
    ];
    init_metadata(&mut cache, &entries);
    let paths = metadata_paths(&cache);
    assert_eq!(paths, vec![v("node_modules/debug")]);
    let m = lookup_metadata(&cache.metadata, b"node_modules/debug/src/node.js").expect("hit");
    assert_eq!(m.name, v("debug"));
    assert_eq!(m.registry_url, v("https://r.example"));
}

#[test]
fn working_directory_spellings() {
    assert!(is_cwd(b"/proj", b"/proj"));
    assert!(is_cwd(b"/proj/.", b"/proj"));
    assert!(is_cwd(b"/proj.", b"/proj/"));
    assert!(!is_cwd(b"/proj/sub", b"/proj"));
}

#[test]
fn well_known_roots() {
    assert!(is_root_node_modules(b"/proj/node_modules", b"/proj"));
    assert!(!is_root_node_modules(b"/proj/node_modules/a", b"/proj"));
    assert_eq!(
        is_scope_directory(b"/proj/node_modules/@ant-design", b"/proj"),
        Some(v("@ant-design")),
    );
    assert_eq!(is_scope_directory(b"/proj/node_modules/plain", b"/proj"), None);
    assert_eq!(is_scope_directory(b"/proj/node_modules/@a/b", b"/proj"), None);
}

#[test]
fn relative_path_inside_package() {
    let r = get_relative_path_in_package(
        b"/demo/node_modules/debug/src/node.js",
        b"node_modules/debug",
        b"/demo",
    );
    assert_eq!(r, v("src/node.js"));
    let r = get_relative_path_in_package(b"/demo/node_modules/debug", b"node_modules/debug", b"/demo");
    assert_eq!(r, v(""));
}

#[test]
fn root_listing_names() {
    let paths = vec![
        v("node_modules/a"),
        v("node_modules/a/node_modules/b"),
        v("node_modules/@s/c"),
        v("node_modules/a"),
        v("not_a_key"),
    ];
    let mut names = root_level_names(&paths);
    names.sort();
    assert_eq!(names, vec![v("@s"), v("a")]);
}

#[test]
fn scope_listing_names() {
    let paths = vec![
        v("node_modules/@s/c"),
        v("node_modules/@s/d"),
        v("node_modules/@t/e"),
        v("node_modules/plain"),
        v("node_modules/@s/c/node_modules/x"),
    ];
    let mut names = scope_level_names(&paths, b"@s");
    names.sort();
    assert_eq!(names, vec![v("c"), v("d")]);
}

#[test]
fn listing_translation_keeps_immediate_children() {
    let entries = vec![
        RegistryFileEntry { path: v("/lib/index.js"), kind: EntryKind::File },
        RegistryFileEntry { path: v("/lib/sub"), kind: EntryKind::Directory },
        RegistryFileEntry { path: v("/lib/sub/deep.js"), kind: EntryKind::File },
    ];
    let r = translate_file_entries(entries, b"lib", b"/demo/node_modules/antd/lib");
    let names: Vec<Vec<u8>> = r.iter().map(|e| e.name.clone()).collect();
    assert_eq!(names, vec![v("index.js"), v("sub")]);
    assert_eq!(r[0].path, v("/demo/node_modules/antd/lib/index.js"));
    assert_eq!(r[1].kind, EntryKind::Directory);
}

#[test]
fn descriptor_cache_trims_only_when_far_over() {
    let mut cache: KvMap<PackageMetadata> = KvMap::new();
    for i in 0..7u8 {
        cache.insert(
            vec![i],
            PackageMetadata {
                name: vec![i],
                version: v("1"),
                registry_url: v("https://r"),
                install_path: vec![i],
            },
        );
    }
    check_metadata_cache_size(&mut cache, 3);
    assert_eq!(cache.len(), 3);
    let mut small: KvMap<PackageMetadata> = KvMap::new();
    small.insert(v("k"), sample_meta());
    check_metadata_cache_size(&mut small, 3);
    assert_eq!(small.len(), 1);
}

#[test]
fn fetched_dirs_cache_trims_to_half() {
    let mut set: KvMap<()> = KvMap::new();
    for i in 0..9u8 {
        set.insert(vec![i], ());
    }
    check_fetched_dirs_cache_size(&mut set, 8);
    assert_eq!(set.len(), 4);
}

#[test]
fn fuse_cache_stats_and_clear() {
    let mut cache: KvMap<Vec<u8>> = KvMap::new();
    cache.insert(v("/p/node_modules/a/fuse.link"), v("/stores/a-unpack"));
    cache.insert(v("/p/node_modules/b/fuse.link"), v("/stores/b-unpack"));
    let (count, keys) = get_cache_stats(&cache);
    assert_eq!(count, 2);
    assert_eq!(keys.len(), 2);
    assert!(keys.contains(&v("/p/node_modules/a/fuse.link")));
    clear_fuse_link_cache(&mut cache);
    let (count, _) = get_cache_stats(&cache);
    assert_eq!(count, 0);
}
