//! Path utilities, sentinel discovery and sentinel parsing.

use npmfs::fuse::{
    find_fuse_link, fuse_dir_union, fuse_link_content, fuse_link_with_prefix_content,
    parse_sentinel, plan_fuse_list, plan_fuse_read, FuseListPlan, FuseReadPlan, FuseTarget,
};
use npmfs::util::{get_package_name, prepare_path};
use npmfs::{DirEntry, EntryKind, FsError};

fn v(s: &str) -> Vec<u8> {
    s.as_bytes().to_vec()
}

#[test]
fn prepare_path_absolute_unchanged() {
    for p in ["/absolute/path", "/usr/local/bin", "/home/user/project", "/"] {
        let r = prepare_path(p.as_bytes(), b"/proj");
        assert_eq!(r, v(p));
    }
}

#[test]
fn prepare_path_relative_under_cwd() {
    let r = prepare_path(b"src/main.rs", b"/proj");
    assert_eq!(r, v("/proj/src/main.rs"));
    let r = prepare_path(b"file.txt", b"/proj/");
    assert_eq!(r, v("/proj/file.txt"));
}

#[test]
fn prepare_path_collapses_dot_slash() {
    let r = prepare_path(b"./current/file.py", b"/proj");
    assert_eq!(r, v("/proj/current/file.py"));
}

#[test]
fn prepare_path_empty_ends_with_separator() {
    let r = prepare_path(b"", b"/proj");
    assert_eq!(r, v("/proj/"));
}

#[test]
fn package_name_scoped() {
    let r = get_package_name(b"/x/node_modules/@a/b/x/y");
    assert_eq!(r, Some(v("@a/b")));
}

#[test]
fn package_name_unscoped() {
    let r = get_package_name(b"/x/node_modules/c/x");
    assert_eq!(r, Some(v("c")));
}

#[test]
fn package_name_scope_only_is_none() {
    assert_eq!(get_package_name(b"/x/node_modules/@a"), None);
}

#[test]
fn package_name_absent_node_modules() {
    assert_eq!(get_package_name(b"/x/y/z"), None);
}

#[test]
fn fuse_link_for_scoped_package() {
    let r = find_fuse_link(b"./node_modules/@a/b/package.json");
    assert_eq!(r, Some(v("./node_modules/@a/b/fuse.link")));
}

#[test]
fn fuse_link_for_plain_package() {
    let r = find_fuse_link(b"./node_modules/c/index.js");
    assert_eq!(r, Some(v("./node_modules/c/fuse.link")));
}

#[test]
fn fuse_link_innermost_package_wins() {
    let r = find_fuse_link(b"./node_modules/c/node_modules/d/types.js");
    assert_eq!(r, Some(v("./node_modules/c/node_modules/d/fuse.link")));
}

#[test]
fn fuse_link_scope_directory_has_none() {
    assert_eq!(find_fuse_link(b"/p/node_modules/@a"), None);
}

#[test]
fn fuse_link_outside_node_modules() {
    assert_eq!(find_fuse_link(b"/p/src/lib.rs"), None);
}

#[test]
fn fuse_link_package_directory_itself() {
    let r = find_fuse_link(b"/p/node_modules/c");
    assert_eq!(r, Some(v("/p/node_modules/c/fuse.link")));
}

#[test]
fn sentinel_directory_mode() {
    match parse_sentinel(b"/stores/a/-/a-1.0.0.tgz-unpack\n") {
        Some(FuseTarget::Directory { target }) => {
            assert_eq!(target, v("/stores/a/-/a-1.0.0.tgz-unpack"));
        },
        _ => panic!("expected directory mode"),
    }
}

#[test]
fn sentinel_archive_mode() {
    match parse_sentinel(b"/stores/p/-/p-1.0.0.tgz|package\n") {
        Some(FuseTarget::Archive { archive, prefix }) => {
            assert_eq!(archive, v("/stores/p/-/p-1.0.0.tgz"));
            assert_eq!(prefix, v("package"));
        },
        _ => panic!("expected archive mode"),
    }
}

#[test]
fn sentinel_trims_whitespace() {
    match parse_sentinel(b"  /target/dir \nsecond line ignored\n") {
        Some(FuseTarget::Directory { target }) => {
            assert_eq!(target, v("/target/dir"));
        },
        _ => panic!("expected directory mode"),
    }
}

#[test]
fn sentinel_empty_is_not_applicable() {
    assert!(parse_sentinel(b"").is_none());
    assert!(parse_sentinel(b"\n/target\n").is_none());
    assert!(parse_sentinel(b"   \n").is_none());
}

#[test]
fn sentinel_empty_target_is_not_applicable() {
    assert!(parse_sentinel(b"|package\n").is_none());
}

#[test]
fn sentinel_write_then_parse_directory() {
    let content = fuse_link_content(b"/stores/x/-/x-1.0.0.tgz-unpack");
    assert_eq!(content, v("/stores/x/-/x-1.0.0.tgz-unpack\n"));
    match parse_sentinel(&content) {
        Some(FuseTarget::Directory { target }) => {
            assert_eq!(target, v("/stores/x/-/x-1.0.0.tgz-unpack"));
        },
        _ => panic!("round trip failed"),
    }
}

#[test]
fn sentinel_write_then_parse_archive() {
    let prefix = v("package");
    let content = fuse_link_with_prefix_content(b"/stores/p/-/p-1.0.0.tgz", Some(&prefix));
    assert_eq!(content, v("/stores/p/-/p-1.0.0.tgz|package\n"));
    match parse_sentinel(&content) {
        Some(FuseTarget::Archive { archive, prefix }) => {
            assert_eq!(archive, v("/stores/p/-/p-1.0.0.tgz"));
            assert_eq!(prefix, v("package"));
        },
        _ => panic!("round trip failed"),
    }
}

#[test]
fn fuse_read_plan_directory_mode() {
    let sentinel = v("/p/node_modules/c/fuse.link");
    let content = v("/stores/c/-/c-1.0.0.tgz-unpack\n");
    match plan_fuse_read(b"/p/node_modules/c/lib/i.js", &sentinel, &content) {
        Ok(Some(FuseReadPlan::File { path })) => {
            assert_eq!(path, v("/stores/c/-/c-1.0.0.tgz-unpack/lib/i.js"));
        },
        _ => panic!("expected a direct file plan"),
    }
}

#[test]
fn fuse_read_plan_archive_mode() {
    let sentinel = v("/p/node_modules/p/fuse.link");
    let content = v("/stores/p/-/p-1.0.0.tgz|package\n");
    match plan_fuse_read(b"/p/node_modules/p/index.js", &sentinel, &content) {
        Ok(Some(FuseReadPlan::ArchiveEntry { archive, entry })) => {
            assert_eq!(archive, v("/stores/p/-/p-1.0.0.tgz"));
            assert_eq!(entry, v("package/index.js"));
        },
        _ => panic!("expected an archive plan"),
    }
}

#[test]
fn fuse_read_package_root_is_a_directory() {
    let sentinel = v("/p/node_modules/p/fuse.link");
    let content = v("/stores/p/-/p-1.0.0.tgz|package\n");
    match plan_fuse_read(b"/p/node_modules/p", &sentinel, &content) {
        Err(e) => assert_eq!(e, FsError::IsADirectory),
        _ => panic!("expected an error"),
    }
}

#[test]
fn fuse_read_path_not_under_sentinel() {
    let sentinel = v("/p/node_modules/c/fuse.link");
    let content = v("/stores/c\n");
    match plan_fuse_read(b"/elsewhere/x", &sentinel, &content) {
        Err(e) => assert_eq!(e, FsError::InvariantViolated),
        _ => panic!("expected an error"),
    }
}

#[test]
fn fuse_list_plan_archive_root() {
    let sentinel = v("/p/node_modules/p/fuse.link");
    let content = v("/stores/p/-/p-1.0.0.tgz|package\n");
    match plan_fuse_list(b"/p/node_modules/p", &sentinel, &content) {
        Ok(Some(FuseListPlan::ArchiveDir { archive, entry })) => {
            assert_eq!(archive, v("/stores/p/-/p-1.0.0.tgz"));
            assert_eq!(entry, v(""));
        },
        _ => panic!("expected an archive listing plan"),
    }
}

#[test]
fn union_listing_hides_sentinel() {
    let original = vec![
        DirEntry { path: v("/p/node_modules/c/fuse.link"), name: v("fuse.link"), kind: EntryKind::File },
        DirEntry { path: v("/p/node_modules/c/node_modules"), name: v("node_modules"), kind: EntryKind::Directory },
    ];
    let target = vec![
        DirEntry { path: v("/stores/c-unpack/package.json"), name: v("package.json"), kind: EntryKind::File },
    ];
    let merged = fuse_dir_union(original, target);
    let names: Vec<Vec<u8>> = merged.iter().map(|e| e.name.clone()).collect();
    assert!(names.contains(&v("node_modules")));
    assert!(names.contains(&v("package.json")));
    assert!(!names.contains(&v("fuse.link")));
    assert_eq!(merged.len(), 2);
}
