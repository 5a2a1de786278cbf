use filesentry::config::Filter;
use filesentry::watcher::{accept_root, ShutdownOnDrop};

/// Ignores a path component named `target`, but only when it is a directory.
struct DirOnlyTarget;

impl Filter for DirOnlyTarget {
    fn ignore_path(&self, path: &[u8], is_dir: Option<bool>) -> bool {
        is_dir == Some(true) && path.ends_with(b"/target")
    }
}

#[test]
fn ignore_path_rec_treats_ancestors_as_dirs() {
    let f = DirOnlyTarget;
    // The leaf is a file, but its ancestor `target` is a directory and must be
    // recognized as ignored even though the leaf is passed as `Some(false)`.
    assert!(f.ignore_path_rec(b"/proj/target/foo.rs", Some(false)));
    // No ignored-directory ancestor: not ignored.
    assert!(!f.ignore_path_rec(b"/proj/src/foo.rs", Some(false)));
}

#[test]
fn git_directories_are_ignored_by_default() {
    assert!(().ignore_path(b"/proj/.git", Some(true)));
    assert!(().ignore_path(b"/proj/.git", None));
    assert!(!().ignore_path(b"/proj/.git/objects", Some(true)));
    assert!(().ignore_path_rec(b"/proj/.git/objects", Some(true)));
    assert!(!().ignore_path_rec(b"/proj/.github/x", Some(true)));
}

#[test]
fn ignored_roots_are_not_accepted() {
    assert!(accept_root(&(), b"/proj/.git/hooks").is_none());
    let root = accept_root(&(), b"/proj/src").unwrap();
    assert_eq!(root.as_bytes(), b"/proj/src");
    // Nothing is known of the root itself, but its ancestors are directories.
    assert!(accept_root(&DirOnlyTarget, b"/proj/target").is_some());
    assert!(accept_root(&DirOnlyTarget, b"/proj/target/debug").is_none());
}

#[test]
fn a_guard_can_be_called_off() {
    let mut guard = ShutdownOnDrop::new();
    assert!(guard.is_armed());
    guard.cancel();
    assert!(!guard.is_armed());
}
