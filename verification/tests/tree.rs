use filesentry::events::{Event, EventType};
use filesentry::ids::{DirId, NodeId};
use filesentry::metadata::Metadata;
use filesentry::path::CanonicalPathBuf;
use filesentry::pending::{Flags, PendingChange, PendingChanges};
use filesentry::tree::crawl::{inspect_entry, Found, Visit};
use filesentry::tree::{FileTree, NodeMeta};

fn p(s: &str) -> CanonicalPathBuf {
    CanonicalPathBuf::assert_canonicalized(s.as_bytes())
}

fn dir(inode: u64) -> Option<Metadata> {
    Some(Metadata {
        is_dir: true,
        mtime: 0,
        size: 10,
        inode,
    })
}

fn file(inode: u64, size: usize) -> Option<Metadata> {
    Some(Metadata {
        is_dir: false,
        mtime: 1,
        size,
        inode,
    })
}

fn change(path: &str) -> PendingChange {
    PendingChange {
        path: p(path),
        flags: Flags::empty(),
    }
}

fn shown(events: &[Event]) -> Vec<(String, EventType)> {
    events
        .iter()
        .map(|e| {
            (
                String::from_utf8(e.path.as_bytes().to_vec()).unwrap(),
                e.ty,
            )
        })
        .collect()
}

/// `/r` with the directory `/r/sub`, which holds the files `f` and `g`.
fn sample() -> (FileTree, NodeId) {
    let mut tree = FileTree::new();
    let root = tree.add_root(p("/r"), true, dir(1)).unwrap();
    assert!(matches!(
        tree.crawl_root_entry(true, p("/r/sub"), dir(2)),
        Found::Watch(_)
    ));
    assert!(matches!(
        tree.crawl_root_entry(true, p("/r/sub/f"), file(3, 2)),
        Found::Added
    ));
    assert!(matches!(
        tree.crawl_root_entry(true, p("/r/sub/g"), file(4, 2)),
        Found::Added
    ));
    (tree, root)
}

#[test]
fn valid_ids_index_normally() {
    assert_eq!(NodeId::from(7usize).idx(), 7);
    assert_eq!(DirId::from(3usize).idx(), 3);
}

#[test]
fn missing_ids_are_told_apart() {
    assert!(NodeId::none().is_none());
    assert!(!NodeId::none().is_some());
    assert!(NodeId::from(0).is_some());
    assert!(DirId::none().is_none());
    assert!(DirId::from(0).is_some());
}

#[test]
fn non_recursive_crawl_detects_inner_change() {
    let (mut tree, _) = sample();
    let mut changes = PendingChanges::default();
    changes.add_watcher(p("/r/sub"), Flags::needs_non_recursive_crawl());
    let mut transaction = changes.drain();
    let mut work_stack = Vec::new();
    let mut events = Vec::new();
    let node = tree
        .apply_transaction(&mut transaction, dir(2), &(), &mut work_stack, &mut events)
        .unwrap();
    assert!(transaction.current().is_none());
    let crawl = tree.crawl(node, &mut work_stack);
    assert_eq!(crawl.path.as_bytes(), b"/r/sub");
    assert!(crawl.recursive);
    // The file is longer than it was.
    for (path, meta) in [("/r/sub/f", file(3, 12)), ("/r/sub/g", file(4, 2))] {
        assert_eq!(
            inspect_entry(&(), 1, path.as_bytes(), false),
            Visit::Inspect
        );
        let watch = tree.crawl_entry(
            crawl.recursive,
            1,
            p(path),
            meta,
            &mut work_stack,
            &mut events,
        );
        assert!(watch.is_none());
    }
    tree.crawl_end(&mut work_stack, &mut events);
    assert!(work_stack.is_empty());
    assert_eq!(
        shown(&events),
        [("/r/sub/f".to_string(), EventType::Modified)]
    );
}

#[test]
fn entries_of_a_walk_are_passed_over_or_inspected() {
    assert_eq!(inspect_entry(&(), 0, b"/r", true), Visit::Pass);
    assert_eq!(inspect_entry(&(), 1, b"/r/.git", true), Visit::SkipDir);
    assert_eq!(inspect_entry(&(), 1, b"/r/.git", false), Visit::Pass);
    assert_eq!(inspect_entry(&(), 1, b"/r/src", true), Visit::Inspect);
}

#[test]
fn a_crawl_marks_what_it_does_not_come_by_as_deleted() {
    let (mut tree, root) = sample();
    let mut work_stack = Vec::new();
    let mut events = Vec::new();
    let crawl = tree.crawl(root, &mut work_stack);
    assert!(tree
        .crawl_entry(true, 1, p("/r/sub"), dir(2), &mut work_stack, &mut events)
        .is_some());
    assert!(tree
        .crawl_entry(true, 2, p("/r/sub/f"), file(3, 2), &mut work_stack, &mut events)
        .is_none());
    assert!(tree
        .crawl_entry(true, 1, p("/r/new"), file(9, 1), &mut work_stack, &mut events)
        .is_none());
    // Leaving `/r/sub` finds that `g` is gone.
    assert_eq!(
        shown(&events),
        [
            ("/r/new".to_string(), EventType::Create),
            ("/r/sub/g".to_string(), EventType::Delete)
        ]
    );
    tree.crawl_end(&mut work_stack, &mut events);
    assert_eq!(events.len(), 2);
    assert_eq!(crawl.path.as_bytes(), b"/r");
    let g = tree.lookup(&p("/r/sub/g"));
    assert_eq!(tree.index(g).meta(), NodeMeta::Deleted);
    let f = tree.lookup(&p("/r/sub/f"));
    assert_eq!(tree.index(f).meta(), NodeMeta::File { mtime: 1, size: 2 });
    // A second look at what did not change finds nothing.
    let before = events.len();
    let (node, recurse) = tree.apply_change(
        &change("/r/sub/f"),
        file(3, 2),
        &mut work_stack,
        &mut events,
    );
    assert_eq!(node, f);
    assert!(!recurse);
    assert_eq!(events.len(), before);
}

#[test]
fn a_crawl_passes_what_is_gone_before_it_is_looked_at() {
    let (mut tree, root) = sample();
    let mut work_stack = Vec::new();
    let mut events = Vec::new();
    tree.crawl(root, &mut work_stack);
    assert!(tree
        .crawl_entry(true, 1, p("/r/tmp"), None, &mut work_stack, &mut events)
        .is_none());
    assert!(tree.lookup(&p("/r/tmp")).is_none());
    assert!(events.is_empty());
}

#[test]
fn deleting_a_directory_deletes_what_is_beneath_it() {
    let (mut tree, _) = sample();
    let mut work_stack = Vec::new();
    let mut events = Vec::new();
    let (node, recurse) =
        tree.apply_change(&change("/r"), None, &mut work_stack, &mut events);
    assert!(node.is_some());
    assert!(recurse);
    assert_eq!(
        shown(&events),
        [
            ("/r/sub/f".to_string(), EventType::Delete),
            ("/r/sub/g".to_string(), EventType::Delete)
        ]
    );
    for path in ["/r", "/r/sub", "/r/sub/f", "/r/sub/g"] {
        let node = tree.lookup(&p(path));
        assert_eq!(tree.index(node).meta(), NodeMeta::Deleted);
    }
    // What is gone already is not reported again.
    tree.apply_change(&change("/r/sub/f"), None, &mut work_stack, &mut events);
    assert_eq!(events.len(), 2);
    // A file that comes back was created.
    tree.apply_change(&change("/r/sub/f"), file(3, 2), &mut work_stack, &mut events);
    assert_eq!(events[2].ty, EventType::Create);
    // And deleting it is reported.
    tree.apply_change(&change("/r/sub/f"), None, &mut work_stack, &mut events);
    assert_eq!(events[3].ty, EventType::Delete);
}

#[test]
fn what_turns_up_joins_its_parent() {
    let (mut tree, _) = sample();
    let mut work_stack = Vec::new();
    let mut events = Vec::new();
    let (node, recurse) = tree.apply_change(
        &change("/r/sub/h"),
        file(5, 1),
        &mut work_stack,
        &mut events,
    );
    assert_eq!(node, NodeId::from(4));
    // It is watched recursively, as its parent is.
    assert!(recurse);
    assert_eq!(
        shown(&events),
        [("/r/sub/h".to_string(), EventType::Create)]
    );
    // What has no parent in the tree is left out.
    let (node, recurse) = tree.apply_change(
        &change("/elsewhere/x"),
        file(6, 1),
        &mut work_stack,
        &mut events,
    );
    assert!(node.is_none());
    assert!(recurse);
    assert_eq!(events.len(), 1);
    // Deleting the directory reaches the new file.
    events.clear();
    tree.apply_change(&change("/r/sub"), None, &mut work_stack, &mut events);
    assert_eq!(events.len(), 3);
    assert_eq!(events[2].path.as_bytes(), b"/r/sub/h");
}

#[test]
fn another_inode_is_another_file() {
    let (mut tree, _) = sample();
    let mut work_stack = Vec::new();
    let mut events = Vec::new();
    let (_, recurse) = tree.apply_change(
        &change("/r/sub/f"),
        file(30, 2),
        &mut work_stack,
        &mut events,
    );
    assert!(recurse);
    assert_eq!(
        shown(&events),
        [("/r/sub/f".to_string(), EventType::Modified)]
    );
}

#[test]
fn a_write_that_leaves_no_trace_is_still_reported() {
    let (mut tree, _) = sample();
    let mut work_stack = Vec::new();
    let mut events = Vec::new();
    let mut changes = PendingChanges::default();
    changes.add_watcher(p("/r/sub/f"), Flags::empty());
    let mut transaction = changes.drain();
    assert!(tree
        .apply_transaction(&mut transaction, file(3, 2), &(), &mut work_stack, &mut events)
        .is_none());
    assert_eq!(
        shown(&events),
        [("/r/sub/f".to_string(), EventType::Modified)]
    );
}

#[test]
fn roots_are_added_once() {
    let mut tree = FileTree::new();
    assert!(tree.has_room());
    assert!(tree.add_root(p("/r"), false, None).is_none());
    let root = tree.add_root(p("/r"), false, dir(1)).unwrap();
    assert_eq!(root, NodeId::from(0));
    assert!(tree.add_root(p("/r"), false, None).is_none());
    // It can be watched recursively from now on, but only once.
    assert_eq!(tree.add_root(p("/r"), true, None), Some(root));
    assert!(tree.add_root(p("/r"), true, None).is_none());
    // A file is no root.
    let mut work_stack = Vec::new();
    let mut events = Vec::new();
    let mut lone = FileTree::new();
    lone.add_root(p("/q"), false, dir(1)).unwrap();
    lone.apply_change(&change("/q/f"), file(2, 1), &mut work_stack, &mut events);
    assert!(lone.add_root(p("/q/f"), true, None).is_none());
    assert_eq!(tree.path_of(root).as_bytes(), b"/r");
}

#[test]
fn a_walk_does_not_go_into_what_cannot_be_added() {
    let (mut tree, _) = sample();
    // It is in the tree already.
    assert!(matches!(
        tree.crawl_root_entry(true, p("/r/sub"), None),
        Found::SkipDir
    ));
    // Its parent is not.
    assert!(matches!(
        tree.crawl_root_entry(true, p("/x/y"), dir(9)),
        Found::SkipDir
    ));
    // It is gone.
    assert!(matches!(
        tree.crawl_root_entry(true, p("/r/gone"), None),
        Found::SkipDir
    ));
}

#[test]
fn paths_come_in_the_order_in_which_they_were_added() {
    let (tree, _) = sample();
    let mut paths = tree.iter();
    let mut seen = Vec::new();
    while let Some(path) = paths.next() {
        seen.push(path.as_bytes().to_vec());
    }
    assert_eq!(seen, [&b"/r"[..], b"/r/sub", b"/r/sub/f", b"/r/sub/g"]);
    assert!(paths.next().is_none());
}

#[test]
fn only_changes_of_files_are_events() {
    let old = NodeMeta::File { mtime: 1, size: 2 };
    let new = NodeMeta::File { mtime: 1, size: 3 };
    assert_eq!(old.change_type(&old, false), None);
    assert_eq!(old.change_type(&old, true), Some(EventType::Modified));
    assert_eq!(old.change_type(&new, false), Some(EventType::Modified));
    assert_eq!(old.change_type(&NodeMeta::Dir, false), Some(EventType::Delete));
    assert_eq!(
        old.change_type(&NodeMeta::Deleted, false),
        Some(EventType::Delete)
    );
    assert_eq!(NodeMeta::Dir.change_type(&new, false), Some(EventType::Create));
    assert_eq!(
        NodeMeta::Deleted.change_type(&new, false),
        Some(EventType::Create)
    );
    assert_eq!(NodeMeta::Dir.change_type(&NodeMeta::Deleted, false), None);
    assert!(NodeMeta::Dir.is_dir());
    assert!(old.is_file());
}

#[test]
fn many_nodes_are_found_by_their_paths() {
    let mut tree = FileTree::new();
    tree.add_root(p("/r"), true, dir(1)).unwrap();
    for i in 0..3000u64 {
        tree.crawl_root_entry(true, p(&format!("/r/{i}")), file(i + 2, 1));
    }
    for i in 0..3000usize {
        assert_eq!(tree.lookup(&p(&format!("/r/{i}"))), NodeId::from(i + 1));
    }
    assert!(tree.lookup(&p("/r/3000")).is_none());
}

#[test]
fn a_file_is_no_root() {
    let mut tree = FileTree::new();
    assert!(tree.add_root(p("/r/f"), true, file(5, 2)).is_none());
    assert!(tree.add_root(p("/r/f"), false, file(5, 2)).is_none());
    assert!(tree.lookup(&p("/r/f")).is_none());
}

#[test]
fn ids_are_made_from_their_indices_again() {
    let node = NodeId::from(5);
    assert_eq!(NodeId::from(node.idx()), node);
    let list = DirId::from(u32::MAX as usize - 1);
    assert_eq!(DirId::from(list.idx()), list);
}

/// `/r` with the files `f`, `g`, `h` and `t`, and the directories `a`, `b` and `c` with files.
fn larger() -> (FileTree, NodeId) {
    let mut tree = FileTree::new();
    let root = tree.add_root(p("/r"), true, dir(1)).unwrap();
    for (path, meta) in [
        ("/r/a", dir(2)),
        ("/r/a/x", file(10, 2)),
        ("/r/a/y", file(11, 2)),
        ("/r/b", dir(3)),
        ("/r/b/z", file(12, 2)),
        ("/r/c", dir(4)),
        ("/r/c/deep", dir(5)),
        ("/r/c/deep/w", file(13, 2)),
        ("/r/f", file(14, 2)),
        ("/r/g", file(15, 2)),
        ("/r/h", file(16, 2)),
        ("/r/t", file(17, 2)),
    ] {
        tree.crawl_root_entry(true, p(path), meta);
    }
    (tree, root)
}

#[test]
fn a_crawl_reports_what_is_on_disk() {
    let (mut tree, root) = larger();
    let mut work_stack = Vec::new();
    let mut events = Vec::new();
    let mut watched = Vec::new();
    tree.crawl(root, &mut work_stack);
    let later = Some(Metadata {
        is_dir: false,
        mtime: 2,
        size: 2,
        inode: 17,
    });
    for (depth, path, meta) in [
        (1, "/r/a", dir(2)),
        (2, "/r/a/x", file(10, 3)),
        (2, "/r/a/v", file(20, 1)),
        (1, "/r/b", None),
        (1, "/r/f", file(14, 2)),
        (1, "/r/g", file(30, 2)),
        (1, "/r/h", dir(16)),
        (1, "/r/t", later),
    ] {
        if tree
            .crawl_entry(true, depth, p(path), meta, &mut work_stack, &mut events)
            .is_some()
        {
            watched.push(path);
        }
    }
    tree.crawl_end(&mut work_stack, &mut events);
    let mut found = shown(&events);
    found.sort_by(|a, b| a.0.cmp(&b.0));
    assert_eq!(
        found,
        [
            ("/r/a/v".to_string(), EventType::Create),
            ("/r/a/x".to_string(), EventType::Modified),
            ("/r/a/y".to_string(), EventType::Delete),
            ("/r/b/z".to_string(), EventType::Delete),
            ("/r/c/deep/w".to_string(), EventType::Delete),
            ("/r/g".to_string(), EventType::Modified),
            ("/r/h".to_string(), EventType::Delete),
            ("/r/t".to_string(), EventType::Modified),
        ]
    );
    // Each directory that was come by is watched, once.
    assert_eq!(watched, ["/r/a", "/r/h"]);
}

#[test]
fn a_crawl_of_one_directory_leaves_alone_what_is_further_down() {
    let (mut tree, root) = larger();
    let mut work_stack = Vec::new();
    let mut events = Vec::new();
    tree.crawl(root, &mut work_stack);
    for (path, meta) in [("/r/a", dir(2)), ("/r/b", dir(3)), ("/r/f", file(14, 9))] {
        assert!(tree
            .crawl_entry(false, 1, p(path), meta, &mut work_stack, &mut events)
            .is_none());
    }
    tree.crawl_end(&mut work_stack, &mut events);
    let mut found = shown(&events);
    found.sort_by(|a, b| a.0.cmp(&b.0));
    assert_eq!(
        found,
        [
            ("/r/c/deep/w".to_string(), EventType::Delete),
            ("/r/f".to_string(), EventType::Modified),
            ("/r/g".to_string(), EventType::Delete),
            ("/r/h".to_string(), EventType::Delete),
            ("/r/t".to_string(), EventType::Delete),
        ]
    );
}

#[test]
fn a_directory_that_is_gone_reports_each_file_once() {
    let (mut tree, root) = larger();
    let mut work_stack = Vec::new();
    let mut events = Vec::new();
    tree.apply_change(&change("/r/c"), None, &mut work_stack, &mut events);
    assert_eq!(
        shown(&events),
        [("/r/c/deep/w".to_string(), EventType::Delete)]
    );
    // A crawl that does not come by it either has nothing to add.
    tree.crawl(root, &mut work_stack);
    for (depth, path, meta) in [
        (1, "/r/a", dir(2)),
        (2, "/r/a/x", file(10, 2)),
        (2, "/r/a/y", file(11, 2)),
        (1, "/r/b", dir(3)),
        (2, "/r/b/z", file(12, 2)),
        (1, "/r/f", file(14, 2)),
        (1, "/r/g", file(15, 2)),
        (1, "/r/h", file(16, 2)),
        (1, "/r/t", file(17, 2)),
    ] {
        tree.crawl_entry(true, depth, p(path), meta, &mut work_stack, &mut events);
    }
    tree.crawl_end(&mut work_stack, &mut events);
    assert_eq!(events.len(), 1);
}
