use filesentry::config::Filter;
use filesentry::events::EventType;
use filesentry::metadata::Metadata;
use filesentry::path::CanonicalPathBuf;
use filesentry::pending::{Flags, PendingChanges};
use filesentry::tree::crawl::Found;
use filesentry::worker::{root_answer, Action, Worker};

fn p(s: &str) -> CanonicalPathBuf {
    CanonicalPathBuf::assert_canonicalized(s.as_bytes())
}

fn dir(inode: u64) -> Option<Metadata> {
    Some(Metadata {
        is_dir: true,
        mtime: 0,
        size: 10,
        inode,
    })
}

fn file(inode: u64, size: usize) -> Option<Metadata> {
    Some(Metadata {
        is_dir: false,
        mtime: 1,
        size,
        inode,
    })
}

fn roots(worker: &Worker) -> Vec<String> {
    (0..worker.root_count())
        .map(|i| {
            let path = worker.path_of(worker.root_at(i));
            String::from_utf8(path.as_bytes().to_vec()).unwrap()
        })
        .collect()
}

fn add<F: Filter>(worker: &mut Worker, filter: &F, path: &str, recursive: bool, inode: u64) {
    let node = worker.add_root(p(path), recursive, dir(inode)).unwrap();
    worker.insert_root(filter, node, recursive);
}

struct IgnoreNothing;

impl Filter for IgnoreNothing {
    fn ignore_path(&self, _path: &[u8], _is_dir: Option<bool>) -> bool {
        false
    }
}

#[test]
fn roots_are_kept_in_tree_order() {
    let mut worker = Worker::new();
    for (inode, path) in ["/b", "/a-x", "/a/c", "/c"].iter().enumerate() {
        add(&mut worker, &(), path, false, inode as u64);
    }
    assert_eq!(roots(&worker), ["/a/c", "/a-x", "/b", "/c"]);
}

#[test]
fn a_recursive_root_takes_the_place_of_those_beneath_it() {
    let mut worker = Worker::new();
    for (inode, path) in ["/a/x", "/a/y/z", "/ab", "/b"].iter().enumerate() {
        add(&mut worker, &(), path, false, inode as u64);
    }
    add(&mut worker, &(), "/a", true, 10);
    assert_eq!(roots(&worker), ["/a", "/ab", "/b"]);
    // A root that is not recursive does not cover what is beneath it.
    let mut worker = Worker::new();
    add(&mut worker, &(), "/a/x", false, 1);
    add(&mut worker, &(), "/a", false, 2);
    assert_eq!(roots(&worker), ["/a", "/a/x"]);
}

#[test]
fn ignored_roots_stay_beneath_a_recursive_one() {
    let mut worker = Worker::new();
    for (inode, path) in ["/a/.git/x", "/a/b", "/a/c"].iter().enumerate() {
        add(&mut worker, &IgnoreNothing, path, false, inode as u64);
    }
    add(&mut worker, &(), "/a", true, 10);
    assert_eq!(roots(&worker), ["/a", "/a/.git/x"]);
}

#[test]
fn a_file_is_watched_from_report_to_delivery() {
    let mut worker = Worker::new();
    assert!(worker.has_room());
    let root = worker.add_root(p("/r"), true, dir(1)).unwrap();
    assert!(!worker.is_known(&p("/r/f")));
    assert!(matches!(
        worker.crawl_root_entry(true, p("/r/f"), file(2, 1)),
        Found::Added
    ));
    assert!(worker.is_known(&p("/r/f")));
    worker.insert_root(&(), root, true);
    assert!(!worker.is_settling());

    let mut queue = PendingChanges::default();
    queue.add_watcher(p("/r/f"), Flags::empty());
    worker.receive(&mut queue);
    assert!(queue.is_empty());
    let mut transaction = match worker.next_action(false) {
        Action::Apply(transaction) => transaction,
        _ => panic!("there is a change to look into"),
    };
    assert_eq!(transaction.current().unwrap().path.as_bytes(), b"/r/f");
    assert!(worker
        .apply_transaction(&mut transaction, file(2, 5), &())
        .is_none());
    assert!(transaction.current().is_none());
    assert!(worker.is_settling());

    let events = match worker.next_action(true) {
        Action::Deliver(events) => events,
        _ => panic!("there is an event to hand out"),
    };
    assert_eq!(events.deref().len(), 1);
    assert_eq!(events.deref()[0].path.as_bytes(), b"/r/f");
    assert_eq!(events.deref()[0].ty, EventType::Modified);
    assert!(!worker.is_settling());
}

#[test]
fn a_recrawl_comes_before_changes_and_behind_delivery() {
    let mut worker = Worker::new();
    let mut queue = PendingChanges::default();
    queue.add_watcher(p("/r/f"), Flags::empty());
    queue.recrawl();
    worker.receive(&mut queue);
    assert!(matches!(worker.next_action(true), Action::Deliver(_)));
    assert!(matches!(worker.next_action(false), Action::Recrawl));
    match worker.next_action(false) {
        Action::Apply(transaction) => {
            assert_eq!(transaction.current().unwrap().path.as_bytes(), b"/r/f");
        }
        _ => panic!("the change was kept"),
    }
}

#[test]
fn a_crawl_reports_each_path_once() {
    let mut worker = Worker::new();
    let root = worker.add_root(p("/r"), true, dir(1)).unwrap();
    worker.crawl_root_entry(true, p("/r/f"), file(2, 1));
    worker.insert_root(&(), root, true);
    let crawl = worker.crawl(worker.root_at(0));
    assert_eq!(crawl.path.as_bytes(), b"/r");
    assert!(crawl.recursive);
    assert!(worker.crawl_entry(true, 1, p("/r/g"), file(3, 1)).is_none());
    worker.crawl_end();
    // The file that was not there is gone, and the new one was created.
    match worker.next_action(true) {
        Action::Deliver(events) => {
            let all = events.deref();
            assert_eq!(all.len(), 2);
            assert_eq!(all[0].path.as_bytes(), b"/r/g");
            assert_eq!(all[0].ty, EventType::Create);
            assert_eq!(all[1].path.as_bytes(), b"/r/f");
            assert_eq!(all[1].ty, EventType::Delete);
        }
        _ => panic!("there are events to hand out"),
    }
    // A crawl that finds the new one gone again makes it a file that is deleted.
    worker.crawl(worker.root_at(0));
    worker.crawl_entry(true, 1, p("/r/f"), file(2, 1));
    worker.crawl_end();
    match worker.next_action(true) {
        Action::Deliver(events) => {
            let all = events.deref();
            assert_eq!(all.len(), 2);
            assert_eq!(all[0].ty, EventType::Create);
            assert_eq!(all[1].path.as_bytes(), b"/r/g");
            assert_eq!(all[1].ty, EventType::Delete);
        }
        _ => panic!("there are events to hand out"),
    }
}

#[test]
fn changes_come_in_tree_order_and_a_crawl_covers_what_is_beneath() {
    let mut queue = PendingChanges::default();
    for path in ["/r/b", "/r-x", "/r/a/1", "/r/a", "/r/a/2"] {
        queue.add_watcher(p(path), Flags::needs_recursive_crawl());
    }
    let mut worker = Worker::new();
    worker.add_root(p("/r"), true, dir(1)).unwrap();
    worker.receive(&mut queue);
    let mut transaction = match worker.next_action(false) {
        Action::Apply(transaction) => transaction,
        _ => panic!("there are changes to look into"),
    };
    assert_eq!(transaction.current().unwrap().path.as_bytes(), b"/r/a");
    let node = worker
        .apply_transaction(&mut transaction, dir(5), &())
        .unwrap();
    assert_eq!(worker.path_of(node).as_bytes(), b"/r/a");
    // What is beneath `/r/a` is skipped.
    assert_eq!(transaction.current().unwrap().path.as_bytes(), b"/r/b");
    transaction.advance();
    assert_eq!(transaction.current().unwrap().path.as_bytes(), b"/r-x");
}

#[test]
fn an_ignored_directory_is_not_crawled() {
    let mut worker = Worker::new();
    worker.add_root(p("/r"), true, dir(1)).unwrap();
    let mut queue = PendingChanges::default();
    queue.add_watcher(p("/r/.git"), Flags::needs_recursive_crawl());
    worker.receive(&mut queue);
    match worker.next_action(false) {
        Action::Apply(mut transaction) => {
            assert!(worker
                .apply_transaction(&mut transaction, dir(2), &())
                .is_none());
        }
        _ => panic!("there is a change to look into"),
    }
}

#[test]
fn a_root_that_is_added_again_recursively_is_kept_once() {
    let mut worker = Worker::new();
    add(&mut worker, &IgnoreNothing, "/a", false, 1);
    add(&mut worker, &IgnoreNothing, "/a/.git/x", false, 2);
    add(&mut worker, &IgnoreNothing, "/a/b", false, 3);
    add(&mut worker, &IgnoreNothing, "/b", false, 4);
    let node = worker.add_root(p("/a"), true, None).unwrap();
    worker.insert_root(&(), node, true);
    assert_eq!(roots(&worker), ["/a", "/a/.git/x", "/b"]);
    assert!(worker.crawl(worker.root_at(0)).recursive);
}

#[test]
fn a_second_crawl_reports_nothing() {
    let mut worker = Worker::new();
    let root = worker.add_root(p("/r"), true, dir(1)).unwrap();
    worker.crawl_root_entry(true, p("/r/gone"), file(2, 1));
    worker.crawl_root_entry(true, p("/r/old"), dir(3));
    worker.crawl_root_entry(true, p("/r/old/f"), file(4, 1));
    worker.insert_root(&(), root, true);
    let mut counts = Vec::new();
    for _ in 0..3 {
        worker.crawl(worker.root_at(0));
        worker.crawl_entry(true, 1, p("/r/sub"), dir(5));
        worker.crawl_entry(true, 2, p("/r/sub/g"), file(6, 1));
        worker.crawl_end();
        match worker.next_action(true) {
            Action::Deliver(events) => {
                let paths: Vec<_> = events
                    .deref()
                    .iter()
                    .map(|e| String::from_utf8(e.path.as_bytes().to_vec()).unwrap())
                    .collect();
                counts.push(paths);
            }
            _ => panic!("the events are handed out"),
        }
    }
    // Directories are not reported, and what is gone is reported once.
    assert_eq!(counts[0], ["/r/sub/g", "/r/gone", "/r/old/f"]);
    assert!(counts[1].is_empty());
    assert!(counts[2].is_empty());
}

#[test]
fn the_root_directory_can_be_watched() {
    let mut worker = Worker::new();
    let root = CanonicalPathBuf::assert_canonicalized(b"/");
    let node = worker.add_root(root, true, dir(1)).unwrap();
    worker.insert_root(&(), node, true);
    assert!(matches!(
        worker.crawl_root_entry(true, p("/usr"), dir(2)),
        Found::Watch(_)
    ));
}

#[test]
fn only_a_root_that_cannot_be_watched_is_complained_of() {
    assert!(root_answer(true, true));
    assert!(!root_answer(true, false));
    assert!(root_answer(false, true));
    assert!(root_answer(false, false));
}
