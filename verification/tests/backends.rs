use filesentry::fsevent::{
    process_events, DirEvent, EventLoop, LoopStep, StreamRoots, WatchStep, MUST_SCAN_SUBDIRS,
    SINCE_NOW,
};
use filesentry::inotify::{
    Event, Watches, IN_CREATE, IN_DELETE_SELF, IN_IGNORED, IN_ISDIR, IN_MOVE_SELF, IN_Q_OVERFLOW,
};
use filesentry::path::CanonicalPathBuf;
use filesentry::pending::PendingChanges;
use filesentry::windows::{
    add_watched, completion, handle_records, interpret, is_watched, Completion, WatchedRoot,
    FILE_ACTION_ADDED, FILE_ACTION_MODIFIED, FILE_ACTION_RENAMED_NEW_NAME,
};

const IN_MODIFY: u32 = 0x2;

fn p(s: &str) -> CanonicalPathBuf {
    CanonicalPathBuf::assert_canonicalized(s.as_bytes())
}

fn dir_event(path: &str, flags: u32) -> DirEvent {
    DirEvent {
        path: path.as_bytes().to_vec(),
        flags,
    }
}

/// The paths that are pending, and whether each asks for a recursive and a plain crawl.
fn pending(changes: &mut PendingChanges) -> Vec<(String, bool, bool)> {
    let mut transaction = changes.drain();
    let mut all = Vec::new();
    while let Some(change) = transaction.current() {
        assert!(change.flags.origin_watcher);
        all.push((
            String::from_utf8(change.path.as_bytes().to_vec()).unwrap(),
            change.flags.needs_recursive_crawl,
            change.flags.needs_non_recursive_crawl,
        ));
        transaction.advance();
    }
    all
}

#[test]
fn callback_drops_events_under_ignored_ancestor() {
    let mut changes = PendingChanges::default();
    // A directory *inside* an ignored `.git` -- the leaf itself is not `.git`.
    process_events(
        &(),
        &vec![dir_event("/tmp/filesentry-test/.git/objects", 0)],
        &mut changes,
    );
    assert!(
        changes.is_empty(),
        "an event under an ignored `.git` ancestor must be dropped",
    );

    // A normal path under the same root is still recorded.
    process_events(
        &(),
        &vec![dir_event("/tmp/filesentry-test/src", 0)],
        &mut changes,
    );
    assert!(
        !changes.is_empty(),
        "a non-ignored path must still be recorded",
    );
    assert_eq!(
        pending(&mut changes),
        [("/tmp/filesentry-test/src".to_string(), false, true)]
    );
}

#[test]
fn adding_a_root_resyncs_existing_roots() {
    let mut roots = StreamRoots::new();
    let mut changes = PendingChanges::default();

    // First root builds the initial stream; nothing to resync yet.
    let step = roots.watch_dir(p("/d1"));
    assert_eq!(step, WatchStep::Start);
    roots.stream_made(step, true, &mut changes);
    assert!(
        !changes.take_recrawl(),
        "the first root should not force a recrawl",
    );

    // A second, unrelated root rebuilds (tears down) the stream, which can drop
    // events buffered for the first root -- so it must request a recrawl.
    let step = roots.watch_dir(p("/d2"));
    assert_eq!(step, WatchStep::Replace);
    roots.stream_made(step, true, &mut changes);
    assert!(
        changes.take_recrawl(),
        "adding a root must resync the already-watched roots",
    );
    assert_eq!(roots.roots().len(), 2);
}

#[test]
fn covered_directories_need_no_stream() {
    let mut roots = StreamRoots::new();
    let mut changes = PendingChanges::default();
    let step = roots.watch_dir(p("/d"));
    roots.stream_made(step, false, &mut changes);
    assert_eq!(roots.watch_dir(p("/d")), WatchStep::Done);
    assert_eq!(roots.watch_dir(p("/d/x")), WatchStep::Done);
    // The first stream could not be made, so there is none to replace.
    assert_eq!(roots.watch_dir(p("/dx")), WatchStep::Start);
    roots.stream_made(WatchStep::Start, true, &mut changes);
    assert!(roots.shutdown());
    assert!(!roots.shutdown());
    assert_eq!(roots.watch_dir(p("/e")), WatchStep::Done);
}

#[test]
fn merged_events_ask_for_a_recrawl() {
    let mut changes = PendingChanges::default();
    process_events(
        &(),
        &vec![
            dir_event("/a", 0),
            dir_event("/b", MUST_SCAN_SUBDIRS),
            dir_event("/c", 0),
        ],
        &mut changes,
    );
    assert!(changes.take_recrawl());
    assert_eq!(pending(&mut changes), [("/a".to_string(), false, true)]);
}

#[test]
fn a_stream_takes_up_where_the_last_one_ended() {
    let mut event_loop = EventLoop::new();
    assert_eq!(event_loop.next_step(false), LoopStep::Wait);
    assert_eq!(event_loop.next_step(true), LoopStep::Start(SINCE_NOW));
    event_loop.stream_started();
    assert_eq!(event_loop.generation(), 1);
    event_loop.batch_done(&[4, 9]);
    event_loop.batch_done(&[]);
    assert!(event_loop.goes_on(false, false));
    assert_eq!(event_loop.next_step(true), LoopStep::Start(9));
    assert!(!event_loop.goes_on(true, false));
    assert!(!event_loop.goes_on(false, true));
}

fn handle(watches: &mut Watches, wd: i32, mask: u32, child: &str) -> PendingChanges {
    let mut changes = PendingChanges::default();
    let event = Event {
        wd,
        mask,
        child: child.as_bytes(),
    };
    assert!(Watches::is_joinable(event.child));
    watches.handle_event(&event, &(), &mut changes);
    changes
}

#[test]
fn inotify_events_make_changes_pending() {
    let mut watches = Watches::new();
    assert!(Watches::is_watchable(&p("/d")));
    watches.watch(3, p("/d"));
    let mut changes = handle(&mut watches, 3, IN_CREATE, "f");
    assert_eq!(pending(&mut changes), [("/d/f".to_string(), true, false)]);
    let mut changes = handle(&mut watches, 3, IN_MODIFY, "f");
    assert_eq!(pending(&mut changes), [("/d/f".to_string(), false, false)]);
    // An event for the directory itself.
    let mut changes = handle(&mut watches, 3, IN_MODIFY, "");
    assert_eq!(pending(&mut changes), [("/d".to_string(), true, false)]);
    let mut changes = handle(&mut watches, 3, IN_DELETE_SELF, "f");
    assert_eq!(pending(&mut changes), [("/d".to_string(), true, false)]);
    // Ignored paths are passed over.
    assert!(handle(&mut watches, 3, IN_CREATE | IN_ISDIR, ".git").is_empty());
    // A watch can be given another directory.
    watches.watch(3, p("/e"));
    let mut changes = handle(&mut watches, 3, IN_MODIFY, "f");
    assert_eq!(pending(&mut changes), [("/e/f".to_string(), false, false)]);
}

#[test]
fn lost_inotify_events_ask_for_a_recrawl() {
    let mut watches = Watches::new();
    watches.watch(3, p("/d"));
    assert!(handle(&mut watches, -1, IN_Q_OVERFLOW, "").take_recrawl());
    assert!(handle(&mut watches, -1, 0, "").take_recrawl());
    assert!(handle(&mut watches, 4, IN_MOVE_SELF, "").take_recrawl());
    assert!(handle(&mut watches, 4, IN_IGNORED, "").take_recrawl());
    assert!(handle(&mut watches, 4, IN_CREATE, "f").is_empty());
}

#[test]
fn a_removed_watch_is_forgotten() {
    let mut watches = Watches::new();
    watches.watch(3, p("/d"));
    let mut changes = handle(&mut watches, 3, IN_IGNORED, "");
    assert!(!changes.take_recrawl());
    assert_eq!(pending(&mut changes), [("/d".to_string(), true, false)]);
    assert!(handle(&mut watches, 3, IN_CREATE, "f").is_empty());
}

fn record(next: u32, action: u32, name: &str) -> Vec<u8> {
    let units: Vec<u8> = name.encode_utf16().flat_map(|u| u.to_le_bytes()).collect();
    let mut bytes = Vec::new();
    bytes.extend(next.to_le_bytes());
    bytes.extend(action.to_le_bytes());
    bytes.extend((units.len() as u32).to_le_bytes());
    bytes.extend(units);
    bytes
}

#[test]
fn records_make_changes_pending() {
    let mut buf = record(24, FILE_ACTION_ADDED, "a\\b.rs");
    assert_eq!(buf.len(), 24);
    buf.extend(record(18, FILE_ACTION_MODIFIED, "z\u{e4}\u{20ac}"));
    buf.extend(record(20, FILE_ACTION_RENAMED_NEW_NAME, ".git"));
    buf.extend(record(16, 99, "xy"));
    buf.extend(record(0, FILE_ACTION_MODIFIED, "last"));
    buf.extend(record(0, FILE_ACTION_MODIFIED, "never"));
    let mut changes = PendingChanges::default();
    handle_records(&(), &p("/r"), &buf, &mut changes);
    assert!(!changes.take_recrawl());
    assert_eq!(
        pending(&mut changes),
        [
            ("/r/a/b.rs".to_string(), true, false),
            ("/r/last".to_string(), false, false),
            ("/r/z\u{e4}\u{20ac}".to_string(), false, false),
        ]
    );
}

#[test]
fn malformed_records_stay_within_the_buffer() {
    let mut changes = PendingChanges::default();
    handle_records(&(), &p("/r"), &[0; 11], &mut changes);
    assert!(changes.is_empty());
    // The name is cut off at the end of the buffer, and the next record is beyond it.
    let mut buf = record(u32::MAX, FILE_ACTION_MODIFIED, "ab");
    buf[8] = 0xff;
    buf[11] = 0xff;
    handle_records(&(), &p("/r"), &buf, &mut changes);
    assert_eq!(pending(&mut changes), [("/r/ab".to_string(), false, false)]);
    // Half of a pair of units is not valid.
    let mut buf = record(0, FILE_ACTION_MODIFIED, "a");
    buf[12] = 0;
    buf[13] = 0xd8;
    handle_records(&(), &p("/r"), &buf, &mut changes);
    assert_eq!(
        pending(&mut changes),
        [("/r/\u{fffd}".to_string(), false, false)]
    );
}

#[test]
fn actions_are_told_apart() {
    let (path, flags) =
        interpret(&(), &p("/r"), FILE_ACTION_ADDED, b"x\\y".to_vec()).unwrap();
    assert_eq!(path.as_bytes(), b"/r/x/y");
    assert!(flags.needs_recursive_crawl);
    let (_, flags) = interpret(&(), &p("/r"), FILE_ACTION_MODIFIED, b"x".to_vec()).unwrap();
    assert!(!flags.needs_recursive_crawl);
    assert!(interpret(&(), &p("/r"), 0, b"x".to_vec()).is_none());
    assert!(interpret(&(), &p("/r"), FILE_ACTION_ADDED, b".git".to_vec()).is_none());
}

#[test]
fn only_recursive_watches_cover_what_is_beneath() {
    let roots = [
        WatchedRoot {
            path: p("/a"),
            recursive: true,
        },
        WatchedRoot {
            path: p("/b"),
            recursive: false,
        },
    ];
    assert!(is_watched(&roots, &p("/a"), true));
    assert!(is_watched(&roots, &p("/a/x"), true));
    assert!(is_watched(&roots, &p("/a/x"), false));
    assert!(is_watched(&roots, &p("/b"), false));
    assert!(!is_watched(&roots, &p("/b/x"), false));
    assert!(!is_watched(&roots, &p("/c"), false));
}

#[test]
fn a_recursive_watch_is_not_covered_by_a_plain_one() {
    let mut roots = Vec::new();
    add_watched(&mut roots, p("/b"), false);
    assert!(!is_watched(&roots, &p("/b"), true));
    add_watched(&mut roots, p("/b"), true);
    assert_eq!(roots.len(), 2);
    assert!(is_watched(&roots, &p("/b"), true));
    assert!(is_watched(&roots, &p("/b/x"), true));
}

#[test]
fn separators_at_the_end_are_left_out() {
    let mut changes = PendingChanges::default();
    process_events(&(), &vec![dir_event("/tmp/x/", 0)], &mut changes);
    assert_eq!(pending(&mut changes), [("/tmp/x".to_string(), false, true)]);
    let name = b"x\\".to_vec();
    let (path, _) = interpret(&(), &p("/r"), FILE_ACTION_ADDED, name).unwrap();
    assert_eq!(path.as_bytes(), b"/r/x");
    let (path, _) = interpret(&(), &p("/r"), FILE_ACTION_ADDED, Vec::new()).unwrap();
    assert_eq!(path.as_bytes(), b"/r");
    let mut watches = Watches::new();
    watches.watch(3, p("/d"));
    let mut changes = handle(&mut watches, 3, IN_CREATE, "x/");
    assert_eq!(pending(&mut changes), [("/d/x".to_string(), true, false)]);
}

#[test]
fn completed_reads_are_told_apart() {
    assert_eq!(completion(true, true, false, true, 8), Completion::Stop);
    assert_eq!(completion(false, false, true, true, 0), Completion::Recrawl);
    assert_eq!(completion(false, false, false, true, 0), Completion::Ignore);
    assert_eq!(completion(false, true, false, false, 8), Completion::Ignore);
    assert_eq!(completion(false, true, false, true, 0), Completion::Overflow);
    assert_eq!(completion(false, true, false, true, 8), Completion::Records);
}
