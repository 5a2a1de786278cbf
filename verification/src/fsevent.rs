//! What FSEvents reports, and which changes that makes pending.
//!
//! A stream covers all roots and reports directories in which something changed. Each of them is to
//! be looked through. The paths of a stream are fixed when it is made, so that a new root takes a
//! new stream.

use crate::config::{ignores_with_ancestors, Filter};
use crate::path::{has_room_for, is_ancestor, joined, path_text, CanonicalPathBuf};
use crate::path_laws::law_ancestry_is_transitive;
use crate::pending::{ChangeView, Flags, PendingChanges};
use vstd::prelude::*;

verus! {

/// Events were merged or lost: everything beneath the directory has to be looked through.
pub const MUST_SCAN_SUBDIRS: u32 = 0x1;

/// A directory in which something changed, and the flags of the event.
pub struct DirEvent {
    pub path: Vec<u8>,
    pub flags: u32,
}

/// A directory in which something changed, with its path taken as bytes.
pub struct DirEventView {
    pub path: Seq<u8>,
    pub flags: u32,
}

impl View for DirEvent {
    type V = DirEventView;

    open spec fn view(&self) -> DirEventView {
        DirEventView { path: self.path@, flags: self.flags }
    }
}

/// The events of a batch.
pub open spec fn batch_view(events: Seq<DirEvent>) -> Seq<DirEventView> {
    events.map_values(|e: DirEvent| e@)
}

/// The change that an event makes pending. The paths of directories may come with a separator at
/// the end, which is left out.
pub open spec fn dir_change(event: DirEventView) -> ChangeView {
    ChangeView {
        path: joined(Seq::empty(), event.path),
        flags: Flags { origin_watcher: true, ..Flags::non_recursive_crawl() },
    }
}

/// What is pending after a batch of events: each directory that is not ignored, up to the first
/// event that asks for everything to be looked through.
pub open spec fn batch_changes<F: Filter + ?Sized>(
    filter: &F,
    events: Seq<DirEventView>,
    changes: Seq<ChangeView>,
) -> (Seq<ChangeView>, bool)
    decreases events.len(),
{
    if events.len() == 0 {
        (changes, false)
    } else if events[0].flags & MUST_SCAN_SUBDIRS != 0 {
        (changes, true)
    } else if ignores_with_ancestors(filter, path_text(dir_change(events[0]).path), Some(true)) {
        batch_changes(filter, events.skip(1), changes)
    } else {
        batch_changes(filter, events.skip(1), changes.push(dir_change(events[0])))
    }
}

/// Records a batch of events. A stream reports what happens beneath an ignored directory, too,
/// which is why the ancestors of a path count.
pub fn process_events<F: Filter + ?Sized>(
    filter: &F,
    events: &Vec<DirEvent>,
    changes: &mut PendingChanges,
)
    requires
        forall|i: int|
            0 <= i < events@.len() ==> has_room_for(
                Seq::empty(),
                (#[trigger] events@[i]).path@.len() as int,
            ),
    ensures
        ({
            let (after, recrawl) = batch_changes(
                filter,
                batch_view(events@),
                old(changes).changes(),
            );
            &&& final(changes).changes() == after
            &&& final(changes).wants_recrawl() == (old(changes).wants_recrawl() || recrawl)
        }),
{
    let ghost all = batch_view(events@);
    let ghost target = batch_changes(filter, all, changes.changes());
    let mut i: usize = 0;
    proof {
        assert(all.skip(0) =~= all);
    }
    while i < events.len()
        invariant_except_break
            changes.wants_recrawl() == old(changes).wants_recrawl(),
        invariant
            forall|j: int|
                0 <= j < events@.len() ==> has_room_for(
                    Seq::empty(),
                    (#[trigger] events@[j]).path@.len() as int,
                ),
            all == batch_view(events@),
            i <= events@.len(),
            batch_changes(filter, all.skip(i as int), changes.changes()) == target,
        ensures
            changes.changes() == target.0,
            changes.wants_recrawl() == (old(changes).wants_recrawl() || target.1),
        decreases events@.len() - i,
    {
        let event = &events[i];
        proof {
            assert(all.skip(i as int)[0] == event@);
            assert(all.skip(i as int).skip(1) =~= all.skip(i + 1));
        }
        if event.flags & MUST_SCAN_SUBDIRS != 0 {
            changes.recrawl();
            break;
        }
        let path = CanonicalPathBuf::assert_canonicalized(event.path.as_slice());
        if !filter.ignore_path_rec(path.as_bytes(), Some(true)) {
            changes.add_watcher(path, Flags::needs_non_recursive_crawl());
        }
        i = i + 1;
    }
}

/// What to do about a directory that is to be watched.
#[derive(Debug, Clone, Copy, PartialEq, Eq, Structural)]
pub enum WatchStep {
    /// Nothing: it is covered already, or nothing is watched any more.
    Done,
    /// Make a stream over all roots.
    Start,
    /// Replace the stream by one over all roots.
    Replace,
}

/// The roots that the stream covers.
pub struct StreamRoots {
    roots: Vec<CanonicalPathBuf>,
    active: bool,
    closed: bool,
}

/// The roots, and whether there is a stream, as a mathematical value.
#[verifier::ext_equal]
pub struct StreamView {
    pub roots: Seq<Seq<u8>>,
    /// There is a stream.
    pub active: bool,
    /// The watcher was shut down.
    pub closed: bool,
}

impl View for StreamRoots {
    type V = StreamView;

    closed spec fn view(&self) -> StreamView {
        StreamView {
            roots: self.roots@.map_values(|p: CanonicalPathBuf| p@),
            active: self.active,
            closed: self.closed,
        }
    }
}

/// A directory is one of the roots or beneath one of them.
pub open spec fn is_covered(roots: Seq<Seq<u8>>, path: Seq<u8>) -> bool {
    exists|i: int| 0 <= i < roots.len() && covers(#[trigger] roots[i], path)
}

/// The directory is the root or beneath it.
pub open spec fn covers(root: Seq<u8>, path: Seq<u8>) -> bool {
    root == path || is_ancestor(root, path)
}

impl StreamRoots {
    /// Nothing is watched yet.
    pub fn new() -> (r: StreamRoots)
        ensures
            r@ == (StreamView { roots: Seq::empty(), active: false, closed: false }),
    {
        let r = StreamRoots { roots: Vec::new(), active: false, closed: false };
        assert(r@.roots =~= Seq::empty());
        r
    }

    /// The roots.
    pub fn roots(&self) -> (r: &[CanonicalPathBuf])
        ensures
            r@.map_values(|p: CanonicalPathBuf| p@) == self@.roots,
    {
        self.roots.as_slice()
    }

    /// Takes up a directory to watch. What is covered by a root needs nothing, since a stream
    /// reports everything beneath its roots.
    pub fn watch_dir(&mut self, path: CanonicalPathBuf) -> (r: WatchStep)
        ensures
            r == if old(self)@.closed || is_covered(old(self)@.roots, path@) {
                WatchStep::Done
            } else if old(self)@.active {
                WatchStep::Replace
            } else {
                WatchStep::Start
            },
            final(self)@ == if r == WatchStep::Done {
                old(self)@
            } else {
                StreamView { roots: old(self)@.roots.push(path@), ..old(self)@ }
            },
            old(self)@.closed || is_covered(final(self)@.roots, path@),
    {
        if self.closed {
            return WatchStep::Done;
        }
        let mut i: usize = 0;
        while i < self.roots.len()
            invariant
                i <= self.roots@.len(),
                self@ == old(self)@,
                !self.closed,
                forall|j: int| 0 <= j < i ==> !covers(#[trigger] self@.roots[j], path@),
            decreases self.roots@.len() - i,
        {
            assert(self@.roots[i as int] == self.roots@[i as int]@);
            if self.roots[i].is_parent_of(&path) || self.roots[i] == path {
                assert(covers(self@.roots[i as int], path@));
                return WatchStep::Done;
            }
            i = i + 1;
        }
        self.roots.push(path);
        proof {
            assert(self@.roots =~= old(self)@.roots.push(path@));
            assert(covers(self@.roots.last(), path@));
        }
        if self.active {
            WatchStep::Replace
        } else {
            WatchStep::Start
        }
    }

    /// Records whether making a stream over all roots succeeded. What happened while a stream was
    /// replaced may be lost, so that everything is to be crawled anew then.
    pub fn stream_made(&mut self, step: WatchStep, ok: bool, changes: &mut PendingChanges)
        requires
            step != WatchStep::Done,
        ensures
            final(self)@ == (StreamView { active: ok, ..old(self)@ }),
            final(changes).changes() == old(changes).changes(),
            final(changes).wants_recrawl() == (old(changes).wants_recrawl() || (ok && step
                == WatchStep::Replace)),
    {
        self.active = ok;
        if ok && step == WatchStep::Replace {
            changes.recrawl();
        }
    }

    /// Ends the watch. Returns whether there is a stream to stop.
    pub fn shutdown(&mut self) -> (r: bool)
        ensures
            r == old(self)@.active,
            final(self)@ == (StreamView { active: false, closed: true, ..old(self)@ }),
    {
        let r = self.active;
        self.active = false;
        self.closed = true;
        r
    }
}

/// The event number that stands for what happens from now on.
pub const SINCE_NOW: u64 = 0xffff_ffff_ffff_ffff;

/// What a thread that runs a stream does next.
#[derive(Debug, Clone, Copy, PartialEq, Eq, Structural)]
pub enum LoopStep {
    /// Wait until it is woken.
    Wait,
    /// Start a stream that reports what happened since this event, and wait until it is woken.
    Start(u64),
}

/// What a thread that runs one stream after the other keeps track of.
pub struct EventLoop {
    last_event_id: u64,
    generation: u64,
}

/// What is kept track of, as a mathematical value.
pub struct LoopView {
    /// The last event that was reported.
    pub last_event_id: u64,
    /// How many streams were started.
    pub generation: u64,
}

impl View for EventLoop {
    type V = LoopView;

    closed spec fn view(&self) -> LoopView {
        LoopView { last_event_id: self.last_event_id, generation: self.generation }
    }
}

impl EventLoop {
    /// No stream was started yet.
    pub fn new() -> (r: EventLoop)
        ensures
            r@ == (LoopView { last_event_id: SINCE_NOW, generation: 0 }),
    {
        EventLoop { last_event_id: SINCE_NOW, generation: 0 }
    }

    /// Decides how to go on, with or without paths to watch. A new stream takes up where the one
    /// before it ended, so that nothing is lost in between.
    pub fn next_step(&self, has_paths: bool) -> (r: LoopStep)
        ensures
            r == if has_paths {
                LoopStep::Start(self@.last_event_id)
            } else {
                LoopStep::Wait
            },
    {
        if has_paths {
            LoopStep::Start(self.last_event_id)
        } else {
            LoopStep::Wait
        }
    }

    /// Counts a stream that was started.
    pub fn stream_started(&mut self)
        requires
            old(self)@.generation < u64::MAX,
        ensures
            final(self)@ == (LoopView {
                generation: (old(self)@.generation + 1) as u64,
                ..old(self)@
            }),
    {
        self.generation = self.generation + 1;
    }

    /// How many streams were started.
    pub fn generation(&self) -> (r: u64)
        ensures
            r == self@.generation,
    {
        self.generation
    }

    /// Remembers the last event of a batch.
    pub fn batch_done(&mut self, ids: &[u64])
        ensures
            final(self)@ == if ids@.len() == 0 {
                old(self)@
            } else {
                LoopView { last_event_id: ids@.last(), ..old(self)@ }
            },
    {
        if ids.len() > 0 {
            self.last_event_id = ids[ids.len() - 1];
        }
    }

    /// Decides whether to go on after the thread was woken. `stop` is what the message that woke
    /// the thread asks for.
    pub fn goes_on(&self, shutdown: bool, stop: bool) -> (r: bool)
        ensures
            r == (!shutdown && !stop),
    {
        !shutdown && !stop
    }
}

/// Directories under an ignored one are dropped, and every other one that is reported is looked
/// through or everything is.
pub proof fn law_no_reported_directory_is_lost<F: Filter + ?Sized>(
    filter: &F,
    events: Seq<DirEventView>,
    changes: Seq<ChangeView>,
    i: int,
)
    requires
        0 <= i < events.len(),
        !ignores_with_ancestors(filter, path_text(dir_change(events[i]).path), Some(true)),
    ensures
        batch_changes(filter, events, changes).1 || batch_changes(
            filter,
            events,
            changes,
        ).0.contains(dir_change(events[i])),
    decreases events.len(),
{
    if events[0].flags & MUST_SCAN_SUBDIRS == 0 {
        let next = if ignores_with_ancestors(
            filter,
            path_text(dir_change(events[0]).path),
            Some(true),
        ) {
            changes
        } else {
            changes.push(dir_change(events[0]))
        };
        if i == 0 {
            assert(next.last() == dir_change(events[0]));
            lemma_batch_keeps(filter, events.skip(1), next, next.len() - 1);
        } else {
            assert(events.skip(1)[i - 1] == events[i]);
            law_no_reported_directory_is_lost(filter, events.skip(1), next, i - 1);
        }
    }
}

/// A batch keeps what was pending.
proof fn lemma_batch_keeps<F: Filter + ?Sized>(
    filter: &F,
    events: Seq<DirEventView>,
    changes: Seq<ChangeView>,
    k: int,
)
    requires
        0 <= k < changes.len(),
    ensures
        batch_changes(filter, events, changes).0.contains(changes[k]),
    decreases events.len(),
{
    if events.len() > 0 && events[0].flags & MUST_SCAN_SUBDIRS == 0 {
        let next = changes.push(dir_change(events[0]));
        assert(next[k] == changes[k]);
        lemma_batch_keeps(filter, events.skip(1), next, k);
        lemma_batch_keeps(filter, events.skip(1), changes, k);
    }
}

/// A directory that is reported is looked through, but not what is in the directories in it: the
/// change is for the path of the directory, without a separator at its end, and counts as reported
/// by the system.
pub proof fn law_reported_directory_is_looked_through_once(event: DirEventView)
    ensures
        dir_change(event).path == joined(Seq::empty(), event.path),
        dir_change(event).flags.needs_non_recursive_crawl,
        !dir_change(event).flags.needs_recursive_crawl,
        !dir_change(event).flags.mark_recursive,
        dir_change(event).flags.origin_watcher,
{
}

/// The event at this position is for a directory that is not ignored, and neither it nor one before
/// it asks for everything to be looked through.
pub open spec fn is_reported_dir<F: Filter + ?Sized>(
    filter: &F,
    events: Seq<DirEventView>,
    i: int,
) -> bool {
    &&& 0 <= i < events.len()
    &&& !ignores_with_ancestors(filter, path_text(joined(Seq::empty(), events[i].path)), Some(true))
    &&& forall|l: int| 0 <= l <= i ==> (#[trigger] events[l]).flags & 0x1 == 0
}

/// The change is that of a directory of the batch.
pub open spec fn is_of_an_event<F: Filter + ?Sized>(
    filter: &F,
    events: Seq<DirEventView>,
    change: ChangeView,
) -> bool {
    exists|i: int| #[trigger] is_reported_dir(filter, events, i) && change == dir_change(events[i])
}

/// A directory of the batch is one of the batch with another in front.
proof fn lemma_reported_dir<F: Filter + ?Sized>(filter: &F, events: Seq<DirEventView>, i: int)
    requires
        events.len() > 0,
        events[0].flags & 0x1 == 0,
    ensures
        is_reported_dir(filter, events.skip(1), i) ==> is_reported_dir(filter, events, i + 1),
        i > 0 && is_reported_dir(filter, events, i) ==> is_reported_dir(
            filter,
            events.skip(1),
            i - 1,
        ),
{
    let rest = events.skip(1);
    if is_reported_dir(filter, rest, i) {
        assert(rest[i] == events[i + 1]);
        assert forall|l: int| 0 <= l <= i + 1 implies (#[trigger] events[l]).flags & 0x1 == 0 by {
            if l > 0 {
                assert(rest[l - 1] == events[l]);
            }
        }
    }
    if i > 0 && is_reported_dir(filter, events, i) {
        assert(rest[i - 1] == events[i]);
        assert forall|l: int| 0 <= l <= i - 1 implies (#[trigger] rest[l]).flags & 0x1 == 0 by {
            assert(rest[l] == events[l + 1]);
        }
    }
}

/// What a batch adds to what is pending is one change for each directory that was reported and is
/// not ignored, up to the first event that asks for everything to be looked through, and what was
/// pending stays so. Everything is crawled anew if and only if there is such an event.
pub proof fn law_batch_adds_the_reported_directories<F: Filter + ?Sized>(
    filter: &F,
    events: Seq<DirEventView>,
    changes: Seq<ChangeView>,
)
    ensures
        ({
            let (after, recrawl) = batch_changes(filter, events, changes);
            &&& recrawl <==> exists|i: int|
                0 <= i < events.len() && (#[trigger] events[i]).flags & 0x1 != 0
            &&& changes.len() <= after.len() <= changes.len() + events.len()
            &&& after.take(changes.len() as int) == changes
            &&& forall|j: int|
                changes.len() <= j < after.len() ==> is_of_an_event(
                    filter,
                    events,
                    #[trigger] after[j],
                )
            &&& forall|i: int| #[trigger]
                is_reported_dir(filter, events, i) ==> after.skip(changes.len() as int).contains(
                    dir_change(events[i]),
                )
        }),
    decreases events.len(),
{
    let (after, recrawl) = batch_changes(filter, events, changes);
    if events.len() == 0 {
        assert(after.take(changes.len() as int) =~= changes);
    } else if events[0].flags & MUST_SCAN_SUBDIRS != 0 {
        assert(after.take(changes.len() as int) =~= changes);
        assert(events[0].flags & 0x1 != 0);
    } else {
        let rest = events.skip(1);
        let ignored = ignores_with_ancestors(
            filter,
            path_text(dir_change(events[0]).path),
            Some(true),
        );
        let next = if ignored {
            changes
        } else {
            changes.push(dir_change(events[0]))
        };
        law_batch_adds_the_reported_directories(filter, rest, next);
        assert(next.take(changes.len() as int) =~= changes);
        assert(after.take(changes.len() as int) =~= after.take(next.len() as int).take(
            changes.len() as int,
        ));
        assert forall|j: int| changes.len() <= j < after.len() implies is_of_an_event(
            filter,
            events,
            #[trigger] after[j],
        ) by {
            if j < next.len() {
                assert(after.take(next.len() as int)[j] == next[j]);
                assert(is_reported_dir(filter, events, 0));
            } else {
                assert(is_of_an_event(filter, rest, after[j]));
                let i = choose|i: int| #[trigger]
                    is_reported_dir(filter, rest, i) && after[j] == dir_change(rest[i]);
                lemma_reported_dir(filter, events, i);
                assert(events[i + 1] == rest[i]);
            }
        }
        assert forall|i: int| #[trigger] is_reported_dir(filter, events, i) implies after.skip(
            changes.len() as int,
        ).contains(dir_change(events[i])) by {
            let tail = after.skip(changes.len() as int);
            if i == 0 {
                assert(after.take(next.len() as int)[changes.len() as int]
                    == next[changes.len() as int]);
                assert(tail[0] == dir_change(events[0]));
            } else {
                lemma_reported_dir(filter, events, i);
                assert(rest[i - 1] == events[i]);
                let found = after.skip(next.len() as int);
                let j = choose|j: int| 0 <= j < found.len() && found[j] == dir_change(events[i]);
                assert(tail[j + next.len() - changes.len()] == dir_change(events[i]));
            }
        }
        if exists|i: int| 0 <= i < events.len() && (#[trigger] events[i]).flags & 0x1 != 0 {
            let i = choose|i: int|
                0 <= i < events.len() && (#[trigger] events[i]).flags & 0x1 != 0;
            assert(rest[i - 1] == events[i]);
        }
        if recrawl {
            let i = choose|i: int| 0 <= i < rest.len() && (#[trigger] rest[i]).flags & 0x1 != 0;
            assert(events[i + 1] == rest[i]);
        }
    }
}

/// What is covered stays so when a root is added, a root covers itself, and what is covered is a
/// root or beneath one. Everything beneath what is covered is covered.
pub proof fn law_root_covers_everything_beneath_it(
    roots: Seq<Seq<u8>>,
    root: Seq<u8>,
    path: Seq<u8>,
    child: Seq<u8>,
)
    requires
        is_covered(roots, path),
        is_ancestor(path, child),
    ensures
        is_covered(roots, child),
        is_covered(roots.push(root), path),
        is_covered(roots.push(root), root),
        exists|i: int|
            0 <= i < roots.len() && (#[trigger] roots[i] == path || is_ancestor(roots[i], path)),
{
    let i = choose|i: int| 0 <= i < roots.len() && covers(#[trigger] roots[i], path);
    if roots[i] != path {
        law_ancestry_is_transitive(roots[i], path, child);
    }
    assert(covers(roots[i], child));
    assert(roots.push(root)[i] == roots[i]);
    assert(roots.push(root)[roots.len() as int] == root);
    assert(covers(roots.push(root)[roots.len() as int], root));
    assert(roots[i] == path || is_ancestor(roots[i], path));
}

} // verus!
