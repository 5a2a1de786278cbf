//! Looking through a directory to bring the tree up to date with it.
//!
//! Walking the disk is left to the caller. It starts a crawl, hands over each entry of the walk
//! that is not to be passed over, with what is on disk there, and ends the crawl.

use super::delete::{frames, frames_valid};
use super::model::{
    crawl_change, delete_beneath, deletion, entered, is_added, is_applied, is_crawled, kept, leave,
    mark_unvisited, stacked, sweep, CrawlStack, Crawled, Outcome,
};
use super::{lemmas, FileTree, Flags, NodeMeta};
use crate::config::Filter;
use crate::events::{emitted, events_view, Event, EventType, EventView};
use crate::ids::NodeId;
use crate::metadata::Metadata;
use crate::path::CanonicalPathBuf;
use crate::pending;
use crate::pending::PendingChange;
use vstd::prelude::*;

verus! {

/// What to do about an entry of a walk.
#[derive(Debug, Clone, Copy, PartialEq, Eq, Structural)]
pub enum Visit {
    /// Nothing.
    Pass,
    /// Nothing, and the walk does not go into it.
    SkipDir,
    /// Look at what is on disk there, and hand it to the tree.
    Inspect,
}

/// What to do about an entry of a walk. The start of the walk was dealt with before it; what is
/// ignored is passed over, with everything in it.
pub fn inspect_entry<F: Filter + ?Sized>(
    filter: &F,
    depth: usize,
    path: &[u8],
    is_dir: bool,
) -> (r: Visit)
    ensures
        r == if depth == 0 {
            Visit::Pass
        } else if !filter.ignores(path@, Some(is_dir)) {
            Visit::Inspect
        } else if is_dir {
            Visit::SkipDir
        } else {
            Visit::Pass
        },
{
    if depth == 0 {
        return Visit::Pass;
    }
    if filter.ignore_path(path, Some(is_dir)) {
        if is_dir {
            Visit::SkipDir
        } else {
            Visit::Pass
        }
    } else {
        Visit::Inspect
    }
}

/// A crawl that was started.
#[derive(Debug)]
pub struct Crawl {
    /// The directory to start the walk at, and to watch.
    pub path: CanonicalPathBuf,
    /// Whether the walk goes into the directories that it comes by.
    pub recursive: bool,
}

/// What to do about an entry of the walk through a new root.
#[derive(Debug)]
pub enum Found {
    /// Nothing: it is in the tree now.
    Added,
    /// Watch this directory.
    Watch(CanonicalPathBuf),
    /// The walk does not go into it.
    SkipDir,
}

impl FileTree {
    /// Marks the children of a node as not visited yet.
    fn mark_children(&mut self, i: usize)
        requires
            old(self).wf(),
            i < old(self)@.nodes.len(),
        ensures
            final(self).wf(),
            final(self)@ == entered(old(self)@, i as int),
    {
        let ghost tree = self@;
        let ghost list = tree.children_of(i as int);
        let count = self.child_count(i);
        let mut k: usize = 0;
        proof {
            assert(self@ =~= mark_unvisited(tree, list.take(0)));
        }
        while k < count
            invariant
                self.wf(),
                i < tree.nodes.len(),
                count == list.len(),
                k <= count,
                list == tree.children_of(i as int),
                self@ == mark_unvisited(tree, list.take(k as int)),
                self@.children_of(i as int) == list,
            decreases count - k,
        {
            let c = self.child_at(i, k);
            let ghost before = *self;
            assert(before@.nodes[c as int] == self.nodes@[c as int]@);
            self.nodes[c].set_maybe_deleted_flag();
            proof {
                self.lemma_node_updated(before, c as int);
                let done = list.take(k as int);
                assert(list.take(k + 1) =~= done.push(c as u32));
                assert forall|x: u32| #[trigger]
                    done.push(c as u32).contains(x) <==> done.contains(x) || x == c by {
                    if x == c {
                        assert(done.push(c as u32)[k as int] == x);
                    } else if done.contains(x) {
                        let l = choose|l: int| 0 <= l < done.len() && done[l] == x;
                        assert(done.push(c as u32)[l] == x);
                    }
                }
                assert(self@ =~= mark_unvisited(tree, list.take(k + 1)));
            }
            k = k + 1;
        }
        proof {
            assert(list.take(k as int) =~= list);
        }
    }

    /// Marks the children of a node that were not visited as deleted, with everything beneath
    /// them.
    fn sweep_children(
        &mut self,
        i: usize,
        work_stack: &mut Vec<(NodeId, usize)>,
        events: &mut Vec<Event>,
    )
        requires
            old(self).wf(),
            i < old(self)@.nodes.len(),
        ensures
            final(self).wf(),
            final(self)@ == sweep(old(self)@, old(self)@.children_of(i as int), 0).tree,
            events_view(final(events)@) == events_view(old(events)@) + sweep(
                old(self)@,
                old(self)@.children_of(i as int),
                0,
            ).events,
            final(work_stack)@ == old(work_stack)@,
            lemmas::differ_in_metas(final(self)@, old(self)@),
    {
        let ghost tree = self@;
        let ghost list = tree.children_of(i as int);
        let ghost target = sweep(tree, list, 0);
        let count = self.child_count(i);
        let mut k: usize = 0;
        while k < count
            invariant
                self.wf(),
                i < tree.nodes.len(),
                count == list.len(),
                k <= count,
                list == tree.children_of(i as int),
                lemmas::differ_in_metas(self@, tree),
                sweep(self@, list, k as int).tree == target.tree,
                events_view(events@) + sweep(self@, list, k as int).events == events_view(
                    old(events)@,
                ) + target.events,
                work_stack@ == old(work_stack)@,
            decreases count - k,
        {
            proof {
                assert(self@.nodes[i as int].children == tree.nodes[i as int].children);
                assert(self@.children_of(i as int) == list);
            }
            let ghost now = self@;
            let ghost so_far = events_view(events@);
            let c = self.child_at(i, k);
            assert(now.nodes[c as int] == self.nodes@[c as int]@);
            if self.nodes[c].maybe_deleted_flag() {
                if self.nodes[c].meta.is_file() {
                    events.push(Event { path: self.nodes[c].path.clone(), ty: EventType::Delete });
                }
                self.set_meta(c, NodeMeta::Deleted);
                self.delete_rec(c, work_stack, events);
                proof {
                    let first = deletion(now, c as int);
                    let marked = now.with_meta(c as int, NodeMeta::Deleted);
                    let beneath = delete_beneath(marked, c as int);
                    let rest = sweep(self@, list, k + 1);
                    lemmas::lemma_delete_beneath_shape(marked, c as int);
                    assert(events_view(events@) =~= so_far + first + beneath.events);
                    assert(so_far + first + beneath.events + rest.events =~= so_far + (first
                        + beneath.events + rest.events));
                }
            }
            k = k + 1;
        }
        proof {
            assert(events_view(events@) + Seq::<EventView>::empty() =~= events_view(events@));
        }
    }

    /// Leaves the directories at the given depth and below.
    fn leave_dirs(
        &mut self,
        depth: usize,
        work_stack: &mut Vec<(NodeId, usize)>,
        events: &mut Vec<Event>,
    )
        requires
            old(self).wf(),
            frames_valid(old(self)@, old(work_stack)@, 0),
        ensures
            final(self).wf(),
            final(self)@ == leave(old(self)@, frames(old(work_stack)@, 0), depth as int).tree,
            events_view(final(events)@) == events_view(old(events)@) + leave(
                old(self)@,
                frames(old(work_stack)@, 0),
                depth as int,
            ).events,
            frames(final(work_stack)@, 0) == frames(old(work_stack)@, 0).take(
                kept(frames(old(work_stack)@, 0), depth as int),
            ),
            frames_valid(final(self)@, final(work_stack)@, 0),
            lemmas::differ_in_metas(final(self)@, old(self)@),
    {
        let ghost tree = self@;
        let ghost stack = frames(work_stack@, 0);
        let ghost target = leave(tree, stack, depth as int);
        proof {
            lemmas::lemma_kept_bound(stack, depth as int);
            assert(stack.take(stack.len() as int) =~= stack);
        }
        loop
            invariant
                self.wf(),
                lemmas::differ_in_metas(self@, tree),
                frames_valid(tree, work_stack@, 0),
                0 <= kept(stack, depth as int) <= work_stack@.len() <= stack.len(),
                frames(work_stack@, 0) == stack.take(work_stack@.len() as int),
                kept(frames(work_stack@, 0), depth as int) == kept(stack, depth as int),
                leave(self@, frames(work_stack@, 0), depth as int).tree == target.tree,
                events_view(events@) + leave(self@, frames(work_stack@, 0), depth as int).events
                    == events_view(old(events)@) + target.events,
            ensures
                work_stack@.len() == kept(stack, depth as int),
                self@ == target.tree,
                events_view(events@) == events_view(old(events)@) + target.events,
            decreases work_stack@.len(),
        {
            let ghost now = frames(work_stack@, 0);
            let ghost before = self@;
            let ghost so_far = events_view(events@);
            proof {
                assert(events_view(events@) + Seq::<EventView>::empty() =~= events_view(events@));
            }
            if work_stack.len() == 0 {
                break;
            }
            let last = work_stack.len() - 1;
            let (node, at) = work_stack[last];
            assert(now.last() == (node@->0, at as int));
            if at < depth {
                break;
            }
            work_stack.pop();
            proof {
                assert(frames(work_stack@, 0) =~= now.drop_last());
                assert(frames(work_stack@, 0) =~= stack.take(work_stack@.len() as int));
                lemmas::lemma_kept_bound(now.drop_last(), depth as int);
            }
            self.sweep_children(node.idx(), work_stack, events);
            proof {
                let swept = sweep(before, before.children_of(node@->0), 0);
                let rest = leave(self@, now.drop_last(), depth as int);
                assert(so_far + swept.events + rest.events =~= so_far + (swept.events
                    + rest.events));
            }
        }
    }
}

impl FileTree {
    /// Starts a crawl of a directory that is in the tree, on an empty stack or on that of a crawl
    /// further up. The directory itself is not looked at again.
    pub fn crawl(&mut self, root: NodeId, work_stack: &mut Vec<(NodeId, usize)>) -> (r: Crawl)
        requires
            old(self).wf(),
            root@ is Some,
            0 <= root@->0 < old(self)@.nodes.len(),
            frames_valid(old(self)@, old(work_stack)@, 0),
        ensures
            final(self).wf(),
            final(self)@ == entered(old(self)@, root@->0),
            frames(final(work_stack)@, 0) == stacked(
                old(self)@,
                frames(old(work_stack)@, 0),
                root@->0,
                0,
            ),
            frames_valid(final(self)@, final(work_stack)@, 0),
            r.path@ == old(self)@.nodes[root@->0].path,
            r.recursive == old(self)@.nodes[root@->0].flags.recursive(),
            r.recursive == (old(self)@.nodes[root@->0].flags.watch_children && old(
                self,
            )@.nodes[root@->0].flags.watch_subtree),
    {
        let i = root.idx();
        assert(self@.nodes[i as int] == self.nodes@[i as int]@);
        let recursive = self.nodes[i].flags.is_recursive();
        let path = self.nodes[i].path.clone();
        self.enter(root, 0, work_stack);
        Crawl { path, recursive }
    }

    /// Enters a directory at the given depth.
    fn enter(&mut self, node: NodeId, depth: usize, work_stack: &mut Vec<(NodeId, usize)>)
        requires
            old(self).wf(),
            node@ is Some,
            0 <= node@->0 < old(self)@.nodes.len(),
            frames_valid(old(self)@, old(work_stack)@, 0),
        ensures
            final(self).wf(),
            final(self)@ == entered(old(self)@, node@->0),
            frames(final(work_stack)@, 0) == stacked(
                old(self)@,
                frames(old(work_stack)@, 0),
                node@->0,
                depth as int,
            ),
            frames_valid(final(self)@, final(work_stack)@, 0),
    {
        let i = node.idx();
        assert(self@.nodes[i as int] == self.nodes@[i as int]@);
        let has_list = self.nodes[i].children.is_some();
        self.mark_children(i);
        if has_list {
            work_stack.push((node, depth));
        }
        proof {
            assert(frames(work_stack@, 0) =~= stacked(
                old(self)@,
                frames(old(work_stack)@, 0),
                node@->0,
                depth as int,
            ));
        }
    }

    /// Brings the tree up to date for an entry of the walk. `meta` is what is on disk there.
    /// Returns the path if it is a directory that is to be watched.
    pub fn crawl_entry(
        &mut self,
        recursive: bool,
        depth: usize,
        path: CanonicalPathBuf,
        meta: Option<Metadata>,
        work_stack: &mut Vec<(NodeId, usize)>,
        events: &mut Vec<Event>,
    ) -> (r: Option<CanonicalPathBuf>)
        requires
            old(self).wf(),
            old(self)@.has_room(),
            frames_valid(old(self)@, old(work_stack)@, 0),
        ensures
            final(self).wf(),
            frames_valid(final(self)@, final(work_stack)@, 0),
            is_crawled(
                old(self)@,
                frames(old(work_stack)@, 0),
                recursive,
                depth as int,
                path@,
                meta,
                (Crawled {
                    tree: final(self)@,
                    stack: frames(final(work_stack)@, 0),
                    events: emitted(old(events)@, final(events)@),
                    watch: r is Some,
                }),
            ),
            events_view(final(events)@) == events_view(old(events)@) + emitted(
                old(events)@,
                final(events)@,
            ),
            r matches Some(watched) ==> watched@ == path@,
    {
        let flags = pending::Flags {
            mark_recursive: recursive,
            ..pending::Flags::needs_recursive_crawl()
        };
        let change = PendingChange { path, flags };
        let ghost stack = frames(work_stack@, 0);
        let (node, recurse) = self.apply_change(&change, meta, work_stack, events);
        let ghost outcome = Outcome {
            tree: self@,
            events: emitted(old(events)@, events@),
            node: node@,
            recurse,
        };
        proof {
            lemmas::lemma_applied(old(self)@, change@, meta, outcome);
            assert(is_applied(old(self)@, crawl_change(path@, recursive), meta, outcome));
        }
        // What was there when the walk came by may be gone again.
        if node.is_none() {
            return None;
        }
        let i = node.idx();
        let ghost applied = *self;
        assert(self@.nodes[i as int] == self.nodes@[i as int]@);
        self.nodes[i].unset_maybe_deleted_flag();
        proof {
            self.lemma_node_updated(applied, i as int);
        }
        self.leave_dirs(depth, work_stack, events);
        let ghost left = self@;
        assert(left.nodes[i as int] == self.nodes@[i as int]@);
        let watch = recursive && self.nodes[i].meta.is_dir();
        if watch {
            self.enter(node, depth, work_stack);
        }
        proof {
            let visited = outcome.tree.with_flags(
                i as int,
                Flags { maybe_deleted: false, ..outcome.tree.nodes[i as int].flags },
            );
            let swept = leave(visited, stack, depth as int).events;
            assert(events_view(events@) =~= events_view(old(events)@) + (outcome.events + swept));
            assert(emitted(old(events)@, events@) =~= outcome.events + swept);
        }
        if watch {
            Some(change.path)
        } else {
            None
        }
    }

    /// Ends a crawl: the directories that it is still in are left.
    pub fn crawl_end(
        &mut self,
        work_stack: &mut Vec<(NodeId, usize)>,
        events: &mut Vec<Event>,
    )
        requires
            old(self).wf(),
            frames_valid(old(self)@, old(work_stack)@, 0),
        ensures
            final(self).wf(),
            final(self)@ == leave(old(self)@, frames(old(work_stack)@, 0), 0).tree,
            events_view(final(events)@) == events_view(old(events)@) + leave(
                old(self)@,
                frames(old(work_stack)@, 0),
                0,
            ).events,
            final(work_stack)@.len() == 0,
    {
        self.leave_dirs(0, work_stack, events);
        proof {
            lemma_all_are_left(frames(old(work_stack)@, 0));
            assert(frames(work_stack@, 0).len() == 0);
        }
    }

    /// Adds an entry of the walk through a new root. `meta` is what is on disk there; it matters
    /// only for a path that is not in the tree yet.
    pub fn crawl_root_entry(
        &mut self,
        recursive: bool,
        path: CanonicalPathBuf,
        meta: Option<Metadata>,
    ) -> (r: Found)
        requires
            old(self).wf(),
            old(self)@.has_room(),
        ensures
            final(self).wf(),
            exists|node: Option<int>|
                {
                    &&& #[trigger] is_added(
                        old(self)@,
                        path@,
                        recursive,
                        false,
                        meta,
                        final(self)@,
                        node,
                    )
                    &&& r is SkipDir <==> node is None
                    &&& r is Watch <==> node is Some && recursive
                        && final(self)@.nodes[node->0].meta == NodeMeta::Dir
                },
            r matches Found::Watch(watched) ==> watched@ == path@,
    {
        match self.add(path.clone(), recursive, false, meta) {
            Some(node) => {
                proof {
                    lemmas::lemma_added(old(self)@, path@, recursive, false, meta, self@, node@);
                }
                let i = node.idx();
                assert(self@.nodes[i as int] == self.nodes@[i as int]@);
                if recursive && self.nodes[i].meta.is_dir() {
                    Found::Watch(self.nodes[i].path.clone())
                } else {
                    Found::Added
                }
            },
            None => Found::SkipDir,
        }
    }
}

/// Nothing stays on a stack when all depths are left.
proof fn lemma_all_are_left(stack: CrawlStack)
    requires
        forall|j: int| 0 <= j < stack.len() ==> (#[trigger] stack[j]).1 >= 0,
    ensures
        kept(stack, 0) == 0,
    decreases stack.len(),
{
    if stack.len() > 0 {
        lemma_all_are_left(stack.drop_last());
    }
}

} // verus!
