//! What the worker thread knows, and what it does next.
//!
//! The worker waits for changes, looks at what is on disk and tells its handlers. Waiting, looking
//! and telling are left to the caller; the worker decides and keeps the books.

use crate::config::Filter;
use crate::events::{
    distinct_paths, emitted, events_view, is_event_for, with_event, with_events, Event,
    EventDebouncer, EventView, Events,
};
use crate::ids::{node_number, NodeId};
use crate::metadata::Metadata;
use crate::path::{is_ancestor, is_stored, CanonicalPathBuf};
use crate::pending::{ChangeView, PendingChanges, Transaction};
use crate::roots::{
    insert_root, law_roots_stay_sorted, lemma_with_root, roots_numbered, roots_sorted, roots_valid,
    roots_view, with_root, RootView,
};
use crate::table::id_limit;
use crate::tree::crawl::{Crawl, Found};
use crate::tree::delete::{frames, frames_valid};
use crate::tree::lemmas::{
    all_in_tree, in_tree, keeps_paths, lemma_added, lemma_applied_events, lemma_crawled,
    lemma_in_tree_kept, lemma_leave,
};
use crate::tree::model::{
    changes_left, crawl_target, entered, is_added, is_applied, is_crawled, leave, stacked,
    CrawlStack, Crawled, Outcome, TreeView,
};
use crate::tree::{FileTree, NodeMeta};
use vstd::prelude::*;
use vstd::set_lib::{lemma_int_range, lemma_len_subset, lemma_map_size, set_int_range};

verus! {

/// What the worker knows.
pub struct Worker {
    pending_changes: PendingChanges,
    events: EventDebouncer,
    work_stack: Vec<(NodeId, usize)>,
    tree: FileTree,
    roots: Vec<(NodeId, bool)>,
}

/// What the worker knows, as a mathematical value.
#[verifier::ext_equal]
pub struct WorkerView {
    pub tree: TreeView,
    pub roots: Seq<RootView>,
    /// The directories that a crawl is in.
    pub stack: CrawlStack,
    /// The events that wait to be handed out.
    pub events: Seq<EventView>,
    /// The changes that wait to be looked into.
    pub changes: Seq<ChangeView>,
    /// Whether all roots are to be crawled anew.
    pub recrawl: bool,
}

/// What the worker does next.
pub enum Action {
    /// Hand these events to the handlers.
    Deliver(Events),
    /// Crawl all roots.
    Recrawl,
    /// Look into these changes.
    Apply(Transaction),
}

impl View for Worker {
    type V = WorkerView;

    closed spec fn view(&self) -> WorkerView {
        WorkerView {
            tree: self.tree@,
            roots: roots_view(self.roots@),
            stack: frames(self.work_stack@, 0),
            events: self.events@,
            changes: self.pending_changes.changes(),
            recrawl: self.pending_changes.wants_recrawl(),
        }
    }
}

/// What is answered to whoever asked for a root: `false` where it was added and then could not be
/// watched. There is nothing to complain of where it was not added, since it is watched already or
/// cannot be.
pub fn root_answer(added: bool, watched: bool) -> (r: bool)
    ensures
        r == (!added || watched),
{
    !added || watched
}

/// Where as many events wait as there can be nodes, each for a path of its own, one is for this
/// path of the tree.
proof fn lemma_event_fits(tree: TreeView, events: Seq<EventView>, path: Seq<u8>)
    requires
        tree.wf(),
        distinct_paths(events),
        all_in_tree(tree, events),
        in_tree(tree, path),
    ensures
        events.len() < id_limit() || exists|i: int| is_event_for(events, i, path),
{
    if events.len() >= id_limit() && !exists|i: int| is_event_for(events, i, path) {
        let n = tree.nodes.len() as int;
        let at = choose|j: int| tree.is_at(j, path);
        let f = |k: int| choose|j: int| tree.is_at(j, events[k].path);
        let ks = set_int_range(0, events.len() as int);
        let js = ks.map(f);
        lemma_int_range(0, events.len() as int);
        lemma_int_range(0, n);
        assert forall|k: int| ks.contains(k) implies tree.is_at(
            #[trigger] f(k),
            events[k].path,
        ) by {
            assert(in_tree(tree, events[k].path));
        }
        assert forall|a: int, b: int|
            ks.contains(a) && ks.contains(b) && #[trigger] f(a) == #[trigger] f(b) implies a
            == b by {
            assert(tree.is_at(f(a), events[a].path));
            assert(tree.is_at(f(b), events[b].path));
        }
        lemma_map_size(ks, js, f);
        assert forall|j: int| js.contains(j) implies set_int_range(0, n).remove(at).contains(j) by {
            let k = choose|k: int| ks.contains(k) && f(k) == j;
            assert(tree.is_at(f(k), events[k].path));
            assert(!is_event_for(events, k, path));
        }
        lemma_len_subset(js, set_int_range(0, n).remove(at));
        assert(set_int_range(0, n).contains(at));
    }
}

/// The events that wait stay events for paths of the tree.
proof fn lemma_with_event_in_tree(tree: TreeView, events: Seq<EventView>, event: EventView)
    requires
        all_in_tree(tree, events),
        in_tree(tree, event.path),
    ensures
        all_in_tree(tree, with_event(events, event)),
{
    let after = with_event(events, event);
    assert forall|k: int| 0 <= k < after.len() implies in_tree(tree, #[trigger] after[k].path) by {
        if k < events.len() {
            assert(in_tree(tree, events[k].path));
        }
    }
}

/// The roots stay nodes of the tree, in tree order.
proof fn lemma_roots_kept(a: TreeView, b: TreeView, roots: Seq<RootView>)
    requires
        keeps_paths(a, b),
        roots_valid(a, roots),
        roots_sorted(a, roots),
    ensures
        roots_valid(b, roots),
        roots_sorted(b, roots),
{
}

impl Worker {
    /// The parts are well formed and fit together: the roots are nodes, in tree order, and each
    /// event that waits is for the path of a node.
    pub closed spec fn wf(&self) -> bool {
        &&& self.tree.wf()
        &&& self.events.wf()
        &&& frames_valid(self.tree@, self.work_stack@, 0)
        &&& roots_numbered(self.roots@)
        &&& roots_valid(self.tree@, self@.roots)
        &&& roots_sorted(self.tree@, self@.roots)
        &&& all_in_tree(self.tree@, self@.events)
    }

    /// What holds of the view of a well-formed worker.
    pub proof fn lemma_wf(&self)
        requires
            self.wf(),
        ensures
            self@.tree.wf(),
            distinct_paths(self@.events),
            roots_valid(self@.tree, self@.roots),
            roots_sorted(self@.tree, self@.roots),
            all_in_tree(self@.tree, self@.events),
    {
        self.events.lemma_wf();
        self.tree.lemma_wf();
    }

    /// A worker that watches nothing yet.
    pub fn new() -> (r: Worker)
        ensures
            r.wf(),
            r@.tree.nodes.len() == 0,
            r@.tree.dirs.len() == 0,
            r@.roots.len() == 0,
            r@.stack.len() == 0,
            r@.events.len() == 0,
            r@.changes.len() == 0,
            !r@.recrawl,
    {
        Worker {
            pending_changes: PendingChanges::default(),
            events: EventDebouncer::new(),
            work_stack: Vec::with_capacity(16),
            tree: FileTree::new(),
            roots: Vec::with_capacity(16),
        }
    }

    /// Records the events that were found.
    fn record(&mut self, found: &Vec<Event>)
        requires
            old(self).wf(),
            all_in_tree(old(self)@.tree, events_view(found@)),
        ensures
            final(self).wf(),
            final(self)@ == (WorkerView {
                events: with_events(old(self)@.events, events_view(found@)),
                ..old(self)@
            }),
    {
        let ghost all = events_view(found@);
        let mut k: usize = 0;
        proof {
            assert(all.take(0) =~= Seq::empty());
        }
        while k < found.len()
            invariant
                self.wf(),
                all == events_view(found@),
                k <= found@.len(),
                all_in_tree(self@.tree, all),
                self@ == (WorkerView {
                    events: with_events(old(self)@.events, all.take(k as int)),
                    ..old(self)@
                }),
            decreases found@.len() - k,
        {
            let ghost event = all[k as int];
            assert(event == found@[k as int]@);
            proof {
                self.lemma_wf();
                assert(in_tree(self@.tree, event.path));
                lemma_event_fits(self@.tree, self@.events, event.path);
                lemma_with_event_in_tree(self@.tree, self@.events, event);
            }
            self.events.add(found[k].path.clone(), found[k].ty);
            proof {
                assert(all.take(k + 1).drop_last() =~= all.take(k as int));
                assert(all.take(k + 1).last() == event);
            }
            k = k + 1;
        }
        proof {
            assert(all.take(k as int) =~= all);
        }
    }

    /// Takes over what the system reported.
    pub fn receive(&mut self, queue: &mut PendingChanges)
        requires
            old(self).wf(),
        ensures
            final(self).wf(),
            final(self)@ == (WorkerView {
                changes: old(self)@.changes + old(queue).changes(),
                recrawl: old(self)@.recrawl || old(queue).wants_recrawl(),
                ..old(self)@
            }),
            final(queue).changes() == Seq::<ChangeView>::empty(),
            !final(queue).wants_recrawl(),
    {
        queue.take_into(&mut self.pending_changes);
    }

    /// Whether events wait to be handed out, so that the wait for changes ends after the settle
    /// time.
    pub fn is_settling(&self) -> (r: bool)
        ensures
            r == (self@.events.len() > 0),
    {
        !self.events.is_empty()
    }

    /// Whether there is room for one more node.
    pub fn has_room(&self) -> (r: bool)
        ensures
            r == self@.tree.has_room(),
    {
        self.tree.has_room()
    }

    /// Whether a path is in the tree.
    pub fn is_known(&self, path: &CanonicalPathBuf) -> (r: bool)
        requires
            self.wf(),
        ensures
            r == (self@.tree.find(path@) is Some),
    {
        self.tree.lookup(path).is_some()
    }

    /// Decides what to do once the wait for changes is over. `settled` says that it ended because
    /// nothing changed for the settle time.
    pub fn next_action(&mut self, settled: bool) -> (r: Action)
        requires
            old(self).wf(),
        ensures
            final(self).wf(),
            match r {
                Action::Deliver(events) => {
                    &&& settled
                    &&& events@ == old(self)@.events
                    &&& distinct_paths(events@)
                    &&& final(self)@ == (WorkerView { events: Seq::empty(), ..old(self)@ })
                },
                Action::Recrawl => {
                    &&& !settled && old(self)@.recrawl
                    &&& final(self)@ == (WorkerView { recrawl: false, ..old(self)@ })
                },
                Action::Apply(transaction) => {
                    &&& !settled && !old(self)@.recrawl
                    &&& transaction.wf()
                    &&& transaction@.to_multiset() == old(self)@.changes.to_multiset()
                    &&& final(self)@ == (WorkerView { changes: Seq::empty(), ..old(self)@ })
                },
            },
    {
        if settled {
            return Action::Deliver(self.events.take());
        }
        if self.pending_changes.take_recrawl() {
            return Action::Recrawl;
        }
        Action::Apply(self.pending_changes.drain())
    }

    /// Adds a root directory to the tree. `meta` is what is on disk at its path; it matters only
    /// for a path that is not in the tree yet. Returns its node, or nothing if there is no such
    /// directory or it is watched already.
    pub fn add_root(
        &mut self,
        root: CanonicalPathBuf,
        recursive: bool,
        meta: Option<Metadata>,
    ) -> (r: Option<NodeId>)
        requires
            old(self).wf(),
            old(self)@.tree.has_room(),
        ensures
            final(self).wf(),
            is_added(
                old(self)@.tree,
                root@,
                recursive,
                true,
                meta,
                final(self)@.tree,
                node_number(r),
            ),
            final(self)@ == (WorkerView { tree: final(self)@.tree, ..old(self)@ }),
            r matches Some(id) ==> id@ is Some && 0 <= id@->0 < final(self)@.tree.nodes.len(),
    {
        let ghost before = self@.tree;
        let r = self.tree.add_root(root, recursive, meta);
        proof {
            old(self).lemma_wf();
            lemma_added(before, root@, recursive, true, meta, self.tree@, node_number(r));
            lemma_roots_kept(before, self.tree@, self@.roots);
            lemma_in_tree_kept(before, self.tree@, self@.events);
        }
        r
    }

    /// Adds an entry of the walk through a new root. `meta` is what is on disk there; it matters
    /// only for a path that is not in the tree yet.
    pub fn crawl_root_entry(
        &mut self,
        recursive: bool,
        path: CanonicalPathBuf,
        meta: Option<Metadata>,
    ) -> (r: Found)
        requires
            old(self).wf(),
            old(self)@.tree.has_room(),
        ensures
            final(self).wf(),
            exists|node: Option<int>|
                {
                    &&& #[trigger] is_added(
                        old(self)@.tree,
                        path@,
                        recursive,
                        false,
                        meta,
                        final(self)@.tree,
                        node,
                    )
                    &&& r is SkipDir <==> node is None
                    &&& r is Watch <==> node is Some && recursive
                        && final(self)@.tree.nodes[node->0].meta == NodeMeta::Dir
                },
            final(self)@ == (WorkerView { tree: final(self)@.tree, ..old(self)@ }),
            r matches Found::Watch(watched) ==> watched@ == path@,
    {
        let ghost before = self@.tree;
        let r = self.tree.crawl_root_entry(recursive, path, meta);
        proof {
            old(self).lemma_wf();
            let node = choose|node: Option<int>|
                {
                    &&& #[trigger] is_added(
                        before,
                        path@,
                        recursive,
                        false,
                        meta,
                        self.tree@,
                        node,
                    )
                    &&& r is SkipDir <==> node is None
                    &&& r is Watch <==> node is Some && recursive
                        && self.tree@.nodes[node->0].meta == NodeMeta::Dir
                };
            lemma_added(before, path@, recursive, false, meta, self.tree@, node);
            lemma_roots_kept(before, self.tree@, self@.roots);
            lemma_in_tree_kept(before, self.tree@, self@.events);
        }
        r
    }

    /// Adds a directory of the tree to the roots.
    pub fn insert_root<F: Filter + ?Sized>(&mut self, filter: &F, node: NodeId, recursive: bool)
        requires
            old(self).wf(),
            node@ is Some,
            0 <= node@->0 < old(self)@.tree.nodes.len(),
        ensures
            final(self).wf(),
            final(self)@ == (WorkerView {
                roots: with_root(
                    filter,
                    old(self)@.tree,
                    old(self)@.roots,
                    (node@->0, recursive),
                ),
                ..old(self)@
            }),
    {
        insert_root(&self.tree, filter, &mut self.roots, node, recursive);
        proof {
            let root = (node@->0, recursive);
            law_roots_stay_sorted(filter, old(self)@.tree, old(self)@.roots, root);
            lemma_roots_valid(filter, old(self)@.tree, old(self)@.roots, root);
        }
    }

    /// How many roots there are.
    pub fn root_count(&self) -> (r: usize)
        ensures
            r == self@.roots.len(),
    {
        self.roots.len()
    }

    /// The node of the root at a position.
    pub fn root_at(&self, i: usize) -> (r: NodeId)
        requires
            self.wf(),
            i < self@.roots.len(),
        ensures
            r@ == Some(self@.roots[i as int].0),
            0 <= r@->0 < self@.tree.nodes.len(),
    {
        assert(self@.roots[i as int] == (self.roots@[i as int].0@->0, self.roots@[i as int].1));
        self.roots[i].0
    }

    /// The path of a node.
    pub fn path_of(&self, node: NodeId) -> (r: &CanonicalPathBuf)
        requires
            node@ is Some,
            0 <= node@->0 < self@.tree.nodes.len(),
        ensures
            r@ == self@.tree.nodes[node@->0].path,
    {
        self.tree.path_of(node)
    }

    /// Starts a crawl of a directory of the tree.
    pub fn crawl(&mut self, root: NodeId) -> (r: Crawl)
        requires
            old(self).wf(),
            root@ is Some,
            0 <= root@->0 < old(self)@.tree.nodes.len(),
        ensures
            final(self).wf(),
            final(self)@ == (WorkerView {
                tree: entered(old(self)@.tree, root@->0),
                stack: stacked(old(self)@.tree, old(self)@.stack, root@->0, 0),
                ..old(self)@
            }),
            r.path@ == old(self)@.tree.nodes[root@->0].path,
            r.recursive == old(self)@.tree.nodes[root@->0].flags.recursive(),
            r.recursive == (old(self)@.tree.nodes[root@->0].flags.watch_children && old(
                self,
            )@.tree.nodes[root@->0].flags.watch_subtree),
    {
        let ghost before = self@.tree;
        let r = self.tree.crawl(root, &mut self.work_stack);
        proof {
            lemma_roots_kept(before, self.tree@, self@.roots);
            lemma_in_tree_kept(before, self.tree@, self@.events);
        }
        r
    }

    /// Brings the tree up to date for an entry of the walk of a crawl. `meta` is what is on disk
    /// there. Returns the path if it is a directory that is to be watched.
    pub fn crawl_entry(
        &mut self,
        recursive: bool,
        depth: usize,
        path: CanonicalPathBuf,
        meta: Option<Metadata>,
    ) -> (r: Option<CanonicalPathBuf>)
        requires
            old(self).wf(),
            old(self)@.tree.has_room(),
        ensures
            final(self).wf(),
            exists|crawled: Crawled|
                {
                    &&& #[trigger] is_crawled(
                        old(self)@.tree,
                        old(self)@.stack,
                        recursive,
                        depth as int,
                        path@,
                        meta,
                        crawled,
                    )
                    &&& final(self)@ == (WorkerView {
                        tree: crawled.tree,
                        stack: crawled.stack,
                        events: with_events(old(self)@.events, crawled.events),
                        ..old(self)@
                    })
                    &&& r is Some == crawled.watch
                },
            r matches Some(watched) ==> watched@ == path@,
    {
        let ghost before = self@;
        let mut found: Vec<Event> = Vec::new();
        let borrowed = path.deref();
        assert(is_stored(borrowed@));
        let r = self.tree.crawl_entry(
            recursive,
            depth,
            path,
            meta,
            &mut self.work_stack,
            &mut found,
        );
        let ghost crawled = Crawled {
            tree: self.tree@,
            stack: frames(self.work_stack@, 0),
            events: events_view(found@),
            watch: r is Some,
        };
        proof {
            old(self).lemma_wf();
            assert(events_view(found@) =~= emitted(Seq::empty(), found@));
            lemma_crawled(before.tree, before.stack, recursive, depth as int, path@, meta, crawled);
            lemma_roots_kept(before.tree, self.tree@, self@.roots);
            lemma_in_tree_kept(before.tree, self.tree@, self@.events);
        }
        self.record(&found);
        r
    }

    /// Ends a crawl: the directories that it is still in are left.
    pub fn crawl_end(&mut self)
        requires
            old(self).wf(),
        ensures
            final(self).wf(),
            ({
                let left = leave(old(self)@.tree, old(self)@.stack, 0);
                final(self)@ == (WorkerView {
                    tree: left.tree,
                    stack: Seq::empty(),
                    events: with_events(old(self)@.events, left.events),
                    ..old(self)@
                })
            }),
    {
        let ghost before = self@;
        let mut found: Vec<Event> = Vec::new();
        self.tree.crawl_end(&mut self.work_stack, &mut found);
        proof {
            old(self).lemma_wf();
            let left = leave(before.tree, before.stack, 0);
            lemma_leave(before.tree, before.stack, 0);
            assert(events_view(found@) =~= left.events);
            assert(frames(self.work_stack@, 0) =~= Seq::empty());
            lemma_roots_kept(before.tree, self.tree@, self@.roots);
            lemma_in_tree_kept(before.tree, self.tree@, self@.events);
            lemma_in_tree_kept(before.tree, self.tree@, left.events);
        }
        self.record(&found);
    }

    /// Applies the change that comes next in a transaction. `meta` is what is on disk at its path.
    /// Returns the node to crawl, where there is one.
    pub fn apply_transaction<F: Filter + ?Sized>(
        &mut self,
        transaction: &mut Transaction,
        meta: Option<Metadata>,
        filter: &F,
    ) -> (r: Option<NodeId>)
        requires
            old(self).wf(),
            old(self)@.tree.has_room(),
            old(transaction).wf(),
            old(transaction)@.len() > 0,
        ensures
            final(self).wf(),
            final(transaction).wf(),
            exists|outcome: Outcome|
                {
                    &&& #[trigger] is_applied(old(self)@.tree, old(transaction)@[0], meta, outcome)
                    &&& final(self)@ == (WorkerView {
                        tree: outcome.tree,
                        events: with_events(old(self)@.events, outcome.events),
                        ..old(self)@
                    })
                    &&& node_number(r) == crawl_target(filter, old(transaction)@[0], outcome)
                    &&& final(transaction)@ == changes_left(old(transaction)@, outcome.recurse)
                    &&& !outcome.recurse ==> final(transaction)@ == old(transaction)@.skip(1)
                    &&& forall|i: int|
                        0 < i < old(transaction)@.len() - final(transaction)@.len()
                            ==> outcome.recurse && is_ancestor(
                            old(transaction)@[0].path,
                            (#[trigger] old(transaction)@[i]).path,
                        )
                },
            final(transaction)@.len() < old(transaction)@.len(),
            final(transaction)@ == old(transaction)@.skip(
                old(transaction)@.len() - final(transaction)@.len(),
            ),
            r matches Some(id) ==> id@ is Some && 0 <= id@->0 < final(self)@.tree.nodes.len(),
    {
        let ghost before = self@;
        let ghost change = transaction@[0];
        let mut found: Vec<Event> = Vec::new();
        let r = self.tree.apply_transaction(
            transaction,
            meta,
            filter,
            &mut self.work_stack,
            &mut found,
        );
        proof {
            old(self).lemma_wf();
            assert(events_view(found@) =~= emitted(Seq::empty(), found@));
            let outcome = choose|outcome: Outcome|
                {
                    &&& #[trigger] is_applied(before.tree, change, meta, outcome)
                    &&& self.tree@ == outcome.tree
                    &&& emitted(Seq::empty(), found@) == outcome.events
                    &&& node_number(r) == crawl_target(filter, change, outcome)
                    &&& transaction@ == changes_left(old(transaction)@, outcome.recurse)
                    &&& !outcome.recurse ==> transaction@ == old(transaction)@.skip(1)
                    &&& forall|i: int|
                        0 < i < old(transaction)@.len() - transaction@.len() ==> outcome.recurse
                            && is_ancestor(
                            old(transaction)@[0].path,
                            (#[trigger] old(transaction)@[i]).path,
                        )
                };
            lemma_applied_events(before.tree, change, meta, outcome);
            lemma_roots_kept(before.tree, self.tree@, self@.roots);
            lemma_in_tree_kept(before.tree, self.tree@, self@.events);
        }
        self.record(&found);
        r
    }
}

/// The roots with one more are nodes of the tree.
proof fn lemma_roots_valid<F: Filter + ?Sized>(
    filter: &F,
    tree: TreeView,
    roots: Seq<RootView>,
    root: RootView,
)
    requires
        roots_valid(tree, roots),
        roots_sorted(tree, roots),
        0 <= root.0 < tree.nodes.len(),
    ensures
        roots_valid(tree, with_root(filter, tree, roots, root)),
{
    lemma_with_root(filter, tree, roots, root);
}

} // verus!
