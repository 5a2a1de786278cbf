//! Bringing the tree up to date with what is on disk, and adding what is to be watched.

use super::change_laws::law_no_reported_change_is_lost;
use super::model::{
    change_known, change_unknown, changes_left, crawl_target, is_added, is_applied, Outcome,
};
use super::{node_meta, FileTree, Flags, NodeMeta, NodeView};
use crate::config::Filter;
use crate::events::{emitted, events_view, Event, EventType};
use crate::ids::{node_number, NodeId};
use crate::metadata::Metadata;
use crate::path::{is_ancestor, CanonicalPathBuf};
use crate::pending::{PendingChange, Transaction};
use vstd::prelude::*;

verus! {

impl FileTree {
    /// Applies a change to a node of the tree. Returns whether what is beneath the node is to be
    /// looked into.
    fn change_existing(
        &mut self,
        i: usize,
        change: &PendingChange,
        meta: Option<Metadata>,
        work_stack: &mut Vec<(NodeId, usize)>,
        events: &mut Vec<Event>,
    ) -> (recurse: bool)
        requires
            old(self).wf(),
            old(self)@.has_room(),
            i < old(self)@.nodes.len(),
            old(self)@.nodes[i as int].path == change.path@,
        ensures
            final(self).wf(),
            (Outcome {
                tree: final(self)@,
                events: emitted(old(events)@, final(events)@),
                node: Some(i as int),
                recurse,
            }) == change_known(old(self)@, i as int, change@, meta),
            events_view(final(events)@) == events_view(old(events)@) + emitted(
                old(events)@,
                final(events)@,
            ),
            final(work_stack)@ == old(work_stack)@,
    {
        let ghost tree = self@;
        let ghost outcome = change_known(tree, i as int, change@, meta);
        proof {
            assert(tree.nodes[i as int] == self.nodes@[i as int]@);
        }
        if change.flags.mark_recursive {
            let flags = self.nodes[i].flags.with_recursive();
            self.set_flags(i, flags);
        }
        assert(self@.nodes[i as int] == self.nodes@[i as int]@);
        let mut recurse = change.flags.needs_recursive_crawl
            || change.flags.needs_non_recursive_crawl;
        match meta {
            Some(meta) => {
                let new = NodeMeta::new(&meta);
                // Another inode means that the directory may have been replaced. Nothing is known
                // of what is in it then, whatever else was reported.
                let replaced = meta.inode != self.nodes[i].inode;
                recurse = recurse || replaced;
                let changed = self.nodes[i].meta.change_type(
                    &new,
                    replaced || change.flags.origin_watcher,
                );
                if let Some(ty) = changed {
                    events.push(Event { path: change.path.clone(), ty });
                    recurse = recurse || ty == EventType::Create;
                }
                self.set_inode(i, meta.inode);
                self.set_meta(i, new);
                assert(self@.nodes[i as int] == self.nodes@[i as int]@);
                let watch_children = self.nodes[i].flags.watch_children;
                if meta.is_dir && self.nodes[i].children.is_none() && meta.size != 0
                    && watch_children {
                    self.reserve_dir(i, meta.size);
                }
                proof {
                    assert(emitted(old(events)@, events@) =~= outcome.events);
                    assert(self@ =~= outcome.tree);
                }
                recurse && watch_children
            },
            None => {
                let known = self.nodes[i].meta;
                self.set_meta(i, NodeMeta::Deleted);
                let ghost gone = self@;
                assert(gone =~= tree.with_node(
                    i as int,
                    NodeView {
                        flags: gone.nodes[i as int].flags,
                        meta: NodeMeta::Deleted,
                        ..tree.nodes[i as int]
                    },
                ));
                match known {
                    NodeMeta::Dir => {
                        self.delete_rec(i, work_stack, events);
                    },
                    NodeMeta::File { .. } => {
                        events.push(Event { path: change.path.clone(), ty: EventType::Delete });
                    },
                    NodeMeta::Deleted => {},
                }
                proof {
                    assert(emitted(old(events)@, events@) =~= outcome.events);
                }
                true
            },
        }
    }

    /// Adds a node for a path, as a child of `parent` where there is one, and reserves a list for
    /// its children if it is a directory whose children are watched.
    fn grow(&mut self, path: CanonicalPathBuf, meta: Metadata, flags: Flags, parent: Option<usize>)
        requires
            old(self).wf(),
            old(self)@.has_room(),
            old(self)@.find(path@) is None,
            parent matches Some(p) ==> old(self)@.is_parent(Some(p as int), path@),
        ensures
            final(self).wf(),
            final(self)@ == ({
                let node = NodeView {
                    path: path@,
                    meta: node_meta(meta),
                    inode: meta.inode,
                    flags,
                    children: None,
                };
                let id = old(self)@.nodes.len() as int;
                let grown = old(self)@.with_new_node(node);
                let linked = match parent {
                    Some(p) => grown.with_child(p as int, id as u32),
                    None => grown,
                };
                if meta.is_dir && flags.watch_children && meta.size != 0 {
                    linked.with_list(id)
                } else {
                    linked
                }
            }),
    {
        let id = self.nodes.len();
        let new = NodeMeta::new(&meta);
        self.push_node(path, new, meta.inode, flags);
        if let Some(p) = parent {
            proof {
                let t = self@;
                assert forall|d: int, k: int|
                    0 <= d < t.dirs.len() && 0 <= k < t.dirs[d].len() implies
                    #[trigger] t.dirs[d][k] != id by {
                    assert(old(self)@.dirs[d][k] < id);
                }
            }
            self.add_child(p, id as u32);
        }
        if meta.is_dir && flags.watch_children && meta.size != 0 {
            assert(self@.nodes[id as int].children is None);
            self.reserve_dir(id, meta.size);
        }
    }

    /// Brings the tree up to date for a change. `meta` is what is on disk at its path now. Returns
    /// the node of that path, and whether what is beneath it is to be looked into.
    pub fn apply_change(
        &mut self,
        change: &PendingChange,
        meta: Option<Metadata>,
        work_stack: &mut Vec<(NodeId, usize)>,
        events: &mut Vec<Event>,
    ) -> (r: (NodeId, bool))
        requires
            old(self).wf(),
            old(self)@.has_room(),
        ensures
            final(self).wf(),
            is_applied(
                old(self)@,
                change@,
                meta,
                (Outcome {
                    tree: final(self)@,
                    events: emitted(old(events)@, final(events)@),
                    node: r.0@,
                    recurse: r.1,
                }),
            ),
            events_view(final(events)@) == events_view(old(events)@) + emitted(
                old(events)@,
                final(events)@,
            ),
            final(work_stack)@ == old(work_stack)@,
            r.0@ matches Some(i) ==> 0 <= i < final(self)@.nodes.len(),
    {
        let ghost tree = self@;
        if let Some(i) = self.find(&change.path) {
            let recurse = self.change_existing(i, change, meta, work_stack, events);
            return (NodeId::from(i), recurse);
        }
        let parent = self.find_parent(&change.path);
        let ghost spec_parent = match parent {
            Some(p) => Some(p as int),
            None => None,
        };
        let ghost outcome = change_unknown(tree, change@, meta, spec_parent);
        let meta = match meta {
            Some(meta) => meta,
            None => {
                assert(emitted(old(events)@, events@) =~= outcome.events);
                assert(events_view(events@) =~= events_view(old(events)@) + outcome.events);
                return (NodeId::none(), true);
            },
        };
        let p = match parent {
            Some(p) => p,
            None => {
                assert(emitted(old(events)@, events@) =~= outcome.events);
                assert(events_view(events@) =~= events_view(old(events)@) + outcome.events);
                return (NodeId::none(), true);
            },
        };
        assert(tree.nodes[p as int] == self.nodes@[p as int]@);
        let recursive = change.flags.mark_recursive || self.nodes[p].flags.is_recursive();
        let flags = if recursive {
            Flags::empty().with_recursive()
        } else {
            Flags::empty()
        };
        let id = NodeId::from(self.nodes.len());
        self.grow(change.path.clone(), meta, flags, Some(p));
        if !meta.is_dir {
            events.push(Event { path: change.path.clone(), ty: EventType::Create });
        }
        proof {
            assert(emitted(old(events)@, events@) =~= outcome.events);
            assert(events_view(events@) =~= events_view(old(events)@) + outcome.events);
            assert(self@ =~= outcome.tree);
        }
        (id, recursive)
    }

    /// Adds a root directory to watch. `meta` is what is on disk at its path. Returns its node, or
    /// nothing if there is no such directory or it is watched already.
    pub fn add_root(
        &mut self,
        root: CanonicalPathBuf,
        recursive: bool,
        meta: Option<Metadata>,
    ) -> (r: Option<NodeId>)
        requires
            old(self).wf(),
            old(self)@.has_room(),
        ensures
            final(self).wf(),
            is_added(old(self)@, root@, recursive, true, meta, final(self)@, node_number(r)),
            r matches Some(id) ==> id@ is Some && 0 <= id@->0 < final(self)@.nodes.len(),
    {
        self.add(root, recursive, true, meta)
    }

    /// Adds a path to watch. `meta` is what is on disk there.
    pub(super) fn add(
        &mut self,
        path: CanonicalPathBuf,
        recursive: bool,
        root: bool,
        meta: Option<Metadata>,
    ) -> (r: Option<NodeId>)
        requires
            old(self).wf(),
            old(self)@.has_room(),
        ensures
            final(self).wf(),
            is_added(old(self)@, path@, recursive, root, meta, final(self)@, node_number(r)),
            r matches Some(id) ==> id@ is Some && 0 <= id@->0 < final(self)@.nodes.len(),
    {
        let ghost tree = self@;
        if let Some(i) = self.find(&path) {
            assert(tree.nodes[i as int] == self.nodes@[i as int]@);
            // What is watched already is left alone, unless it is to be watched recursively now
            // and was not before.
            if !recursive || (root && !self.nodes[i].meta.is_dir())
                || self.nodes[i].flags.is_recursive() {
                return None;
            }
            let flags = self.nodes[i].flags.with_recursive();
            self.set_flags(i, flags);
            return Some(NodeId::from(i));
        }
        let parent = self.find_parent(&path);
        let ghost spec_parent = match parent {
            Some(p) => Some(p as int),
            None => None,
        };
        assert(tree.is_parent(spec_parent, path@));
        let meta = match meta {
            Some(meta) => meta,
            None => {
                return None;
            },
        };
        if (parent.is_none() && !root) || (root && !meta.is_dir) {
            return None;
        }
        let flags = if recursive {
            Flags::empty().with_recursive()
        } else if root {
            Flags { watch_children: true, ..Flags::empty() }
        } else {
            Flags::empty()
        };
        let id = NodeId::from(self.nodes.len());
        self.grow(path, meta, flags, parent);
        Some(id)
    }

    /// Applies the change that comes next in a transaction. `meta` is what is on disk at its path.
    /// Returns the node to crawl, where there is one.
    pub fn apply_transaction<F: Filter + ?Sized>(
        &mut self,
        transaction: &mut Transaction,
        meta: Option<Metadata>,
        filter: &F,
        work_stack: &mut Vec<(NodeId, usize)>,
        events: &mut Vec<Event>,
    ) -> (r: Option<NodeId>)
        requires
            old(self).wf(),
            old(self)@.has_room(),
            old(transaction).wf(),
            old(transaction)@.len() > 0,
        ensures
            final(self).wf(),
            final(transaction).wf(),
            exists|outcome: Outcome|
                {
                    &&& #[trigger] is_applied(old(self)@, old(transaction)@[0], meta, outcome)
                    &&& final(self)@ == outcome.tree
                    &&& emitted(old(events)@, final(events)@) == outcome.events
                    &&& node_number(r) == crawl_target(filter, old(transaction)@[0], outcome)
                    &&& final(transaction)@ == changes_left(old(transaction)@, outcome.recurse)
                    &&& !outcome.recurse ==> final(transaction)@ == old(transaction)@.skip(1)
                    &&& forall|i: int|
                        0 < i < old(transaction)@.len() - final(transaction)@.len()
                            ==> outcome.recurse && is_ancestor(
                            old(transaction)@[0].path,
                            (#[trigger] old(transaction)@[i]).path,
                        )
                },
            events_view(final(events)@) == events_view(old(events)@) + emitted(
                old(events)@,
                final(events)@,
            ),
            final(work_stack)@ == old(work_stack)@,
            final(transaction)@.len() < old(transaction)@.len(),
            final(transaction)@ == old(transaction)@.skip(
                old(transaction)@.len() - final(transaction)@.len(),
            ),
            r matches Some(id) ==> id@ is Some && 0 <= id@->0 < final(self)@.nodes.len(),
    {
        let change = match transaction.current() {
            Some(change) => PendingChange { path: change.path.clone(), flags: change.flags },
            None => {
                return None;
            },
        };
        transaction.advance();
        let (node, recurse) = self.apply_change(&change, meta, work_stack, events);
        let ghost outcome = Outcome {
            tree: self@,
            events: emitted(old(events)@, events@),
            node: node@,
            recurse,
        };
        assert(is_applied(old(self)@, old(transaction)@[0], meta, outcome));
        proof {
            law_no_reported_change_is_lost(
                old(transaction)@,
                recurse,
                changes_left(old(transaction)@, recurse),
            );
        }
        if recurse {
            transaction.skip_beneath(&change.path);
            if node.is_some() {
                let i = node.idx();
                assert(self@.nodes[i as int] == self.nodes@[i as int]@);
                // What is ignored is not worth an expensive crawl.
                if self.nodes[i].meta.is_dir() && !filter.ignore_path(
                    change.path.as_bytes(),
                    Some(true),
                ) {
                    return Some(node);
                }
            }
        }
        None
    }
}

} // verus!
