//! What a reported change comes to, and what becomes of a path that is added to be watched.

use super::followed::lemma_beneath_with_dirs;
use super::laws::{
    beneath, is_child, law_delete_reports_exactly_the_files, law_tree_shows_the_disk,
    lemma_start_is_marked,
};
use super::lemmas::{
    lemma_added, lemma_added_wf, lemma_applied, lemma_applied_wf, lemma_crawled,
    lemma_delete_beneath_shape, lemma_find, lemma_leave, lemma_same_shape,
};
use super::model::{
    added, change_unknown, changes_left, crawl_change, crawl_target, crawl_visit, delete_beneath,
    is_added, is_applied, is_crawled, leave, CrawlStack, Crawled, Outcome, TreeView,
};
use super::walk::lemma_apply_spares;
use super::{meta_change, Flags, NodeMeta, NodeView};
use crate::config::Filter;
use crate::events::{EventType, EventView};
use crate::metadata::Metadata;
use crate::path::{is_ancestor, is_stored, parent_text, path_text};
use crate::pending::{without_beneath, ChangeView};
use vstd::prelude::*;

verus! {

/// What is left of the changes when those at the front that are beneath a path are left out.
proof fn lemma_without_beneath(changes: Seq<ChangeView>, parent: Seq<u8>)
    ensures
        ({
            let left = without_beneath(changes, parent);
            let n = changes.len() - left.len();
            &&& 0 <= n
            &&& left == changes.skip(n)
            &&& forall|i: int| 0 <= i < n ==> is_ancestor(parent, (#[trigger] changes[i]).path)
            &&& left.len() > 0 ==> !is_ancestor(parent, left[0].path)
        }),
    decreases changes.len(),
{
    if changes.len() > 0 && is_ancestor(parent, changes[0].path) {
        let rest = changes.skip(1);
        lemma_without_beneath(rest, parent);
        let left = without_beneath(changes, parent);
        let n = changes.len() - left.len();
        assert(left =~= changes.skip(n));
        assert forall|i: int| 0 <= i < n implies is_ancestor(
            parent,
            (#[trigger] changes[i]).path,
        ) by {
            if i > 0 {
                assert(rest[i - 1] == changes[i]);
            }
        }
    } else {
        assert(changes.skip(0) =~= changes);
    }
}

/// No reported change is lost. What is left of the changes once the first was applied is all of the
/// others, in order, but for some that come next: those are beneath the path of the first, and left
/// out only where what is beneath that path is looked into. Where it is not, only the first is
/// gone.
pub proof fn law_no_reported_change_is_lost(
    changes: Seq<ChangeView>,
    recurse: bool,
    left: Seq<ChangeView>,
)
    requires
        changes.len() > 0,
        left == changes_left(changes, recurse),
    ensures
        left.len() < changes.len(),
        left == changes.skip(changes.len() - left.len()),
        forall|i: int|
            0 < i < changes.len() - left.len() ==> recurse && is_ancestor(
                changes[0].path,
                (#[trigger] changes[i]).path,
            ),
        !recurse ==> left == changes.skip(1),
        recurse && left.len() > 0 ==> !is_ancestor(changes[0].path, left[0].path),
        forall|i: int|
            0 < i < changes.len() && !is_ancestor(changes[0].path, (#[trigger] changes[i]).path)
                ==> left.contains(changes[i]),
{
    let rest = changes.skip(1);
    let path = changes[0].path;
    lemma_without_beneath(rest, path);
    assert(left =~= changes.skip(changes.len() - left.len()));
    assert forall|i: int| 0 < i < changes.len() - left.len() implies recurse && is_ancestor(
        path,
        (#[trigger] changes[i]).path,
    ) by {
        assert(rest[i - 1] == changes[i]);
    }
    assert forall|i: int|
        0 < i < changes.len() && !is_ancestor(
            path,
            (#[trigger] changes[i]).path,
        ) implies left.contains(changes[i]) by {
        let n = changes.len() - left.len();
        assert(left[i - n] == changes[i]);
    }
}

/// What is beneath a path that is in the tree is looked into where nothing is there any more, and
/// otherwise if and only if the children of the node are watched, or are to be, and a crawl is
/// asked for, the inode is another, or a file turned up where none was.
pub proof fn law_known_path_is_looked_into_when_due(
    tree: TreeView,
    change: ChangeView,
    meta: Option<Metadata>,
    outcome: Outcome,
    i: int,
)
    requires
        tree.wf(),
        tree.is_at(i, change.path),
        is_applied(tree, change, meta, outcome),
    ensures
        outcome.node == Some(i),
        meta is None ==> outcome.recurse,
        meta matches Some(found) ==> (outcome.recurse <==> {
            &&& tree.nodes[i].flags.watch_children || change.flags.mark_recursive
            &&& {
                ||| change.flags.needs_recursive_crawl
                ||| change.flags.needs_non_recursive_crawl
                ||| found.inode != tree.nodes[i].inode
                ||| !found.is_dir && !(tree.nodes[i].meta is File)
            }
        }),
{
    lemma_find(tree, i, change.path);
}

/// A change for a path that is not in the tree, where nothing is on disk or the directory that the
/// path is in is not in the tree either, changes and reports nothing. What is beneath the path
/// needs no look of its own then.
pub proof fn law_stray_path_is_left_out(
    tree: TreeView,
    change: ChangeView,
    meta: Option<Metadata>,
    outcome: Outcome,
)
    requires
        is_applied(tree, change, meta, outcome),
        forall|j: int| !tree.is_at(j, change.path),
        meta is None || forall|p: int|
            0 <= p < tree.nodes.len() ==> parent_text(change.path) != Some(
                path_text(#[trigger] tree.nodes[p].path),
            ),
    ensures
        outcome.tree == tree,
        outcome.events == Seq::<EventView>::empty(),
        outcome.node is None,
        outcome.recurse,
{
    let parent = choose|parent: Option<int>| #[trigger]
        tree.is_parent(parent, change.path) && outcome == change_unknown(
            tree,
            change,
            meta,
            parent,
        );
    if let Some(p) = parent {
        assert(parent_text(change.path) == Some(path_text(tree.nodes[p].path)));
    }
}

/// What turns up in a directory of the tree gets a node, the next one, which records what is on
/// disk, becomes a child of the directory, and is watched with everything beneath it if and only if
/// the directory is or the change says so. What is beneath it is looked into if and only if it is
/// watched so. A file is reported as created, a directory is not reported.
pub proof fn law_what_turns_up_is_taken_up(
    tree: TreeView,
    change: ChangeView,
    meta: Metadata,
    outcome: Outcome,
    q: int,
) -> (p: int)
    requires
        tree.wf(),
        tree.has_room(),
        is_stored(change.path),
        is_applied(tree, change, Some(meta), outcome),
        forall|j: int| !tree.is_at(j, change.path),
        0 <= q < tree.nodes.len(),
        parent_text(change.path) == Some(path_text(tree.nodes[q].path)),
    ensures
        0 <= p < tree.nodes.len(),
        parent_text(change.path) == Some(path_text(tree.nodes[p].path)),
        outcome.node == Some(tree.nodes.len() as int),
        outcome.tree.nodes.len() == tree.nodes.len() + 1,
        is_child(outcome.tree, p, tree.nodes.len() as int),
        ({
            let node = outcome.tree.nodes[tree.nodes.len() as int];
            let deep = change.flags.mark_recursive || (tree.nodes[p].flags.watch_children
                && tree.nodes[p].flags.watch_subtree);
            &&& node.path == change.path
            &&& node.inode == meta.inode
            &&& meta.is_dir ==> node.meta == NodeMeta::Dir
            &&& !meta.is_dir ==> node.meta == (NodeMeta::File {
                mtime: meta.mtime,
                size: meta.size,
            })
            &&& !node.flags.maybe_deleted
            &&& node.flags.watch_children == deep
            &&& node.flags.watch_subtree == deep
            &&& outcome.recurse == deep
        }),
        meta.is_dir ==> outcome.events == Seq::<EventView>::empty(),
        !meta.is_dir ==> outcome.events == seq![
            EventView { path: change.path, ty: EventType::Create },
        ],
{
    let parent = choose|parent: Option<int>| #[trigger]
        tree.is_parent(parent, change.path) && outcome == change_unknown(
            tree,
            change,
            Some(meta),
            parent,
        );
    if parent is None {
        assert(parent_text(change.path) != Some(path_text(tree.nodes[q].path)));
    }
    let p = parent->0;
    let id = tree.nodes.len() as int;
    let list = outcome.tree.children_of(p);
    assert(list[list.len() - 1] == id as u32);
    p
}

/// What is reported for a path that is in the tree and on disk: a file that turned up where none
/// was, a file that made way for a directory, and a file whose time, size or inode is another, or
/// that the system reports a write to. Nothing else is.
pub proof fn law_look_at_a_known_path_reports_its_file(
    tree: TreeView,
    change: ChangeView,
    meta: Metadata,
    outcome: Outcome,
    i: int,
)
    requires
        tree.wf(),
        tree.is_at(i, change.path),
        is_applied(tree, change, Some(meta), outcome),
    ensures
        outcome.events == match tree.nodes[i].meta {
            NodeMeta::File { mtime, size } => if meta.is_dir {
                seq![EventView { path: change.path, ty: EventType::Delete }]
            } else if mtime != meta.mtime || size != meta.size || tree.nodes[i].inode != meta.inode
                || change.flags.origin_watcher {
                seq![EventView { path: change.path, ty: EventType::Modified }]
            } else {
                Seq::empty()
            },
            _ => if meta.is_dir {
                Seq::empty()
            } else {
                seq![EventView { path: change.path, ty: EventType::Create }]
            },
        },
{
    lemma_find(tree, i, change.path);
}

/// What is reported for a path that is in the tree and not on disk any more: the file that was
/// there, and the files beneath the directory that was there, as deleted. Nothing is reported for
/// what was known to be gone.
pub proof fn law_what_is_gone_is_reported_as_deleted(
    tree: TreeView,
    change: ChangeView,
    outcome: Outcome,
    i: int,
    event: EventView,
)
    requires
        tree.wf(),
        tree.is_at(i, change.path),
        is_applied(tree, change, None, outcome),
    ensures
        outcome.events.contains(event) <==> event.ty == EventType::Delete && {
            ||| tree.nodes[i].meta is File && event.path == change.path
            ||| tree.nodes[i].meta == NodeMeta::Dir && exists|j: int|
                0 <= j < tree.nodes.len() && #[trigger] beneath(tree, i, j) && tree.nodes[j].meta
                    is File && event.path == tree.nodes[j].path
        },
{
    lemma_find(tree, i, change.path);
    let node = tree.nodes[i];
    if node.meta is File {
        assert(outcome.events == seq![tree.delete_event(i)]);
        assert(outcome.events[0] == tree.delete_event(i));
        assert(event == tree.delete_event(i) ==> outcome.events.contains(event));
    } else if node.meta == NodeMeta::Dir {
        let flags = if change.flags.mark_recursive {
            node.flags.marked_recursive()
        } else {
            node.flags
        };
        let gone = tree.with_node(i, NodeView { flags, meta: NodeMeta::Deleted, ..node });
        lemma_same_shape(tree, gone);
        law_delete_reports_exactly_the_files(gone, i, event);
        assert forall|j: int| 0 <= j < tree.nodes.len() implies #[trigger] beneath(gone, i, j)
            == beneath(tree, i, j) by {
            if beneath(gone, i, j) {
                lemma_beneath_with_dirs(gone, tree, i, j);
            }
            if beneath(tree, i, j) {
                lemma_beneath_with_dirs(tree, gone, i, j);
            }
        }
        if outcome.events.contains(event) {
            let j = choose|j: int|
                0 <= j < tree.nodes.len() && #[trigger] beneath(gone, i, j) && gone.nodes[j].meta
                    is File && event == gone.delete_event(j);
            assert(beneath(tree, i, j));
            assert(j != i);
        }
        if event.ty == EventType::Delete && exists|j: int|
            0 <= j < tree.nodes.len() && #[trigger] beneath(tree, i, j) && tree.nodes[j].meta
                is File && event.path == tree.nodes[j].path {
            let j = choose|j: int|
                0 <= j < tree.nodes.len() && #[trigger] beneath(tree, i, j) && tree.nodes[j].meta
                    is File && event.path == tree.nodes[j].path;
            assert(beneath(gone, i, j));
            assert(event == gone.delete_event(j));
        }
    }
}

/// A change leaves every other node as it is, but for what is beneath a directory that is gone; of
/// the node of its path it updates what is on disk, and watches it with everything beneath it where
/// it says so, and otherwise as before. Nodes keep their children.
pub proof fn law_change_keeps_to_its_path(
    tree: TreeView,
    change: ChangeView,
    meta: Option<Metadata>,
    outcome: Outcome,
    i: int,
)
    requires
        tree.wf(),
        tree.has_room(),
        tree.is_at(i, change.path),
        is_applied(tree, change, meta, outcome),
    ensures
        outcome.tree.nodes.len() == tree.nodes.len(),
        ({
            let old_node = tree.nodes[i];
            let node = outcome.tree.nodes[i];
            &&& node.path == old_node.path
            &&& node.flags.maybe_deleted == old_node.flags.maybe_deleted
            &&& node.flags.watch_children == (old_node.flags.watch_children
                || change.flags.mark_recursive)
            &&& node.flags.watch_subtree == (old_node.flags.watch_subtree
                || change.flags.mark_recursive)
            &&& match meta {
                Some(found) => {
                    &&& node.inode == found.inode
                    &&& found.is_dir ==> node.meta == NodeMeta::Dir
                    &&& !found.is_dir ==> node.meta == (NodeMeta::File {
                        mtime: found.mtime,
                        size: found.size,
                    })
                },
                None => node.inode == old_node.inode && node.meta == NodeMeta::Deleted,
            }
        }),
        forall|j: int|
            0 <= j < tree.nodes.len() && j != i ==> {
                let node = #[trigger] outcome.tree.nodes[j];
                &&& node.path == tree.nodes[j].path
                &&& node.inode == tree.nodes[j].inode
                &&& node.flags == tree.nodes[j].flags
                &&& node.meta == tree.nodes[j].meta || (meta is None && tree.nodes[i].meta
                    == NodeMeta::Dir && node.meta == NodeMeta::Deleted)
            },
        forall|x: int, c: int|
            0 <= x < tree.nodes.len() && 0 <= c < tree.nodes.len() ==> #[trigger] is_child(
                outcome.tree,
                x,
                c,
            ) == is_child(tree, x, c),
{
    lemma_find(tree, i, change.path);
    lemma_applied(tree, change, meta, outcome);
    lemma_apply_spares(tree, change, meta, outcome);
    let node = tree.nodes[i];
    let flags = if change.flags.mark_recursive {
        node.flags.marked_recursive()
    } else {
        node.flags
    };
    let gone = tree.with_node(i, NodeView { flags, meta: NodeMeta::Deleted, ..node });
    lemma_same_shape(tree, gone);
    lemma_delete_beneath_shape(gone, i);
    lemma_start_is_marked(gone, i);
    assert(delete_beneath(gone, i).tree.nodes[i].flags == flags);
    assert forall|x: int, c: int|
        0 <= x < tree.nodes.len() && 0 <= c < tree.nodes.len() implies #[trigger] is_child(
        outcome.tree,
        x,
        c,
    ) == is_child(tree, x, c) by {
        if is_child(tree, x, c) {
            assert(is_child(outcome.tree, x, c));
        }
    }
}

/// A new path leaves every other node as it is, and keeps all children.
pub proof fn law_new_path_keeps_the_rest(
    tree: TreeView,
    change: ChangeView,
    meta: Option<Metadata>,
    outcome: Outcome,
)
    requires
        tree.wf(),
        tree.has_room(),
        is_stored(change.path),
        is_applied(tree, change, meta, outcome),
        forall|j: int| !tree.is_at(j, change.path),
    ensures
        tree.nodes.len() <= outcome.tree.nodes.len(),
        forall|j: int|
            0 <= j < tree.nodes.len() ==> {
                let node = #[trigger] outcome.tree.nodes[j];
                &&& node.path == tree.nodes[j].path
                &&& node.inode == tree.nodes[j].inode
                &&& node.flags == tree.nodes[j].flags
                &&& node.meta == tree.nodes[j].meta
            },
        forall|x: int, c: int|
            0 <= x < tree.nodes.len() && 0 <= c < tree.nodes.len() ==> #[trigger] is_child(
                outcome.tree,
                x,
                c,
            ) == is_child(tree, x, c),
{
    lemma_applied(tree, change, meta, outcome);
    lemma_apply_spares(tree, change, meta, outcome);
    assert forall|x: int, c: int|
        0 <= x < tree.nodes.len() && 0 <= c < tree.nodes.len() implies #[trigger] is_child(
        outcome.tree,
        x,
        c,
    ) == is_child(tree, x, c) by {
        if is_child(tree, x, c) {
            assert(is_child(outcome.tree, x, c));
        }
    }
}

/// The node that is handed back to be crawled for a path that is in the tree: its own, if and only
/// if a directory is on disk that is not ignored, its children are watched, or are to be, and a
/// crawl is asked for or its inode is another, whatever else the change says.
pub proof fn law_known_directory_is_crawled_when_due<F: Filter + ?Sized>(
    filter: &F,
    tree: TreeView,
    change: ChangeView,
    meta: Option<Metadata>,
    outcome: Outcome,
    i: int,
)
    requires
        tree.wf(),
        tree.is_at(i, change.path),
        is_applied(tree, change, meta, outcome),
    ensures
        crawl_target(filter, change, outcome) == if (meta matches Some(found) && found.is_dir
            && !filter.ignores(path_text(change.path), Some(true)) && (
        tree.nodes[i].flags.watch_children || change.flags.mark_recursive) && (
        change.flags.needs_recursive_crawl || change.flags.needs_non_recursive_crawl || found.inode
            != tree.nodes[i].inode)) {
            Some(i)
        } else {
            None
        },
{
    law_known_path_is_looked_into_when_due(tree, change, meta, outcome, i);
    law_tree_shows_the_disk(tree, change, meta, outcome);
}

/// The node that is handed back to be crawled for a path that is not in the tree: the new one,
/// where a directory that is not ignored turned up in a directory that is watched with everything
/// beneath it, or is to be watched so, whatever else the change says. Otherwise there is none.
pub proof fn law_new_directory_is_crawled_when_due<F: Filter + ?Sized>(
    filter: &F,
    tree: TreeView,
    change: ChangeView,
    meta: Option<Metadata>,
    outcome: Outcome,
)
    requires
        tree.wf(),
        tree.has_room(),
        is_stored(change.path),
        is_applied(tree, change, meta, outcome),
        forall|j: int| !tree.is_at(j, change.path),
    ensures
        ({
            let target = crawl_target(filter, change, outcome);
            let fits = meta matches Some(found) && found.is_dir && !filter.ignores(
                path_text(change.path),
                Some(true),
            );
            &&& fits && (exists|p: int| is_parent_of_path(tree, p, change.path)) && (
            change.flags.mark_recursive || forall|p: int| #[trigger]
                is_parent_of_path(tree, p, change.path) ==> tree.nodes[p].flags.watch_children
                    && tree.nodes[p].flags.watch_subtree) ==> target == Some(
                tree.nodes.len() as int,
            )
            &&& target is Some ==> {
                &&& fits
                &&& target == Some(tree.nodes.len() as int)
                &&& exists|p: int| #[trigger]
                    is_parent_of_path(tree, p, change.path) && (change.flags.mark_recursive || (
                    tree.nodes[p].flags.watch_children && tree.nodes[p].flags.watch_subtree))
            }
        }),
{
    if meta is Some && exists|p: int| is_parent_of_path(tree, p, change.path) {
        let q = choose|q: int| is_parent_of_path(tree, q, change.path);
        let p = law_what_turns_up_is_taken_up(tree, change, meta->0, outcome, q);
        assert(is_parent_of_path(tree, p, change.path));
    } else {
        assert(meta is None || forall|p: int|
            0 <= p < tree.nodes.len() ==> parent_text(change.path) != Some(
                path_text(#[trigger] tree.nodes[p].path),
            )) by {
            if meta is Some {
                assert forall|p: int| 0 <= p < tree.nodes.len() implies parent_text(change.path)
                    != Some(path_text(#[trigger] tree.nodes[p].path)) by {
                    assert(!is_parent_of_path(tree, p, change.path));
                }
            }
        }
        law_stray_path_is_left_out(tree, change, meta, outcome);
    }
}

/// The path is in the directory of this node.
pub open spec fn is_parent_of_path(tree: TreeView, p: int, path: Seq<u8>) -> bool {
    0 <= p < tree.nodes.len() && parent_text(path) == Some(path_text(tree.nodes[p].path))
}

/// A change that is left out when another was applied is for a path beneath the other one, and need
/// not be looked into: the directory at the other path is crawled, there is no directory on disk
/// any more, it is ignored, or it is in no directory that is known.
pub proof fn law_left_out_change_is_covered<F: Filter + ?Sized>(
    filter: &F,
    tree: TreeView,
    changes: Seq<ChangeView>,
    meta: Option<Metadata>,
    outcome: Outcome,
    left: Seq<ChangeView>,
    k: int,
)
    requires
        tree.wf(),
        tree.has_room(),
        changes.len() > 0,
        is_stored(changes[0].path),
        is_applied(tree, changes[0], meta, outcome),
        left == changes_left(changes, outcome.recurse),
        0 < k < changes.len() - left.len(),
    ensures
        is_ancestor(changes[0].path, changes[k].path),
        ({
            ||| crawl_target(filter, changes[0], outcome) is Some
            ||| !(meta matches Some(found) && found.is_dir)
            ||| filter.ignores(path_text(changes[0].path), Some(true))
            ||| (forall|j: int| !tree.is_at(j, changes[0].path)) && forall|p: int|
                !is_parent_of_path(tree, p, changes[0].path)
        }),
{
    let change = changes[0];
    law_no_reported_change_is_lost(changes, outcome.recurse, left);
    assert(is_ancestor(change.path, changes[k].path));
    if exists|i: int| tree.is_at(i, change.path) {
        let i = choose|i: int| tree.is_at(i, change.path);
        law_known_path_is_looked_into_when_due(tree, change, meta, outcome, i);
        law_tree_shows_the_disk(tree, change, meta, outcome);
    } else if meta is Some && exists|q: int| is_parent_of_path(tree, q, change.path) {
        let q = choose|q: int| is_parent_of_path(tree, q, change.path);
        let p = law_what_turns_up_is_taken_up(tree, change, meta->0, outcome, q);
    }
}

/// A path that is in the tree is added once more only to be watched recursively where it is not,
/// and as a root only if it is a directory. It is watched with everything beneath it then, and
/// nothing else changes. Otherwise nothing changes at all.
pub proof fn law_known_path_is_added_to_be_watched_recursively(
    tree: TreeView,
    path: Seq<u8>,
    recursive: bool,
    root: bool,
    meta: Option<Metadata>,
    after: TreeView,
    node: Option<int>,
    i: int,
)
    requires
        tree.wf(),
        tree.is_at(i, path),
        is_added(tree, path, recursive, root, meta, after, node),
    ensures
        node == Some(i) || node is None,
        node is Some <==> {
            &&& recursive
            &&& !(tree.nodes[i].flags.watch_children && tree.nodes[i].flags.watch_subtree)
            &&& root ==> tree.nodes[i].meta == NodeMeta::Dir
        },
        node is None ==> after == tree,
        after.dirs == tree.dirs,
        after.nodes.len() == tree.nodes.len(),
        forall|j: int|
            0 <= j < tree.nodes.len() && j != i ==> #[trigger] after.nodes[j] == tree.nodes[j],
        node is Some ==> {
            let watched = after.nodes[i];
            &&& watched.path == path
            &&& watched.meta == tree.nodes[i].meta
            &&& watched.inode == tree.nodes[i].inode
            &&& watched.children == tree.nodes[i].children
            &&& watched.flags.maybe_deleted == tree.nodes[i].flags.maybe_deleted
            &&& watched.flags.watch_children
            &&& watched.flags.watch_subtree
        },
{
    lemma_find(tree, i, path);
}

/// A path that is not in the tree is added if something is on disk there, which has to be a
/// directory for a root, and in a directory of the tree for anything else. Its node is the next
/// one, has the path, records what is on disk, and is watched as asked for: with everything beneath
/// it if and only if that is asked for, and a root with its children in any case. It becomes a
/// child of the directory that it is in, and the other nodes stay as they are. Otherwise nothing
/// changes.
pub proof fn law_new_path_is_watched_as_asked(
    tree: TreeView,
    path: Seq<u8>,
    recursive: bool,
    root: bool,
    meta: Option<Metadata>,
    after: TreeView,
    node: Option<int>,
)
    requires
        tree.wf(),
        tree.has_room(),
        forall|j: int| !tree.is_at(j, path),
        is_added(tree, path, recursive, root, meta, after, node),
    ensures
        node is Some <==> {
            &&& meta is Some
            &&& root ==> meta->0.is_dir
            &&& root || exists|p: int| is_parent_of_path(tree, p, path)
        },
        node is None ==> after == tree,
        node is Some ==> {
            let id = tree.nodes.len() as int;
            let found = meta->0;
            let new = after.nodes[id];
            &&& node == Some(id)
            &&& after.nodes.len() == id + 1
            &&& new.path == path
            &&& new.inode == found.inode
            &&& found.is_dir ==> new.meta == NodeMeta::Dir
            &&& !found.is_dir ==> new.meta == (NodeMeta::File {
                mtime: found.mtime,
                size: found.size,
            })
            &&& !new.flags.maybe_deleted
            &&& new.flags.watch_children == (recursive || root)
            &&& new.flags.watch_subtree == recursive
            &&& (exists|p: int| is_parent_of_path(tree, p, path)) ==> exists|p: int| #[trigger]
                is_parent_of_path(tree, p, path) && is_child(after, p, id)
        },
        forall|j: int|
            0 <= j < tree.nodes.len() ==> {
                let kept = #[trigger] after.nodes[j];
                &&& kept.path == tree.nodes[j].path
                &&& kept.meta == tree.nodes[j].meta
                &&& kept.inode == tree.nodes[j].inode
                &&& kept.flags == tree.nodes[j].flags
            },
{
    lemma_added(tree, path, recursive, root, meta, after, node);
    let parent = choose|parent: Option<int>| #[trigger]
        tree.is_parent(parent, path) && (after, node) == added(
            tree,
            path,
            recursive,
            root,
            meta,
            parent,
        );
    let id = tree.nodes.len() as int;
    if let Some(p) = parent {
        assert(is_parent_of_path(tree, p, path));
        if node is Some {
            let list = after.children_of(p);
            assert(list[list.len() - 1] == id as u32);
        }
    } else {
        assert forall|p: int| !is_parent_of_path(tree, p, path) by {
            if 0 <= p < tree.nodes.len() {
                assert(parent_text(path) != Some(path_text(tree.nodes[p].path)));
            }
        }
    }
}

/// A report for a directory that was added as a root leads to a crawl of it, whether it is watched
/// recursively or not, unless it is ignored.
pub proof fn law_reported_root_is_crawled<F: Filter + ?Sized>(
    filter: &F,
    tree: TreeView,
    path: Seq<u8>,
    recursive: bool,
    meta: Option<Metadata>,
    after: TreeView,
    node: Option<int>,
    change: ChangeView,
    found: Metadata,
    outcome: Outcome,
)
    requires
        tree.wf(),
        tree.has_room(),
        is_stored(path),
        is_added(tree, path, recursive, true, meta, after, node),
        node is Some,
        change.path == path,
        change.flags.needs_recursive_crawl || change.flags.needs_non_recursive_crawl,
        found.is_dir,
        is_applied(after, change, Some(found), outcome),
        !filter.ignores(path_text(path), Some(true)),
    ensures
        crawl_target(filter, change, outcome) == node,
        outcome.tree.nodes[node->0].path == path,
{
    lemma_added_wf(tree, path, recursive, true, meta, after, node);
    let i = node->0;
    if exists|j: int| tree.is_at(j, path) {
        let j = choose|j: int| tree.is_at(j, path);
        law_known_path_is_added_to_be_watched_recursively(
            tree,
            path,
            recursive,
            true,
            meta,
            after,
            node,
            j,
        );
    } else {
        law_new_path_is_watched_as_asked(tree, path, recursive, true, meta, after, node);
    }
    assert(after.is_at(i, path));
    law_known_directory_is_crawled_when_due(filter, after, change, Some(found), outcome, i);
    lemma_applied(after, change, Some(found), outcome);
}

/// A recursive crawl leaves what it comes by watched with everything beneath it. One that is not
/// recursive leaves what is in the tree watched as it was.
pub proof fn law_recursive_crawl_watches_what_it_comes_by(
    tree: TreeView,
    stack: CrawlStack,
    recursive: bool,
    depth: int,
    path: Seq<u8>,
    meta: Option<Metadata>,
    step: Crawled,
    i: int,
)
    requires
        tree.wf(),
        tree.has_room(),
        is_stored(path),
        forall|j: int| 0 <= j < stack.len() ==> 0 <= (#[trigger] stack[j]).0 < tree.nodes.len(),
        is_crawled(tree, stack, recursive, depth, path, meta, step),
        step.tree.is_at(i, path),
    ensures
        recursive ==> step.tree.nodes[i].flags.watch_children
            && step.tree.nodes[i].flags.watch_subtree,
        !recursive && i < tree.nodes.len() ==> step.tree.nodes[i].flags.watch_children
            == tree.nodes[i].flags.watch_children && step.tree.nodes[i].flags.watch_subtree
            == tree.nodes[i].flags.watch_subtree,
{
    let change = crawl_change(path, recursive);
    let outcome = choose|outcome: Outcome| #[trigger]
        is_applied(tree, change, meta, outcome) && step == crawl_visit(
            outcome,
            stack,
            recursive,
            depth,
        );
    lemma_crawled(tree, stack, recursive, depth, path, meta, step);
    lemma_applied_wf(tree, change, meta, outcome);
    lemma_applied(tree, change, meta, outcome);
    if let Some(n) = outcome.node {
        let visited = outcome.tree.with_flags(
            n,
            Flags { maybe_deleted: false, ..outcome.tree.nodes[n].flags },
        );
        lemma_same_shape(outcome.tree, visited);
        lemma_leave(visited, stack, depth);
        let left = leave(visited, stack, depth).tree;
        assert(step.tree.nodes[n].path == left.nodes[n].path);
        assert(left.nodes[n].path == path);
        assert(step.tree.nodes[i].path == step.tree.nodes[n].path);
        assert(i == n);
        assert(left.nodes[n].flags == visited.nodes[n].flags);
        if exists|j: int| tree.is_at(j, path) {
            let j = choose|j: int| tree.is_at(j, path);
            law_change_keeps_to_its_path(tree, change, meta, outcome, j);
        }
    } else {
        assert(step.tree == outcome.tree);
        assert(outcome.tree == tree);
        lemma_find(tree, i, path);
    }
}

/// Only what happens to files is an event: a file that turned up, one that is gone, and one that is
/// another or that there is reason to take for another.
pub proof fn law_only_files_make_events(a: NodeMeta, b: NodeMeta, skip_check: bool)
    ensures
        meta_change(a, b, skip_check) == Some(EventType::Create) <==> !(a is File) && b is File,
        meta_change(a, b, skip_check) == Some(EventType::Delete) <==> a is File && !(b is File),
        meta_change(a, b, skip_check) == Some(EventType::Modified) <==> a is File && b is File && (
        a != b || skip_check),
        meta_change(a, b, skip_check) != Some(EventType::Tempfile),
{
}

/// A tree of up to sixteen million files and directories has room for more.
pub proof fn law_large_trees_have_room(tree: TreeView)
    requires
        tree.nodes.len() <= 16_000_000,
        tree.dirs.len() <= 16_000_000,
    ensures
        tree.has_room(),
{
}

} // verus!
