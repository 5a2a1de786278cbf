//! What keeps a tree well formed.

use super::laws::{beneath, law_delete_reports_exactly_the_files};
use super::model::{
    added, change_unknown, crawl_change, crawl_visit, delete_beneath, delete_children, deletion,
    is_added, is_applied, is_crawled, kept, leave, sweep, CrawlStack, Crawled, Outcome, TreeView,
};
use super::{node_meta, Flags, NodeMeta, NodeView};
use crate::events::EventView;
use crate::metadata::Metadata;
use crate::path::{is_stored, parent_text, path_text};
use crate::pending::ChangeView;
use crate::table::id_limit;
use vstd::prelude::*;

verus! {

/// A new list of children keeps a tree well formed.
pub proof fn lemma_with_list(tree: TreeView, i: int)
    requires
        tree.wf(),
        0 <= i < tree.nodes.len(),
        tree.nodes[i].children is None,
        tree.dirs.len() < id_limit(),
    ensures
        tree.with_list(i).wf(),
{
    let t = tree.with_list(i);
    assert forall|j: int| 0 <= j < t.nodes.len() implies #[trigger] t.nodes[j].path
        == tree.nodes[j].path by {}
    assert forall|j: int, k: int|
        0 <= j < t.nodes.len() && 0 <= k < t.children_of(j).len() implies #[trigger] t.children_of(
        j,
    )[k] == tree.children_of(j)[k] by {}
}

/// One more child at the end of the list of a node keeps a tree well formed, if the child was added
/// after the node, is in no list yet, and has the path of the node and a name.
pub proof fn lemma_with_entry(tree: TreeView, i: int, child: u32)
    requires
        tree.wf(),
        0 <= i < child < tree.nodes.len(),
        tree.nodes[i].children is Some,
        parent_text(tree.nodes[child as int].path) == Some(path_text(tree.nodes[i].path)),
        forall|d: int, k: int|
            0 <= d < tree.dirs.len() && 0 <= k < tree.dirs[d].len() ==> #[trigger] tree.dirs[d][k]
                != child,
        tree.dirs[tree.nodes[i].children->0].len() < tree.nodes.len(),
    ensures
        (TreeView {
            nodes: tree.nodes,
            dirs: tree.dirs.update(
                tree.nodes[i].children->0,
                tree.dirs[tree.nodes[i].children->0].push(child),
            ),
        }).wf(),
{
    let d = tree.nodes[i].children->0;
    let t = TreeView { nodes: tree.nodes, dirs: tree.dirs.update(d, tree.dirs[d].push(child)) };
    assert forall|e: int, k: int| 0 <= e < t.dirs.len() && 0 <= k < t.dirs[e].len() implies
        #[trigger] t.dirs[e][k] < t.nodes.len() && (t.dirs[e][k] == if e == d && k
        == tree.dirs[d].len() {
        child
    } else {
        tree.dirs[e][k]
    }) by {}
    assert(t.lists_valid());
    assert forall|j: int, k: int|
        0 <= j < t.nodes.len() && 0 <= k < t.children_of(j).len() implies {
        &&& j < #[trigger] t.children_of(j)[k]
        &&& parent_text(t.nodes[t.children_of(j)[k] as int].path) == Some(
            path_text(t.nodes[j].path),
        )
    } by {
        if j == i && k == tree.dirs[d].len() {
        } else {
            assert(t.children_of(j)[k] == tree.children_of(j)[k]);
        }
    }
}

/// One more node, which is in no list and has a path that no other node has, keeps a tree well
/// formed.
pub proof fn lemma_with_new_node(tree: TreeView, node: NodeView)
    requires
        tree.wf(),
        tree.find(node.path) is None,
        is_stored(node.path),
        node.children is None,
        tree.nodes.len() < id_limit(),
    ensures
        tree.with_new_node(node).wf(),
{
    let t = tree.with_new_node(node);
    assert forall|i: int| 0 <= i < tree.nodes.len() implies #[trigger] tree.nodes[i].path
        != node.path by {
        assert(!tree.is_at(i, node.path));
    }
    assert forall|j: int, k: int|
        0 <= j < t.nodes.len() && 0 <= k < t.children_of(j).len() implies {
        &&& j < #[trigger] t.children_of(j)[k]
        &&& parent_text(t.nodes[t.children_of(j)[k] as int].path) == Some(
            path_text(t.nodes[j].path),
        )
    } by {
        assert(t.children_of(j)[k] == tree.children_of(j)[k]);
    }
}

/// A node with a path is the one that is found by it.
pub proof fn lemma_find(tree: TreeView, i: int, raw: Seq<u8>)
    requires
        tree.paths_distinct(),
        tree.is_at(i, raw),
    ensures
        tree.find(raw) == Some(i),
{
    let k = choose|k: int| tree.is_at(k, raw);
    assert(tree.is_at(k, raw));
    assert(tree.nodes[k].path == tree.nodes[i].path);
}

/// A tree with the same paths and the same lists of children is as well formed.
pub proof fn lemma_same_shape(tree: TreeView, t: TreeView)
    requires
        tree.wf(),
        t.dirs == tree.dirs,
        t.nodes.len() == tree.nodes.len(),
        forall|i: int|
            0 <= i < t.nodes.len() ==> (#[trigger] t.nodes[i]).path == tree.nodes[i].path
                && t.nodes[i].children == tree.nodes[i].children,
    ensures
        t.wf(),
        forall|i: int|
            0 <= i < t.nodes.len() ==> #[trigger] t.children_of(i) == tree.children_of(i),
{
    assert forall|j: int, k: int|
        0 <= j < t.nodes.len() && 0 <= k < t.children_of(j).len() implies {
        &&& j < #[trigger] t.children_of(j)[k]
        &&& parent_text(t.nodes[t.children_of(j)[k] as int].path) == Some(
            path_text(t.nodes[j].path),
        )
    } by {
        assert(t.children_of(j)[k] == tree.children_of(j)[k]);
        assert(tree.dirs[tree.nodes[j].children->0][k] < tree.nodes.len());
    }
}

/// Two trees have the same lists of children, and nodes that differ at most in what is known of
/// their files and directories.
pub open spec fn differ_in_metas(a: TreeView, b: TreeView) -> bool {
    &&& a.dirs == b.dirs
    &&& a.nodes.len() == b.nodes.len()
    &&& forall|i: int|
        0 <= i < a.nodes.len() ==> #[trigger] a.nodes[i] == (NodeView {
            meta: a.nodes[i].meta,
            ..b.nodes[i]
        })
}

/// Something is known of each node after a deletion.
pub proof fn lemma_delete_children_len(tree: TreeView, metas: Seq<NodeMeta>, p: int, k: int)
    requires
        metas.len() == tree.nodes.len(),
    ensures
        delete_children(tree, metas, p, k).0.len() == tree.nodes.len(),
    decreases tree.nodes.len() - p, tree.children_of(p).len() - k,
{
    let list = tree.children_of(p);
    if 0 <= p && 0 <= k < list.len() && p < list[k] < tree.nodes.len() {
        let c = list[k] as int;
        let marked = metas.update(c, NodeMeta::Deleted);
        if metas[c] == NodeMeta::Dir {
            lemma_delete_children_len(tree, marked, c, 0);
            lemma_delete_children_len(tree, delete_children(tree, marked, c, 0).0, p, k + 1);
        } else {
            lemma_delete_children_len(tree, marked, p, k + 1);
        }
    }
}

/// A deletion changes nothing but what is known of files and directories.
pub proof fn lemma_delete_beneath_shape(tree: TreeView, i: int)
    requires
        0 <= i < tree.nodes.len(),
    ensures
        differ_in_metas(delete_beneath(tree, i).tree, tree),
{
    lemma_delete_children_len(tree, tree.metas().update(i, NodeMeta::Deleted), i, 0);
}

/// The node that a change concerns is in the tree after it, under the path of the change, and no
/// node is lost.
pub proof fn lemma_applied(
    tree: TreeView,
    change: ChangeView,
    meta: Option<Metadata>,
    outcome: Outcome,
)
    requires
        tree.wf(),
        is_applied(tree, change, meta, outcome),
    ensures
        tree.nodes.len() <= outcome.tree.nodes.len() <= tree.nodes.len() + 1,
        outcome.tree.dirs.len() <= tree.dirs.len() + 2,
        outcome.node matches Some(i) ==> 0 <= i < outcome.tree.nodes.len()
            && outcome.tree.nodes[i].path == change.path,
        forall|j: int|
            0 <= j < tree.nodes.len() ==> (#[trigger] outcome.tree.nodes[j]).path
                == tree.nodes[j].path,
{
    if let Some(i) = tree.find(change.path) {
        assert(tree.is_at(i, change.path));
        if meta is None && tree.nodes[i].meta == NodeMeta::Dir {
            let node = tree.nodes[i];
            let flags = if change.flags.mark_recursive {
                node.flags.marked_recursive()
            } else {
                node.flags
            };
            let gone = tree.with_node(i, NodeView { flags, meta: NodeMeta::Deleted, ..node });
            lemma_delete_beneath_shape(gone, i);
        }
    }
}

/// The node that was added for a path is in the tree, under that path, and no node is lost.
pub proof fn lemma_added(
    tree: TreeView,
    path: Seq<u8>,
    recursive: bool,
    root: bool,
    meta: Option<Metadata>,
    after: TreeView,
    node: Option<int>,
)
    requires
        tree.wf(),
        is_added(tree, path, recursive, root, meta, after, node),
    ensures
        tree.nodes.len() <= after.nodes.len() <= tree.nodes.len() + 1,
        node matches Some(i) ==> 0 <= i < after.nodes.len() && after.nodes[i].path == path,
        forall|j: int|
            0 <= j < tree.nodes.len() ==> (#[trigger] after.nodes[j]).path == tree.nodes[j].path,
{
    if let Some(i) = tree.find(path) {
        assert(tree.is_at(i, path));
    }
}

/// One more node as the last child of its parent keeps a tree well formed.
pub proof fn lemma_with_linked_node(tree: TreeView, node: NodeView, p: int)
    requires
        tree.wf(),
        tree.has_room(),
        tree.find(node.path) is None,
        is_stored(node.path),
        node.children is None,
        tree.is_parent(Some(p), node.path),
    ensures
        ({
            let t = tree.with_new_node(node).with_child(p, tree.nodes.len() as u32);
            &&& t.wf()
            &&& t.nodes.len() == tree.nodes.len() + 1
            &&& t.nodes[tree.nodes.len() as int] == node
            &&& t.dirs.len() <= tree.dirs.len() + 1
        }),
{
    let id = tree.nodes.len() as u32;
    let grown = tree.with_new_node(node);
    lemma_with_new_node(tree, node);
    let listed = if grown.nodes[p].children is None {
        lemma_with_list(grown, p);
        grown.with_list(p)
    } else {
        grown
    };
    assert forall|d: int, k: int|
        0 <= d < listed.dirs.len() && 0 <= k < listed.dirs[d].len() implies
        #[trigger] listed.dirs[d][k] != id by {
        assert(tree.dirs[d][k] < id);
    }
    lemma_with_entry(listed, p, id);
}

/// Applying a change keeps a tree well formed.
pub proof fn lemma_applied_wf(
    tree: TreeView,
    change: ChangeView,
    meta: Option<Metadata>,
    outcome: Outcome,
)
    requires
        tree.wf(),
        tree.has_room(),
        is_stored(change.path),
        is_applied(tree, change, meta, outcome),
    ensures
        outcome.tree.wf(),
{
    match tree.find(change.path) {
        Some(i) => {
            assert(tree.is_at(i, change.path));
            let node = tree.nodes[i];
            let flags = if change.flags.mark_recursive {
                node.flags.marked_recursive()
            } else {
                node.flags
            };
            match meta {
                Some(meta) => {
                    let updated = tree.with_node(
                        i,
                        NodeView { flags, inode: meta.inode, meta: node_meta(meta), ..node },
                    );
                    lemma_same_shape(tree, updated);
                    if updated.nodes[i].children is None {
                        lemma_with_list(updated, i);
                    }
                },
                None => {
                    let gone = tree.with_node(
                        i,
                        NodeView { flags, meta: NodeMeta::Deleted, ..node },
                    );
                    lemma_same_shape(tree, gone);
                    lemma_delete_beneath_shape(gone, i);
                    lemma_same_shape(gone, delete_beneath(gone, i).tree);
                },
            }
        },
        None => {
            let parent = choose|parent: Option<int>| #[trigger]
                tree.is_parent(parent, change.path) && outcome == change_unknown(
                    tree,
                    change,
                    meta,
                    parent,
                );
            if meta is Some && parent is Some {
                let id = tree.nodes.len() as int;
                let node = NodeView { children: None, ..outcome.tree.nodes[id] };
                lemma_with_linked_node(tree, node, parent->0);
                let linked = tree.with_new_node(node).with_child(parent->0, id as u32);
                lemma_with_list(linked, id);
            }
        },
    }
}

/// Adding a path keeps a tree well formed.
pub proof fn lemma_added_wf(
    tree: TreeView,
    path: Seq<u8>,
    recursive: bool,
    root: bool,
    meta: Option<Metadata>,
    after: TreeView,
    node: Option<int>,
)
    requires
        tree.wf(),
        tree.has_room(),
        is_stored(path),
        is_added(tree, path, recursive, root, meta, after, node),
    ensures
        after.wf(),
{
    match tree.find(path) {
        Some(i) => {
            assert(tree.is_at(i, path));
            lemma_same_shape(tree, after);
        },
        None => {
            let parent = choose|parent: Option<int>| #[trigger]
                tree.is_parent(parent, path) && (after, node) == added(
                    tree,
                    path,
                    recursive,
                    root,
                    meta,
                    parent,
                );
            if node is Some {
                let id = tree.nodes.len() as int;
                let fresh = NodeView { children: None, ..after.nodes[id] };
                lemma_with_new_node(tree, fresh);
                let linked = if let Some(p) = parent {
                    lemma_with_linked_node(tree, fresh, p);
                    tree.with_new_node(fresh).with_child(p, id as u32)
                } else {
                    tree.with_new_node(fresh)
                };
                lemma_with_list(linked, id);
            }
        },
    }
}

/// The nodes of `a` are in `b`, with the same numbers and paths.
pub open spec fn keeps_paths(a: TreeView, b: TreeView) -> bool {
    &&& a.nodes.len() <= b.nodes.len()
    &&& forall|j: int|
        0 <= j < a.nodes.len() ==> (#[trigger] b.nodes[j]).path == a.nodes[j].path
}

/// The path is that of a node.
pub open spec fn in_tree(tree: TreeView, path: Seq<u8>) -> bool {
    exists|j: int| tree.is_at(j, path)
}

/// Each event is for the path of a node.
pub open spec fn all_in_tree(tree: TreeView, events: Seq<EventView>) -> bool {
    forall|k: int| 0 <= k < events.len() ==> in_tree(tree, #[trigger] events[k].path)
}

/// Events for paths of the tree stay so.
pub proof fn lemma_in_tree_kept(a: TreeView, b: TreeView, events: Seq<EventView>)
    requires
        keeps_paths(a, b),
        all_in_tree(a, events),
    ensures
        all_in_tree(b, events),
{
    assert forall|k: int| 0 <= k < events.len() implies in_tree(b, #[trigger] events[k].path) by {
        let j = choose|j: int| a.is_at(j, events[k].path);
        assert(b.is_at(j, events[k].path));
    }
}

/// A deletion reports events for paths of the tree.
proof fn lemma_delete_events(tree: TreeView, i: int)
    requires
        tree.wf(),
        0 <= i < tree.nodes.len(),
    ensures
        all_in_tree(tree, delete_beneath(tree, i).events),
{
    let events = delete_beneath(tree, i).events;
    assert forall|k: int| 0 <= k < events.len() implies in_tree(
        tree,
        #[trigger] events[k].path,
    ) by {
        assert(events.contains(events[k]));
        law_delete_reports_exactly_the_files(tree, i, events[k]);
        let j = choose|j: int|
            0 <= j < tree.nodes.len() && #[trigger] beneath(tree, i, j) && tree.nodes[j].meta
                is File && events[k] == tree.delete_event(j);
        assert(tree.is_at(j, events[k].path));
    }
}

/// Applying a change reports events for paths that are in the tree after it.
pub proof fn lemma_applied_events(
    tree: TreeView,
    change: ChangeView,
    meta: Option<Metadata>,
    outcome: Outcome,
)
    requires
        tree.wf(),
        is_applied(tree, change, meta, outcome),
    ensures
        all_in_tree(outcome.tree, outcome.events),
        keeps_paths(tree, outcome.tree),
{
    lemma_applied(tree, change, meta, outcome);
    match tree.find(change.path) {
        Some(i) => {
            assert(tree.is_at(i, change.path));
            assert(outcome.tree.is_at(i, change.path));
            if meta is None {
                let node = tree.nodes[i];
                let flags = if change.flags.mark_recursive {
                    node.flags.marked_recursive()
                } else {
                    node.flags
                };
                let gone = tree.with_node(i, NodeView { flags, meta: NodeMeta::Deleted, ..node });
                lemma_same_shape(tree, gone);
                lemma_delete_events(gone, i);
                lemma_delete_beneath_shape(gone, i);
                let change = delete_beneath(gone, i);
                lemma_in_tree_kept(gone, change.tree, change.events);
            }
        },
        None => {
            if let Some(i) = outcome.node {
                assert(outcome.tree.is_at(i, change.path));
            }
        },
    }
}

/// A sweep changes nothing but what is known of files and directories, and reports events for paths
/// of the tree.
pub proof fn lemma_sweep(tree: TreeView, list: Seq<u32>, k: int)
    requires
        tree.wf(),
        0 <= k <= list.len(),
        forall|l: int| 0 <= l < list.len() ==> #[trigger] list[l] < tree.nodes.len(),
    ensures
        sweep(tree, list, k).tree.wf(),
        differ_in_metas(sweep(tree, list, k).tree, tree),
        all_in_tree(tree, sweep(tree, list, k).events),
    decreases list.len() - k,
{
    if k < list.len() {
        let c = list[k] as int;
        if tree.nodes[c].flags.maybe_deleted {
            let marked = tree.with_meta(c, NodeMeta::Deleted);
            let below = delete_beneath(marked, c);
            lemma_same_shape(tree, marked);
            lemma_delete_beneath_shape(marked, c);
            lemma_same_shape(marked, below.tree);
            lemma_delete_events(marked, c);
            lemma_sweep(below.tree, list, k + 1);
            let rest = sweep(below.tree, list, k + 1);
            let events = sweep(tree, list, k).events;
            assert(tree.is_at(c, tree.nodes[c].path));
            lemma_in_tree_kept(marked, tree, below.events);
            lemma_in_tree_kept(below.tree, tree, rest.events);
            assert forall|e: int| 0 <= e < events.len() implies in_tree(
                tree,
                #[trigger] events[e].path,
            ) by {
                let m = deletion(tree, c).len();
                let n = m + below.events.len();
                if e >= n {
                    assert(events[e] == rest.events[e - n]);
                } else if e >= m {
                    assert(events[e] == below.events[e - m]);
                }
            }
        } else {
            lemma_sweep(tree, list, k + 1);
        }
    }
}

/// No more directories stay on a stack than are on it.
pub proof fn lemma_kept_bound(stack: CrawlStack, depth: int)
    ensures
        0 <= kept(stack, depth) <= stack.len(),
    decreases stack.len(),
{
    if stack.len() > 0 && stack.last().1 >= depth {
        lemma_kept_bound(stack.drop_last(), depth);
    }
}

/// The children of a node are nodes.
pub proof fn lemma_children_valid(tree: TreeView, i: int)
    requires
        tree.wf(),
        0 <= i < tree.nodes.len(),
    ensures
        forall|l: int|
            0 <= l < tree.children_of(i).len() ==> #[trigger] tree.children_of(i)[l]
                < tree.nodes.len(),
{
    assert forall|l: int| 0 <= l < tree.children_of(i).len() implies #[trigger] tree.children_of(
        i,
    )[l] < tree.nodes.len() by {
        assert(tree.dirs[tree.nodes[i].children->0][l] < tree.nodes.len());
    }
}

/// Leaving directories changes nothing but what is known of files and directories, and reports
/// events for paths of the tree.
pub proof fn lemma_leave(tree: TreeView, stack: CrawlStack, depth: int)
    requires
        tree.wf(),
        forall|j: int| 0 <= j < stack.len() ==> 0 <= (#[trigger] stack[j]).0 < tree.nodes.len(),
    ensures
        leave(tree, stack, depth).tree.wf(),
        differ_in_metas(leave(tree, stack, depth).tree, tree),
        all_in_tree(tree, leave(tree, stack, depth).events),
    decreases stack.len(),
{
    if stack.len() > 0 && stack.last().1 >= depth {
        let i = stack.last().0;
        lemma_children_valid(tree, i);
        lemma_sweep(tree, tree.children_of(i), 0);
        let swept = sweep(tree, tree.children_of(i), 0);
        lemma_leave(swept.tree, stack.drop_last(), depth);
        let rest = leave(swept.tree, stack.drop_last(), depth);
        lemma_in_tree_kept(swept.tree, tree, rest.events);
        let events = swept.events + rest.events;
        assert forall|e: int| 0 <= e < events.len() implies in_tree(
            tree,
            #[trigger] events[e].path,
        ) by {
            if e < swept.events.len() {
                assert(events[e] == swept.events[e]);
            } else {
                assert(events[e] == rest.events[e - swept.events.len()]);
            }
        }
    }
}

/// A step of a crawl keeps all nodes, and reports events for paths that are in the tree after it.
pub proof fn lemma_crawled(
    tree: TreeView,
    stack: CrawlStack,
    recursive: bool,
    depth: int,
    path: Seq<u8>,
    meta: Option<Metadata>,
    crawled: Crawled,
)
    requires
        tree.wf(),
        tree.has_room(),
        forall|j: int| 0 <= j < stack.len() ==> 0 <= (#[trigger] stack[j]).0 < tree.nodes.len(),
        is_stored(path),
        is_crawled(tree, stack, recursive, depth, path, meta, crawled),
    ensures
        crawled.tree.wf(),
        keeps_paths(tree, crawled.tree),
        all_in_tree(crawled.tree, crawled.events),
{
    let outcome = choose|outcome: Outcome| #[trigger]
        is_applied(tree, crawl_change(path, recursive), meta, outcome) && crawled == crawl_visit(
            outcome,
            stack,
            recursive,
            depth,
        );
    lemma_applied_events(tree, crawl_change(path, recursive), meta, outcome);
    lemma_applied_wf(tree, crawl_change(path, recursive), meta, outcome);
    if let Some(i) = outcome.node {
        lemma_applied(tree, crawl_change(path, recursive), meta, outcome);
        let visited = outcome.tree.with_flags(
            i,
            Flags { maybe_deleted: false, ..outcome.tree.nodes[i].flags },
        );
        lemma_same_shape(outcome.tree, visited);
        lemma_leave(visited, stack, depth);
        let left = leave(visited, stack, depth);
        lemma_same_shape(left.tree, crawled.tree);
        lemma_in_tree_kept(outcome.tree, crawled.tree, outcome.events);
        lemma_in_tree_kept(visited, crawled.tree, left.events);
        let events = outcome.events + left.events;
        assert forall|e: int| 0 <= e < events.len() implies in_tree(
            crawled.tree,
            #[trigger] events[e].path,
        ) by {
            if e < outcome.events.len() {
                assert(events[e] == outcome.events[e]);
            } else {
                assert(events[e] == left.events[e - outcome.events.len()]);
            }
        }
    }
}

} // verus!
