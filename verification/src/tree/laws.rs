//! What holds of the tree as a whole.

use super::lemmas::{lemma_delete_beneath_shape, lemma_find};
use super::model::{
    added, change_known, change_unknown, delete_beneath, delete_children, is_added, is_applied,
    Outcome, TreeView,
};
use super::{meta_change, node_meta, NodeMeta, NodeView};
use crate::events::EventView;
use crate::metadata::Metadata;
use crate::path::is_stored;
use crate::pending::ChangeView;
use vstd::prelude::*;

verus! {

/// `j` is in the list of the children of `p`.
pub open spec fn is_child(tree: TreeView, p: int, j: int) -> bool {
    tree.children_of(p).contains(j as u32)
}

/// `j` is a child of `i`, or a child of a directory that is itself beneath `i`.
pub open spec fn beneath(tree: TreeView, i: int, j: int) -> bool
    decreases j, 0int,
{
    exists|p: int| 0 <= p < j && #[trigger] is_child(tree, p, j) && is_way_down(tree, i, p)
}

/// `p` is `i`, or a directory beneath `i`.
pub open spec fn is_way_down(tree: TreeView, i: int, p: int) -> bool
    decreases p, 1int,
{
    p == i || (tree.nodes[p].meta == NodeMeta::Dir && beneath(tree, i, p))
}

/// The nodes that `delete_children` marks: all children that it comes by, and what is in the
/// directories that it marks.
proof fn lemma_delete_marks(tree: TreeView, m: Seq<NodeMeta>, p: int, k: int)
    requires
        tree.wf(),
        m.len() == tree.nodes.len(),
        0 <= p < tree.nodes.len(),
        0 <= k <= tree.children_of(p).len(),
    ensures
        ({
            let r = delete_children(tree, m, p, k).0;
            &&& r.len() == m.len()
            &&& forall|j: int|
                0 <= j < m.len() ==> #[trigger] r[j] == m[j] || r[j] == NodeMeta::Deleted
            &&& forall|l: int|
                k <= l < tree.children_of(p).len() ==> r[#[trigger] tree.children_of(p)[l] as int]
                    == NodeMeta::Deleted
            &&& forall|x: int, l: int|
                0 <= x < m.len() && m[x] == NodeMeta::Dir && r[x] == NodeMeta::Deleted && 0 <= l
                    < tree.children_of(x).len() ==> r[#[trigger] tree.children_of(x)[l] as int]
                    == NodeMeta::Deleted
        }),
    decreases tree.nodes.len() - p, tree.children_of(p).len() - k,
{
    let list = tree.children_of(p);
    let r = delete_children(tree, m, p, k).0;
    if k < list.len() {
        let c = list[k] as int;
        assert(p < list[k]);
        assert(tree.dirs[tree.nodes[p].children->0][k] < tree.nodes.len());
        let marked = m.update(c, NodeMeta::Deleted);
        let below = if m[c] == NodeMeta::Dir {
            delete_children(tree, marked, c, 0).0
        } else {
            marked
        };
        if m[c] == NodeMeta::Dir {
            lemma_delete_marks(tree, marked, c, 0);
        }
        lemma_delete_marks(tree, below, p, k + 1);
        assert forall|x: int, l: int|
            0 <= x < m.len() && m[x] == NodeMeta::Dir && r[x] == NodeMeta::Deleted && 0 <= l
                < tree.children_of(x).len() implies r[#[trigger] tree.children_of(x)[l] as int]
            == NodeMeta::Deleted by {
            assert(tree.dirs[tree.nodes[x].children->0][l] < tree.nodes.len());
            let y = tree.children_of(x)[l] as int;
            assert(r[y] == below[y] || r[y] == NodeMeta::Deleted);
            if x != c {
                assert(marked[x] == NodeMeta::Dir);
            }
        }
    }
}

/// `j` is in a directory that is known in `m` and deleted in `r`.
spec fn has_deleted_parent(tree: TreeView, m: Seq<NodeMeta>, r: Seq<NodeMeta>, j: int) -> bool {
    exists|x: int|
        0 <= x < m.len() && #[trigger] is_child(tree, x, j) && m[x] == NodeMeta::Dir && r[x]
            == NodeMeta::Deleted
}

/// `delete_children` marks no other nodes.
proof fn lemma_delete_marks_only(tree: TreeView, m: Seq<NodeMeta>, p: int, k: int, j: int)
    requires
        tree.wf(),
        m.len() == tree.nodes.len(),
        0 <= p < tree.nodes.len(),
        0 <= k <= tree.children_of(p).len(),
        0 <= j < tree.nodes.len(),
        delete_children(tree, m, p, k).0[j] != m[j],
    ensures
        is_child(tree, p, j) || has_deleted_parent(tree, m, delete_children(tree, m, p, k).0, j),
    decreases tree.nodes.len() - p, tree.children_of(p).len() - k,
{
    let list = tree.children_of(p);
    let r = delete_children(tree, m, p, k).0;
    if k < list.len() {
        let c = list[k] as int;
        assert(p < list[k]);
        assert(tree.dirs[tree.nodes[p].children->0][k] < tree.nodes.len());
        let marked = m.update(c, NodeMeta::Deleted);
        let below = if m[c] == NodeMeta::Dir {
            delete_children(tree, marked, c, 0).0
        } else {
            marked
        };
        if m[c] == NodeMeta::Dir {
            lemma_delete_marks(tree, marked, c, 0);
        }
        lemma_delete_marks(tree, below, p, k + 1);
        if j == c {
            assert(is_child(tree, p, c));
        } else if below[j] != m[j] {
            lemma_delete_marks_only(tree, marked, c, 0, j);
            assert(r[c] == below[c]);
            if !is_child(tree, c, j) {
                let x = choose|x: int|
                    0 <= x < m.len() && #[trigger] is_child(tree, x, j) && marked[x]
                        == NodeMeta::Dir && below[x] == NodeMeta::Deleted;
                assert(is_child(tree, x, j));
                assert(r[x] == below[x]);
            }
        } else {
            lemma_delete_marks_only(tree, below, p, k + 1, j);
            if !is_child(tree, p, j) {
                let x = choose|x: int|
                    0 <= x < m.len() && #[trigger] is_child(tree, x, j) && below[x] == NodeMeta::Dir
                        && r[x] == NodeMeta::Deleted;
                assert(is_child(tree, x, j));
                assert(m[x] == below[x]);
            }
        }
    }
}

/// The event is the deletion of a file that is known in `m` and deleted in `r`.
spec fn reports_deletion(
    tree: TreeView,
    m: Seq<NodeMeta>,
    r: Seq<NodeMeta>,
    event: EventView,
) -> bool {
    exists|j: int|
        0 <= j < m.len() && m[j] is File && r[j] == NodeMeta::Deleted && #[trigger]
            tree.delete_event(j) == event
}

/// `delete_children` reports the files that it marks.
proof fn lemma_delete_reports(tree: TreeView, m: Seq<NodeMeta>, p: int, k: int, j: int)
    requires
        tree.wf(),
        m.len() == tree.nodes.len(),
        0 <= p < tree.nodes.len(),
        0 <= k <= tree.children_of(p).len(),
        0 <= j < tree.nodes.len(),
        m[j] is File,
        delete_children(tree, m, p, k).0[j] == NodeMeta::Deleted,
    ensures
        delete_children(tree, m, p, k).1.contains(tree.delete_event(j)),
    decreases tree.nodes.len() - p, tree.children_of(p).len() - k,
{
    let list = tree.children_of(p);
    let (r, events) = delete_children(tree, m, p, k);
    let event = tree.delete_event(j);
    if k < list.len() {
        let c = list[k] as int;
        assert(p < list[k]);
        assert(tree.dirs[tree.nodes[p].children->0][k] < tree.nodes.len());
        let marked = m.update(c, NodeMeta::Deleted);
        let (below, first) = if m[c] is File {
            (marked, seq![tree.delete_event(c)])
        } else if m[c] == NodeMeta::Dir {
            delete_children(tree, marked, c, 0)
        } else {
            (marked, Seq::empty())
        };
        if m[c] == NodeMeta::Dir {
            lemma_delete_marks(tree, marked, c, 0);
        }
        lemma_delete_marks(tree, below, p, k + 1);
        let rest = delete_children(tree, below, p, k + 1).1;
        assert(events == first + rest);
        if j == c {
            assert(events[0] == event);
        } else if below[j] == NodeMeta::Deleted {
            lemma_delete_reports(tree, marked, c, 0, j);
            let l = choose|l: int| 0 <= l < first.len() && first[l] == event;
            assert(events[l] == event);
        } else {
            lemma_delete_reports(tree, below, p, k + 1, j);
            let l = choose|l: int| 0 <= l < rest.len() && rest[l] == event;
            assert(events[first.len() + l] == event);
        }
    }
}

/// `delete_children` reports nothing else.
proof fn lemma_delete_reports_only(tree: TreeView, m: Seq<NodeMeta>, p: int, k: int, e: int)
    requires
        tree.wf(),
        m.len() == tree.nodes.len(),
        0 <= p < tree.nodes.len(),
        0 <= k <= tree.children_of(p).len(),
        0 <= e < delete_children(tree, m, p, k).1.len(),
    ensures
        reports_deletion(
            tree,
            m,
            delete_children(tree, m, p, k).0,
            delete_children(tree, m, p, k).1[e],
        ),
    decreases tree.nodes.len() - p, tree.children_of(p).len() - k,
{
    let list = tree.children_of(p);
    let (r, events) = delete_children(tree, m, p, k);
    if k < list.len() {
        let c = list[k] as int;
        assert(p < list[k]);
        assert(tree.dirs[tree.nodes[p].children->0][k] < tree.nodes.len());
        let marked = m.update(c, NodeMeta::Deleted);
        let (below, first) = if m[c] is File {
            (marked, seq![tree.delete_event(c)])
        } else if m[c] == NodeMeta::Dir {
            delete_children(tree, marked, c, 0)
        } else {
            (marked, Seq::empty())
        };
        if m[c] == NodeMeta::Dir {
            lemma_delete_marks(tree, marked, c, 0);
        }
        lemma_delete_marks(tree, below, p, k + 1);
        let rest = delete_children(tree, below, p, k + 1).1;
        assert(events == first + rest);
        if e < first.len() {
            assert(events[e] == first[e]);
            if m[c] is File {
                assert(tree.delete_event(c) == events[e]);
                assert(r[c] == below[c]);
            } else {
                lemma_delete_reports_only(tree, marked, c, 0, e);
                let j = choose|j: int|
                    0 <= j < m.len() && marked[j] is File && below[j] == NodeMeta::Deleted
                        && #[trigger] tree.delete_event(j) == first[e];
                assert(tree.delete_event(j) == events[e]);
                assert(r[j] == below[j]);
            }
        } else {
            lemma_delete_reports_only(tree, below, p, k + 1, e - first.len());
            assert(events[e] == rest[e - first.len()]);
            let j = choose|j: int|
                0 <= j < m.len() && below[j] is File && r[j] == NodeMeta::Deleted
                    && #[trigger] tree.delete_event(j) == rest[e - first.len()];
            assert(tree.delete_event(j) == events[e]);
            assert(m[j] == below[j]);
        }
    }
}

/// `delete_children` reports nothing twice.
proof fn lemma_delete_reports_once(tree: TreeView, m: Seq<NodeMeta>, p: int, k: int)
    requires
        tree.wf(),
        m.len() == tree.nodes.len(),
        0 <= p < tree.nodes.len(),
        0 <= k <= tree.children_of(p).len(),
    ensures
        delete_children(tree, m, p, k).1.no_duplicates(),
    decreases tree.nodes.len() - p, tree.children_of(p).len() - k,
{
    let list = tree.children_of(p);
    let events = delete_children(tree, m, p, k).1;
    if k < list.len() {
        let c = list[k] as int;
        assert(p < list[k]);
        assert(tree.dirs[tree.nodes[p].children->0][k] < tree.nodes.len());
        let marked = m.update(c, NodeMeta::Deleted);
        let (below, first) = if m[c] is File {
            (marked, seq![tree.delete_event(c)])
        } else if m[c] == NodeMeta::Dir {
            delete_children(tree, marked, c, 0)
        } else {
            (marked, Seq::empty())
        };
        if m[c] == NodeMeta::Dir {
            lemma_delete_marks(tree, marked, c, 0);
            lemma_delete_reports_once(tree, marked, c, 0);
        }
        lemma_delete_reports_once(tree, below, p, k + 1);
        let (after, rest) = delete_children(tree, below, p, k + 1);
        assert(events == first + rest);
        assert forall|a: int, b: int| 0 <= a < first.len() && 0 <= b < rest.len() implies first[a]
            != rest[b] by {
            lemma_delete_reports_only(tree, below, p, k + 1, b);
            let j = choose|j: int|
                0 <= j < below.len() && below[j] is File && after[j] == NodeMeta::Deleted
                    && #[trigger] tree.delete_event(j) == rest[b];
            if m[c] is File {
                assert(tree.nodes[c].path != tree.nodes[j].path);
            } else {
                lemma_delete_reports_only(tree, marked, c, 0, a);
                let i = choose|i: int|
                    0 <= i < marked.len() && marked[i] is File && below[i] == NodeMeta::Deleted
                        && #[trigger] tree.delete_event(i) == first[a];
                assert(i != j);
                assert(tree.nodes[i].path != tree.nodes[j].path);
            }
        }
        assert forall|a: int, b: int| 0 <= a < b < events.len() implies events[a] != events[b] by {
            let n = first.len();
            if b < n {
                assert(events[a] == first[a] && events[b] == first[b]);
            } else if a >= n {
                assert(events[a] == rest[a - n] && events[b] == rest[b - n]);
            } else {
                assert(events[a] == first[a] && events[b] == rest[b - n]);
            }
        }
    }
}

/// Deleting what is beneath a node reports no file twice.
pub proof fn law_delete_reports_no_file_twice(tree: TreeView, i: int)
    requires
        tree.wf(),
        0 <= i < tree.nodes.len(),
    ensures
        delete_beneath(tree, i).events.no_duplicates(),
{
    lemma_delete_reports_once(tree, tree.metas().update(i, NodeMeta::Deleted), i, 0);
}

/// A node that is known to be deleted stays so when what is beneath it is deleted.
pub proof fn lemma_start_is_marked(tree: TreeView, i: int)
    requires
        tree.wf(),
        0 <= i < tree.nodes.len(),
        tree.nodes[i].meta == NodeMeta::Deleted,
    ensures
        delete_beneath(tree, i).tree.nodes[i].meta == NodeMeta::Deleted,
{
    lemma_delete_marks(tree, tree.metas().update(i, NodeMeta::Deleted), i, 0);
}

/// Which nodes are marked when everything beneath a node is deleted.
proof fn lemma_marked_beneath(tree: TreeView, i: int, j: int)
    requires
        tree.wf(),
        0 <= i < tree.nodes.len(),
        0 <= j < tree.nodes.len(),
        j != i,
    ensures
        ({
            let m = tree.metas().update(i, NodeMeta::Deleted);
            let r = delete_children(tree, m, i, 0).0;
            &&& beneath(tree, i, j) ==> r[j] == NodeMeta::Deleted
            &&& r[j] != m[j] ==> beneath(tree, i, j)
        }),
    decreases j,
{
    let m = tree.metas().update(i, NodeMeta::Deleted);
    let r = delete_children(tree, m, i, 0).0;
    lemma_delete_marks(tree, m, i, 0);
    if beneath(tree, i, j) {
        let p = choose|p: int|
            0 <= p < j && #[trigger] is_child(tree, p, j) && is_way_down(tree, i, p);
        let l = choose|l: int|
            0 <= l < tree.children_of(p).len() && tree.children_of(p)[l] == j as u32;
        assert(tree.children_of(p)[l] as int == j);
        if p != i {
            lemma_marked_beneath(tree, i, p);
            assert(m[p] == NodeMeta::Dir);
        }
    }
    if r[j] != m[j] {
        lemma_delete_marks_only(tree, m, i, 0, j);
        if is_child(tree, i, j) {
            lemma_child_is_later(tree, i, j);
            assert(is_way_down(tree, i, i));
        } else {
            let x = choose|x: int|
                0 <= x < m.len() && #[trigger] is_child(tree, x, j) && m[x] == NodeMeta::Dir
                    && r[x] == NodeMeta::Deleted;
            lemma_child_is_later(tree, x, j);
            lemma_marked_beneath(tree, i, x);
            assert(is_way_down(tree, i, x));
        }
    }
}

/// A child was added after its parent.
proof fn lemma_child_is_later(tree: TreeView, p: int, j: int)
    requires
        tree.wf(),
        0 <= p < tree.nodes.len(),
        0 <= j < tree.nodes.len(),
        is_child(tree, p, j),
    ensures
        p < j,
{
    let l = choose|l: int|
        0 <= l < tree.children_of(p).len() && tree.children_of(p)[l] == j as u32;
    assert(p < tree.children_of(p)[l]);
}

/// Nothing is beneath a node without a list of children.
proof fn lemma_nothing_beneath(tree: TreeView, i: int, j: int)
    requires
        tree.nodes[i].children is None,
    ensures
        !beneath(tree, i, j),
    decreases j,
{
    if beneath(tree, i, j) {
        let p = choose|p: int|
            0 <= p < j && #[trigger] is_child(tree, p, j) && is_way_down(tree, i, p);
        if p != i {
            lemma_nothing_beneath(tree, i, p);
        }
    }
}

/// Deleting what is beneath a node marks exactly that as deleted, and changes nothing else of any
/// other node.
pub proof fn law_delete_marks_exactly_what_is_beneath(tree: TreeView, i: int, j: int)
    requires
        tree.wf(),
        0 <= i < tree.nodes.len(),
        0 <= j < tree.nodes.len(),
        j != i,
    ensures
        delete_beneath(tree, i).tree.nodes[j] == (NodeView {
            meta: if beneath(tree, i, j) {
                NodeMeta::Deleted
            } else {
                tree.nodes[j].meta
            },
            ..tree.nodes[j]
        }),
{
    if tree.nodes[i].children is None {
        lemma_nothing_beneath(tree, i, j);
    } else {
        lemma_marked_beneath(tree, i, j);
    }
}

/// Deleting what is beneath a node reports exactly the files among it, as deleted.
pub proof fn law_delete_reports_exactly_the_files(tree: TreeView, i: int, event: EventView)
    requires
        tree.wf(),
        0 <= i < tree.nodes.len(),
    ensures
        delete_beneath(tree, i).events.contains(event) <==> exists|j: int|
            0 <= j < tree.nodes.len() && #[trigger] beneath(tree, i, j) && tree.nodes[j].meta
                is File && event == tree.delete_event(j),
{
    let m = tree.metas().update(i, NodeMeta::Deleted);
    let (r, events) = delete_children(tree, m, i, 0);
    if tree.nodes[i].children is None {
        assert forall|j: int| !beneath(tree, i, j) by {
            lemma_nothing_beneath(tree, i, j);
        }
    } else {
        lemma_delete_marks(tree, m, i, 0);
        if events.contains(event) {
            let e = choose|e: int| 0 <= e < events.len() && events[e] == event;
            lemma_delete_reports_only(tree, m, i, 0, e);
            let j = choose|j: int|
                0 <= j < m.len() && m[j] is File && r[j] == NodeMeta::Deleted && #[trigger]
                    tree.delete_event(j) == event;
            lemma_marked_beneath(tree, i, j);
            assert(beneath(tree, i, j));
        }
        if exists|j: int|
            0 <= j < tree.nodes.len() && #[trigger] beneath(tree, i, j) && tree.nodes[j].meta
                is File && event == tree.delete_event(j) {
            let j = choose|j: int|
                0 <= j < tree.nodes.len() && #[trigger] beneath(tree, i, j) && tree.nodes[j].meta
                    is File && event == tree.delete_event(j);
            lemma_beneath_is_later(tree, i, j);
            lemma_marked_beneath(tree, i, j);
            lemma_delete_reports(tree, m, i, 0, j);
        }
    }
}

/// What is beneath a node was added after it.
pub proof fn lemma_beneath_is_later(tree: TreeView, i: int, j: int)
    requires
        tree.wf(),
        0 <= i,
        beneath(tree, i, j),
    ensures
        i < j,
    decreases j,
{
    let p = choose|p: int| 0 <= p < j && #[trigger] is_child(tree, p, j) && is_way_down(tree, i, p);
    if p != i {
        lemma_beneath_is_later(tree, i, p);
    }
}

/// The tree shows what was on disk when a change was applied: the node of its path, where there is
/// one, records what is there, and is found by the path.
pub proof fn law_tree_shows_the_disk(
    tree: TreeView,
    change: ChangeView,
    meta: Option<Metadata>,
    outcome: Outcome,
)
    requires
        tree.wf(),
        is_applied(tree, change, meta, outcome),
    ensures
        outcome.tree.find(change.path) == outcome.node,
        outcome.node matches Some(i) ==> match meta {
            Some(meta) => outcome.tree.nodes[i].meta == node_meta(meta)
                && outcome.tree.nodes[i].inode == meta.inode,
            None => outcome.tree.nodes[i].meta == NodeMeta::Deleted,
        },
{
    match tree.find(change.path) {
        Some(i) => {
            assert(tree.is_at(i, change.path));
            lemma_gone(tree, change, i);
            assert(outcome.tree.is_at(i, change.path));
            assert forall|a: int, b: int|
                0 <= a < outcome.tree.nodes.len() && 0 <= b < outcome.tree.nodes.len()
                    && #[trigger] outcome.tree.nodes[a].path
                    == #[trigger] outcome.tree.nodes[b].path implies a == b by {
                assert(tree.nodes[a].path == tree.nodes[b].path);
            }
            lemma_find(outcome.tree, i, change.path);
        },
        None => {
            assert forall|a: int| 0 <= a < tree.nodes.len() implies #[trigger] tree.nodes[a].path
                != change.path by {
                assert(!tree.is_at(a, change.path));
            }
            if let Some(i) = outcome.node {
                assert(outcome.tree.is_at(i, change.path));
                assert forall|a: int| outcome.tree.is_at(a, change.path) implies a == i by {
                    assert(a < i ==> outcome.tree.nodes[a].path == tree.nodes[a].path);
                }
            }
        },
    }
}

/// What a deletion leaves of the node that it starts at, and of the paths of all.
proof fn lemma_gone(tree: TreeView, change: ChangeView, i: int)
    requires
        tree.wf(),
        0 <= i < tree.nodes.len(),
    ensures
        ({
            let after = change_known(tree, i, change, None).tree;
            &&& after.nodes.len() == tree.nodes.len()
            &&& after.dirs == tree.dirs
            &&& after.nodes[i].meta == NodeMeta::Deleted
            &&& forall|j: int|
                0 <= j < tree.nodes.len() ==> {
                    &&& (#[trigger] after.nodes[j]).path == tree.nodes[j].path
                    &&& after.nodes[j].children == tree.nodes[j].children
                    &&& j != i ==> after.nodes[j].flags == tree.nodes[j].flags
                }
        }),
{
    let node = tree.nodes[i];
    let flags = if change.flags.mark_recursive {
        node.flags.marked_recursive()
    } else {
        node.flags
    };
    let gone = tree.with_node(i, NodeView { flags, meta: NodeMeta::Deleted, ..node });
    lemma_delete_beneath_shape(gone, i);
    super::lemmas::lemma_same_shape(tree, gone);
    lemma_delete_marks(gone, gone.metas().update(i, NodeMeta::Deleted), i, 0);
}

/// A second look at a path that did not change on disk in between finds nothing to report, unless
/// the look was asked for by a watcher that saw a write.
pub proof fn law_second_look_is_silent(
    tree: TreeView,
    first: ChangeView,
    second: ChangeView,
    meta: Option<Metadata>,
    once: Outcome,
    twice: Outcome,
)
    requires
        tree.wf(),
        is_applied(tree, first, meta, once),
        second.path == first.path,
        !second.flags.origin_watcher,
        is_applied(once.tree, second, meta, twice),
    ensures
        twice.events.len() == 0,
        twice.node == once.node,
{
    law_tree_shows_the_disk(tree, first, meta, once);
    if let Some(i) = once.node {
        assert(meta is None ==> once.tree.nodes[i].meta == NodeMeta::Deleted);
    } else {
        assert(once.tree == tree);
        if meta is Some {
            let parent = choose|parent: Option<int>| #[trigger]
                tree.is_parent(parent, first.path) && once == change_unknown(
                    tree,
                    first,
                    meta,
                    parent,
                );
            assert(parent is None);
        }
    }
}

/// Nodes keep their numbers and their paths, whatever change is applied.
pub proof fn law_changes_keep_paths(
    tree: TreeView,
    change: ChangeView,
    meta: Option<Metadata>,
    outcome: Outcome,
    j: int,
)
    requires
        tree.wf(),
        is_applied(tree, change, meta, outcome),
        0 <= j < tree.nodes.len(),
    ensures
        tree.nodes.len() <= outcome.tree.nodes.len(),
        outcome.tree.nodes[j].path == tree.nodes[j].path,
{
    super::lemmas::lemma_applied(tree, change, meta, outcome);
}

/// Nodes keep their numbers and their paths, whatever is added to be watched.
pub proof fn law_additions_keep_paths(
    tree: TreeView,
    path: Seq<u8>,
    recursive: bool,
    root: bool,
    meta: Option<Metadata>,
    after: TreeView,
    node: Option<int>,
    j: int,
)
    requires
        tree.wf(),
        is_added(tree, path, recursive, root, meta, after, node),
        0 <= j < tree.nodes.len(),
    ensures
        tree.nodes.len() <= after.nodes.len(),
        after.nodes[j].path == tree.nodes[j].path,
{
    super::lemmas::lemma_added(tree, path, recursive, root, meta, after, node);
}

/// The children of each node that is watched with everything beneath it are watched.
pub open spec fn watches_are_sound(tree: TreeView) -> bool {
    forall|i: int|
        0 <= i < tree.nodes.len() && (#[trigger] tree.nodes[i]).flags.watch_subtree
            ==> tree.nodes[i].flags.watch_children
}

/// Applying a change keeps the watches sound.
pub proof fn law_changes_keep_watches_sound(
    tree: TreeView,
    change: ChangeView,
    meta: Option<Metadata>,
    outcome: Outcome,
)
    requires
        tree.wf(),
        watches_are_sound(tree),
        is_applied(tree, change, meta, outcome),
    ensures
        watches_are_sound(outcome.tree),
{
    if let Some(i) = tree.find(change.path) {
        assert(tree.is_at(i, change.path));
        let node = tree.nodes[i];
        let flags = if change.flags.mark_recursive {
            node.flags.marked_recursive()
        } else {
            node.flags
        };
        let gone = tree.with_node(i, NodeView { flags, meta: NodeMeta::Deleted, ..node });
        lemma_delete_beneath_shape(gone, i);
        assert forall|j: int|
            0 <= j < outcome.tree.nodes.len() && (
            #[trigger] outcome.tree.nodes[j]).flags.watch_subtree implies
            outcome.tree.nodes[j].flags.watch_children by {
            assert(outcome.tree.nodes[j].flags == if j == i {
                flags
            } else {
                tree.nodes[j].flags
            });
        }
    } else {
        assert forall|j: int|
            0 <= j < outcome.tree.nodes.len() && (
            #[trigger] outcome.tree.nodes[j]).flags.watch_subtree implies
            outcome.tree.nodes[j].flags.watch_children by {
            if j < tree.nodes.len() {
                assert(outcome.tree.nodes[j].flags == tree.nodes[j].flags);
            }
        }
    }
}

/// Adding a path keeps the watches sound.
pub proof fn law_additions_keep_watches_sound(
    tree: TreeView,
    path: Seq<u8>,
    recursive: bool,
    root: bool,
    meta: Option<Metadata>,
    after: TreeView,
    node: Option<int>,
)
    requires
        tree.wf(),
        watches_are_sound(tree),
        is_added(tree, path, recursive, root, meta, after, node),
    ensures
        watches_are_sound(after),
{
    if let Some(i) = tree.find(path) {
        assert(tree.is_at(i, path));
    }
    assert forall|j: int|
        0 <= j < after.nodes.len() && (#[trigger] after.nodes[j]).flags.watch_subtree implies
        after.nodes[j].flags.watch_children by {
        if j < tree.nodes.len() {
            assert(after.nodes[j].flags == tree.nodes[j].flags || after.nodes[j].flags
                == tree.nodes[j].flags.marked_recursive());
        }
    }
}

/// What turns up beneath a node of the tree becomes a child of that node, and is watched
/// recursively if the node is or if the change says so.
pub proof fn law_new_node_joins_its_parent(
    tree: TreeView,
    change: ChangeView,
    meta: Option<Metadata>,
    outcome: Outcome,
    p: int,
)
    requires
        tree.wf(),
        is_applied(tree, change, meta, outcome),
        tree.find(change.path) is None,
        tree.is_parent(Some(p), change.path),
        forall|q: int| tree.is_parent(Some(q), change.path) ==> q == p,
        meta is Some,
        tree.nodes.len() < u32::MAX,
    ensures
        outcome.node == Some(tree.nodes.len() as int),
        is_child(outcome.tree, p, tree.nodes.len() as int),
        outcome.tree.nodes[tree.nodes.len() as int].flags.recursive() == (
        change.flags.mark_recursive || tree.nodes[p].flags.recursive()),
{
    let id = tree.nodes.len() as int;
    let parent = choose|parent: Option<int>| #[trigger]
        tree.is_parent(parent, change.path) && outcome == change_unknown(
            tree,
            change,
            meta,
            parent,
        );
    assert(parent == Some(p));
    let list = outcome.tree.children_of(p);
    assert(list[list.len() - 1] == id as u32);
}

/// What is known of a node before it is in the tree, and from then on.
pub open spec fn known_meta(tree: TreeView, j: int) -> NodeMeta {
    if j < tree.nodes.len() {
        tree.nodes[j].meta
    } else {
        NodeMeta::Deleted
    }
}

/// Whenever what is known of a file changes, that is reported: a file that turns up as created, one
/// that is gone as deleted, and another change of a file as modified.
pub proof fn law_no_change_of_a_file_goes_unreported(
    tree: TreeView,
    change: ChangeView,
    meta: Option<Metadata>,
    outcome: Outcome,
    j: int,
)
    requires
        tree.wf(),
        is_applied(tree, change, meta, outcome),
        0 <= j < outcome.tree.nodes.len(),
        known_meta(tree, j) != known_meta(outcome.tree, j),
        known_meta(tree, j) is File || known_meta(outcome.tree, j) is File,
    ensures
        meta_change(known_meta(tree, j), known_meta(outcome.tree, j), false) is Some,
        outcome.events.contains(
            EventView {
                path: outcome.tree.nodes[j].path,
                ty: meta_change(known_meta(tree, j), known_meta(outcome.tree, j), false)->0,
            },
        ),
{
    let event = EventView {
        path: outcome.tree.nodes[j].path,
        ty: meta_change(known_meta(tree, j), known_meta(outcome.tree, j), false)->0,
    };
    match tree.find(change.path) {
        Some(i) => {
            assert(tree.is_at(i, change.path));
            if meta is Some || tree.nodes[i].meta != NodeMeta::Dir {
                assert(outcome.events[0] == event);
            } else {
                let node = tree.nodes[i];
                let flags = if change.flags.mark_recursive {
                    node.flags.marked_recursive()
                } else {
                    node.flags
                };
                let gone = tree.with_node(i, NodeView { flags, meta: NodeMeta::Deleted, ..node });
                super::lemmas::lemma_same_shape(tree, gone);
                lemma_delete_beneath_shape(gone, i);
                lemma_start_is_marked(gone, i);
                assert(j != i);
                law_delete_marks_exactly_what_is_beneath(gone, i, j);
                assert(event == gone.delete_event(j));
                law_delete_reports_exactly_the_files(gone, i, event);
            }
        },
        None => {
            assert(j == tree.nodes.len());
            assert(outcome.events[0] == event);
        },
    }
}

/// Applying a change keeps the tree well formed.
pub proof fn law_changes_keep_the_tree_well_formed(
    tree: TreeView,
    change: ChangeView,
    meta: Option<Metadata>,
    outcome: Outcome,
)
    requires
        tree.wf(),
        tree.has_room(),
        is_stored(change.path),
        is_applied(tree, change, meta, outcome),
    ensures
        outcome.tree.wf(),
{
    super::lemmas::lemma_applied_wf(tree, change, meta, outcome);
}

/// Adding a path keeps the tree well formed.
pub proof fn law_additions_keep_the_tree_well_formed(
    tree: TreeView,
    path: Seq<u8>,
    recursive: bool,
    root: bool,
    meta: Option<Metadata>,
    after: TreeView,
    node: Option<int>,
)
    requires
        tree.wf(),
        tree.has_room(),
        is_stored(path),
        is_added(tree, path, recursive, root, meta, after, node),
    ensures
        after.wf(),
{
    super::lemmas::lemma_added_wf(tree, path, recursive, root, meta, after, node);
}

/// A directory whose children are watched is looked through when something is reported to have
/// changed in it, whichever kind of crawl the report asks for, and when it was replaced by another.
pub proof fn law_reported_directory_is_looked_through(
    tree: TreeView,
    change: ChangeView,
    meta: Metadata,
    outcome: Outcome,
    i: int,
)
    requires
        tree.wf(),
        tree.is_at(i, change.path),
        tree.nodes[i].flags.watch_children,
        change.flags.needs_recursive_crawl || change.flags.needs_non_recursive_crawl || meta.inode
            != tree.nodes[i].inode,
        is_applied(tree, change, Some(meta), outcome),
    ensures
        outcome.node == Some(i),
        outcome.recurse,
{
    lemma_find(tree, i, change.path);
}

} // verus!
