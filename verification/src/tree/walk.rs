//! What a crawl knows on its way through a directory.

use super::crawl_laws::{is_walk_step, is_walked, path_len, shown, Entry, Walked};
use super::event_laws::{lemma_step_outcome, lemma_step_reports, lemma_sweep_deletes, only_deletes};
use super::laws::{
    beneath, is_child, is_way_down, law_delete_marks_exactly_what_is_beneath,
    law_tree_shows_the_disk, lemma_start_is_marked,
};
use super::lemmas::{
    in_tree, lemma_applied, lemma_applied_wf, lemma_children_valid, lemma_delete_beneath_shape,
    lemma_kept_bound, lemma_leave, lemma_same_shape, lemma_sweep,
};
use super::model::{
    change_unknown, crawl_change, delete_beneath, entered, is_applied, kept, leave, stacked, sweep,
    CrawlStack, Outcome, TreeView,
};
use super::{Flags, NodeMeta, NodeView};
use crate::bytes::{is_last_index, last_index, DOT, PATH_SEPARATOR};
use crate::events::EventView;
use crate::metadata::Metadata;
use crate::path::{is_stored, parent_text, path_text};
use crate::table::id_limit;
use vstd::prelude::*;

verus! {

/// Entry `j` of a walk is the directory that entry `k` is in, and the walk is still in it there.
pub open spec fn is_entry_parent(entries: Seq<Entry>, j: int, k: int) -> bool {
    &&& 0 <= j < k
    &&& entries[j].depth + 1 == entries[k].depth
    &&& parent_text(entries[k].path) == Some(path_text(entries[j].path))
    &&& entries[j].meta matches Some(meta) && meta.is_dir
    &&& forall|l: int| j < l < k ==> (#[trigger] entries[l]).depth >= entries[k].depth
}

/// The entries are those of a walk through the directory with the stored path `root`: each path
/// comes once, behind the directory that it is in, and before the walk is out of that directory.
pub open spec fn is_walk(root: Seq<u8>, recursive: bool, entries: Seq<Entry>) -> bool {
    &&& is_stored(root)
    &&& path_text(root) != seq![DOT]
    &&& forall|k: int|
        0 <= k < entries.len() ==> {
            &&& (#[trigger] entries[k]).depth >= 1
            &&& !recursive ==> entries[k].depth == 1
            &&& is_stored(entries[k].path)
            &&& entries[k].depth == 1 ==> parent_text(entries[k].path) == Some(path_text(root))
            &&& entries[k].depth > 1 ==> exists|j: int| is_entry_parent(entries, j, k)
        }
    &&& forall|j: int, k: int|
        0 <= j < entries.len() && 0 <= k < entries.len() && (#[trigger] entries[j]).path == (
        #[trigger] entries[k]).path ==> j == k
}

/// One of the first `k` entries has this path.
pub open spec fn is_seen(entries: Seq<Entry>, k: int, path: Seq<u8>) -> bool {
    exists|e: int| 0 <= e < k && (#[trigger] entries[e]).path == path
}

/// One of the first `k` entries has this path and is a directory.
pub open spec fn is_seen_dir(entries: Seq<Entry>, k: int, path: Seq<u8>) -> bool {
    exists|e: int|
        0 <= e < k && (#[trigger] entries[e]).path == path && (entries[e].meta matches Some(meta)
            && meta.is_dir)
}

/// The node records what is on disk.
pub open spec fn shows(node: NodeView, meta: Option<Metadata>) -> bool {
    &&& node.meta == shown(meta)
    &&& meta matches Some(meta) ==> node.inode == meta.inode
}

/// The nodes of the first `k` entries record what the walk found.
pub open spec fn all_shown(tree: TreeView, entries: Seq<Entry>, k: int) -> bool {
    &&& forall|e: int, i: int|
        0 <= e < k && #[trigger] tree.is_at(i, entries[e].path) ==> shows(
            tree.nodes[i],
            entries[e].meta,
        )
    &&& forall|e: int|
        0 <= e < k && (#[trigger] entries[e]).meta is Some ==> in_tree(tree, entries[e].path)
}

/// The nodes of the first `k` entries count as visited.
pub open spec fn all_visited(tree: TreeView, entries: Seq<Entry>, k: int) -> bool {
    forall|e: int, i: int|
        0 <= e < k && #[trigger] tree.is_at(i, entries[e].path)
            ==> !tree.nodes[i].flags.maybe_deleted
}

/// The crawl entered this directory when it came by the first `m` entries, or at its start.
pub open spec fn was_entered(
    tree: TreeView,
    d: int,
    recursive: bool,
    entries: Seq<Entry>,
    m: int,
    x: int,
) -> bool {
    x == d || (recursive && exists|e: int|
        0 <= e < m && tree.is_at(x, (#[trigger] entries[e]).path) && (entries[e].meta matches Some(
            meta,
        ) && meta.is_dir))
}

/// The node is deleted, and so are its children.
pub open spec fn is_gone(tree: TreeView, c: int) -> bool {
    &&& tree.nodes[c].meta == NodeMeta::Deleted
    &&& forall|z: int|
        0 <= z < tree.nodes.len() && #[trigger] is_child(tree, c, z) ==> tree.nodes[z].meta
            == NodeMeta::Deleted
}

/// The crawl is in this directory.
pub open spec fn is_on_stack(stack: CrawlStack, x: int) -> bool {
    exists|j: int| 0 <= j < stack.len() && (#[trigger] stack[j]).0 == x
}

/// A child of a directory that was entered was visited, or waits to be, or is gone.
pub open spec fn children_settled(
    tree: TreeView,
    stack: CrawlStack,
    d: int,
    recursive: bool,
    entries: Seq<Entry>,
    k: int,
    m: int,
) -> bool {
    forall|x: int, c: int|
        0 <= x < tree.nodes.len() && 0 <= c < tree.nodes.len() && #[trigger] is_child(tree, x, c)
            && was_entered(tree, d, recursive, entries, m, x) ==> {
            ||| is_seen(entries, k, tree.nodes[c].path)
            ||| is_on_stack(stack, x) && tree.nodes[c].flags.maybe_deleted
            ||| is_gone(tree, c)
        }
}

/// The frame is that of the directory that the crawl started at, or of one of the first `m`
/// entries.
pub open spec fn is_frame(
    tree: TreeView,
    d: int,
    entries: Seq<Entry>,
    m: int,
    frame: (int, int),
) -> bool {
    frame == (d, 0int) || exists|e: int|
        0 <= e < m && tree.is_at(frame.0, (#[trigger] entries[e]).path) && frame.1
            == entries[e].depth
}

/// The directories that a crawl is in are those that it entered.
pub open spec fn frames_entered(
    tree: TreeView,
    stack: CrawlStack,
    d: int,
    entries: Seq<Entry>,
    m: int,
) -> bool {
    forall|j: int| 0 <= j < stack.len() ==> is_frame(tree, d, entries, m, #[trigger] stack[j])
}

/// What holds in a crawl of directory `d` after `k` entries, of which the directories among the
/// first `m` were entered.
pub open spec fn is_on_the_way(
    tree: TreeView,
    stack: CrawlStack,
    d: int,
    root: Seq<u8>,
    recursive: bool,
    entries: Seq<Entry>,
    k: int,
    m: int,
) -> bool {
    &&& tree.wf()
    &&& is_walk(root, recursive, entries)
    &&& 0 <= m <= k <= entries.len()
    &&& 0 <= d < tree.nodes.len()
    &&& tree.nodes[d].path == root
    &&& frames_entered(tree, stack, d, entries, m)
    &&& all_shown(tree, entries, k)
    &&& all_visited(tree, entries, k)
    &&& children_settled(tree, stack, d, recursive, entries, k, m)
}

/// `j` is a child of `i`, or a child of a node that is itself under `i`.
pub open spec fn is_under(tree: TreeView, i: int, j: int) -> bool
    decreases j,
{
    exists|p: int| 0 <= p < j && #[trigger] is_child(tree, p, j) && (p == i || is_under(tree, i, p))
}

/// What is beneath a node is under it.
pub proof fn lemma_beneath_is_under(tree: TreeView, i: int, j: int)
    requires
        beneath(tree, i, j),
    ensures
        is_under(tree, i, j),
    decreases j,
{
    let p = choose|p: int| 0 <= p < j && #[trigger] is_child(tree, p, j) && is_way_down(tree, i, p);
    if p != i {
        lemma_beneath_is_under(tree, i, p);
    }
}

/// Where the lists of children are the same, the same is under a node.
pub proof fn lemma_under_same(a: TreeView, b: TreeView, i: int, j: int)
    requires
        a.nodes.len() == b.nodes.len(),
        j < a.nodes.len(),
        forall|x: int|
            0 <= x < a.nodes.len() ==> #[trigger] a.children_of(x) == b.children_of(x),
        is_under(a, i, j),
    ensures
        is_under(b, i, j),
    decreases j,
{
    let p = choose|p: int|
        0 <= p < j && #[trigger] is_child(a, p, j) && (p == i || is_under(a, i, p));
    assert(a.children_of(p) == b.children_of(p));
    assert(is_child(b, p, j));
    if p != i {
        lemma_under_same(a, b, i, p);
    }
}

/// Stored paths that say the same are the same, but for those that say `.`.
pub proof fn lemma_text_tells_path(a: Seq<u8>, b: Seq<u8>)
    requires
        is_stored(a),
        is_stored(b),
        path_text(a) == path_text(b),
        path_text(a) != seq![DOT],
    ensures
        a == b,
{
    assert(a =~= path_text(a).push(0));
    assert(b =~= path_text(b).push(0));
}

/// What a path in a directory says.
pub proof fn lemma_path_in_dir(raw: Seq<u8>)
    requires
        is_stored(raw),
        parent_text(raw) is Some,
    ensures
        path_text(raw) != seq![DOT],
        parent_text(raw)->0.len() < path_text(raw).len(),
{
    let i = last_index(raw, PATH_SEPARATOR)->0;
    assert(is_last_index(raw, PATH_SEPARATOR, i));
    assert(path_text(raw)[i] == PATH_SEPARATOR);
}

/// The node of the directory that an entry is in is the start of the walk, or that of an earlier
/// entry.
pub proof fn lemma_parent_of_entry(
    tree: TreeView,
    d: int,
    root: Seq<u8>,
    recursive: bool,
    entries: Seq<Entry>,
    p: int,
    e: int,
)
    requires
        tree.wf(),
        is_walk(root, recursive, entries),
        0 <= d < tree.nodes.len(),
        tree.nodes[d].path == root,
        0 <= p < tree.nodes.len(),
        0 <= e < entries.len(),
        parent_text(entries[e].path) == Some(path_text(tree.nodes[p].path)),
    ensures
        entries[e].depth == 1 ==> p == d,
        entries[e].depth > 1 ==> exists|j: int|
            #[trigger] is_entry_parent(entries, j, e) && tree.is_at(p, entries[j].path),
{
    if entries[e].depth == 1 {
        lemma_text_tells_path(tree.nodes[p].path, root);
        assert(tree.nodes[p].path == tree.nodes[d].path);
    } else {
        let j = choose|j: int| is_entry_parent(entries, j, e);
        assert(is_stored(entries[j].path));
        lemma_entry_is_inside(root, recursive, entries, j);
        lemma_text_tells_path(tree.nodes[p].path, entries[j].path);
        assert(tree.is_at(p, entries[j].path));
    }
}

/// An entry says more than the start of the walk.
pub proof fn lemma_entry_is_inside(root: Seq<u8>, recursive: bool, entries: Seq<Entry>, e: int)
    requires
        is_walk(root, recursive, entries),
        0 <= e < entries.len(),
    ensures
        path_text(entries[e].path) != seq![DOT],
        path_text(root).len() < path_text(entries[e].path).len(),
    decreases e,
{
    assert(is_stored(entries[e].path));
    if entries[e].depth > 1 {
        let j = choose|j: int| is_entry_parent(entries, j, e);
        lemma_entry_is_inside(root, recursive, entries, j);
    }
    lemma_path_in_dir(entries[e].path);
}

/// What a node that the node of an entry is under can be: that of an earlier entry, which is a
/// directory, or one that is not inside the start of the walk.
pub proof fn lemma_under_entry(
    tree: TreeView,
    d: int,
    root: Seq<u8>,
    recursive: bool,
    entries: Seq<Entry>,
    i: int,
    c: int,
    e: int,
)
    requires
        tree.wf(),
        is_walk(root, recursive, entries),
        0 <= d < tree.nodes.len(),
        tree.nodes[d].path == root,
        0 <= i < tree.nodes.len(),
        0 <= e < entries.len(),
        tree.is_at(c, entries[e].path),
        is_under(tree, i, c),
    ensures
        path_len(tree, i) <= path_len(tree, d) || is_seen_dir(entries, e, tree.nodes[i].path),
    decreases e,
{
    let p = choose|p: int|
        0 <= p < c && #[trigger] is_child(tree, p, c) && (p == i || is_under(tree, i, p));
    lemma_child_mirrors(tree, p, c);
    lemma_parent_of_entry(tree, d, root, recursive, entries, p, e);
    if entries[e].depth == 1 {
        if p != i {
            lemma_under_is_longer(tree, i, p);
        }
    } else {
        let j = choose|j: int|
            #[trigger] is_entry_parent(entries, j, e) && tree.is_at(p, entries[j].path);
        assert(entries[j].path == tree.nodes[p].path);
        if p != i {
            lemma_under_entry(tree, d, root, recursive, entries, i, p, j);
            if is_seen_dir(entries, j, tree.nodes[i].path) {
                let l = choose|l: int|
                    0 <= l < j && (#[trigger] entries[l]).path == tree.nodes[i].path && (
                    entries[l].meta matches Some(meta) && meta.is_dir);
                assert(entries[l].path == tree.nodes[i].path);
            }
        }
    }
}

/// The path of a child is that of its parent and a name.
pub proof fn lemma_child_mirrors(tree: TreeView, p: int, c: int)
    requires
        tree.wf(),
        0 <= p < tree.nodes.len(),
        0 <= c < tree.nodes.len(),
        is_child(tree, p, c),
    ensures
        p < c,
        parent_text(tree.nodes[c].path) == Some(path_text(tree.nodes[p].path)),
        path_len(tree, p) < path_len(tree, c),
{
    let l = choose|l: int| 0 <= l < tree.children_of(p).len() && tree.children_of(p)[l] == c as u32;
    assert(p < tree.children_of(p)[l]);
    assert(tree.children_of(p)[l] as int == c);
    assert(is_stored(tree.nodes[c].path));
    lemma_path_in_dir(tree.nodes[c].path);
}

/// What is under a node has a longer path.
pub proof fn lemma_under_is_longer(tree: TreeView, i: int, j: int)
    requires
        tree.wf(),
        0 <= i < tree.nodes.len(),
        0 <= j < tree.nodes.len(),
        is_under(tree, i, j),
    ensures
        path_len(tree, i) < path_len(tree, j),
    decreases j,
{
    let p = choose|p: int|
        0 <= p < j && #[trigger] is_child(tree, p, j) && (p == i || is_under(tree, i, p));
    lemma_child_mirrors(tree, p, j);
    if p != i {
        lemma_under_is_longer(tree, i, p);
    }
}

/// A sweep spares a node that is neither an unvisited one of the list nor under one.
pub proof fn lemma_sweep_spares(tree: TreeView, list: Seq<u32>, k: int, c: int)
    requires
        tree.wf(),
        0 <= k <= list.len(),
        forall|l: int| 0 <= l < list.len() ==> #[trigger] list[l] < tree.nodes.len(),
        0 <= c < tree.nodes.len(),
        forall|l: int|
            k <= l < list.len() && tree.nodes[#[trigger] list[l] as int].flags.maybe_deleted
                ==> list[l] != c && !is_under(tree, list[l] as int, c),
    ensures
        sweep(tree, list, k).tree.nodes[c] == tree.nodes[c],
    decreases list.len() - k,
{
    if k < list.len() {
        let y = list[k] as int;
        if tree.nodes[y].flags.maybe_deleted {
            let marked = tree.with_meta(y, NodeMeta::Deleted);
            let below = delete_beneath(marked, y);
            lemma_same_shape(tree, marked);
            lemma_delete_beneath_shape(marked, y);
            lemma_same_shape(marked, below.tree);
            if beneath(marked, y, c) {
                lemma_beneath_is_under(marked, y, c);
                lemma_under_same(marked, tree, y, c);
            }
            law_delete_marks_exactly_what_is_beneath(marked, y, c);
            assert forall|l: int|
                k + 1 <= l < list.len()
                    && below.tree.nodes[#[trigger] list[l] as int].flags.maybe_deleted implies
                list[l] != c && !is_under(below.tree, list[l] as int, c) by {
                let other = list[l] as int;
                assert(below.tree.nodes[other].flags == marked.nodes[other].flags);
                if is_under(below.tree, list[l] as int, c) {
                    lemma_under_same(below.tree, tree, list[l] as int, c);
                }
            }
            lemma_sweep_spares(below.tree, list, k + 1, c);
        } else {
            lemma_sweep_spares(tree, list, k + 1, c);
        }
    }
}

/// What is gone stays so when more is deleted.
pub proof fn lemma_gone_stays(before: TreeView, after: TreeView, events: Seq<EventView>, c: int)
    requires
        before.wf(),
        only_deletes(before, after, events),
        0 <= c < before.nodes.len(),
        is_gone(before, c),
    ensures
        is_gone(after, c),
{
    lemma_same_shape(before, after);
    assert(after.nodes[c].meta == NodeMeta::Deleted);
    assert forall|z: int| 0 <= z < after.nodes.len() && #[trigger] is_child(after, c, z) implies
        after.nodes[z].meta == NodeMeta::Deleted by {
        assert(is_child(before, c, z));
        assert(after.nodes[z].meta == before.nodes[z].meta || after.nodes[z].meta
            == NodeMeta::Deleted);
    }
}

/// A sweep makes the unvisited nodes of the list gone.
pub proof fn lemma_sweep_clears(tree: TreeView, list: Seq<u32>, k: int, l: int)
    requires
        tree.wf(),
        0 <= k <= l < list.len(),
        forall|i: int| 0 <= i < list.len() ==> #[trigger] list[i] < tree.nodes.len(),
        tree.nodes[list[l] as int].flags.maybe_deleted,
    ensures
        is_gone(sweep(tree, list, k).tree, list[l] as int),
    decreases list.len() - k,
{
    let y = list[k] as int;
    if tree.nodes[y].flags.maybe_deleted {
        let marked = tree.with_meta(y, NodeMeta::Deleted);
        let below = delete_beneath(marked, y);
        lemma_same_shape(tree, marked);
        lemma_delete_beneath_shape(marked, y);
        lemma_same_shape(marked, below.tree);
        if k == l {
            lemma_start_is_marked(marked, y);
            assert(is_gone(below.tree, y)) by {
                assert forall|z: int|
                    0 <= z < below.tree.nodes.len() && #[trigger] is_child(below.tree, y, z) implies
                    below.tree.nodes[z].meta == NodeMeta::Deleted by {
                    assert(is_child(marked, y, z));
                    lemma_child_mirrors(marked, y, z);
                    assert(is_way_down(marked, y, y));
                    assert(beneath(marked, y, z));
                    law_delete_marks_exactly_what_is_beneath(marked, y, z);
                }
            }
            let rest = sweep(below.tree, list, k + 1);
            lemma_sweep_deletes(below.tree, list, k + 1);
            lemma_gone_stays(below.tree, rest.tree, rest.events, y);
        } else {
            assert(below.tree.nodes[list[l] as int].flags == marked.nodes[list[l] as int].flags);
            lemma_sweep_clears(below.tree, list, k + 1, l);
        }
    } else {
        lemma_sweep_clears(tree, list, k + 1, l);
    }
}

/// A frame is a node of the tree, and not outside the start of the walk.
pub proof fn lemma_frame_is_inside(
    tree: TreeView,
    d: int,
    root: Seq<u8>,
    recursive: bool,
    entries: Seq<Entry>,
    m: int,
    frame: (int, int),
)
    requires
        is_walk(root, recursive, entries),
        0 <= m <= entries.len(),
        0 <= d < tree.nodes.len(),
        tree.nodes[d].path == root,
        is_frame(tree, d, entries, m, frame),
    ensures
        0 <= frame.0 < tree.nodes.len(),
        path_len(tree, d) <= path_len(tree, frame.0),
{
    if frame != (d, 0int) {
        let e = choose|e: int|
            0 <= e < m && tree.is_at(frame.0, (#[trigger] entries[e]).path) && frame.1
                == entries[e].depth;
        lemma_entry_is_inside(root, recursive, entries, e);
    }
}

/// Leaving the innermost directory.
#[verifier::rlimit(60)]
pub proof fn lemma_leave_one(
    tree: TreeView,
    stack: CrawlStack,
    d: int,
    root: Seq<u8>,
    recursive: bool,
    entries: Seq<Entry>,
    k: int,
    m: int,
)
    requires
        is_on_the_way(tree, stack, d, root, recursive, entries, k, m),
        stack.len() > 0,
    ensures
        is_on_the_way(
            sweep(tree, tree.children_of(stack.last().0), 0).tree,
            stack.drop_last(),
            d,
            root,
            recursive,
            entries,
            k,
            m,
        ),
{
    let x = stack.last().0;
    let list = tree.children_of(x);
    let swept = sweep(tree, list, 0);
    let after = swept.tree;
    let rest = stack.drop_last();
    assert(is_frame(tree, d, entries, m, stack[stack.len() - 1]));
    lemma_frame_is_inside(tree, d, root, recursive, entries, m, stack.last());
    lemma_children_valid(tree, x);
    lemma_sweep(tree, list, 0);
    lemma_same_shape(tree, after);
    lemma_sweep_deletes(tree, list, 0);
    assert forall|j: int| 0 <= j < rest.len() implies is_frame(
        after,
        d,
        entries,
        m,
        #[trigger] rest[j],
    ) by {
        assert(rest[j] == stack[j]);
        lemma_frame_kept(tree, after, d, entries, m, rest[j]);
    }
    assert forall|e: int, i: int|
        0 <= e < k && #[trigger] after.is_at(i, entries[e].path) implies after.nodes[i]
        == tree.nodes[i] by {
        assert(tree.is_at(i, entries[e].path));
        assert forall|l: int|
            0 <= l < list.len() && tree.nodes[#[trigger] list[l] as int].flags.maybe_deleted implies
            list[l] != i && !is_under(tree, list[l] as int, i) by {
            let y = list[l] as int;
            assert(is_child(tree, x, y)) by {
                assert(list[l] == y as u32);
            }
            lemma_child_mirrors(tree, x, y);
            if is_under(tree, y, i) {
                lemma_under_entry(tree, d, root, recursive, entries, y, i, e);
                let j = choose|j: int| 0 <= j < e && (#[trigger] entries[j]).path
                    == tree.nodes[y].path;
                assert(tree.is_at(y, entries[j].path));
            }
        }
        lemma_sweep_spares(tree, list, 0, i);
    }
    assert forall|e: int| 0 <= e < k && (#[trigger] entries[e]).meta is Some implies in_tree(
        after,
        entries[e].path,
    ) by {
        let i = choose|i: int| tree.is_at(i, entries[e].path);
        assert(after.is_at(i, entries[e].path));
    }
    assert forall|e: int, i: int|
        0 <= e < k && #[trigger] after.is_at(i, entries[e].path) implies shows(
        after.nodes[i],
        entries[e].meta,
    ) && !after.nodes[i].flags.maybe_deleted by {
        assert(tree.is_at(i, entries[e].path));
    }
    assert forall|y: int, c: int|
        0 <= y < after.nodes.len() && 0 <= c < after.nodes.len() && #[trigger] is_child(after, y, c)
            && was_entered(after, d, recursive, entries, m, y) implies {
        ||| is_seen(entries, k, after.nodes[c].path)
        ||| is_on_stack(rest, y) && after.nodes[c].flags.maybe_deleted
        ||| is_gone(after, c)
    } by {
        assert(is_child(tree, y, c));
        assert(after.nodes[c].path == tree.nodes[c].path);
        assert(after.nodes[c].flags == tree.nodes[c].flags);
        lemma_entered_kept(after, tree, d, recursive, entries, m, y);
        if is_gone(tree, c) {
            lemma_gone_stays(tree, after, swept.events, c);
        } else if !is_seen(entries, k, tree.nodes[c].path) {
            if y == x {
                let l = choose|l: int| 0 <= l < list.len() && list[l] == c as u32;
                assert(list[l] as int == c);
                lemma_sweep_clears(tree, list, 0, l);
            } else {
                let j = choose|j: int| 0 <= j < stack.len() && (#[trigger] stack[j]).0 == y;
                assert(rest[j].0 == y);
            }
        }
    }
}

/// A frame stays one where the paths are the same.
pub proof fn lemma_frame_kept(
    a: TreeView,
    b: TreeView,
    d: int,
    entries: Seq<Entry>,
    m: int,
    frame: (int, int),
)
    requires
        is_frame(a, d, entries, m, frame),
        a.nodes.len() <= b.nodes.len(),
        forall|j: int|
            0 <= j < a.nodes.len() ==> (#[trigger] b.nodes[j]).path == a.nodes[j].path,
    ensures
        is_frame(b, d, entries, m, frame),
{
    if frame != (d, 0int) {
        let e = choose|e: int|
            0 <= e < m && a.is_at(frame.0, (#[trigger] entries[e]).path) && frame.1
                == entries[e].depth;
        assert(b.is_at(frame.0, entries[e].path));
        assert(entries[e].depth == frame.1);
    }
}

/// A directory that was entered is one where the paths are the same.
pub proof fn lemma_entered_kept(
    a: TreeView,
    b: TreeView,
    d: int,
    recursive: bool,
    entries: Seq<Entry>,
    m: int,
    x: int,
)
    requires
        was_entered(a, d, recursive, entries, m, x),
        0 <= x < b.nodes.len(),
        x < a.nodes.len(),
        b.nodes[x].path == a.nodes[x].path,
    ensures
        was_entered(b, d, recursive, entries, m, x),
{
    if x != d {
        let e = choose|e: int|
            0 <= e < m && a.is_at(x, (#[trigger] entries[e]).path) && (entries[e].meta matches Some(
                meta,
            ) && meta.is_dir);
        assert(b.is_at(x, entries[e].path));
        assert(entries[e].meta matches Some(meta) && meta.is_dir);
    }
}

/// Leaving directories on the way.
pub proof fn lemma_leave_on_the_way(
    tree: TreeView,
    stack: CrawlStack,
    depth: int,
    d: int,
    root: Seq<u8>,
    recursive: bool,
    entries: Seq<Entry>,
    k: int,
    m: int,
)
    requires
        is_on_the_way(tree, stack, d, root, recursive, entries, k, m),
    ensures
        is_on_the_way(
            leave(tree, stack, depth).tree,
            stack.take(kept(stack, depth)),
            d,
            root,
            recursive,
            entries,
            k,
            m,
        ),
    decreases stack.len(),
{
    if stack.len() > 0 && stack.last().1 >= depth {
        let swept = sweep(tree, tree.children_of(stack.last().0), 0).tree;
        let rest = stack.drop_last();
        lemma_leave_one(tree, stack, d, root, recursive, entries, k, m);
        lemma_leave_on_the_way(swept, rest, depth, d, root, recursive, entries, k, m);
        lemma_kept_bound(rest, depth);
        assert(rest.take(kept(rest, depth)) =~= stack.take(kept(stack, depth)));
    } else {
        assert(stack.take(stack.len() as int) =~= stack);
    }
}

/// What applying a change leaves alone: of every other node its path, inode and flags, and what is
/// known of it unless it is under the node of the change; and the lists, but for a new node.
pub proof fn lemma_apply_spares(
    tree: TreeView,
    change: crate::pending::ChangeView,
    meta: Option<Metadata>,
    outcome: Outcome,
)
    requires
        tree.wf(),
        tree.has_room(),
        is_stored(change.path),
        is_applied(tree, change, meta, outcome),
    ensures
        forall|j: int|
            0 <= j < tree.nodes.len() && outcome.node != Some(j) ==> {
                let node = #[trigger] outcome.tree.nodes[j];
                &&& node.flags == tree.nodes[j].flags
                &&& node.inode == tree.nodes[j].inode
                &&& node.meta == tree.nodes[j].meta || (node.meta == NodeMeta::Deleted
                    && outcome.node is Some && is_under(tree, outcome.node->0, j))
            },
        forall|x: int, c: int|
            0 <= x < tree.nodes.len() && 0 <= c < tree.nodes.len() && #[trigger] is_child(
                outcome.tree,
                x,
                c,
            ) ==> is_child(tree, x, c),
        forall|x: int, c: int|
            0 <= x < tree.nodes.len() && 0 <= c < tree.nodes.len() && #[trigger] is_child(
                tree,
                x,
                c,
            ) ==> is_child(outcome.tree, x, c),
{
    match tree.find(change.path) {
        Some(i) => {
            assert(tree.is_at(i, change.path));
            let node = tree.nodes[i];
            let flags = if change.flags.mark_recursive {
                node.flags.marked_recursive()
            } else {
                node.flags
            };
            if meta is None && node.meta == NodeMeta::Dir {
                let gone = tree.with_node(i, NodeView { flags, meta: NodeMeta::Deleted, ..node });
                lemma_same_shape(tree, gone);
                lemma_delete_beneath_shape(gone, i);
                lemma_same_shape(gone, outcome.tree);
                assert forall|j: int|
                    0 <= j < tree.nodes.len() && outcome.node != Some(j) implies {
                    let node = #[trigger] outcome.tree.nodes[j];
                    &&& node.flags == tree.nodes[j].flags
                    &&& node.inode == tree.nodes[j].inode
                    &&& node.meta == tree.nodes[j].meta || (node.meta == NodeMeta::Deleted
                        && is_under(tree, i, j))
                } by {
                    law_delete_marks_exactly_what_is_beneath(gone, i, j);
                    if beneath(gone, i, j) {
                        lemma_beneath_is_under(gone, i, j);
                        lemma_under_same(gone, tree, i, j);
                    }
                }
            }
            assert forall|x: int, c: int|
                0 <= x < tree.nodes.len() && 0 <= c < tree.nodes.len() && #[trigger] is_child(
                    outcome.tree,
                    x,
                    c,
                ) implies is_child(tree, x, c) by {
                assert(outcome.tree.children_of(x) =~= tree.children_of(x));
            }
            assert forall|x: int, c: int|
                0 <= x < tree.nodes.len() && 0 <= c < tree.nodes.len() && #[trigger] is_child(
                    tree,
                    x,
                    c,
                ) implies is_child(outcome.tree, x, c) by {
                assert(outcome.tree.children_of(x) =~= tree.children_of(x));
            }
        },
        None => {
            let parent = choose|parent: Option<int>| #[trigger]
                tree.is_parent(parent, change.path) && outcome == change_unknown(
                    tree,
                    change,
                    meta,
                    parent,
                );
            assert forall|x: int, c: int|
                0 <= x < tree.nodes.len() && 0 <= c < tree.nodes.len() && #[trigger] is_child(
                    outcome.tree,
                    x,
                    c,
                ) implies is_child(tree, x, c) by {
                let list = outcome.tree.children_of(x);
                let l = choose|l: int| 0 <= l < list.len() && list[l] == c as u32;
                if outcome.node is Some {
                    let n = tree.nodes.len() as int;
                    assert(l < tree.children_of(x).len());
                    assert(tree.children_of(x)[l] == c as u32);
                }
            }
            assert forall|x: int, c: int|
                0 <= x < tree.nodes.len() && 0 <= c < tree.nodes.len() && #[trigger] is_child(
                    tree,
                    x,
                    c,
                ) implies is_child(outcome.tree, x, c) by {
                let list = tree.children_of(x);
                let l = choose|l: int| 0 <= l < list.len() && list[l] == c as u32;
                assert(outcome.tree.children_of(x)[l] == c as u32);
            }
        },
    }
}

/// Where the directory of an entry is in the tree, what is there on disk gets a node.
pub proof fn lemma_entry_gets_node(
    tree: TreeView,
    stack: CrawlStack,
    d: int,
    root: Seq<u8>,
    recursive: bool,
    entries: Seq<Entry>,
    k: int,
    outcome: Outcome,
)
    requires
        is_on_the_way(tree, stack, d, root, recursive, entries, k, k),
        k < entries.len(),
        entries[k].meta is Some,
        is_applied(tree, crawl_change(entries[k].path, recursive), entries[k].meta, outcome),
    ensures
        outcome.node is Some,
{
    let entry = entries[k];
    let change = crawl_change(entry.path, recursive);
    if tree.find(entry.path) is None {
        let parent = choose|parent: Option<int>| #[trigger]
            tree.is_parent(parent, change.path) && outcome == change_unknown(
                tree,
                change,
                entry.meta,
                parent,
            );
        if parent is None {
            if entry.depth == 1 {
                assert(parent_text(entry.path) != Some(path_text(tree.nodes[d].path)));
            } else {
                let j = choose|j: int| is_entry_parent(entries, j, k);
                assert(entries[j].meta is Some);
                let p = choose|p: int| tree.is_at(p, entries[j].path);
                assert(tree.is_at(p, entries[j].path));
                assert(parent_text(entry.path) != Some(path_text(tree.nodes[p].path)));
            }
        }
    }
}

/// Looking at the next entry on the way, where it has a node: what is then known, with the node
/// counted as visited.
#[verifier::rlimit(60)]
pub proof fn lemma_visit_on_the_way(
    tree: TreeView,
    stack: CrawlStack,
    d: int,
    root: Seq<u8>,
    recursive: bool,
    entries: Seq<Entry>,
    k: int,
    outcome: Outcome,
    i: int,
)
    requires
        is_on_the_way(tree, stack, d, root, recursive, entries, k, k),
        k < entries.len(),
        tree.has_room(),
        is_applied(tree, crawl_change(entries[k].path, recursive), entries[k].meta, outcome),
        outcome.node == Some(i),
    ensures
        is_on_the_way(
            outcome.tree.with_flags(
                i,
                Flags { maybe_deleted: false, ..outcome.tree.nodes[i].flags },
            ),
            stack,
            d,
            root,
            recursive,
            entries,
            k + 1,
            k,
        ),
{
    let entry = entries[k];
    let change = crawl_change(entry.path, recursive);
    let applied = outcome.tree;
    let visited = applied.with_flags(
        i,
        Flags { maybe_deleted: false, ..applied.nodes[i].flags },
    );
    let n = tree.nodes.len() as int;
    lemma_applied(tree, change, entry.meta, outcome);
    lemma_applied_wf(tree, change, entry.meta, outcome);
    lemma_apply_spares(tree, change, entry.meta, outcome);
    law_tree_shows_the_disk(tree, change, entry.meta, outcome);
    lemma_same_shape(applied, visited);
    lemma_entry_is_inside(root, recursive, entries, k);
    assert forall|j: int| 0 <= j < n implies (#[trigger] visited.nodes[j]).path
        == tree.nodes[j].path by {
        assert(applied.nodes[j].path == tree.nodes[j].path);
    }
    assert(visited.nodes[i].path == entry.path);
    assert(visited.nodes.len() == n || (visited.nodes.len() == n + 1 && i == n)) by {
        if tree.find(change.path) is Some {
            assert(tree.is_at(i, change.path));
            assert(visited.nodes.len() == n) by {
                let node = tree.nodes[i];
                let flags = if change.flags.mark_recursive {
                    node.flags.marked_recursive()
                } else {
                    node.flags
                };
                lemma_delete_beneath_shape(
                    tree.with_node(i, NodeView { flags, meta: NodeMeta::Deleted, ..node }),
                    i,
                );
            }
        }
    }
    // An earlier entry is at another node, which is not under this one.
    assert forall|e: int, j: int|
        0 <= e < k && #[trigger] visited.is_at(j, entries[e].path) implies {
        &&& j != i
        &&& j < n
        &&& tree.is_at(j, entries[e].path)
        &&& visited.nodes[j].meta == tree.nodes[j].meta
        &&& visited.nodes[j].inode == tree.nodes[j].inode
        &&& visited.nodes[j].flags == tree.nodes[j].flags
    } by {
        assert(entries[e].path != entries[k].path);
        assert(tree.is_at(j, entries[e].path));
        assert(applied.nodes[j].flags == tree.nodes[j].flags);
        if applied.nodes[j].meta != tree.nodes[j].meta {
            lemma_under_bounds(tree, i, j);
            assert(tree.nodes[i].path == entry.path);
            lemma_under_entry(tree, d, root, recursive, entries, i, j, e);
            let l = choose|l: int| 0 <= l < e && (#[trigger] entries[l]).path
                == tree.nodes[i].path;
            assert(entries[l].path == entries[k].path);
        }
    }
    assert forall|e: int, j: int|
        0 <= e < k + 1 && #[trigger] visited.is_at(j, entries[e].path) implies shows(
        visited.nodes[j],
        entries[e].meta,
    ) && !visited.nodes[j].flags.maybe_deleted by {
        if e == k {
            assert(visited.nodes[j].path == visited.nodes[i].path);
        } else {
            assert(tree.is_at(j, entries[e].path));
        }
    }
    assert forall|e: int| 0 <= e < k + 1 && (#[trigger] entries[e]).meta is Some implies in_tree(
        visited,
        entries[e].path,
    ) by {
        if e == k {
            assert(visited.is_at(i, entries[e].path));
        } else {
            let j = choose|j: int| tree.is_at(j, entries[e].path);
            assert(visited.is_at(j, entries[e].path));
        }
    }
    assert forall|j: int| 0 <= j < stack.len() implies is_frame(
        visited,
        d,
        entries,
        k,
        #[trigger] stack[j],
    ) by {
        lemma_frame_kept(tree, visited, d, entries, k, stack[j]);
    }
    assert forall|x: int, c: int|
        0 <= x < visited.nodes.len() && 0 <= c < visited.nodes.len() && #[trigger] is_child(
            visited,
            x,
            c,
        ) && was_entered(visited, d, recursive, entries, k, x) implies {
        ||| is_seen(entries, k + 1, visited.nodes[c].path)
        ||| is_on_stack(stack, x) && visited.nodes[c].flags.maybe_deleted
        ||| is_gone(visited, c)
    } by {
        lemma_child_mirrors(visited, x, c);
        assert(visited.nodes[i].path == entries[k].path);
        if c != i {
            assert(c < n);
            assert(x < n);
            assert(is_child(applied, x, c));
            assert(is_child(tree, x, c));
            lemma_entered_kept(visited, tree, d, recursive, entries, k, x);
            assert(visited.nodes[c].path == tree.nodes[c].path);
            assert(applied.nodes[c].flags == tree.nodes[c].flags);
            if is_seen(entries, k, tree.nodes[c].path) {
                let e = choose|e: int| 0 <= e < k && (#[trigger] entries[e]).path
                    == tree.nodes[c].path;
                assert(entries[e].path == visited.nodes[c].path);
            } else if is_gone(tree, c) {
                if !is_seen(entries, k + 1, visited.nodes[c].path) {
                    lemma_entered_is_inside(tree, d, root, recursive, entries, k, x);
                    lemma_child_mirrors(tree, x, c);
                    lemma_gone_is_left_alone(
                        tree,
                        visited,
                        d,
                        root,
                        recursive,
                        entries,
                        k,
                        i,
                        c,
                    );
                }
            }
        }
    }
}

/// A node that another is under is a node.
pub proof fn lemma_under_bounds(tree: TreeView, i: int, j: int)
    requires
        tree.wf(),
        0 <= j < tree.nodes.len(),
        is_under(tree, i, j),
    ensures
        0 <= i < j,
    decreases j,
{
    let p = choose|p: int|
        0 <= p < j && #[trigger] is_child(tree, p, j) && (p == i || is_under(tree, i, p));
    if p != i {
        lemma_under_bounds(tree, i, p);
    }
}

/// A directory that was entered is not outside the start of the walk.
pub proof fn lemma_entered_is_inside(
    tree: TreeView,
    d: int,
    root: Seq<u8>,
    recursive: bool,
    entries: Seq<Entry>,
    m: int,
    x: int,
)
    requires
        is_walk(root, recursive, entries),
        0 <= m <= entries.len(),
        0 <= d < tree.nodes.len(),
        tree.nodes[d].path == root,
        was_entered(tree, d, recursive, entries, m, x),
    ensures
        path_len(tree, d) <= path_len(tree, x),
{
    if x != d {
        let e = choose|e: int|
            0 <= e < m && tree.is_at(x, (#[trigger] entries[e]).path) && (
            entries[e].meta matches Some(meta) && meta.is_dir);
        lemma_entry_is_inside(root, recursive, entries, e);
    }
}

/// Looking at an entry leaves alone what is gone, unless it is the directory that the entry is in,
/// which the walk came by before.
pub proof fn lemma_gone_is_left_alone(
    tree: TreeView,
    visited: TreeView,
    d: int,
    root: Seq<u8>,
    recursive: bool,
    entries: Seq<Entry>,
    k: int,
    i: int,
    c: int,
)
    requires
        tree.wf(),
        visited.wf(),
        is_walk(root, recursive, entries),
        0 <= k < entries.len(),
        0 <= d < tree.nodes.len(),
        tree.nodes[d].path == root,
        tree.nodes.len() <= visited.nodes.len(),
        forall|j: int|
            0 <= j < tree.nodes.len() ==> (#[trigger] visited.nodes[j]).path
                == tree.nodes[j].path,
        visited.nodes.len() == tree.nodes.len() || (visited.nodes.len() == tree.nodes.len() + 1
            && i == tree.nodes.len()),
        0 <= i < visited.nodes.len(),
        visited.nodes[i].path == entries[k].path,
        forall|j: int|
            0 <= j < tree.nodes.len() && j != i ==> (#[trigger] visited.nodes[j]).meta
                == tree.nodes[j].meta || visited.nodes[j].meta == NodeMeta::Deleted,
        forall|x: int, z: int|
            0 <= x < tree.nodes.len() && 0 <= z < tree.nodes.len() && #[trigger] is_child(
                visited,
                x,
                z,
            ) ==> is_child(tree, x, z),
        0 <= c < tree.nodes.len(),
        c != i,
        path_len(tree, d) < path_len(tree, c),
        is_gone(tree, c),
        !is_seen(entries, k + 1, visited.nodes[c].path),
    ensures
        is_gone(visited, c),
{
    assert(visited.nodes[c].meta == NodeMeta::Deleted);
    assert forall|z: int| 0 <= z < visited.nodes.len() && #[trigger] is_child(visited, c, z) implies
        visited.nodes[z].meta == NodeMeta::Deleted by {
        if z == i {
            lemma_child_mirrors(visited, c, z);
            assert(visited.nodes[d].path == root);
            lemma_parent_of_entry(visited, d, root, recursive, entries, c, k);
            if entries[k].depth == 1 {
                assert(c == d);
            } else {
                let j = choose|j: int|
                    #[trigger] is_entry_parent(entries, j, k) && visited.is_at(c, entries[j].path);
                assert(entries[j].path == visited.nodes[c].path);
            }
        } else {
            assert(is_child(tree, c, z));
        }
    }
}

/// No entry up to the one that was just looked at is in the directory of that one.
pub proof fn lemma_visited_is_not_inside(
    tree: TreeView,
    d: int,
    root: Seq<u8>,
    recursive: bool,
    entries: Seq<Entry>,
    k: int,
    i: int,
    e: int,
    j: int,
)
    requires
        tree.wf(),
        is_walk(root, recursive, entries),
        0 <= d < tree.nodes.len(),
        tree.nodes[d].path == root,
        0 <= e <= k < entries.len(),
        tree.is_at(i, entries[k].path),
        tree.is_at(j, entries[e].path),
    ensures
        !is_child(tree, i, j),
{
    if is_child(tree, i, j) {
        lemma_child_mirrors(tree, i, j);
        lemma_parent_of_entry(tree, d, root, recursive, entries, i, e);
        lemma_entry_is_inside(root, recursive, entries, k);
        if entries[e].depth == 1 {
            assert(i == d);
        } else {
            let l = choose|l: int|
                #[trigger] is_entry_parent(entries, l, e) && tree.is_at(i, entries[l].path);
            assert(entries[l].path == entries[k].path);
        }
    }
}

/// Entering the directory of the entry that was just looked at.
#[verifier::rlimit(60)]
pub proof fn lemma_enter_on_the_way(
    tree: TreeView,
    stack: CrawlStack,
    d: int,
    root: Seq<u8>,
    recursive: bool,
    entries: Seq<Entry>,
    k: int,
    i: int,
)
    requires
        is_on_the_way(tree, stack, d, root, recursive, entries, k + 1, k),
        0 <= k < entries.len(),
        tree.is_at(i, entries[k].path),
    ensures
        is_on_the_way(
            entered(tree, i),
            stacked(tree, stack, i, entries[k].depth),
            d,
            root,
            recursive,
            entries,
            k + 1,
            k + 1,
        ),
{
    let after = entered(tree, i);
    let deeper = stacked(tree, stack, i, entries[k].depth);
    let list = tree.children_of(i);
    lemma_same_shape(tree, after);
    assert forall|j: int| 0 <= j < deeper.len() implies is_frame(
        after,
        d,
        entries,
        k + 1,
        #[trigger] deeper[j],
    ) by {
        if j < stack.len() {
            assert(deeper[j] == stack[j]);
            lemma_frame_kept(tree, after, d, entries, k, stack[j]);
            lemma_frame_later(after, d, entries, k, k + 1, stack[j]);
        } else {
            assert(deeper[j] == (i, entries[k].depth));
            assert(after.is_at(i, entries[k].path));
            assert(entries[k].depth == deeper[j].1);
        }
    }
    // Nothing that was visited is in this directory.
    assert forall|e: int, j: int|
        0 <= e < k + 1 && #[trigger] after.is_at(j, entries[e].path) implies after.nodes[j]
        == tree.nodes[j] by {
        assert(tree.is_at(j, entries[e].path));
        lemma_visited_is_not_inside(tree, d, root, recursive, entries, k, i, e, j);
        assert(!list.contains(j as u32));
    }
    assert forall|e: int, j: int|
        0 <= e < k + 1 && #[trigger] after.is_at(j, entries[e].path) implies shows(
        after.nodes[j],
        entries[e].meta,
    ) && !after.nodes[j].flags.maybe_deleted by {
        assert(tree.is_at(j, entries[e].path));
    }
    assert forall|e: int| 0 <= e < k + 1 && (#[trigger] entries[e]).meta is Some implies in_tree(
        after,
        entries[e].path,
    ) by {
        let j = choose|j: int| tree.is_at(j, entries[e].path);
        assert(after.is_at(j, entries[e].path));
    }
    assert forall|x: int, c: int|
        0 <= x < after.nodes.len() && 0 <= c < after.nodes.len() && #[trigger] is_child(after, x, c)
            && was_entered(after, d, recursive, entries, k + 1, x) implies {
        ||| is_seen(entries, k + 1, after.nodes[c].path)
        ||| is_on_stack(deeper, x) && after.nodes[c].flags.maybe_deleted
        ||| is_gone(after, c)
    } by {
        assert(is_child(tree, x, c));
        assert(after.nodes[c].path == tree.nodes[c].path);
        if x == i {
            assert(tree.nodes[i].children is Some);
            assert(deeper[stack.len() as int].0 == i);
            assert(list.contains(c as u32));
        } else {
            assert(was_entered(tree, d, recursive, entries, k, x)) by {
                if x != d {
                    let e = choose|e: int|
                        0 <= e < k + 1 && after.is_at(x, (#[trigger] entries[e]).path) && (
                        entries[e].meta matches Some(meta) && meta.is_dir);
                    assert(tree.is_at(x, entries[e].path));
                    if e == k {
                        assert(tree.nodes[x].path == tree.nodes[i].path);
                    }
                    assert(entries[e].meta matches Some(meta) && meta.is_dir);
                }
            }
            if is_gone(tree, c) {
                assert(is_gone(after, c)) by {
                    assert forall|z: int|
                        0 <= z < after.nodes.len() && #[trigger] is_child(after, c, z) implies
                        after.nodes[z].meta == NodeMeta::Deleted by {
                        assert(is_child(tree, c, z));
                    }
                }
            } else if !is_seen(entries, k + 1, tree.nodes[c].path) {
                let j = choose|j: int| 0 <= j < stack.len() && (#[trigger] stack[j]).0 == x;
                assert(deeper[j].0 == x);
            }
        }
    }
}

/// A frame of the first entries is one of more.
pub proof fn lemma_frame_later(
    tree: TreeView,
    d: int,
    entries: Seq<Entry>,
    m: int,
    n: int,
    frame: (int, int),
)
    requires
        is_frame(tree, d, entries, m, frame),
        m <= n,
    ensures
        is_frame(tree, d, entries, n, frame),
{
    if frame != (d, 0int) {
        let e = choose|e: int|
            0 <= e < m && tree.is_at(frame.0, (#[trigger] entries[e]).path) && frame.1
                == entries[e].depth;
        assert(tree.is_at(frame.0, entries[e].path) && frame.1 == entries[e].depth);
    }
}

/// Going on where the entry that was just looked at is not entered.
pub proof fn lemma_pass_on_the_way(
    tree: TreeView,
    stack: CrawlStack,
    d: int,
    root: Seq<u8>,
    recursive: bool,
    entries: Seq<Entry>,
    k: int,
)
    requires
        is_on_the_way(tree, stack, d, root, recursive, entries, k + 1, k),
        0 <= k < entries.len(),
        !recursive || !(entries[k].meta matches Some(meta) && meta.is_dir),
    ensures
        is_on_the_way(tree, stack, d, root, recursive, entries, k + 1, k + 1),
{
    assert forall|j: int| 0 <= j < stack.len() implies is_frame(
        tree,
        d,
        entries,
        k + 1,
        #[trigger] stack[j],
    ) by {
        lemma_frame_later(tree, d, entries, k, k + 1, stack[j]);
    }
    assert forall|x: int| #[trigger]
        was_entered(tree, d, recursive, entries, k + 1, x) implies was_entered(
        tree,
        d,
        recursive,
        entries,
        k,
        x,
    ) by {
        if x != d {
            let e = choose|e: int|
                0 <= e < k + 1 && tree.is_at(x, (#[trigger] entries[e]).path) && (
                entries[e].meta matches Some(meta) && meta.is_dir);
            assert(e < k);
            assert(tree.is_at(x, entries[e].path) && (entries[e].meta matches Some(meta)
                && meta.is_dir));
        }
    }
}

/// The directories that a crawl is in are nodes.
pub proof fn lemma_frames_are_nodes(
    tree: TreeView,
    stack: CrawlStack,
    d: int,
    root: Seq<u8>,
    recursive: bool,
    entries: Seq<Entry>,
    m: int,
)
    requires
        is_walk(root, recursive, entries),
        0 <= m <= entries.len(),
        0 <= d < tree.nodes.len(),
        tree.nodes[d].path == root,
        frames_entered(tree, stack, d, entries, m),
    ensures
        forall|j: int|
            0 <= j < stack.len() ==> 0 <= (#[trigger] stack[j]).0 < tree.nodes.len() && stack[j].1
                >= 0,
{
    assert forall|j: int| 0 <= j < stack.len() implies 0 <= (#[trigger] stack[j]).0
        < tree.nodes.len() && stack[j].1 >= 0 by {
        lemma_frame_is_inside(tree, d, root, recursive, entries, m, stack[j]);
        if stack[j] != (d, 0int) {
            let e = choose|e: int|
                0 <= e < m && tree.is_at(stack[j].0, (#[trigger] entries[e]).path) && stack[j].1
                    == entries[e].depth;
            assert(entries[e].depth >= 1);
        }
    }
}

/// A step on the way.
#[verifier::rlimit(60)]
pub proof fn lemma_step_on_the_way(
    before: Walked,
    d: int,
    root: Seq<u8>,
    recursive: bool,
    entries: Seq<Entry>,
    k: int,
    after: Walked,
)
    requires
        is_on_the_way(before.tree, before.stack, d, root, recursive, entries, k, k),
        k < entries.len(),
        before.tree.has_room(),
        is_walk_step(before, recursive, entries[k], after),
    ensures
        is_on_the_way(after.tree, after.stack, d, root, recursive, entries, k + 1, k + 1),
        after.tree.nodes.len() <= before.tree.nodes.len() + 1,
        after.tree.dirs.len() <= before.tree.dirs.len() + 2,
{
    let entry = entries[k];
    let tree = before.tree;
    let stack = before.stack;
    let outcome = lemma_step_outcome(before, recursive, entry, after);
    let any = EventView { path: entry.path, ty: crate::events::EventType::Create };
    lemma_frames_are_nodes(tree, stack, d, root, recursive, entries, k);
    lemma_step_reports(before, recursive, entry, outcome, after, any);
    lemma_applied(tree, crawl_change(entry.path, recursive), entry.meta, outcome);
    match outcome.node {
        None => {
            if entry.meta is Some {
                lemma_entry_gets_node(tree, stack, d, root, recursive, entries, k, outcome);
            }
            assert(after.tree == tree && after.stack == stack);
            assert forall|e: int, i: int|
                0 <= e < k + 1 && #[trigger] tree.is_at(i, entries[e].path) implies e < k by {
                if e == k {
                    assert(tree.find(entry.path) is Some);
                }
            }
            assert forall|x: int, c: int|
                0 <= x < tree.nodes.len() && 0 <= c < tree.nodes.len() && #[trigger] is_child(
                    tree,
                    x,
                    c,
                ) && was_entered(tree, d, recursive, entries, k, x) implies {
                ||| is_seen(entries, k + 1, tree.nodes[c].path)
                ||| is_on_stack(stack, x) && tree.nodes[c].flags.maybe_deleted
                ||| is_gone(tree, c)
            } by {
                if is_seen(entries, k, tree.nodes[c].path) {
                    let e = choose|e: int| 0 <= e < k && (#[trigger] entries[e]).path
                        == tree.nodes[c].path;
                    assert(entries[e].path == tree.nodes[c].path);
                }
            }
            assert(is_on_the_way(tree, stack, d, root, recursive, entries, k + 1, k));
            lemma_pass_on_the_way(tree, stack, d, root, recursive, entries, k);
        },
        Some(i) => {
            let visited = outcome.tree.with_flags(
                i,
                Flags { maybe_deleted: false, ..outcome.tree.nodes[i].flags },
            );
            let left = leave(visited, stack, entry.depth).tree;
            let open = stack.take(kept(stack, entry.depth));
            lemma_visit_on_the_way(tree, stack, d, root, recursive, entries, k, outcome, i);
            lemma_frames_are_nodes(visited, stack, d, root, recursive, entries, k);
            lemma_leave(visited, stack, entry.depth);
            lemma_leave_on_the_way(
                visited,
                stack,
                entry.depth,
                d,
                root,
                recursive,
                entries,
                k + 1,
                k,
            );
            assert(left.nodes[i].path == visited.nodes[i].path);
            assert(left.is_at(i, entries[k].path));
            if recursive && left.nodes[i].meta == NodeMeta::Dir {
                lemma_enter_on_the_way(left, open, d, root, recursive, entries, k, i);
            } else {
                assert(shows(left.nodes[i], entries[k].meta));
                lemma_pass_on_the_way(left, open, d, root, recursive, entries, k);
            }
        },
    }
}

/// The first `k` entries on the way.
pub proof fn lemma_walk_on_the_way(
    tree: TreeView,
    d: int,
    recursive: bool,
    entries: Seq<Entry>,
    states: Seq<Walked>,
    k: int,
)
    requires
        tree.wf(),
        0 <= d < tree.nodes.len(),
        is_walk(tree.nodes[d].path, recursive, entries),
        tree.nodes.len() + entries.len() <= id_limit(),
        tree.dirs.len() + 2 * entries.len() <= id_limit(),
        is_walked(
            entered(tree, d),
            stacked(tree, Seq::empty(), d, 0),
            recursive,
            entries,
            states,
        ),
        0 <= k <= entries.len(),
    ensures
        is_on_the_way(
            states[k].tree,
            states[k].stack,
            d,
            tree.nodes[d].path,
            recursive,
            entries,
            k,
            k,
        ),
        states[k].tree.nodes.len() <= tree.nodes.len() + k,
        states[k].tree.dirs.len() <= tree.dirs.len() + 2 * k,
    decreases k,
{
    let root = tree.nodes[d].path;
    if k == 0 {
        let start = entered(tree, d);
        let stack = stacked(tree, Seq::empty(), d, 0);
        lemma_same_shape(tree, start);
        assert forall|x: int, c: int|
            0 <= x < start.nodes.len() && 0 <= c < start.nodes.len() && #[trigger] is_child(
                start,
                x,
                c,
            ) && was_entered(start, d, recursive, entries, 0, x) implies is_on_stack(stack, x)
            && start.nodes[c].flags.maybe_deleted by {
            assert(x == d);
            assert(is_child(tree, d, c));
            assert(tree.nodes[d].children is Some);
            assert(stack[0].0 == d);
        }
    } else {
        lemma_walk_on_the_way(tree, d, recursive, entries, states, k - 1);
        assert(is_walk_step(states[k - 1], recursive, entries[k - 1], states[k - 1 + 1]));
        lemma_step_on_the_way(states[k - 1], d, root, recursive, entries, k - 1, states[k]);
    }
}

/// Nothing stays on a stack when all depths are left.
pub proof fn lemma_none_are_kept(stack: CrawlStack)
    requires
        forall|j: int| 0 <= j < stack.len() ==> (#[trigger] stack[j]).1 >= 0,
    ensures
        kept(stack, 0) == 0,
    decreases stack.len(),
{
    if stack.len() > 0 {
        assert(stack[stack.len() - 1].1 >= 0);
        assert forall|j: int| 0 <= j < stack.drop_last().len() implies (
        #[trigger] stack.drop_last()[j]).1 >= 0 by {
            assert(stack.drop_last()[j] == stack[j]);
        }
        lemma_none_are_kept(stack.drop_last());
    }
}

/// Where a crawl leaves a directory on the way to an entry, no child of the directory is still
/// ahead.
pub proof fn lemma_child_is_not_ahead(
    tree: TreeView,
    d: int,
    root: Seq<u8>,
    recursive: bool,
    entries: Seq<Entry>,
    m: int,
    frame: (int, int),
    c: int,
    e: int,
)
    requires
        tree.wf(),
        is_walk(root, recursive, entries),
        0 <= d < tree.nodes.len(),
        tree.nodes[d].path == root,
        0 <= m < entries.len(),
        0 <= e < entries.len(),
        is_frame(tree, d, entries, m, frame),
        frame.1 >= entries[m].depth,
        is_child(tree, frame.0, c),
        tree.is_at(c, entries[e].path),
    ensures
        e <= m,
{
    let x = frame.0;
    lemma_frame_is_inside(tree, d, root, recursive, entries, m, frame);
    lemma_child_mirrors(tree, x, c);
    lemma_parent_of_entry(tree, d, root, recursive, entries, x, e);
    if e <= m {
    } else if frame == (d, 0int) {
        assert(entries[m].depth >= 1);
    } else {
        let f = choose|f: int|
            0 <= f < m && tree.is_at(x, (#[trigger] entries[f]).path) && frame.1
                == entries[f].depth;
        lemma_entry_is_inside(root, recursive, entries, f);
        assert(x != d);
        let p = choose|p: int|
            #[trigger] is_entry_parent(entries, p, e) && tree.is_at(x, entries[p].path);
        assert(entries[p].path == entries[f].path);
        assert(entries[m].depth >= entries[e].depth);
    }
}

} // verus!
