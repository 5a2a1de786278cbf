//! What a crawl makes of what the tree knew before it.

use super::crawl_laws::{is_walk_step, is_walked, path_len, Entry, Walked};
use super::event_laws::{is_result_of, lemma_step_outcome, lemma_sweep_deletes};
use super::laws::{
    beneath, is_child, is_way_down, law_delete_marks_exactly_what_is_beneath,
    law_tree_shows_the_disk, lemma_start_is_marked,
};
use super::lemmas::{
    lemma_applied, lemma_applied_wf, lemma_children_valid, lemma_delete_beneath_shape,
    lemma_kept_bound, lemma_leave, lemma_same_shape, lemma_sweep,
};
use super::model::{
    crawl_change, delete_beneath, entered, is_applied, kept, leave, stacked, sweep, CrawlStack,
    Outcome, TreeView,
};
use super::walk::{
    is_entry_parent, is_frame, is_on_the_way, is_seen, is_seen_dir, is_under, is_walk,
    lemma_apply_spares, lemma_beneath_is_under, lemma_child_is_not_ahead, lemma_child_mirrors,
    lemma_entered_kept, lemma_entry_is_inside, lemma_frame_is_inside, lemma_frames_are_nodes,
    lemma_leave_on_the_way, lemma_leave_one, lemma_parent_of_entry, lemma_under_bounds,
    lemma_under_entry, lemma_visit_on_the_way, lemma_walk_on_the_way, shows, was_entered,
};
use super::{Flags, NodeMeta, NodeView};
use crate::metadata::Metadata;
use crate::pending::ChangeView;
use crate::table::id_limit;
use vstd::prelude::*;

verus! {

/// The node is in a directory that the walk went through, but the walk did not come by it.
pub open spec fn is_passed_over(
    tree: TreeView,
    d: int,
    recursive: bool,
    entries: Seq<Entry>,
    c: int,
) -> bool {
    &&& !is_seen(entries, entries.len() as int, tree.nodes[c].path)
    &&& exists|x: int|
        0 <= x < c && #[trigger] is_child(tree, x, c) && was_entered(
            tree,
            d,
            recursive,
            entries,
            entries.len() as int,
            x,
        )
}

/// The node was a directory, and the walk found nothing at its path.
pub open spec fn is_vanished_dir(tree: TreeView, entries: Seq<Entry>, c: int) -> bool {
    &&& tree.nodes[c].meta == NodeMeta::Dir
    &&& exists|e: int|
        0 <= e < entries.len() && (#[trigger] entries[e]).path == tree.nodes[c].path
            && entries[e].meta is None
}

/// The walk passed over node `c`, which is `j` or has `j` beneath it, or it found the directory `c`
/// gone that has `j` beneath it.
pub open spec fn is_missed_from(
    tree: TreeView,
    d: int,
    recursive: bool,
    entries: Seq<Entry>,
    c: int,
    j: int,
) -> bool {
    &&& 0 <= c < tree.nodes.len()
    &&& {
        ||| is_passed_over(tree, d, recursive, entries, c) && (c == j || beneath(tree, c, j))
        ||| is_vanished_dir(tree, entries, c) && beneath(tree, c, j)
    }
}

/// The walk did not come by the node where it would have if the node were still there.
pub open spec fn is_missed(
    tree: TreeView,
    d: int,
    recursive: bool,
    entries: Seq<Entry>,
    j: int,
) -> bool {
    exists|c: int| is_missed_from(tree, d, recursive, entries, c, j)
}

/// What is known of a node after `k` entries of a walk, against what the tree knew before: new
/// nodes are those of entries that the walk came by. Those of the entries ahead are as they were,
/// and so are those that the walk never comes by, unless they are deleted. What was in a directory
/// that is deleted is deleted too.
pub open spec fn is_followed(
    first: TreeView,
    tree: TreeView,
    d: int,
    entries: Seq<Entry>,
    k: int,
) -> bool {
    &&& first.nodes.len() <= tree.nodes.len()
    &&& forall|j: int|
        0 <= j < first.nodes.len() ==> (#[trigger] tree.nodes[j]).path == first.nodes[j].path
    &&& forall|j: int|
        first.nodes.len() <= j < tree.nodes.len() ==> is_seen(
            entries,
            k,
            (#[trigger] tree.nodes[j]).path,
        )
    &&& forall|x: int, c: int|
        0 <= x < first.nodes.len() && 0 <= c < first.nodes.len() && #[trigger] is_child(tree, x, c)
            ==> is_child(first, x, c)
    &&& forall|x: int, c: int|
        0 <= x < first.nodes.len() && 0 <= c < first.nodes.len() && #[trigger] is_child(
            first,
            x,
            c,
        ) ==> is_child(tree, x, c)
    &&& forall|e: int, j: int|
        k <= e < entries.len() && #[trigger] tree.is_at(j, entries[e].path) ==> j
            < first.nodes.len() && tree.nodes[j].meta == first.nodes[j].meta && tree.nodes[j].inode
            == first.nodes[j].inode
    &&& forall|j: int|
        0 <= j < first.nodes.len() && !is_seen(
            entries,
            entries.len() as int,
            first.nodes[j].path,
        ) ==> (#[trigger] tree.nodes[j]).inode == first.nodes[j].inode && (tree.nodes[j].meta
            == first.nodes[j].meta || tree.nodes[j].meta == NodeMeta::Deleted)
    &&& forall|p: int, z: int|
        0 <= p < first.nodes.len() && 0 <= z < first.nodes.len() && #[trigger] is_child(first, p, z)
            && path_len(first, d) < path_len(first, p) && first.nodes[p].meta == NodeMeta::Dir
            && tree.nodes[p].meta == NodeMeta::Deleted ==> tree.nodes[z].meta == NodeMeta::Deleted
}

/// What is beneath a node is so where no directory on the way down is none.
pub proof fn lemma_beneath_with_dirs(a: TreeView, b: TreeView, i: int, j: int)
    requires
        a.nodes.len() == b.nodes.len(),
        j < a.nodes.len(),
        forall|x: int|
            0 <= x < a.nodes.len() ==> #[trigger] a.children_of(x) == b.children_of(x),
        forall|p: int|
            0 <= p < a.nodes.len() && p != i && (#[trigger] a.nodes[p]).meta == NodeMeta::Dir
                ==> b.nodes[p].meta == NodeMeta::Dir,
        beneath(a, i, j),
    ensures
        beneath(b, i, j),
    decreases j,
{
    let p = choose|p: int| 0 <= p < j && #[trigger] is_child(a, p, j) && is_way_down(a, i, p);
    assert(a.children_of(p) == b.children_of(p));
    assert(is_child(b, p, j));
    if p != i {
        lemma_beneath_with_dirs(a, b, i, p);
        assert(is_way_down(b, i, p));
    }
}

/// A sweep changes only unvisited nodes of the list and what is beneath them.
pub proof fn lemma_sweep_changes(tree: TreeView, list: Seq<u32>, k: int, z: int) -> (l: int)
    requires
        tree.wf(),
        0 <= k <= list.len(),
        forall|l: int| 0 <= l < list.len() ==> #[trigger] list[l] < tree.nodes.len(),
        0 <= z < tree.nodes.len(),
        sweep(tree, list, k).tree.nodes[z] != tree.nodes[z],
    ensures
        k <= l < list.len(),
        tree.nodes[list[l] as int].flags.maybe_deleted,
        z == list[l] as int || beneath(tree, list[l] as int, z),
    decreases list.len() - k,
{
    let y = list[k] as int;
    if tree.nodes[y].flags.maybe_deleted {
        let marked = tree.with_meta(y, NodeMeta::Deleted);
        let below = delete_beneath(marked, y);
        lemma_same_shape(tree, marked);
        lemma_delete_beneath_shape(marked, y);
        lemma_same_shape(marked, below.tree);
        if z == y {
            k
        } else {
            law_delete_marks_exactly_what_is_beneath(marked, y, z);
            if beneath(marked, y, z) {
                lemma_beneath_with_dirs(marked, tree, y, z);
                k
            } else {
                let l = lemma_sweep_changes(below.tree, list, k + 1, z);
                let c = list[l] as int;
                assert(below.tree.nodes[c].flags == marked.nodes[c].flags);
                if z != c {
                    assert forall|p: int|
                        0 <= p < tree.nodes.len() && p != c && (#[trigger] below.tree.nodes[p]).meta
                            == NodeMeta::Dir implies tree.nodes[p].meta == NodeMeta::Dir by {
                        if p != y {
                            law_delete_marks_exactly_what_is_beneath(marked, y, p);
                        } else {
                            lemma_start_is_marked(marked, y);
                        }
                    }
                    lemma_beneath_with_dirs(below.tree, tree, c, z);
                }
                l
            }
        }
    } else {
        lemma_sweep_changes(tree, list, k + 1, z)
    }
}

/// What a deletion of everything beneath a node deletes of a directory.
pub proof fn lemma_delete_closes(tree: TreeView, i: int, p: int, z: int)
    requires
        tree.wf(),
        0 <= i < tree.nodes.len(),
        0 <= p < tree.nodes.len(),
        0 <= z < tree.nodes.len(),
        tree.nodes[i].meta == NodeMeta::Deleted,
        is_child(tree, p, z),
        p == i || tree.nodes[p].meta == NodeMeta::Dir,
        delete_beneath(tree, i).tree.nodes[p].meta == NodeMeta::Deleted,
    ensures
        delete_beneath(tree, i).tree.nodes[z].meta == NodeMeta::Deleted,
{
    if z == i {
        lemma_start_is_marked(tree, i);
    } else {
        lemma_child_mirrors(tree, p, z);
        if p != i {
            law_delete_marks_exactly_what_is_beneath(tree, i, p);
        }
        assert(is_way_down(tree, i, p));
        assert(beneath(tree, i, z));
        law_delete_marks_exactly_what_is_beneath(tree, i, z);
    }
}

/// A sweep that deletes a directory deletes what is in it.
pub proof fn lemma_sweep_closes(tree: TreeView, list: Seq<u32>, k: int, p: int, z: int)
    requires
        tree.wf(),
        0 <= k <= list.len(),
        forall|l: int| 0 <= l < list.len() ==> #[trigger] list[l] < tree.nodes.len(),
        0 <= p < tree.nodes.len(),
        0 <= z < tree.nodes.len(),
        is_child(tree, p, z),
        tree.nodes[p].meta == NodeMeta::Dir,
        sweep(tree, list, k).tree.nodes[p].meta == NodeMeta::Deleted,
    ensures
        sweep(tree, list, k).tree.nodes[z].meta == NodeMeta::Deleted,
    decreases list.len() - k,
{
    let y = list[k] as int;
    if tree.nodes[y].flags.maybe_deleted {
        let marked = tree.with_meta(y, NodeMeta::Deleted);
        let below = delete_beneath(marked, y);
        lemma_same_shape(tree, marked);
        lemma_delete_beneath_shape(marked, y);
        lemma_same_shape(marked, below.tree);
        let rest = sweep(below.tree, list, k + 1);
        lemma_sweep_deletes(below.tree, list, k + 1);
        assert(marked.children_of(p) == tree.children_of(p));
        assert(below.tree.children_of(p) == tree.children_of(p));
        if p == y {
            lemma_start_is_marked(marked, y);
        } else {
            law_delete_marks_exactly_what_is_beneath(marked, y, p);
        }
        if below.tree.nodes[p].meta == NodeMeta::Deleted {
            lemma_delete_closes(marked, y, p, z);
            assert(rest.tree.nodes[z].meta == below.tree.nodes[z].meta || rest.tree.nodes[z].meta
                == NodeMeta::Deleted);
        } else {
            lemma_sweep_closes(below.tree, list, k + 1, p, z);
        }
    } else {
        lemma_sweep_closes(tree, list, k + 1, p, z);
    }
}

/// The walk comes by nothing under a node inside its start that it finds no directory at.
pub proof fn lemma_under_unseen(
    tree: TreeView,
    d: int,
    root: Seq<u8>,
    recursive: bool,
    entries: Seq<Entry>,
    c: int,
    z: int,
)
    requires
        tree.wf(),
        is_walk(root, recursive, entries),
        0 <= d < tree.nodes.len(),
        tree.nodes[d].path == root,
        0 <= z < tree.nodes.len(),
        0 <= c < tree.nodes.len(),
        path_len(tree, d) < path_len(tree, c),
        is_under(tree, c, z),
        !is_seen_dir(entries, entries.len() as int, tree.nodes[c].path),
    ensures
        !is_seen(entries, entries.len() as int, tree.nodes[z].path),
{
    if is_seen(entries, entries.len() as int, tree.nodes[z].path) {
        let e = choose|e: int|
            0 <= e < entries.len() && (#[trigger] entries[e]).path == tree.nodes[z].path;
        assert(tree.is_at(z, entries[e].path));
        lemma_under_entry(tree, d, root, recursive, entries, c, z, e);
        let l = choose|l: int|
            0 <= l < e && (#[trigger] entries[l]).path == tree.nodes[c].path && (
            entries[l].meta matches Some(meta) && meta.is_dir);
        assert(entries[l].path == tree.nodes[c].path && (entries[l].meta matches Some(meta)
            && meta.is_dir));
    }
}

/// What is beneath a node that the walk finds no directory at was so before.
pub proof fn lemma_beneath_before(
    first: TreeView,
    tree: TreeView,
    d: int,
    root: Seq<u8>,
    recursive: bool,
    entries: Seq<Entry>,
    k: int,
    c: int,
    z: int,
)
    requires
        tree.wf(),
        is_walk(root, recursive, entries),
        0 <= k <= entries.len(),
        0 <= d < first.nodes.len(),
        first.nodes[d].path == root,
        is_followed(first, tree, d, entries, k),
        0 <= c < first.nodes.len(),
        0 <= z < tree.nodes.len(),
        path_len(tree, d) < path_len(tree, c),
        !is_seen_dir(entries, entries.len() as int, tree.nodes[c].path),
        beneath(tree, c, z),
    ensures
        z < first.nodes.len(),
        !is_seen(entries, entries.len() as int, first.nodes[z].path),
        beneath(first, c, z),
    decreases z,
{
    assert(tree.nodes[d].path == root);
    lemma_beneath_is_under(tree, c, z);
    lemma_under_unseen(tree, d, root, recursive, entries, c, z);
    if z >= first.nodes.len() {
        assert(is_seen(entries, k, tree.nodes[z].path));
        let e = choose|e: int| 0 <= e < k && (#[trigger] entries[e]).path == tree.nodes[z].path;
        assert(entries[e].path == tree.nodes[z].path);
    }
    assert(tree.nodes[z].path == first.nodes[z].path);
    let p = choose|p: int| 0 <= p < z && #[trigger] is_child(tree, p, z) && is_way_down(tree, c, p);
    assert(is_child(first, p, z));
    if p != c {
        lemma_beneath_before(first, tree, d, root, recursive, entries, k, c, p);
        assert(tree.nodes[p].meta == NodeMeta::Dir);
        assert(first.nodes[p].meta == NodeMeta::Dir);
        assert(is_way_down(first, c, p));
    }
}

/// The directories that a crawl is in are those that the walk goes through.
pub open spec fn frames_walked(
    tree: TreeView,
    stack: CrawlStack,
    d: int,
    recursive: bool,
    entries: Seq<Entry>,
    m: int,
) -> bool {
    forall|j: int|
        0 <= j < stack.len() ==> was_entered(
            tree,
            d,
            recursive,
            entries,
            m,
            (#[trigger] stack[j]).0,
        )
}

/// Nodes whose files or directories are known to be other ones are missed, and only deleted.
pub open spec fn only_missed(
    first: TreeView,
    before: TreeView,
    after: TreeView,
    d: int,
    recursive: bool,
    entries: Seq<Entry>,
) -> bool {
    forall|z: int|
        0 <= z < before.nodes.len() && (#[trigger] after.nodes[z]).meta != before.nodes[z].meta
            ==> {
            &&& z < first.nodes.len()
            &&& after.nodes[z].meta == NodeMeta::Deleted
            &&& !is_seen(entries, entries.len() as int, first.nodes[z].path)
            &&& is_missed(first, d, recursive, entries, z)
        }
}

/// A directory that was entered early was entered.
pub proof fn lemma_entered_later(
    tree: TreeView,
    d: int,
    recursive: bool,
    entries: Seq<Entry>,
    m: int,
    n: int,
    x: int,
)
    requires
        was_entered(tree, d, recursive, entries, m, x),
        m <= n,
    ensures
        was_entered(tree, d, recursive, entries, n, x),
{
    if x != d {
        let e = choose|e: int|
            0 <= e < m && tree.is_at(x, (#[trigger] entries[e]).path) && (
            entries[e].meta matches Some(meta) && meta.is_dir);
        assert(tree.is_at(x, entries[e].path) && (entries[e].meta matches Some(meta)
            && meta.is_dir));
    }
}

/// What leaving the innermost directory changes is missed.
pub proof fn lemma_leave_one_misses(
    first: TreeView,
    tree: TreeView,
    stack: CrawlStack,
    d: int,
    root: Seq<u8>,
    recursive: bool,
    entries: Seq<Entry>,
    k: int,
    m: int,
    z: int,
)
    requires
        is_on_the_way(tree, stack, d, root, recursive, entries, k, m),
        is_followed(first, tree, d, entries, k),
        frames_walked(tree, stack, d, recursive, entries, m),
        0 <= d < first.nodes.len(),
        stack.len() > 0,
        k == entries.len() || (k == m + 1 && stack.last().1 >= entries[m].depth),
        0 <= z < tree.nodes.len(),
        sweep(tree, tree.children_of(stack.last().0), 0).tree.nodes[z] != tree.nodes[z],
    ensures
        z < first.nodes.len(),
        !is_seen(entries, entries.len() as int, first.nodes[z].path),
        is_missed(first, d, recursive, entries, z),
{
    let n = entries.len() as int;
    let frame = stack[stack.len() - 1];
    let x = frame.0;
    let list = tree.children_of(x);
    assert(is_frame(tree, d, entries, m, frame));
    lemma_frame_is_inside(tree, d, root, recursive, entries, m, frame);
    lemma_children_valid(tree, x);
    let l = lemma_sweep_changes(tree, list, 0, z);
    let c = list[l] as int;
    assert(is_child(tree, x, c)) by {
        assert(list[l] == c as u32);
    }
    lemma_child_mirrors(tree, x, c);
    if is_seen(entries, n, tree.nodes[c].path) {
        let e = choose|e: int| 0 <= e < n && (#[trigger] entries[e]).path == tree.nodes[c].path;
        assert(tree.is_at(c, entries[e].path));
        if e >= k {
            lemma_child_is_not_ahead(tree, d, root, recursive, entries, m, frame, c, e);
        }
    }
    if c >= first.nodes.len() {
        assert(is_seen(entries, k, tree.nodes[c].path));
        let e = choose|e: int| 0 <= e < k && (#[trigger] entries[e]).path == tree.nodes[c].path;
        assert(entries[e].path == tree.nodes[c].path);
    }
    assert(tree.nodes[c].path == first.nodes[c].path);
    assert(tree.nodes[x].path == first.nodes[x].path);
    assert(was_entered(tree, d, recursive, entries, m, x));
    lemma_entered_kept(tree, first, d, recursive, entries, m, x);
    lemma_entered_later(first, d, recursive, entries, m, n, x);
    assert(is_child(first, x, c));
    assert(is_passed_over(first, d, recursive, entries, c));
    if z != c {
        if is_seen_dir(entries, n, tree.nodes[c].path) {
            let e = choose|e: int|
                0 <= e < n && (#[trigger] entries[e]).path == tree.nodes[c].path && (
                entries[e].meta matches Some(meta) && meta.is_dir);
            assert(entries[e].path == tree.nodes[c].path);
        }
        assert(first.nodes[d].path == root) by {
            assert(tree.nodes[d].path == first.nodes[d].path);
        }
        lemma_beneath_before(first, tree, d, root, recursive, entries, k, c, z);
    }
    assert(is_missed_from(first, d, recursive, entries, c, z));
}

/// Leaving the innermost directory keeps track.
#[verifier::rlimit(60)]
pub proof fn lemma_leave_one_followed(
    first: TreeView,
    tree: TreeView,
    stack: CrawlStack,
    d: int,
    root: Seq<u8>,
    recursive: bool,
    entries: Seq<Entry>,
    k: int,
    m: int,
)
    requires
        is_on_the_way(tree, stack, d, root, recursive, entries, k, m),
        is_followed(first, tree, d, entries, k),
        frames_walked(tree, stack, d, recursive, entries, m),
        0 <= d < first.nodes.len(),
        stack.len() > 0,
        k == entries.len() || (k == m + 1 && stack.last().1 >= entries[m].depth),
    ensures
        ({
            let after = sweep(tree, tree.children_of(stack.last().0), 0).tree;
            &&& is_followed(first, after, d, entries, k)
            &&& frames_walked(after, stack.drop_last(), d, recursive, entries, m)
            &&& only_missed(first, tree, after, d, recursive, entries)
        }),
{
    let frame = stack[stack.len() - 1];
    let x = frame.0;
    let list = tree.children_of(x);
    let swept = sweep(tree, list, 0);
    let after = swept.tree;
    let rest = stack.drop_last();
    assert(is_frame(tree, d, entries, m, frame));
    lemma_frame_is_inside(tree, d, root, recursive, entries, m, frame);
    lemma_children_valid(tree, x);
    lemma_sweep(tree, list, 0);
    lemma_same_shape(tree, after);
    lemma_sweep_deletes(tree, list, 0);
    assert forall|z: int|
        0 <= z < tree.nodes.len() && (#[trigger] after.nodes[z]).meta
            != tree.nodes[z].meta implies {
        &&& z < first.nodes.len()
        &&& after.nodes[z].meta == NodeMeta::Deleted
        &&& !is_seen(entries, entries.len() as int, first.nodes[z].path)
        &&& is_missed(first, d, recursive, entries, z)
    } by {
        lemma_leave_one_misses(first, tree, stack, d, root, recursive, entries, k, m, z);
    }
    assert forall|j: int| 0 <= j < rest.len() implies was_entered(
        after,
        d,
        recursive,
        entries,
        m,
        (#[trigger] rest[j]).0,
    ) by {
        assert(rest[j] == stack[j]);
        let y = stack[j].0;
        assert(is_frame(tree, d, entries, m, stack[j]));
        lemma_frame_is_inside(tree, d, root, recursive, entries, m, stack[j]);
        lemma_entered_kept(tree, after, d, recursive, entries, m, y);
    }
    assert forall|y: int, c: int|
        0 <= y < first.nodes.len() && 0 <= c < first.nodes.len() && #[trigger] is_child(
            after,
            y,
            c,
        ) implies is_child(first, y, c) by {
        assert(is_child(tree, y, c));
    }
    assert forall|y: int, c: int|
        0 <= y < first.nodes.len() && 0 <= c < first.nodes.len() && #[trigger] is_child(
            first,
            y,
            c,
        ) implies is_child(after, y, c) by {
        assert(is_child(tree, y, c));
        assert(after.children_of(y) == tree.children_of(y));
    }
    assert forall|e: int, j: int|
        k <= e < entries.len() && #[trigger] after.is_at(j, entries[e].path) implies j
        < first.nodes.len() && after.nodes[j].meta == first.nodes[j].meta && after.nodes[j].inode
        == first.nodes[j].inode by {
        assert(tree.is_at(j, entries[e].path));
        assert(entries[e].path == first.nodes[j].path);
        assert(after.nodes[j].meta == tree.nodes[j].meta);
    }
    assert forall|p: int, z: int|
        0 <= p < first.nodes.len() && 0 <= z < first.nodes.len() && #[trigger] is_child(first, p, z)
            && path_len(first, d) < path_len(first, p) && first.nodes[p].meta == NodeMeta::Dir
            && after.nodes[p].meta == NodeMeta::Deleted implies after.nodes[z].meta
        == NodeMeta::Deleted by {
        assert(is_child(tree, p, z));
        assert(after.nodes[z].meta == tree.nodes[z].meta || after.nodes[z].meta
            == NodeMeta::Deleted);
        if tree.nodes[p].meta != NodeMeta::Deleted {
            assert(tree.nodes[p].meta == first.nodes[p].meta);
            lemma_sweep_closes(tree, list, 0, p, z);
        }
    }
}

/// Leaving directories on the way keeps track, and what it changes is missed.
pub proof fn lemma_leave_followed(
    first: TreeView,
    tree: TreeView,
    stack: CrawlStack,
    depth: int,
    d: int,
    root: Seq<u8>,
    recursive: bool,
    entries: Seq<Entry>,
    k: int,
    m: int,
)
    requires
        is_on_the_way(tree, stack, d, root, recursive, entries, k, m),
        is_followed(first, tree, d, entries, k),
        frames_walked(tree, stack, d, recursive, entries, m),
        0 <= d < first.nodes.len(),
        k == entries.len() || (k == m + 1 && depth == entries[m].depth),
    ensures
        ({
            let after = leave(tree, stack, depth).tree;
            &&& is_followed(first, after, d, entries, k)
            &&& frames_walked(after, stack.take(kept(stack, depth)), d, recursive, entries, m)
            &&& only_missed(first, tree, after, d, recursive, entries)
        }),
    decreases stack.len(),
{
    if stack.len() > 0 && stack.last().1 >= depth {
        let swept = sweep(tree, tree.children_of(stack.last().0), 0).tree;
        let rest = stack.drop_last();
        let after = leave(swept, rest, depth).tree;
        lemma_leave_one(tree, stack, d, root, recursive, entries, k, m);
        lemma_leave_one_followed(first, tree, stack, d, root, recursive, entries, k, m);
        lemma_leave_followed(first, swept, rest, depth, d, root, recursive, entries, k, m);
        lemma_frames_are_nodes(tree, stack, d, root, recursive, entries, m);
        lemma_children_valid(tree, stack.last().0);
        lemma_sweep(tree, tree.children_of(stack.last().0), 0);
        lemma_kept_bound(rest, depth);
        assert(rest.take(kept(rest, depth)) =~= stack.take(kept(stack, depth)));
        assert forall|z: int|
            0 <= z < tree.nodes.len() && (#[trigger] after.nodes[z]).meta
                != tree.nodes[z].meta implies {
            &&& z < first.nodes.len()
            &&& after.nodes[z].meta == NodeMeta::Deleted
            &&& !is_seen(entries, entries.len() as int, first.nodes[z].path)
            &&& is_missed(first, d, recursive, entries, z)
        } by {
            if swept.nodes[z].meta == tree.nodes[z].meta {
                assert(after.nodes[z].meta != swept.nodes[z].meta);
            } else if after.nodes[z].meta != swept.nodes[z].meta {
                assert(after.nodes[z].meta == NodeMeta::Deleted);
            }
        }
    } else {
        assert(stack.take(stack.len() as int) =~= stack);
    }
}

/// A change that deletes a directory deletes what is in it.
pub proof fn lemma_apply_closes(
    tree: TreeView,
    change: ChangeView,
    meta: Option<Metadata>,
    outcome: Outcome,
    p: int,
    z: int,
)
    requires
        tree.wf(),
        is_applied(tree, change, meta, outcome),
        0 <= p < tree.nodes.len(),
        0 <= z < tree.nodes.len(),
        is_child(tree, p, z),
        tree.nodes[p].meta == NodeMeta::Dir,
        outcome.tree.nodes[p].meta == NodeMeta::Deleted,
    ensures
        outcome.tree.nodes[z].meta == NodeMeta::Deleted,
{
    if let Some(i) = tree.find(change.path) {
        assert(tree.is_at(i, change.path));
        let node = tree.nodes[i];
        let flags = if change.flags.mark_recursive {
            node.flags.marked_recursive()
        } else {
            node.flags
        };
        if meta is None && node.meta == NodeMeta::Dir {
            let gone = tree.with_node(i, NodeView { flags, meta: NodeMeta::Deleted, ..node });
            lemma_same_shape(tree, gone);
            assert(gone.children_of(p) == tree.children_of(p));
            lemma_delete_closes(gone, i, p, z);
        }
    }
}

/// What looking at an entry changes elsewhere is missed.
pub proof fn lemma_apply_misses(
    first: TreeView,
    tree: TreeView,
    stack: CrawlStack,
    d: int,
    root: Seq<u8>,
    recursive: bool,
    entries: Seq<Entry>,
    k: int,
    outcome: Outcome,
    z: int,
)
    requires
        is_on_the_way(tree, stack, d, root, recursive, entries, k, k),
        is_followed(first, tree, d, entries, k),
        0 <= d < first.nodes.len(),
        k < entries.len(),
        tree.has_room(),
        is_applied(tree, crawl_change(entries[k].path, recursive), entries[k].meta, outcome),
        0 <= z < tree.nodes.len(),
        outcome.node != Some(z),
        outcome.tree.nodes[z].meta != tree.nodes[z].meta,
    ensures
        z < first.nodes.len(),
        outcome.tree.nodes[z].meta == NodeMeta::Deleted,
        !is_seen(entries, entries.len() as int, first.nodes[z].path),
        is_missed(first, d, recursive, entries, z),
{
    let n = entries.len() as int;
    let entry = entries[k];
    let change = crawl_change(entry.path, recursive);
    lemma_entry_is_inside(root, recursive, entries, k);
    if let Some(i) = tree.find(entry.path) {
        assert(tree.is_at(i, entry.path));
        assert(tree.is_at(i, entries[k].path));
        let node = tree.nodes[i];
        let flags = if change.flags.mark_recursive {
            node.flags.marked_recursive()
        } else {
            node.flags
        };
        assert(entry.meta is None && node.meta == NodeMeta::Dir);
        let gone = tree.with_node(i, NodeView { flags, meta: NodeMeta::Deleted, ..node });
        lemma_same_shape(tree, gone);
        law_delete_marks_exactly_what_is_beneath(gone, i, z);
        lemma_beneath_with_dirs(gone, tree, i, z);
        assert(entries[k].path == first.nodes[i].path);
        assert(is_vanished_dir(first, entries, i));
        if is_seen_dir(entries, n, tree.nodes[i].path) {
            let e = choose|e: int|
                0 <= e < n && (#[trigger] entries[e]).path == tree.nodes[i].path && (
                entries[e].meta matches Some(meta) && meta.is_dir);
            assert(entries[e].path == entries[k].path);
        }
        assert(first.nodes[d].path == root) by {
            assert(tree.nodes[d].path == first.nodes[d].path);
        }
        lemma_beneath_before(first, tree, d, root, recursive, entries, k, i, z);
        assert(is_missed_from(first, d, recursive, entries, i, z));
    } else {
        assert(outcome.tree.nodes[z].meta == tree.nodes[z].meta);
    }
}

/// Looking at an entry keeps track.
#[verifier::rlimit(60)]
pub proof fn lemma_apply_followed(
    first: TreeView,
    tree: TreeView,
    stack: CrawlStack,
    d: int,
    root: Seq<u8>,
    recursive: bool,
    entries: Seq<Entry>,
    k: int,
    outcome: Outcome,
)
    requires
        is_on_the_way(tree, stack, d, root, recursive, entries, k, k),
        is_followed(first, tree, d, entries, k),
        0 <= d < first.nodes.len(),
        k < entries.len(),
        tree.has_room(),
        is_applied(tree, crawl_change(entries[k].path, recursive), entries[k].meta, outcome),
    ensures
        is_followed(first, outcome.tree, d, entries, k + 1),
{
    let n = entries.len() as int;
    let entry = entries[k];
    let change = crawl_change(entry.path, recursive);
    let after = outcome.tree;
    lemma_applied(tree, change, entry.meta, outcome);
    lemma_applied_wf(tree, change, entry.meta, outcome);
    lemma_apply_spares(tree, change, entry.meta, outcome);
    law_tree_shows_the_disk(tree, change, entry.meta, outcome);
    assert forall|j: int| 0 <= j < first.nodes.len() implies (#[trigger] after.nodes[j]).path
        == first.nodes[j].path by {
        assert(after.nodes[j].path == tree.nodes[j].path);
    }
    assert forall|j: int| first.nodes.len() <= j < after.nodes.len() implies is_seen(
        entries,
        k + 1,
        (#[trigger] after.nodes[j]).path,
    ) by {
        if j < tree.nodes.len() {
            assert(after.nodes[j].path == tree.nodes[j].path);
            assert(is_seen(entries, k, tree.nodes[j].path));
            let e = choose|e: int| 0 <= e < k && (#[trigger] entries[e]).path == tree.nodes[j].path;
            assert(entries[e].path == after.nodes[j].path);
        } else {
            lemma_new_node_is_the_entry(tree, change, entry.meta, outcome, j);
            assert(after.nodes[j].path == entries[k].path);
        }
    }
    assert forall|y: int, c: int|
        0 <= y < first.nodes.len() && 0 <= c < first.nodes.len() && #[trigger] is_child(
            after,
            y,
            c,
        ) implies is_child(first, y, c) by {
        assert(is_child(tree, y, c));
    }
    assert forall|y: int, c: int|
        0 <= y < first.nodes.len() && 0 <= c < first.nodes.len() && #[trigger] is_child(
            first,
            y,
            c,
        ) implies is_child(after, y, c) by {
        assert(is_child(tree, y, c));
    }
    assert forall|j: int|
        0 <= j < tree.nodes.len() && outcome.node != Some(j) && (#[trigger] after.nodes[j]).meta
            != tree.nodes[j].meta implies !is_seen(entries, n, tree.nodes[j].path) by {
        lemma_apply_misses(
            first,
            tree,
            stack,
            d,
            root,
            recursive,
            entries,
            k,
            outcome,
            j,
        );
        assert(tree.nodes[j].path == first.nodes[j].path);
    }
    assert forall|e: int, j: int|
        k + 1 <= e < n && #[trigger] after.is_at(j, entries[e].path) implies j < first.nodes.len()
        && after.nodes[j].meta == first.nodes[j].meta && after.nodes[j].inode
        == first.nodes[j].inode by {
        assert(entries[e].path != entries[k].path);
        if j >= first.nodes.len() {
            let l = choose|l: int|
                0 <= l < k + 1 && (#[trigger] entries[l]).path == after.nodes[j].path;
            assert(entries[l].path == entries[e].path);
        }
        assert(tree.nodes[j].path == after.nodes[j].path);
        assert(tree.is_at(j, entries[e].path));
        assert(outcome.node != Some(j));
        assert(after.nodes[j].inode == tree.nodes[j].inode);
        assert(entries[e].path == tree.nodes[j].path);
    }
    assert forall|j: int|
        0 <= j < first.nodes.len() && !is_seen(entries, n, first.nodes[j].path) implies (
    #[trigger] after.nodes[j]).inode == first.nodes[j].inode && (after.nodes[j].meta
        == first.nodes[j].meta || after.nodes[j].meta == NodeMeta::Deleted) by {
        assert(tree.nodes[j].path == first.nodes[j].path);
        assert(entries[k].path != first.nodes[j].path);
        assert(outcome.node != Some(j));
        assert(after.nodes[j].inode == tree.nodes[j].inode);
    }
    assert forall|p: int, z: int|
        0 <= p < first.nodes.len() && 0 <= z < first.nodes.len() && #[trigger] is_child(first, p, z)
            && path_len(first, d) < path_len(first, p) && first.nodes[p].meta == NodeMeta::Dir
            && after.nodes[p].meta == NodeMeta::Deleted implies after.nodes[z].meta
        == NodeMeta::Deleted by {
        assert(is_child(tree, p, z));
        assert(is_child(after, p, z));
        if outcome.node == Some(z) {
            lemma_dir_of_entry_stays(tree, outcome, stack, d, root, recursive, entries, k, p, z);
        } else {
            if outcome.node == Some(p) {
                assert(tree.is_at(p, entries[k].path));
            }
            if outcome.node != Some(p) && tree.nodes[p].meta == NodeMeta::Deleted {
                assert(tree.nodes[z].meta == NodeMeta::Deleted);
                assert(after.nodes[z].meta == tree.nodes[z].meta || after.nodes[z].meta
                    == NodeMeta::Deleted);
            } else {
                assert(tree.nodes[p].path == first.nodes[p].path);
                assert(tree.nodes[p].meta == NodeMeta::Dir);
                lemma_apply_closes(tree, change, entry.meta, outcome, p, z);
            }
        }
    }
}

/// The directory that an entry is in is one that the walk found, and looking at the entry leaves it
/// as it is.
pub proof fn lemma_dir_of_entry_stays(
    tree: TreeView,
    outcome: Outcome,
    stack: CrawlStack,
    d: int,
    root: Seq<u8>,
    recursive: bool,
    entries: Seq<Entry>,
    k: int,
    p: int,
    z: int,
)
    requires
        is_on_the_way(tree, stack, d, root, recursive, entries, k, k),
        k < entries.len(),
        tree.has_room(),
        is_applied(tree, crawl_change(entries[k].path, recursive), entries[k].meta, outcome),
        0 <= p < tree.nodes.len(),
        0 <= z < tree.nodes.len(),
        is_child(tree, p, z),
        path_len(tree, d) < path_len(tree, p),
        outcome.node == Some(z),
    ensures
        outcome.tree.nodes[p].meta == NodeMeta::Dir,
{
    let change = crawl_change(entries[k].path, recursive);
    lemma_applied(tree, change, entries[k].meta, outcome);
    lemma_apply_spares(tree, change, entries[k].meta, outcome);
    assert(outcome.tree.nodes[z].path == tree.nodes[z].path);
    lemma_child_mirrors(tree, p, z);
    lemma_parent_of_entry(tree, d, root, recursive, entries, p, k);
    let j = choose|j: int|
        #[trigger] is_entry_parent(entries, j, k) && tree.is_at(p, entries[j].path);
    assert(tree.is_at(p, entries[j].path));
    assert(shows(tree.nodes[p], entries[j].meta));
    if outcome.tree.nodes[p].meta != tree.nodes[p].meta {
        lemma_under_bounds(tree, z, p);
    }
}

/// Other flags keep track.
pub proof fn lemma_flags_followed(
    first: TreeView,
    a: TreeView,
    b: TreeView,
    d: int,
    entries: Seq<Entry>,
    k: int,
)
    requires
        is_followed(first, a, d, entries, k),
        a.nodes.len() == b.nodes.len(),
        forall|j: int|
            0 <= j < a.nodes.len() ==> {
                let node = #[trigger] b.nodes[j];
                &&& node.path == a.nodes[j].path
                &&& node.meta == a.nodes[j].meta
                &&& node.inode == a.nodes[j].inode
            },
        forall|x: int|
            0 <= x < a.nodes.len() ==> #[trigger] b.children_of(x) == a.children_of(x),
    ensures
        is_followed(first, b, d, entries, k),
{
    assert forall|x: int, c: int|
        0 <= x < first.nodes.len() && 0 <= c < first.nodes.len() implies #[trigger] is_child(
        b,
        x,
        c,
    ) == is_child(a, x, c) by {
        assert(b.children_of(x) == a.children_of(x));
    }
    assert forall|x: int, c: int|
        0 <= x < first.nodes.len() && 0 <= c < first.nodes.len() && #[trigger] is_child(
            first,
            x,
            c,
        ) implies is_child(b, x, c) by {
        assert(is_child(a, x, c));
        assert(is_child(b, x, c) == is_child(a, x, c));
    }
    assert forall|e: int, j: int|
        k <= e < entries.len() && #[trigger] b.is_at(j, entries[e].path) implies j
        < first.nodes.len() && b.nodes[j].meta == first.nodes[j].meta && b.nodes[j].inode
        == first.nodes[j].inode by {
        assert(a.is_at(j, entries[e].path));
    }
}

/// A node that a change adds is that of its path.
pub proof fn lemma_new_node_is_the_entry(
    tree: TreeView,
    change: ChangeView,
    meta: Option<Metadata>,
    outcome: Outcome,
    j: int,
)
    requires
        tree.wf(),
        is_applied(tree, change, meta, outcome),
        tree.nodes.len() <= j < outcome.tree.nodes.len(),
    ensures
        outcome.node == Some(j),
{
    if let Some(i) = tree.find(change.path) {
        assert(tree.is_at(i, change.path));
        let node = tree.nodes[i];
        let flags = if change.flags.mark_recursive {
            node.flags.marked_recursive()
        } else {
            node.flags
        };
        lemma_delete_beneath_shape(
            tree.with_node(i, NodeView { flags, meta: NodeMeta::Deleted, ..node }),
            i,
        );
    }
}

/// The tree with the node of an entry counted as visited.
pub open spec fn with_visited(tree: TreeView, i: int) -> TreeView {
    tree.with_flags(i, Flags { maybe_deleted: false, ..tree.nodes[i].flags })
}

/// Looking at an entry and counting its node as visited keeps track.
#[verifier::rlimit(60)]
pub proof fn lemma_visit_followed(
    first: TreeView,
    tree: TreeView,
    stack: CrawlStack,
    d: int,
    root: Seq<u8>,
    recursive: bool,
    entries: Seq<Entry>,
    k: int,
    outcome: Outcome,
    i: int,
)
    requires
        0 <= d < first.nodes.len(),
        is_on_the_way(tree, stack, d, root, recursive, entries, k, k),
        is_followed(first, tree, d, entries, k),
        frames_walked(tree, stack, d, recursive, entries, k),
        k < entries.len(),
        tree.has_room(),
        is_applied(tree, crawl_change(entries[k].path, recursive), entries[k].meta, outcome),
        outcome.node == Some(i),
    ensures
        is_on_the_way(
            with_visited(outcome.tree, i),
            stack,
            d,
            root,
            recursive,
            entries,
            k + 1,
            k,
        ),
        is_followed(first, with_visited(outcome.tree, i), d, entries, k + 1),
        frames_walked(with_visited(outcome.tree, i), stack, d, recursive, entries, k),
        with_visited(outcome.tree, i).is_at(i, entries[k].path),
{
    let change = crawl_change(entries[k].path, recursive);
    let visited = with_visited(outcome.tree, i);
    lemma_frames_are_nodes(tree, stack, d, root, recursive, entries, k);
    lemma_applied(tree, change, entries[k].meta, outcome);
    lemma_applied_wf(tree, change, entries[k].meta, outcome);
    lemma_apply_followed(first, tree, stack, d, root, recursive, entries, k, outcome);
    lemma_same_shape(outcome.tree, visited);
    lemma_flags_followed(first, outcome.tree, visited, d, entries, k + 1);
    lemma_visit_on_the_way(tree, stack, d, root, recursive, entries, k, outcome, i);
    assert forall|j: int| 0 <= j < stack.len() implies was_entered(
        visited,
        d,
        recursive,
        entries,
        k,
        (#[trigger] stack[j]).0,
    ) by {
        assert(outcome.tree.nodes[stack[j].0].path == tree.nodes[stack[j].0].path);
        lemma_entered_kept(tree, visited, d, recursive, entries, k, stack[j].0);
    }
}

/// A step on the way keeps track.
#[verifier::rlimit(60)]
pub proof fn lemma_step_followed(
    first: TreeView,
    before: Walked,
    d: int,
    root: Seq<u8>,
    recursive: bool,
    entries: Seq<Entry>,
    k: int,
    outcome: Outcome,
    after: Walked,
)
    requires
        0 <= d < first.nodes.len(),
        is_on_the_way(before.tree, before.stack, d, root, recursive, entries, k, k),
        is_followed(first, before.tree, d, entries, k),
        frames_walked(before.tree, before.stack, d, recursive, entries, k),
        k < entries.len(),
        before.tree.has_room(),
        is_applied(
            before.tree,
            crawl_change(entries[k].path, recursive),
            entries[k].meta,
            outcome,
        ),
        is_result_of(before, recursive, entries[k], outcome, after),
    ensures
        is_followed(first, after.tree, d, entries, k + 1),
        frames_walked(after.tree, after.stack, d, recursive, entries, k + 1),
{
    let entry = entries[k];
    let tree = before.tree;
    let stack = before.stack;
    match outcome.node {
        None => {
            assert(after.tree == tree && after.stack == stack);
            lemma_apply_followed(first, tree, stack, d, root, recursive, entries, k, outcome);
            assert forall|j: int| 0 <= j < stack.len() implies was_entered(
                tree,
                d,
                recursive,
                entries,
                k + 1,
                (#[trigger] stack[j]).0,
            ) by {
                lemma_entered_later(tree, d, recursive, entries, k, k + 1, stack[j].0);
            }
        },
        Some(i) => {
            let visited = with_visited(outcome.tree, i);
            let depth = entry.depth;
            let left = leave(visited, stack, depth).tree;
            let open = stack.take(kept(stack, depth));
            lemma_visit_followed(
                first,
                tree,
                stack,
                d,
                root,
                recursive,
                entries,
                k,
                outcome,
                i,
            );
            lemma_frames_are_nodes(visited, stack, d, root, recursive, entries, k);
            lemma_leave(visited, stack, depth);
            lemma_leave_on_the_way(
                visited,
                stack,
                depth,
                d,
                root,
                recursive,
                entries,
                k + 1,
                k,
            );
            lemma_leave_followed(
                first,
                visited,
                stack,
                depth,
                d,
                root,
                recursive,
                entries,
                k + 1,
                k,
            );
            lemma_same_shape(left, after.tree);
            lemma_flags_followed(first, left, after.tree, d, entries, k + 1);
            assert(left.is_at(i, entries[k].path));
            assert(shows(left.nodes[i], entries[k].meta));
            lemma_kept_bound(stack, depth);
            assert forall|j: int| 0 <= j < after.stack.len() implies was_entered(
                after.tree,
                d,
                recursive,
                entries,
                k + 1,
                (#[trigger] after.stack[j]).0,
            ) by {
                if j < open.len() {
                    let x = open[j].0;
                    assert(open[j] == stack[j]);
                    assert(after.stack[j] == open[j]);
                    assert(was_entered(left, d, recursive, entries, k, x));
                    lemma_entered_kept(left, after.tree, d, recursive, entries, k, x);
                    lemma_entered_later(after.tree, d, recursive, entries, k, k + 1, x);
                } else {
                    assert(after.stack[j].0 == i);
                    assert(after.tree.is_at(i, entries[k].path));
                    assert(entries[k].meta matches Some(meta) && meta.is_dir);
                }
            }
        },
    }
}

/// The first `k` entries on the way keep track.
pub proof fn lemma_walk_followed(
    tree: TreeView,
    d: int,
    recursive: bool,
    entries: Seq<Entry>,
    states: Seq<Walked>,
    k: int,
)
    requires
        tree.wf(),
        0 <= d < tree.nodes.len(),
        is_walk(tree.nodes[d].path, recursive, entries),
        tree.nodes.len() + entries.len() <= id_limit(),
        tree.dirs.len() + 2 * entries.len() <= id_limit(),
        is_walked(
            entered(tree, d),
            stacked(tree, Seq::empty(), d, 0),
            recursive,
            entries,
            states,
        ),
        0 <= k <= entries.len(),
    ensures
        is_followed(tree, states[k].tree, d, entries, k),
        frames_walked(states[k].tree, states[k].stack, d, recursive, entries, k),
    decreases k,
{
    let root = tree.nodes[d].path;
    if k == 0 {
        assert(is_followed(tree, tree, d, entries, 0));
        lemma_same_shape(tree, entered(tree, d));
        lemma_flags_followed(tree, tree, entered(tree, d), d, entries, 0);
    } else {
        let before = states[k - 1];
        lemma_walk_followed(tree, d, recursive, entries, states, k - 1);
        lemma_walk_on_the_way(tree, d, recursive, entries, states, k - 1);
        assert(is_walk_step(before, recursive, entries[k - 1], states[k - 1 + 1]));
        let outcome = lemma_step_outcome(before, recursive, entries[k - 1], states[k]);
        lemma_step_followed(
            tree,
            before,
            d,
            root,
            recursive,
            entries,
            k - 1,
            outcome,
            states[k],
        );
    }
}

} // verus!
