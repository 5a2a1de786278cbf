//! A crawl of what did not change since the last crawl reports nothing.

use super::crawl_laws::{is_walk_step, is_walked, Entry, Walked};
use super::event_laws::lemma_step_outcome;
use super::laws::{
    beneath, is_child, is_way_down, law_delete_marks_exactly_what_is_beneath,
    law_delete_reports_exactly_the_files, law_tree_shows_the_disk, lemma_start_is_marked,
};
use super::lemmas::{
    in_tree, lemma_applied, lemma_applied_wf, lemma_children_valid, lemma_delete_beneath_shape,
    lemma_kept_bound, lemma_leave, lemma_same_shape,
};
use super::model::{
    crawl_change, delete_beneath, entered, is_applied, kept, leave, stacked, sweep, Change,
    CrawlStack, Outcome, TreeView,
};
use super::walk::{
    all_visited, frames_entered, is_frame, is_gone, is_on_stack, is_on_the_way, is_seen, is_walk,
    lemma_child_is_not_ahead, lemma_frame_is_inside, lemma_frame_kept, lemma_frame_later,
    lemma_frames_are_nodes, lemma_leave_on_the_way, lemma_none_are_kept,
    lemma_visited_is_not_inside, lemma_walk_on_the_way, shows, was_entered,
};
use super::{Flags, NodeMeta};
use crate::metadata::Metadata;
use crate::path::is_stored;
use crate::table::id_limit;
use vstd::prelude::*;

verus! {

/// The trees agree on everything but flags: they have the same nodes with the same knowledge of
/// files and directories, and the same children.
spec fn is_same_disk(a: TreeView, b: TreeView) -> bool {
    &&& a.nodes.len() == b.nodes.len()
    &&& forall|j: int|
        0 <= j < a.nodes.len() ==> {
            let node = #[trigger] a.nodes[j];
            &&& node.path == b.nodes[j].path
            &&& node.meta == b.nodes[j].meta
            &&& node.inode == b.nodes[j].inode
        }
    &&& forall|x: int|
        0 <= x < a.nodes.len() ==> #[trigger] a.children_of(x) == b.children_of(x)
}

/// Everything beneath a node that is gone is deleted already.
proof fn lemma_beneath_gone(tree: TreeView, c: int, j: int)
    requires
        tree.wf(),
        0 <= c < tree.nodes.len(),
        0 <= j < tree.nodes.len(),
        is_gone(tree, c),
        beneath(tree, c, j),
    ensures
        tree.nodes[j].meta == NodeMeta::Deleted,
    decreases j,
{
    let p = choose|p: int| 0 <= p < j && #[trigger] is_child(tree, p, j) && is_way_down(tree, c, p);
    if p != c {
        lemma_beneath_gone(tree, c, p);
    }
}

/// Deleting what is beneath a node that is gone does nothing.
proof fn lemma_delete_gone(tree: TreeView, c: int)
    requires
        tree.wf(),
        0 <= c < tree.nodes.len(),
        is_gone(tree, c),
    ensures
        tree.with_meta(c, NodeMeta::Deleted) == tree,
        delete_beneath(tree, c) == (Change { tree, events: Seq::empty() }),
{
    let change = delete_beneath(tree, c);
    assert(tree.with_meta(c, NodeMeta::Deleted).nodes =~= tree.nodes);
    lemma_delete_beneath_shape(tree, c);
    lemma_start_is_marked(tree, c);
    assert forall|j: int| 0 <= j < tree.nodes.len() implies #[trigger] change.tree.nodes[j]
        == tree.nodes[j] by {
        if j != c {
            law_delete_marks_exactly_what_is_beneath(tree, c, j);
            if beneath(tree, c, j) {
                lemma_beneath_gone(tree, c, j);
            }
        }
    }
    assert(change.tree.nodes =~= tree.nodes);
    if change.events.len() > 0 {
        let event = change.events[0];
        assert(change.events.contains(event));
        law_delete_reports_exactly_the_files(tree, c, event);
        let j = choose|j: int|
            0 <= j < tree.nodes.len() && #[trigger] beneath(tree, c, j) && tree.nodes[j].meta
                is File && event == tree.delete_event(j);
        lemma_beneath_gone(tree, c, j);
    }
    assert(change.events =~= Seq::empty());
}

/// A sweep of a list in which what was not visited is gone does nothing.
proof fn lemma_sweep_is_silent(tree: TreeView, list: Seq<u32>, k: int)
    requires
        tree.wf(),
        0 <= k <= list.len(),
        forall|l: int| 0 <= l < list.len() ==> #[trigger] list[l] < tree.nodes.len(),
        forall|l: int|
            0 <= l < list.len() && tree.nodes[#[trigger] list[l] as int].flags.maybe_deleted
                ==> is_gone(tree, list[l] as int),
    ensures
        sweep(tree, list, k) == (Change { tree, events: Seq::empty() }),
    decreases list.len() - k,
{
    if k < list.len() {
        let c = list[k] as int;
        lemma_sweep_is_silent(tree, list, k + 1);
        if tree.nodes[c].flags.maybe_deleted {
            lemma_delete_gone(tree, c);
            assert(sweep(tree, list, k).events =~= Seq::empty());
        }
    }
}

/// Leaving directories in which what was not visited is gone does nothing.
proof fn lemma_leave_is_silent(tree: TreeView, stack: CrawlStack, depth: int)
    requires
        tree.wf(),
        forall|j: int| 0 <= j < stack.len() ==> 0 <= (#[trigger] stack[j]).0 < tree.nodes.len(),
        forall|j: int, c: int|
            0 <= j < stack.len() && 0 <= c < tree.nodes.len() && stack[j].1 >= depth
                && #[trigger] is_child(tree, stack[j].0, c) && tree.nodes[c].flags.maybe_deleted
                ==> is_gone(tree, c),
    ensures
        leave(tree, stack, depth) == (Change { tree, events: Seq::empty() }),
    decreases stack.len(),
{
    if stack.len() > 0 && stack.last().1 >= depth {
        let top = stack.len() - 1;
        let x = stack[top].0;
        let list = tree.children_of(x);
        let rest = stack.drop_last();
        lemma_children_valid(tree, x);
        assert forall|l: int|
            0 <= l < list.len() && tree.nodes[#[trigger] list[l] as int].flags.maybe_deleted implies
            is_gone(tree, list[l] as int) by {
            assert(list[l] == (list[l] as int) as u32);
            assert(is_child(tree, stack[top].0, list[l] as int));
        }
        lemma_sweep_is_silent(tree, list, 0);
        assert forall|j: int, c: int|
            0 <= j < rest.len() && 0 <= c < tree.nodes.len() && rest[j].1 >= depth
                && #[trigger] is_child(tree, rest[j].0, c)
                && tree.nodes[c].flags.maybe_deleted implies
            is_gone(tree, c) by {
            assert(rest[j] == stack[j]);
            assert(is_child(tree, stack[j].0, c));
        }
        lemma_leave_is_silent(tree, rest, depth);
        assert(leave(tree, stack, depth).events =~= Seq::empty());
    }
}

/// What holds in a second crawl after `k` entries. `settled` is the tree that the first crawl left.
spec fn is_quiet(
    tree: TreeView,
    stack: CrawlStack,
    settled: TreeView,
    d: int,
    recursive: bool,
    entries: Seq<Entry>,
    k: int,
    m: int,
) -> bool {
    &&& tree.wf()
    &&& is_same_disk(tree, settled)
    &&& 0 <= m <= k <= entries.len()
    &&& frames_entered(tree, stack, d, entries, m)
    &&& forall|j: int|
        0 <= j < stack.len() ==> was_entered(
            settled,
            d,
            recursive,
            entries,
            entries.len() as int,
            (#[trigger] stack[j]).0,
        )
    &&& all_visited(tree, entries, k)
}

/// When a second crawl leaves a directory, what it did not visit there is gone.
proof fn lemma_left_is_gone(
    tree: TreeView,
    stack: CrawlStack,
    settled: TreeView,
    d: int,
    root: Seq<u8>,
    recursive: bool,
    entries: Seq<Entry>,
    k: int,
    m: int,
    depth: int,
    j: int,
    c: int,
)
    requires
        is_on_the_way(
            settled,
            Seq::empty(),
            d,
            root,
            recursive,
            entries,
            entries.len() as int,
            entries.len() as int,
        ),
        is_quiet(tree, stack, settled, d, recursive, entries, k, m),
        k == entries.len() || (k == m + 1 && depth == entries[m].depth),
        0 <= j < stack.len(),
        0 <= c < tree.nodes.len(),
        stack[j].1 >= depth,
        is_child(tree, stack[j].0, c),
        tree.nodes[c].flags.maybe_deleted,
    ensures
        is_gone(tree, c),
{
    let n = entries.len() as int;
    let x = stack[j].0;
    assert(is_frame(tree, d, entries, m, stack[j]));
    assert(tree.nodes[d].path == settled.nodes[d].path);
    lemma_frame_is_inside(tree, d, root, recursive, entries, m, stack[j]);
    assert(tree.children_of(x) == settled.children_of(x));
    assert(is_child(settled, x, c));
    assert(tree.nodes[c].path == settled.nodes[c].path);
    if is_seen(entries, n, settled.nodes[c].path) {
        let e = choose|e: int| 0 <= e < n && (#[trigger] entries[e]).path
            == settled.nodes[c].path;
        assert(tree.is_at(c, entries[e].path));
        assert(e >= k);
        lemma_child_is_not_ahead(tree, d, root, recursive, entries, m, stack[j], c, e);
    } else {
        assert(!is_on_stack(Seq::empty(), x));
        assert(is_gone(settled, c));
        assert forall|z: int| 0 <= z < tree.nodes.len() && #[trigger] is_child(tree, c, z) implies
            tree.nodes[z].meta == NodeMeta::Deleted by {
            assert(tree.children_of(c) == settled.children_of(c));
            assert(is_child(settled, c, z));
        }
    }
}

/// Looking at an entry that the tree shows as it is on disk changes and reports nothing.
proof fn lemma_apply_is_silent(
    tree: TreeView,
    change: crate::pending::ChangeView,
    meta: Option<Metadata>,
    outcome: Outcome,
)
    requires
        tree.wf(),
        tree.has_room(),
        is_stored(change.path),
        !change.flags.origin_watcher,
        is_applied(tree, change, meta, outcome),
        forall|i: int| #[trigger] tree.is_at(i, change.path) ==> shows(tree.nodes[i], meta),
        meta is Some ==> in_tree(tree, change.path),
    ensures
        outcome.events.len() == 0,
        outcome.node is None ==> outcome.tree == tree,
        is_same_disk(outcome.tree, tree),
        forall|j: int|
            0 <= j < tree.nodes.len() ==> (#[trigger] outcome.tree.nodes[j]).flags.maybe_deleted
                == tree.nodes[j].flags.maybe_deleted,
        outcome.tree.dirs.len() <= tree.dirs.len() + 2,
{
    lemma_applied(tree, change, meta, outcome);
    match tree.find(change.path) {
        Some(i) => {
            assert(tree.is_at(i, change.path));
            assert forall|x: int| 0 <= x < tree.nodes.len() implies
                #[trigger] outcome.tree.children_of(x) == tree.children_of(x) by {
                assert(outcome.tree.children_of(x) =~= tree.children_of(x));
            }
        },
        None => {
            assert(meta is None);
        },
    }
}

/// A step of a second crawl changes and reports nothing.
#[verifier::rlimit(60)]
proof fn lemma_step_is_silent(
    before: Walked,
    settled: TreeView,
    d: int,
    root: Seq<u8>,
    recursive: bool,
    entries: Seq<Entry>,
    k: int,
    after: Walked,
)
    requires
        is_on_the_way(
            settled,
            Seq::empty(),
            d,
            root,
            recursive,
            entries,
            entries.len() as int,
            entries.len() as int,
        ),
        is_quiet(before.tree, before.stack, settled, d, recursive, entries, k, k),
        k < entries.len(),
        before.tree.has_room(),
        is_walk_step(before, recursive, entries[k], after),
    ensures
        is_quiet(after.tree, after.stack, settled, d, recursive, entries, k + 1, k + 1),
        after.events == before.events,
        after.tree.dirs.len() <= before.tree.dirs.len() + 2,
{
    let n = entries.len() as int;
    let entry = entries[k];
    let tree = before.tree;
    let stack = before.stack;
    let change = crawl_change(entry.path, recursive);
    let outcome = lemma_step_outcome(before, recursive, entry, after);
    assert(is_stored(entry.path));
    assert(tree.nodes[d].path == settled.nodes[d].path);
    assert forall|i: int| #[trigger] tree.is_at(i, change.path) implies shows(
        tree.nodes[i],
        entry.meta,
    ) by {
        assert(settled.is_at(i, entries[k].path));
    }
    if entry.meta is Some {
        let i = choose|i: int| settled.is_at(i, entries[k].path);
        assert(in_tree(settled, entries[k].path));
        assert(settled.is_at(i, entries[k].path));
        assert(settled.nodes[i].path == tree.nodes[i].path);
        assert(tree.is_at(i, change.path));
    }
    lemma_applied(tree, change, entry.meta, outcome);
    lemma_applied_wf(tree, change, entry.meta, outcome);
    lemma_apply_is_silent(tree, change, entry.meta, outcome);
    law_tree_shows_the_disk(tree, change, entry.meta, outcome);
    lemma_frames_are_nodes(tree, stack, d, root, recursive, entries, k);
    let applied = outcome.tree;
    match outcome.node {
        None => {
            assert(after.tree == tree && after.stack == stack);
            assert(after.events =~= before.events);
            assert forall|e: int, i: int|
                0 <= e < k + 1 && #[trigger] tree.is_at(i, entries[e].path) implies e < k by {
                if e == k {
                    assert(tree.find(entry.path) is Some);
                }
            }
            assert forall|j: int| 0 <= j < stack.len() implies is_frame(
                tree,
                d,
                entries,
                k + 1,
                #[trigger] stack[j],
            ) by {
                lemma_frame_later(tree, d, entries, k, k + 1, stack[j]);
            }
        },
        Some(i) => {
            let visited = applied.with_flags(
                i,
                Flags { maybe_deleted: false, ..applied.nodes[i].flags },
            );
            lemma_same_shape(applied, visited);
            assert forall|x: int| 0 <= x < visited.nodes.len() implies
                #[trigger] visited.children_of(x) == settled.children_of(x) by {
                assert(applied.children_of(x) == tree.children_of(x));
                assert(tree.children_of(x) == settled.children_of(x));
            }
            assert forall|j: int| 0 <= j < visited.nodes.len() implies {
                let node = #[trigger] visited.nodes[j];
                &&& node.path == settled.nodes[j].path
                &&& node.meta == settled.nodes[j].meta
                &&& node.inode == settled.nodes[j].inode
                &&& node.flags.maybe_deleted ==> tree.nodes[j].flags.maybe_deleted
            } by {
                assert(applied.nodes[j].path == tree.nodes[j].path);
                assert(tree.nodes[j].path == settled.nodes[j].path);
            }
            assert forall|e: int, j: int|
                0 <= e < k + 1 && #[trigger] visited.is_at(j, entries[e].path) implies
                !visited.nodes[j].flags.maybe_deleted by {
                if e == k {
                    assert(visited.nodes[j].path == visited.nodes[i].path);
                } else {
                    assert(tree.nodes[j].path == visited.nodes[j].path);
                    assert(tree.is_at(j, entries[e].path));
                }
            }
            assert forall|j: int| 0 <= j < stack.len() implies is_frame(
                visited,
                d,
                entries,
                k,
                #[trigger] stack[j],
            ) by {
                assert forall|l: int| 0 <= l < tree.nodes.len() implies (
                #[trigger] visited.nodes[l]).path == tree.nodes[l].path by {
                    assert(tree.nodes[l].path == settled.nodes[l].path);
                }
                lemma_frame_kept(tree, visited, d, entries, k, stack[j]);
            }
            assert(is_quiet(visited, stack, settled, d, recursive, entries, k + 1, k));
            assert forall|j: int, c: int|
                0 <= j < stack.len() && 0 <= c < visited.nodes.len() && stack[j].1 >= entry.depth
                    && #[trigger] is_child(visited, stack[j].0, c)
                    && visited.nodes[c].flags.maybe_deleted implies is_gone(visited, c) by {
                lemma_left_is_gone(
                    visited,
                    stack,
                    settled,
                    d,
                    root,
                    recursive,
                    entries,
                    k + 1,
                    k,
                    entry.depth,
                    j,
                    c,
                );
            }
            lemma_leave_is_silent(visited, stack, entry.depth);
            lemma_kept_bound(stack, entry.depth);
            let open = stack.take(kept(stack, entry.depth));
            assert(after.events =~= before.events);
            assert(visited.is_at(i, entries[k].path));
            assert(visited.nodes[i].path == settled.nodes[i].path);
            assert(settled.is_at(i, entries[k].path));
            let watch = recursive && visited.nodes[i].meta == NodeMeta::Dir;
            if watch {
                assert(shows(settled.nodes[i], entries[k].meta));
                assert(was_entered(settled, d, recursive, entries, n, i));
                lemma_same_shape(visited, after.tree);
                assert forall|x: int| 0 <= x < after.tree.nodes.len() implies
                    #[trigger] after.tree.children_of(x) == settled.children_of(x) by {
                    assert(visited.children_of(x) == settled.children_of(x));
                }
                assert forall|j: int| 0 <= j < after.tree.nodes.len() implies {
                    let node = #[trigger] after.tree.nodes[j];
                    &&& node.path == settled.nodes[j].path
                    &&& node.meta == settled.nodes[j].meta
                    &&& node.inode == settled.nodes[j].inode
                } by {
                    assert(visited.nodes[j].path == settled.nodes[j].path);
                }
                assert forall|e: int, j: int|
                    0 <= e < k + 1 && #[trigger] after.tree.is_at(j, entries[e].path) implies
                    !after.tree.nodes[j].flags.maybe_deleted by {
                    assert(visited.nodes[j].path == settled.nodes[j].path);
                    assert(visited.is_at(j, entries[e].path));
                    lemma_visited_is_not_inside(
                        visited,
                        d,
                        root,
                        recursive,
                        entries,
                        k,
                        i,
                        e,
                        j,
                    );
                    assert(!visited.children_of(i).contains(j as u32));
                }
            }
            assert forall|j: int| 0 <= j < after.stack.len() implies is_frame(
                after.tree,
                d,
                entries,
                k + 1,
                #[trigger] after.stack[j],
            ) && was_entered(settled, d, recursive, entries, n, after.stack[j].0) by {
                if j < open.len() {
                    assert(after.stack[j] == stack[j]);
                    assert forall|l: int| 0 <= l < visited.nodes.len() implies (
                    #[trigger] after.tree.nodes[l]).path == visited.nodes[l].path by {
                        assert(visited.nodes[l].path == settled.nodes[l].path);
                    }
                    lemma_frame_kept(visited, after.tree, d, entries, k, stack[j]);
                    lemma_frame_later(after.tree, d, entries, k, k + 1, stack[j]);
                } else {
                    assert(after.stack[j] == (i, entries[k].depth));
                    assert(after.tree.nodes[i].path == settled.nodes[i].path);
                    assert(after.tree.is_at(i, entries[k].path));
                    assert(after.stack[j].1 == entries[k].depth);
                }
            }
        },
    }
}

/// A crawl of a directory reports nothing if nothing changed on disk since the crawl before it: the
/// walk comes by the same entries, and the tree is as that crawl left it. What the first crawl
/// marked as deleted is not reported again.
pub proof fn law_second_crawl_is_silent(
    tree: TreeView,
    d: int,
    recursive: bool,
    entries: Seq<Entry>,
    first: Seq<Walked>,
    second: Seq<Walked>,
)
    requires
        tree.wf(),
        0 <= d < tree.nodes.len(),
        is_walk(tree.nodes[d].path, recursive, entries),
        tree.nodes.len() + entries.len() + 1 <= id_limit(),
        tree.dirs.len() + 4 * entries.len() + 2 <= id_limit(),
        is_walked(
            entered(tree, d),
            stacked(tree, Seq::empty(), d, 0),
            recursive,
            entries,
            first,
        ),
        ({
            let settled = leave(first.last().tree, first.last().stack, 0).tree;
            is_walked(
                entered(settled, d),
                stacked(settled, Seq::empty(), d, 0),
                recursive,
                entries,
                second,
            )
        }),
    ensures
        second.last().events.len() == 0,
        leave(second.last().tree, second.last().stack, 0).events.len() == 0,
{
    let n = entries.len() as int;
    let root = tree.nodes[d].path;
    let last = first[n];
    let settled = leave(last.tree, last.stack, 0).tree;
    lemma_walk_on_the_way(tree, d, recursive, entries, first, n);
    lemma_frames_are_nodes(last.tree, last.stack, d, root, recursive, entries, n);
    lemma_none_are_kept(last.stack);
    lemma_leave(last.tree, last.stack, 0);
    lemma_leave_on_the_way(last.tree, last.stack, 0, d, root, recursive, entries, n, n);
    assert(last.stack.take(0) =~= Seq::empty());
    lemma_second_walk(settled, d, root, recursive, entries, second, n);
    let end = second[n];
    lemma_frames_are_nodes(end.tree, end.stack, d, root, recursive, entries, n);
    assert forall|j: int, c: int|
        0 <= j < end.stack.len() && 0 <= c < end.tree.nodes.len() && end.stack[j].1 >= 0
            && #[trigger] is_child(end.tree, end.stack[j].0, c)
            && end.tree.nodes[c].flags.maybe_deleted implies is_gone(end.tree, c) by {
        lemma_left_is_gone(
            end.tree,
            end.stack,
            settled,
            d,
            root,
            recursive,
            entries,
            n,
            n,
            0,
            j,
            c,
        );
    }
    lemma_leave_is_silent(end.tree, end.stack, 0);
}

/// The first `k` entries of a second crawl.
proof fn lemma_second_walk(
    settled: TreeView,
    d: int,
    root: Seq<u8>,
    recursive: bool,
    entries: Seq<Entry>,
    states: Seq<Walked>,
    k: int,
)
    requires
        is_on_the_way(
            settled,
            Seq::empty(),
            d,
            root,
            recursive,
            entries,
            entries.len() as int,
            entries.len() as int,
        ),
        settled.nodes.len() < id_limit(),
        settled.dirs.len() + 2 * entries.len() + 2 <= id_limit(),
        is_walked(
            entered(settled, d),
            stacked(settled, Seq::empty(), d, 0),
            recursive,
            entries,
            states,
        ),
        0 <= k <= entries.len(),
    ensures
        is_quiet(states[k].tree, states[k].stack, settled, d, recursive, entries, k, k),
        states[k].events.len() == 0,
        states[k].tree.nodes[d].path == root,
        states[k].tree.dirs.len() <= settled.dirs.len() + 2 * k,
    decreases k,
{
    if k == 0 {
        let start = entered(settled, d);
        lemma_same_shape(settled, start);
    } else {
        lemma_second_walk(settled, d, root, recursive, entries, states, k - 1);
        assert(is_walk_step(states[k - 1], recursive, entries[k - 1], states[k - 1 + 1]));
        lemma_step_is_silent(
            states[k - 1],
            settled,
            d,
            root,
            recursive,
            entries,
            k - 1,
            states[k],
        );
        assert(states[k].tree.nodes[d].path == settled.nodes[d].path);
    }
}

} // verus!
