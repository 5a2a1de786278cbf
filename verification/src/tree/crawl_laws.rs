//! What a crawl makes of the directories that it goes through.

use super::laws::{
    beneath, is_child, is_way_down, law_delete_marks_exactly_what_is_beneath,
    law_changes_keep_watches_sound, law_tree_shows_the_disk, watches_are_sound,
};
use super::lemmas::{
    lemma_applied, lemma_applied_wf, lemma_children_valid, lemma_crawled,
    lemma_delete_beneath_shape, lemma_find, lemma_leave, lemma_same_shape, lemma_sweep,
};
use super::model::{
    change_unknown, crawl_change, crawl_visit, delete_beneath, deletion, entered, is_applied,
    is_crawled, kept, leave, sweep, CrawlStack, Crawled, Outcome, TreeView,
};
use super::{node_meta, Flags, NodeMeta, NodeView};
use crate::bytes::{is_last_index, last_index, PATH_SEPARATOR};
use crate::events::EventView;
use crate::metadata::Metadata;
use crate::path::{is_stored, parent_text, path_text};
use crate::table::id_limit;
use vstd::prelude::*;

verus! {

/// How long the path of a node is.
pub open spec fn path_len(tree: TreeView, j: int) -> int {
    path_text(tree.nodes[j].path).len() as int
}

/// A child has a longer path than its parent.
proof fn lemma_child_is_longer(tree: TreeView, p: int, j: int)
    requires
        tree.wf(),
        0 <= p < tree.nodes.len(),
        0 <= j < tree.nodes.len(),
        is_child(tree, p, j),
    ensures
        p < j,
        path_len(tree, p) < path_len(tree, j),
{
    let l = choose|l: int| 0 <= l < tree.children_of(p).len() && tree.children_of(p)[l] == j as u32;
    assert(p < tree.children_of(p)[l]);
    let raw = tree.nodes[j].path;
    assert(parent_text(raw) == Some(path_text(tree.nodes[p].path)));
    let i = last_index(raw, PATH_SEPARATOR)->0;
    assert(is_last_index(raw, PATH_SEPARATOR, i));
}

/// What is beneath a node has a longer path.
proof fn lemma_beneath_is_longer(tree: TreeView, i: int, j: int)
    requires
        tree.wf(),
        0 <= i < tree.nodes.len(),
        0 <= j < tree.nodes.len(),
        beneath(tree, i, j),
    ensures
        path_len(tree, i) < path_len(tree, j),
    decreases j,
{
    let p = choose|p: int| 0 <= p < j && #[trigger] is_child(tree, p, j) && is_way_down(tree, i, p);
    lemma_child_is_longer(tree, p, j);
    if p != i {
        lemma_beneath_is_longer(tree, i, p);
    }
}

/// A node is in the list of one node at most.
proof fn lemma_one_parent(tree: TreeView, p: int, q: int, j: int)
    requires
        tree.wf(),
        0 <= p < tree.nodes.len(),
        0 <= q < tree.nodes.len(),
        is_child(tree, p, j),
        is_child(tree, q, j),
    ensures
        p == q,
{
    let k = choose|k: int| 0 <= k < tree.children_of(p).len() && tree.children_of(p)[k] == j as u32;
    let l = choose|l: int| 0 <= l < tree.children_of(q).len() && tree.children_of(q)[l] == j as u32;
    let d = tree.nodes[p].children->0;
    let e = tree.nodes[q].children->0;
    assert(tree.dirs[d][k] == tree.dirs[e][l]);
}

/// A child of a directory is not beneath a node with a longer path than the directory.
proof fn lemma_not_beneath(tree: TreeView, d: int, c: int, i: int)
    requires
        tree.wf(),
        0 <= d < tree.nodes.len(),
        0 <= c < tree.nodes.len(),
        0 <= i < tree.nodes.len(),
        is_child(tree, d, c),
        path_len(tree, d) < path_len(tree, i),
    ensures
        !beneath(tree, i, c),
{
    if beneath(tree, i, c) {
        let p = choose|p: int|
            0 <= p < c && #[trigger] is_child(tree, p, c) && is_way_down(tree, i, p);
        lemma_one_parent(tree, p, d, c);
        if p != i {
            lemma_beneath_is_longer(tree, i, p);
        }
    }
}

/// What a sweep from position `k` on does to a child `c` of a directory `d`: it marks the child if
/// it comes by it and finds it unvisited, and leaves it alone otherwise. `x` is the directory that
/// is swept.
proof fn lemma_sweep_child(tree: TreeView, x: int, k: int, d: int, c: int)
    requires
        tree.wf(),
        0 <= x < tree.nodes.len(),
        0 <= d < tree.nodes.len(),
        0 <= c < tree.nodes.len(),
        0 <= k <= tree.children_of(x).len(),
        is_child(tree, d, c),
        path_len(tree, d) <= path_len(tree, x),
    ensures
        ({
            let swept = sweep(tree, tree.children_of(x), k);
            let hit = exists|l: int|
                k <= l < tree.children_of(x).len() && #[trigger] tree.children_of(x)[l] == c
                    && tree.nodes[c].flags.maybe_deleted;
            &&& swept.tree.nodes[c] == if hit {
                NodeView { meta: NodeMeta::Deleted, ..tree.nodes[c] }
            } else {
                tree.nodes[c]
            }
            &&& hit && tree.nodes[c].meta is File ==> swept.events.contains(tree.delete_event(c))
        }),
    decreases tree.children_of(x).len() - k,
{
    let list = tree.children_of(x);
    lemma_children_valid(tree, x);
    if k < list.len() {
        let y = list[k] as int;
        assert(is_child(tree, x, y)) by {
            assert(list[k] == y as u32);
        }
        lemma_child_is_longer(tree, x, y);
        if tree.nodes[y].flags.maybe_deleted {
            let marked = tree.with_meta(y, NodeMeta::Deleted);
            let below = delete_beneath(marked, y);
            lemma_same_shape(tree, marked);
            lemma_delete_beneath_shape(marked, y);
            lemma_same_shape(marked, below.tree);
            lemma_sweep_child(below.tree, x, k + 1, d, c);
            if y != c {
                lemma_not_beneath(marked, d, c, y);
                law_delete_marks_exactly_what_is_beneath(marked, y, c);
                assert(below.tree.nodes[c] == tree.nodes[c]);
            } else {
                assert(below.tree.nodes[c].meta == NodeMeta::Deleted) by {
                    super::laws::lemma_start_is_marked(marked, y);
                }
            }
            let rest = sweep(below.tree, list, k + 1);
            let events = sweep(tree, list, k).events;
            let first = deletion(tree, y);
            assert(events == first + below.events + rest.events);
            if y == c && tree.nodes[c].meta is File {
                assert(events[0] == tree.delete_event(c));
            } else if rest.events.contains(tree.delete_event(c)) {
                let e = choose|e: int|
                    0 <= e < rest.events.len() && rest.events[e] == tree.delete_event(c);
                assert(events[first.len() + below.events.len() + e] == tree.delete_event(c));
            }
        } else {
            lemma_sweep_child(tree, x, k + 1, d, c);
        }
    }
}

/// When a crawl leaves a directory, a child that it did not come by is marked as deleted, and
/// reported as such if it is known as a file.
pub proof fn law_unvisited_child_is_deleted(tree: TreeView, d: int, c: int)
    requires
        tree.wf(),
        0 <= d < tree.nodes.len(),
        0 <= c < tree.nodes.len(),
        is_child(tree, d, c),
        tree.nodes[c].flags.maybe_deleted,
    ensures
        sweep(tree, tree.children_of(d), 0).tree.nodes[c] == (NodeView {
            meta: NodeMeta::Deleted,
            ..tree.nodes[c]
        }),
        tree.nodes[c].meta is File ==> sweep(tree, tree.children_of(d), 0).events.contains(
            tree.delete_event(c),
        ),
{
    lemma_sweep_child(tree, d, 0, d, c);
    let l = choose|l: int| 0 <= l < tree.children_of(d).len() && tree.children_of(d)[l] == c as u32;
    assert(tree.children_of(d)[l] == c);
}

/// When a crawl leaves a directory, a child that it came by stays as it is.
pub proof fn law_visited_child_is_kept(tree: TreeView, d: int, c: int)
    requires
        tree.wf(),
        0 <= d < tree.nodes.len(),
        0 <= c < tree.nodes.len(),
        is_child(tree, d, c),
        !tree.nodes[c].flags.maybe_deleted,
    ensures
        sweep(tree, tree.children_of(d), 0).tree.nodes[c] == tree.nodes[c],
{
    lemma_sweep_child(tree, d, 0, d, c);
}

/// A crawl is in directory `d`, at depth `n` and position `m` of its stack, and at most further
/// down. `c` is a child of `d`.
spec fn is_inside(tree: TreeView, stack: CrawlStack, m: int, n: int, d: int, c: int) -> bool {
    &&& tree.wf()
    &&& forall|j: int| 0 <= j < stack.len() ==> 0 <= (#[trigger] stack[j]).0 < tree.nodes.len()
    &&& 0 <= m < stack.len()
    &&& stack[m] == (d, n)
    &&& forall|j: int|
        m < j < stack.len() ==> (#[trigger] stack[j]).1 > n && path_len(tree, d) < path_len(
            tree,
            stack[j].0,
        )
    &&& 0 <= d < tree.nodes.len()
    &&& 0 <= c < tree.nodes.len()
    &&& is_child(tree, d, c)
}

/// Leaving directories further down leaves a child of `d` alone.
proof fn lemma_leave_further_down(
    tree: TreeView,
    stack: CrawlStack,
    depth: int,
    m: int,
    n: int,
    d: int,
    c: int,
)
    requires
        is_inside(tree, stack, m, n, d, c),
        depth > n,
    ensures
        leave(tree, stack, depth).tree.nodes[c] == tree.nodes[c],
        m < kept(stack, depth) <= stack.len(),
    decreases stack.len(),
{
    if stack.last().1 >= depth {
        lemma_leave_top(tree, stack, m, n, d, c);
        let x = stack.last().0;
        let swept = sweep(tree, tree.children_of(x), 0);
        lemma_leave_further_down(swept.tree, stack.drop_last(), depth, m, n, d, c);
    }
}

/// Leaving the innermost directory, which is further down than `d`, leaves a child of `d` alone.
proof fn lemma_leave_top(tree: TreeView, stack: CrawlStack, m: int, n: int, d: int, c: int)
    requires
        is_inside(tree, stack, m, n, d, c),
        stack.len() > m + 1,
    ensures
        ({
            let swept = sweep(tree, tree.children_of(stack.last().0), 0);
            &&& swept.tree.nodes[c] == tree.nodes[c]
            &&& is_inside(swept.tree, stack.drop_last(), m, n, d, c)
        }),
{
    let x = stack.last().0;
    let swept = sweep(tree, tree.children_of(x), 0);
    lemma_children_valid(tree, x);
    lemma_sweep(tree, tree.children_of(x), 0);
    lemma_same_shape(tree, swept.tree);
    lemma_sweep_child(tree, x, 0, d, c);
    assert(!tree.children_of(x).contains(c as u32)) by {
        if is_child(tree, x, c) {
            lemma_one_parent(tree, x, d, c);
        }
    }
    assert forall|l: int| 0 <= l < tree.children_of(x).len() implies #[trigger] tree.children_of(
        x,
    )[l] != c by {
        assert(tree.children_of(x).contains(tree.children_of(x)[l]));
    }
    assert(is_child(swept.tree, d, c));
}

/// Leaving `d` itself marks a child of it as deleted if it was not visited.
proof fn lemma_leave_dir(tree: TreeView, stack: CrawlStack, m: int, n: int, d: int, c: int)
    requires
        is_inside(tree, stack, m, n, d, c),
        m > 0 ==> stack[m - 1].1 < n,
    ensures
        leave(tree, stack, n).tree.nodes[c] == if tree.nodes[c].flags.maybe_deleted {
            NodeView { meta: NodeMeta::Deleted, ..tree.nodes[c] }
        } else {
            tree.nodes[c]
        },
        tree.nodes[c].flags.maybe_deleted && tree.nodes[c].meta is File ==> leave(
            tree,
            stack,
            n,
        ).events.contains(tree.delete_event(c)),
    decreases stack.len(),
{
    let x = stack.last().0;
    let swept = sweep(tree, tree.children_of(x), 0);
    let rest = leave(swept.tree, stack.drop_last(), n);
    let events = leave(tree, stack, n).events;
    if stack.len() > m + 1 {
        lemma_leave_top(tree, stack, m, n, d, c);
        lemma_leave_dir(swept.tree, stack.drop_last(), m, n, d, c);
        if tree.nodes[c].flags.maybe_deleted && tree.nodes[c].meta is File {
            let event = tree.delete_event(c);
            let e = choose|e: int| 0 <= e < rest.events.len() && rest.events[e] == event;
            assert(events[swept.events.len() + e] == event);
        }
    } else {
        assert(rest.tree == swept.tree);
        if tree.nodes[c].flags.maybe_deleted {
            law_unvisited_child_is_deleted(tree, d, c);
            if tree.nodes[c].meta is File {
                let event = tree.delete_event(c);
                let e = choose|e: int| 0 <= e < swept.events.len() && swept.events[e] == event;
                assert(events[e] == event);
            }
        } else {
            law_visited_child_is_kept(tree, d, c);
        }
    }
}

/// A change elsewhere leaves a child of a directory alone: one for another path that is longer than
/// that of the directory.
proof fn lemma_change_elsewhere(
    tree: TreeView,
    change: crate::pending::ChangeView,
    meta: Option<Metadata>,
    outcome: Outcome,
    d: int,
    c: int,
)
    requires
        tree.wf(),
        tree.has_room(),
        0 <= d < tree.nodes.len(),
        0 <= c < tree.nodes.len(),
        is_child(tree, d, c),
        is_applied(tree, change, meta, outcome),
        path_len(tree, d) < path_text(change.path).len(),
    ensures
        is_child(outcome.tree, d, c),
        tree.nodes[c].path != change.path ==> outcome.tree.nodes[c].meta == tree.nodes[c].meta
            && outcome.tree.nodes[c].flags == tree.nodes[c].flags,
{
    let list = tree.children_of(d);
    let l = choose|l: int| 0 <= l < list.len() && list[l] == c as u32;
    match tree.find(change.path) {
        Some(i) => {
            assert(tree.is_at(i, change.path));
            assert(i != d);
            let node = tree.nodes[i];
            let flags = if change.flags.mark_recursive {
                node.flags.marked_recursive()
            } else {
                node.flags
            };
            let gone = tree.with_node(i, NodeView { flags, meta: NodeMeta::Deleted, ..node });
            if meta is None {
                lemma_same_shape(tree, gone);
                lemma_delete_beneath_shape(gone, i);
                if c != i {
                    assert(is_child(gone, d, c));
                    lemma_not_beneath(gone, d, c, i);
                    law_delete_marks_exactly_what_is_beneath(gone, i, c);
                }
            }
            assert(outcome.tree.children_of(d)[l] == c as u32);
        },
        None => {
            assert(!tree.is_at(c, change.path));
            let parent = choose|parent: Option<int>| #[trigger]
                tree.is_parent(parent, change.path) && outcome == change_unknown(
                    tree,
                    change,
                    meta,
                    parent,
                );
            assert(outcome.tree.children_of(d)[l] == c as u32);
        },
    }
}

/// What is recorded of what is on disk.
pub open spec fn shown(meta: Option<Metadata>) -> NodeMeta {
    match meta {
        Some(meta) => node_meta(meta),
        None => NodeMeta::Deleted,
    }
}

/// A step of a crawl that is in directory `d` stays in it, and updates a child of `d` if it comes
/// by it.
proof fn lemma_step_inside(
    tree: TreeView,
    stack: CrawlStack,
    recursive: bool,
    entry: Entry,
    crawled: Crawled,
    m: int,
    n: int,
    d: int,
    c: int,
)
    requires
        is_inside(tree, stack, m, n, d, c),
        tree.has_room(),
        entry.depth > n,
        is_stored(entry.path),
        path_len(tree, d) < path_text(entry.path).len(),
        is_crawled(
            tree,
            stack,
            recursive,
            entry.depth,
            entry.path,
            entry.meta,
            crawled,
        ),
    ensures
        is_inside(crawled.tree, crawled.stack, m, n, d, c),
        m > 0 ==> crawled.stack[m - 1] == stack[m - 1],
        crawled.tree.nodes.len() <= tree.nodes.len() + 1,
        crawled.tree.dirs.len() <= tree.dirs.len() + 2,
        crawled.tree.nodes[c].path == tree.nodes[c].path,
        crawled.tree.nodes[d].path == tree.nodes[d].path,
        entry.path == tree.nodes[c].path ==> crawled.tree.nodes[c].meta == shown(entry.meta)
            && !crawled.tree.nodes[c].flags.maybe_deleted,
        entry.path != tree.nodes[c].path ==> crawled.tree.nodes[c].meta == tree.nodes[c].meta
            && crawled.tree.nodes[c].flags.maybe_deleted == tree.nodes[c].flags.maybe_deleted,
{
    let change = crawl_change(entry.path, recursive);
    let outcome = choose|outcome: Outcome| #[trigger]
        is_applied(tree, change, entry.meta, outcome) && crawled == crawl_visit(
            outcome,
            stack,
            recursive,
            entry.depth,
        );
    lemma_applied(tree, change, entry.meta, outcome);
    lemma_applied_wf(tree, change, entry.meta, outcome);
    law_tree_shows_the_disk(tree, change, entry.meta, outcome);
    lemma_change_elsewhere(tree, change, entry.meta, outcome, d, c);
    let applied = outcome.tree;
    assert(applied.nodes[c].path == tree.nodes[c].path);
    assert(applied.nodes[d].path == tree.nodes[d].path);
    assert(is_inside(applied, stack, m, n, d, c)) by {
        assert forall|j: int| m < j < stack.len() implies (#[trigger] stack[j]).1 > n && path_len(
            applied,
            d,
        ) < path_len(applied, stack[j].0) by {
            assert(applied.nodes[stack[j].0].path == tree.nodes[stack[j].0].path);
        }
    }
    match outcome.node {
        None => {
            if entry.path == tree.nodes[c].path {
                assert(tree.is_at(c, entry.path));
            }
        },
        Some(i) => {
            if entry.path == tree.nodes[c].path {
                assert(applied.is_at(c, entry.path));
                lemma_find(applied, c, entry.path);
            } else {
                assert(i != c);
            }
            assert(i != d);
            let visited = applied.with_flags(
                i,
                Flags { maybe_deleted: false, ..applied.nodes[i].flags },
            );
            lemma_same_shape(applied, visited);
            assert(is_child(visited, d, c));
            assert(is_inside(visited, stack, m, n, d, c));
            lemma_leave_further_down(visited, stack, entry.depth, m, n, d, c);
            lemma_leave(visited, stack, entry.depth);
            let left = leave(visited, stack, entry.depth).tree;
            let open = stack.take(kept(stack, entry.depth));
            lemma_same_shape(visited, left);
            assert(is_child(left, d, c));
            assert(is_inside(left, open, m, n, d, c));
            if crawled.watch {
                assert(!left.children_of(i).contains(c as u32)) by {
                    if is_child(left, i, c) {
                        lemma_one_parent(left, i, d, c);
                    }
                }
                lemma_same_shape(left, entered(left, i));
                assert(is_child(crawled.tree, d, c));
            }
        },
    }
}

/// An entry of a walk, and what is on disk there.
pub struct Entry {
    pub depth: int,
    pub path: Seq<u8>,
    pub meta: Option<Metadata>,
}

/// The state of a crawl after some entries of a walk, and the events of these entries.
#[verifier::ext_equal]
pub struct Walked {
    pub tree: TreeView,
    pub stack: CrawlStack,
    pub events: Seq<EventView>,
}

/// A crawl gets from one state to another by an entry of the walk.
pub open spec fn is_walk_step(
    before: Walked,
    recursive: bool,
    entry: Entry,
    after: Walked,
) -> bool {
    exists|step: Crawled|
        {
            &&& #[trigger] is_crawled(
                before.tree,
                before.stack,
                recursive,
                entry.depth,
                entry.path,
                entry.meta,
                step,
            )
            &&& after == (Walked {
                tree: step.tree,
                stack: step.stack,
                events: before.events + step.events,
            })
        }
}

/// The states are those that a crawl goes through with some entries of a walk, from the given tree
/// and stack on.
pub open spec fn is_walked(
    tree: TreeView,
    stack: CrawlStack,
    recursive: bool,
    entries: Seq<Entry>,
    states: Seq<Walked>,
) -> bool {
    &&& states.len() == entries.len() + 1
    &&& states[0] == (Walked { tree, stack, events: Seq::empty() })
    &&& forall|i: int|
        0 <= i < entries.len() ==> is_walk_step(
            states[i],
            recursive,
            #[trigger] entries[i],
            states[i + 1],
        )
}

/// What was on disk when the walk last came by a path, if it did.
pub open spec fn last_seen(entries: Seq<Entry>, path: Seq<u8>) -> Option<Option<Metadata>>
    decreases entries.len(),
{
    if entries.len() == 0 {
        None
    } else if entries.last().path == path {
        Some(entries.last().meta)
    } else {
        last_seen(entries.drop_last(), path)
    }
}

/// The entries are beneath a directory at depth `n`.
pub open spec fn are_inside(tree: TreeView, d: int, n: int, entries: Seq<Entry>) -> bool {
    forall|e: int|
        0 <= e < entries.len() ==> {
            &&& (#[trigger] entries[e]).depth > n
            &&& is_stored(entries[e].path)
            &&& path_len(tree, d) < path_text(entries[e].path).len()
        }
}

/// The state of a crawl of directory `d` after some entries inside it.
proof fn lemma_walk_inside(
    tree: TreeView,
    stack: CrawlStack,
    recursive: bool,
    entries: Seq<Entry>,
    states: Seq<Walked>,
    k: int,
    m: int,
    n: int,
    d: int,
    c: int,
)
    requires
        is_inside(tree, stack, m, n, d, c),
        tree.nodes[c].flags.maybe_deleted,
        tree.nodes.len() + entries.len() <= id_limit(),
        tree.dirs.len() + 2 * entries.len() <= id_limit(),
        are_inside(tree, d, n, entries),
        is_walked(tree, stack, recursive, entries, states),
        0 <= k <= entries.len(),
    ensures
        is_inside(states[k].tree, states[k].stack, m, n, d, c),
        m > 0 ==> states[k].stack[m - 1] == stack[m - 1],
        states[k].tree.nodes.len() <= tree.nodes.len() + k,
        states[k].tree.dirs.len() <= tree.dirs.len() + 2 * k,
        states[k].tree.nodes[c].path == tree.nodes[c].path,
        states[k].tree.nodes[d].path == tree.nodes[d].path,
        match last_seen(entries.take(k), tree.nodes[c].path) {
            Some(meta) => states[k].tree.nodes[c].meta == shown(meta)
                && !states[k].tree.nodes[c].flags.maybe_deleted,
            None => states[k].tree.nodes[c].flags.maybe_deleted
                && states[k].tree.nodes[c].meta == tree.nodes[c].meta,
        },
    decreases k,
{
    if k > 0 {
        let entry = entries[k - 1];
        let before = states[k - 1];
        lemma_walk_inside(tree, stack, recursive, entries, states, k - 1, m, n, d, c);
        assert(is_walk_step(before, recursive, entry, states[k - 1 + 1]));
        let step = choose|step: Crawled|
            {
                &&& #[trigger] is_crawled(
                    before.tree,
                    before.stack,
                    recursive,
                    entry.depth,
                    entry.path,
                    entry.meta,
                    step,
                )
                &&& states[k] == (Walked {
                    tree: step.tree,
                    stack: step.stack,
                    events: before.events + step.events,
                })
            };
        lemma_step_inside(before.tree, before.stack, recursive, entry, step, m, n, d, c);
        assert(entries.take(k).drop_last() =~= entries.take(k - 1));
        assert(entries.take(k).last() == entry);
    }
}

/// A crawl brings a directory up to date, at whatever depth it comes by it. From the time that it
/// enters the directory to the time that it leaves it, it comes by entries inside the directory.
/// In the end a child that the directory had shows what was on disk when the walk came by it, or is
/// marked as deleted, and reported as such if it is a file, if the walk did not come by it.
pub proof fn law_crawl_brings_children_up_to_date(
    tree: TreeView,
    stack: CrawlStack,
    recursive: bool,
    depth: int,
    entries: Seq<Entry>,
    states: Seq<Walked>,
    d: int,
    c: int,
)
    requires
        tree.wf(),
        0 <= d < tree.nodes.len(),
        0 <= c < tree.nodes.len(),
        is_child(tree, d, c),
        forall|j: int| 0 <= j < stack.len() ==> 0 <= (#[trigger] stack[j]).0 < tree.nodes.len(),
        stack.len() > 0 ==> stack.last().1 < depth,
        tree.nodes.len() + entries.len() <= id_limit(),
        tree.dirs.len() + 2 * entries.len() <= id_limit(),
        are_inside(tree, d, depth, entries),
        is_walked(entered(tree, d), stack.push((d, depth)), recursive, entries, states),
    ensures
        ({
            let left = leave(states.last().tree, states.last().stack, depth);
            match last_seen(entries, tree.nodes[c].path) {
                Some(meta) => left.tree.nodes[c].meta == shown(meta),
                None => left.tree.nodes[c].meta == NodeMeta::Deleted && (tree.nodes[c].meta is File
                    ==> left.events.contains(tree.delete_event(c))),
            }
        }),
{
    let start = entered(tree, d);
    let inner = stack.push((d, depth));
    let m = stack.len() as int;
    lemma_same_shape(tree, start);
    assert(is_child(start, d, c));
    assert(is_inside(start, inner, m, depth, d, c));
    assert(path_len(start, d) == path_len(tree, d));
    let k = entries.len() as int;
    lemma_walk_inside(start, inner, recursive, entries, states, k, m, depth, d, c);
    assert(entries.take(k) =~= entries);
    lemma_leave_dir(states[k].tree, states[k].stack, m, depth, d, c);
}

/// A step of a crawl keeps the tree well formed and the watches sound, and nodes keep their numbers
/// and their paths.
pub proof fn law_crawls_keep_the_tree_well_formed(
    tree: TreeView,
    stack: CrawlStack,
    recursive: bool,
    entry: Entry,
    crawled: Crawled,
    j: int,
)
    requires
        tree.wf(),
        tree.has_room(),
        watches_are_sound(tree),
        is_stored(entry.path),
        forall|k: int| 0 <= k < stack.len() ==> 0 <= (#[trigger] stack[k]).0 < tree.nodes.len(),
        is_crawled(
            tree,
            stack,
            recursive,
            entry.depth,
            entry.path,
            entry.meta,
            crawled,
        ),
        0 <= j < tree.nodes.len(),
    ensures
        crawled.tree.wf(),
        watches_are_sound(crawled.tree),
        tree.nodes.len() <= crawled.tree.nodes.len(),
        crawled.tree.nodes[j].path == tree.nodes[j].path,
{
    lemma_crawled(tree, stack, recursive, entry.depth, entry.path, entry.meta, crawled);
    let change = crawl_change(entry.path, recursive);
    let outcome = choose|outcome: Outcome| #[trigger]
        is_applied(tree, change, entry.meta, outcome) && crawled == crawl_visit(
            outcome,
            stack,
            recursive,
            entry.depth,
        );
    law_changes_keep_watches_sound(tree, change, entry.meta, outcome);
    lemma_applied(tree, change, entry.meta, outcome);
    lemma_applied_wf(tree, change, entry.meta, outcome);
    if let Some(i) = outcome.node {
        let visited = outcome.tree.with_flags(
            i,
            Flags { maybe_deleted: false, ..outcome.tree.nodes[i].flags },
        );
        lemma_same_shape(outcome.tree, visited);
        lemma_leave(visited, stack, entry.depth);
        let left = leave(visited, stack, entry.depth).tree;
        assert forall|k: int|
            0 <= k < crawled.tree.nodes.len() && (
            #[trigger] crawled.tree.nodes[k]).flags.watch_subtree implies
            crawled.tree.nodes[k].flags.watch_children by {
            assert(left.nodes[k].flags == visited.nodes[k].flags);
            assert(outcome.tree.nodes[k].flags.watch_subtree
                ==> outcome.tree.nodes[k].flags.watch_children);
        }
    }
}

} // verus!
