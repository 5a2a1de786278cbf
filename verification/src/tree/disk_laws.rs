//! What a crawl reports, in terms of what the tree knew before it and of what the walk found.

use super::crawl_laws::{is_walk_step, is_walked, Entry, Walked};
use super::event_laws::{
    entries_stored, is_change, is_change_in_step, is_change_of, is_result_of,
    law_change_reports_exactly_what_happened, law_crawl_reports_every_net_change,
    law_crawl_reports_exactly_what_happened, law_leaving_reports_exactly_what_happened,
    lemma_step_outcome,
};
use super::followed::{
    frames_walked, is_missed, is_missed_from, is_passed_over, is_followed, lemma_apply_misses,
    lemma_leave_followed, lemma_new_node_is_the_entry, lemma_under_unseen, lemma_visit_followed,
    lemma_walk_followed, with_visited,
};
use super::laws::{
    is_child, is_way_down, known_meta, law_delete_reports_exactly_the_files,
    law_delete_reports_no_file_twice, law_tree_shows_the_disk,
};
use super::lemmas::{lemma_applied, lemma_applied_wf, lemma_find, lemma_leave, lemma_same_shape};
use super::model::{
    crawl_change, crawl_visit, entered, is_applied, is_crawled, leave, stacked, CrawlStack, Crawled,
    Outcome, TreeView,
};
use super::walk::{
    is_gone, is_on_the_way, is_seen, is_seen_dir, is_walk, lemma_apply_spares,
    lemma_beneath_is_under, lemma_child_mirrors, lemma_entered_is_inside, lemma_entered_kept,
    lemma_entry_gets_node, lemma_entry_is_inside, lemma_frames_are_nodes, lemma_leave_on_the_way,
    lemma_none_are_kept, lemma_under_is_longer, lemma_visit_on_the_way, lemma_walk_on_the_way,
    shows, was_entered,
};
use super::{Flags, NodeMeta, NodeView};
use crate::events::{EventType, EventView};
use crate::path::is_stored;
use crate::table::id_limit;
use vstd::prelude::*;

verus! {

/// What happened to the file of an entry of a walk, going by what the tree knew of its path: it
/// turned up, it is gone, or its time, its size or its inode is another.
pub open spec fn entry_event(tree: TreeView, entry: Entry) -> Option<EventType> {
    match (tree.find(entry.path), entry.meta) {
        (Some(i), Some(meta)) => match tree.nodes[i].meta {
            NodeMeta::File { mtime, size } => if meta.is_dir {
                Some(EventType::Delete)
            } else if meta.mtime != mtime || meta.size != size || meta.inode
                != tree.nodes[i].inode {
                Some(EventType::Modified)
            } else {
                None
            },
            _ => if meta.is_dir {
                None
            } else {
                Some(EventType::Create)
            },
        },
        (Some(i), None) => if tree.nodes[i].meta is File {
            Some(EventType::Delete)
        } else {
            None
        },
        (None, Some(meta)) => if meta.is_dir {
            None
        } else {
            Some(EventType::Create)
        },
        (None, None) => None,
    }
}

/// The event is what a walk finds out about a file, going by what the tree knew before: what
/// happened to the file of an entry, or the deletion of a file that the walk did not come by.
pub open spec fn is_disk_event(
    tree: TreeView,
    d: int,
    recursive: bool,
    entries: Seq<Entry>,
    event: EventView,
) -> bool {
    ||| exists|e: int|
        0 <= e < entries.len() && (#[trigger] entries[e]).path == event.path && entry_event(
            tree,
            entries[e],
        ) == Some(event.ty)
    ||| exists|j: int|
        0 <= j < tree.nodes.len() && tree.nodes[j].meta is File && #[trigger] is_missed(
            tree,
            d,
            recursive,
            entries,
            j,
        ) && event == tree.delete_event(j)
}

/// What happens to the file of an entry when the crawl looks at it.
proof fn lemma_entry_event(
    first: TreeView,
    tree: TreeView,
    stack: CrawlStack,
    d: int,
    root: Seq<u8>,
    recursive: bool,
    entries: Seq<Entry>,
    k: int,
    outcome: Outcome,
    event: EventView,
)
    requires
        first.wf(),
        is_on_the_way(tree, stack, d, root, recursive, entries, k, k),
        is_followed(first, tree, d, entries, k),
        k < entries.len(),
        is_applied(tree, crawl_change(entries[k].path, recursive), entries[k].meta, outcome),
        event.path == entries[k].path,
    ensures
        outcome.node matches Some(i) ==> (is_change_of(tree, outcome.tree, i, event)
            <==> entry_event(first, entries[k]) == Some(event.ty)),
        outcome.node is None ==> entry_event(first, entries[k]) is None,
{
    let entry = entries[k];
    let change = crawl_change(entry.path, recursive);
    lemma_applied(tree, change, entry.meta, outcome);
    law_tree_shows_the_disk(tree, change, entry.meta, outcome);
    if outcome.node is None && entry.meta is Some {
        lemma_entry_gets_node(tree, stack, d, root, recursive, entries, k, outcome);
    }
    match tree.find(entry.path) {
        Some(i) => {
            assert(tree.is_at(i, entries[k].path));
            assert(tree.nodes[i].path == first.nodes[i].path);
            lemma_find(first, i, entry.path);
        },
        None => {
            assert forall|j: int| !first.is_at(j, entry.path) by {
                if first.is_at(j, entry.path) {
                    assert(tree.nodes[j].path == first.nodes[j].path);
                    assert(tree.is_at(j, entry.path));
                }
            }
        },
    }
}

/// What a deletion of something missed is.
proof fn lemma_missed_event(
    first: TreeView,
    before: TreeView,
    after: TreeView,
    d: int,
    recursive: bool,
    entries: Seq<Entry>,
    k: int,
    j: int,
    event: EventView,
)
    requires
        is_followed(first, before, d, entries, k),
        is_change_of(before, after, j, event),
        0 <= j < first.nodes.len(),
        after.nodes[j].path == before.nodes[j].path,
        after.nodes[j].meta == NodeMeta::Deleted,
        !is_seen(entries, entries.len() as int, first.nodes[j].path),
        is_missed(first, d, recursive, entries, j),
    ensures
        is_disk_event(first, d, recursive, entries, event),
{
    assert(before.nodes[j].path == first.nodes[j].path);
    assert(before.nodes[j].meta is File);
    assert(first.nodes[j].meta == before.nodes[j].meta);
    assert(event == first.delete_event(j));
}

/// Looking at an entry reports what the walk finds out.
proof fn lemma_apply_event(
    first: TreeView,
    tree: TreeView,
    stack: CrawlStack,
    d: int,
    root: Seq<u8>,
    recursive: bool,
    entries: Seq<Entry>,
    k: int,
    outcome: Outcome,
    event: EventView,
)
    requires
        first.wf(),
        0 <= d < first.nodes.len(),
        is_on_the_way(tree, stack, d, root, recursive, entries, k, k),
        is_followed(first, tree, d, entries, k),
        k < entries.len(),
        tree.has_room(),
        is_applied(tree, crawl_change(entries[k].path, recursive), entries[k].meta, outcome),
        is_change(tree, outcome.tree, event),
    ensures
        is_disk_event(first, d, recursive, entries, event),
{
    let entry = entries[k];
    let change = crawl_change(entry.path, recursive);
    let j = choose|j: int| is_change_of(tree, outcome.tree, j, event);
    lemma_applied(tree, change, entry.meta, outcome);
    lemma_applied_wf(tree, change, entry.meta, outcome);
    lemma_apply_spares(tree, change, entry.meta, outcome);
    law_tree_shows_the_disk(tree, change, entry.meta, outcome);
    if outcome.node == Some(j) {
        lemma_entry_event(
            first,
            tree,
            stack,
            d,
            root,
            recursive,
            entries,
            k,
            outcome,
            event,
        );
        assert(entries[k].path == event.path);
    } else {
        if j >= tree.nodes.len() {
            lemma_new_node_is_the_entry(tree, change, entry.meta, outcome, j);
        }
        assert(outcome.tree.nodes[j].inode == tree.nodes[j].inode);
        lemma_apply_misses(
            first,
            tree,
            stack,
            d,
            root,
            recursive,
            entries,
            k,
            outcome,
            j,
        );
        lemma_missed_event(
            first,
            tree,
            outcome.tree,
            d,
            recursive,
            entries,
            k,
            j,
            event,
        );
    }
}

/// A step on the way reports what the walk finds out.
#[verifier::rlimit(60)]
proof fn lemma_step_event(
    first: TreeView,
    before: Walked,
    d: int,
    root: Seq<u8>,
    recursive: bool,
    entries: Seq<Entry>,
    k: int,
    outcome: Outcome,
    after: Walked,
    event: EventView,
)
    requires
        first.wf(),
        0 <= d < first.nodes.len(),
        is_on_the_way(before.tree, before.stack, d, root, recursive, entries, k, k),
        is_followed(first, before.tree, d, entries, k),
        frames_walked(before.tree, before.stack, d, recursive, entries, k),
        k < entries.len(),
        before.tree.has_room(),
        is_applied(
            before.tree,
            crawl_change(entries[k].path, recursive),
            entries[k].meta,
            outcome,
        ),
        is_result_of(before, recursive, entries[k], outcome, after),
        is_change(before.tree, outcome.tree, event) || is_change(outcome.tree, after.tree, event),
    ensures
        is_disk_event(first, d, recursive, entries, event),
{
    let tree = before.tree;
    let stack = before.stack;
    if is_change(tree, outcome.tree, event) {
        lemma_apply_event(
            first,
            tree,
            stack,
            d,
            root,
            recursive,
            entries,
            k,
            outcome,
            event,
        );
    } else {
        let j = choose|j: int| is_change_of(outcome.tree, after.tree, j, event);
        if outcome.node is None {
            assert(known_meta(outcome.tree, j) == known_meta(after.tree, j));
        } else {
            let i = outcome.node->0;
            let depth = entries[k].depth;
            let visited = with_visited(outcome.tree, i);
            let left = leave(visited, stack, depth).tree;
            lemma_visit_followed(
                first,
                tree,
                stack,
                d,
                root,
                recursive,
                entries,
                k,
                outcome,
                i,
            );
            lemma_frames_are_nodes(visited, stack, d, root, recursive, entries, k);
            lemma_leave(visited, stack, depth);
            lemma_leave_followed(
                first,
                visited,
                stack,
                depth,
                d,
                root,
                recursive,
                entries,
                k + 1,
                k,
            );
            assert(after.tree.nodes[j].path == left.nodes[j].path);
            assert(left.nodes[j].path == visited.nodes[j].path);
            assert(left.nodes[j].inode == visited.nodes[j].inode);
            assert(after.tree.nodes[j].meta == left.nodes[j].meta);
            assert(after.tree.nodes[j].inode == left.nodes[j].inode);
            assert(left.nodes[j].meta != visited.nodes[j].meta);
            assert(is_change_of(visited, left, j, event));
            lemma_missed_event(
                first,
                visited,
                left,
                d,
                recursive,
                entries,
                k + 1,
                j,
                event,
            );
        }
    }
}

/// What a crawl reports is what the walk found out.
proof fn lemma_report_is_of_the_disk(
    tree: TreeView,
    d: int,
    recursive: bool,
    entries: Seq<Entry>,
    states: Seq<Walked>,
    event: EventView,
)
    requires
        tree.wf(),
        0 <= d < tree.nodes.len(),
        is_walk(tree.nodes[d].path, recursive, entries),
        tree.nodes.len() + entries.len() <= id_limit(),
        tree.dirs.len() + 2 * entries.len() <= id_limit(),
        is_walked(
            entered(tree, d),
            stacked(tree, Seq::empty(), d, 0),
            recursive,
            entries,
            states,
        ),
        (states.last().events + leave(
            states.last().tree,
            states.last().stack,
            0,
        ).events).contains(event),
    ensures
        is_disk_event(tree, d, recursive, entries, event),
{
    let n = entries.len() as int;
    let root = tree.nodes[d].path;
    let start = entered(tree, d);
    let stack = stacked(tree, Seq::empty(), d, 0);
    let last = states[n];
    let left = leave(last.tree, last.stack, 0).tree;
    lemma_same_shape(tree, start);
    assert(entries_stored(entries)) by {
        assert forall|e: int| 0 <= e < entries.len() implies is_stored(
            (#[trigger] entries[e]).path,
        ) by {}
    }
    law_crawl_reports_exactly_what_happened(start, stack, recursive, entries, states, event);
    if is_change(last.tree, left, event) {
        let j = choose|j: int| is_change_of(last.tree, left, j, event);
        lemma_walk_on_the_way(tree, d, recursive, entries, states, n);
        lemma_walk_followed(tree, d, recursive, entries, states, n);
        lemma_frames_are_nodes(last.tree, last.stack, d, root, recursive, entries, n);
        lemma_leave(last.tree, last.stack, 0);
        lemma_leave_followed(
            tree,
            last.tree,
            last.stack,
            0,
            d,
            root,
            recursive,
            entries,
            n,
            n,
        );
        assert(left.nodes[j].inode == last.tree.nodes[j].inode);
        lemma_missed_event(tree, last.tree, left, d, recursive, entries, n, j, event);
    } else {
        let i = choose|i: int|
            0 <= i < n && is_change_in_step(
                states[i],
                recursive,
                #[trigger] entries[i],
                states[i + 1],
                event,
            );
        let outcome = choose|outcome: Outcome|
            {
                &&& #[trigger] is_applied(
                    states[i].tree,
                    crawl_change(entries[i].path, recursive),
                    entries[i].meta,
                    outcome,
                )
                &&& is_result_of(states[i], recursive, entries[i], outcome, states[i + 1])
                &&& is_change(states[i].tree, outcome.tree, event) || is_change(
                    outcome.tree,
                    states[i + 1].tree,
                    event,
                )
            };
        lemma_walk_on_the_way(tree, d, recursive, entries, states, i);
        lemma_walk_followed(tree, d, recursive, entries, states, i);
        lemma_step_event(
            tree,
            states[i],
            d,
            root,
            recursive,
            entries,
            i,
            outcome,
            states[i + 1],
            event,
        );
    }
}

/// What the walk missed is deleted after the crawl, and no entry is at its path.
proof fn lemma_missed_is_deleted(
    first: TreeView,
    tree: TreeView,
    d: int,
    root: Seq<u8>,
    recursive: bool,
    entries: Seq<Entry>,
    c: int,
    j: int,
)
    requires
        first.wf(),
        0 <= d < first.nodes.len(),
        is_on_the_way(
            tree,
            Seq::empty(),
            d,
            root,
            recursive,
            entries,
            entries.len() as int,
            entries.len() as int,
        ),
        is_followed(first, tree, d, entries, entries.len() as int),
        0 <= j < first.nodes.len(),
        is_missed_from(first, d, recursive, entries, c, j),
    ensures
        tree.nodes[j].meta == NodeMeta::Deleted,
        c == j || !is_seen(entries, entries.len() as int, first.nodes[j].path),
    decreases j,
{
    let n = entries.len() as int;
    assert(tree.nodes[d].path == first.nodes[d].path);
    assert(tree.nodes[c].path == first.nodes[c].path);
    if is_passed_over(first, d, recursive, entries, c) {
        let x = choose|x: int|
            0 <= x < c && #[trigger] is_child(first, x, c) && was_entered(
                first,
                d,
                recursive,
                entries,
                n,
                x,
            );
        lemma_entered_is_inside(first, d, root, recursive, entries, n, x);
        lemma_child_mirrors(first, x, c);
        assert(is_child(tree, x, c));
        assert(tree.nodes[x].path == first.nodes[x].path);
        lemma_entered_kept(first, tree, d, recursive, entries, n, x);
        assert(is_gone(tree, c));
    } else {
        let e = choose|e: int|
            0 <= e < n && (#[trigger] entries[e]).path == first.nodes[c].path && entries[e].meta
                is None;
        lemma_entry_is_inside(root, recursive, entries, e);
        assert(tree.is_at(c, entries[e].path));
        assert(shows(tree.nodes[c], entries[e].meta));
    }
    if c != j {
        if is_seen_dir(entries, n, first.nodes[c].path) {
            let e = choose|e: int|
                0 <= e < n && (#[trigger] entries[e]).path == first.nodes[c].path && (
                entries[e].meta matches Some(meta) && meta.is_dir);
            assert(entries[e].path == first.nodes[c].path);
        }
        lemma_beneath_is_under(first, c, j);
        lemma_under_unseen(first, d, root, recursive, entries, c, j);
        let p = choose|p: int|
            0 <= p < j && #[trigger] is_child(first, p, j) && is_way_down(first, c, p);
        assert(is_child(tree, p, j));
        if p != c {
            lemma_beneath_is_under(first, c, p);
            lemma_under_is_longer(first, c, p);
            assert(is_missed_from(first, d, recursive, entries, c, p));
            lemma_missed_is_deleted(first, tree, d, root, recursive, entries, c, p);
        }
    }
}

/// A crawl reports what the walk finds out about files, going by what the tree knew before, and
/// nothing else. For a file that the walk comes by this is that the file turned up where none was
/// known, that its time, its size or its inode is another, or that it is gone. A file that the walk
/// does not come by, though it goes through the directory that the file was in, or finds that
/// directory or one above it gone, is deleted.
#[verifier::rlimit(60)]
pub proof fn law_crawl_reports_what_is_on_disk(
    tree: TreeView,
    d: int,
    recursive: bool,
    entries: Seq<Entry>,
    states: Seq<Walked>,
    event: EventView,
)
    requires
        tree.wf(),
        0 <= d < tree.nodes.len(),
        is_walk(tree.nodes[d].path, recursive, entries),
        tree.nodes.len() + entries.len() <= id_limit(),
        tree.dirs.len() + 2 * entries.len() <= id_limit(),
        is_walked(
            entered(tree, d),
            stacked(tree, Seq::empty(), d, 0),
            recursive,
            entries,
            states,
        ),
    ensures
        (states.last().events + leave(
            states.last().tree,
            states.last().stack,
            0,
        ).events).contains(event) <==> is_disk_event(tree, d, recursive, entries, event),
{
    let n = entries.len() as int;
    let root = tree.nodes[d].path;
    let start = entered(tree, d);
    let stack = stacked(tree, Seq::empty(), d, 0);
    let last = states[n];
    let left = leave(last.tree, last.stack, 0);
    let events = last.events + left.events;
    lemma_same_shape(tree, start);
    assert(entries_stored(entries)) by {
        assert forall|e: int| 0 <= e < entries.len() implies is_stored(
            (#[trigger] entries[e]).path,
        ) by {}
    }
    if events.contains(event) {
        lemma_report_is_of_the_disk(tree, d, recursive, entries, states, event);
    } else if exists|e: int|
        0 <= e < n && (#[trigger] entries[e]).path == event.path && entry_event(tree, entries[e])
            == Some(event.ty) {
        let e = choose|e: int|
            0 <= e < n && (#[trigger] entries[e]).path == event.path && entry_event(
                tree,
                entries[e],
            ) == Some(event.ty);
        lemma_walk_on_the_way(tree, d, recursive, entries, states, e);
        lemma_walk_followed(tree, d, recursive, entries, states, e);
        assert(is_walk_step(states[e], recursive, entries[e], states[e + 1]));
        let outcome = lemma_step_outcome(states[e], recursive, entries[e], states[e + 1]);
        lemma_entry_event(
            tree,
            states[e].tree,
            states[e].stack,
            d,
            root,
            recursive,
            entries,
            e,
            outcome,
            event,
        );
        assert(is_change(states[e].tree, outcome.tree, event));
        assert(is_change_in_step(states[e], recursive, entries[e], states[e + 1], event));
        law_crawl_reports_exactly_what_happened(start, stack, recursive, entries, states, event);
    } else if is_disk_event(tree, d, recursive, entries, event) {
        let j = choose|j: int|
            0 <= j < tree.nodes.len() && tree.nodes[j].meta is File && #[trigger] is_missed(
                tree,
                d,
                recursive,
                entries,
                j,
            ) && event == tree.delete_event(j);
        let c = choose|c: int| is_missed_from(tree, d, recursive, entries, c, j);
        lemma_walk_on_the_way(tree, d, recursive, entries, states, n);
        lemma_walk_followed(tree, d, recursive, entries, states, n);
        lemma_frames_are_nodes(last.tree, last.stack, d, root, recursive, entries, n);
        lemma_leave_on_the_way(last.tree, last.stack, 0, d, root, recursive, entries, n, n);
        lemma_leave_followed(
            tree,
            last.tree,
            last.stack,
            0,
            d,
            root,
            recursive,
            entries,
            n,
            n,
        );
        lemma_none_are_kept(last.stack);
        assert(last.stack.take(0) =~= Seq::empty());
        lemma_missed_is_deleted(tree, left.tree, d, root, recursive, entries, c, j);
        assert(!is_seen(entries, n, tree.nodes[j].path));
        law_crawl_reports_every_net_change(start, stack, recursive, entries, states, j);
        let other = choose|other: EventView| #[trigger]
            events.contains(other) && other.path == left.tree.nodes[j].path;
        assert(left.tree.nodes[j].path == tree.nodes[j].path);
        lemma_report_is_of_the_disk(tree, d, recursive, entries, states, other);
        assert forall|e: int| 0 <= e < n implies (#[trigger] entries[e]).path != other.path by {}
        let k = choose|k: int|
            0 <= k < tree.nodes.len() && tree.nodes[k].meta is File && #[trigger] is_missed(
                tree,
                d,
                recursive,
                entries,
                k,
            ) && other == tree.delete_event(k);
        assert(tree.nodes[k].path == tree.nodes[j].path);
        assert(other == event);
    }
}

/// A recursive crawl watches each directory that the walk comes by, once and no other: the step for
/// an entry watches it if and only if it is a directory, no other entry is for its path, and the
/// directory that the crawl starts at is none of the entries. A crawl that is not recursive watches
/// none.
pub proof fn law_crawl_watches_each_directory_once(
    tree: TreeView,
    d: int,
    recursive: bool,
    entries: Seq<Entry>,
    states: Seq<Walked>,
    k: int,
    step: Crawled,
)
    requires
        tree.wf(),
        0 <= d < tree.nodes.len(),
        is_walk(tree.nodes[d].path, recursive, entries),
        tree.nodes.len() + entries.len() <= id_limit(),
        tree.dirs.len() + 2 * entries.len() <= id_limit(),
        is_walked(
            entered(tree, d),
            stacked(tree, Seq::empty(), d, 0),
            recursive,
            entries,
            states,
        ),
        0 <= k < entries.len(),
        is_crawled(
            states[k].tree,
            states[k].stack,
            recursive,
            entries[k].depth,
            entries[k].path,
            entries[k].meta,
            step,
        ),
    ensures
        step.watch <==> recursive && (entries[k].meta matches Some(meta) && meta.is_dir),
        entries[k].path != tree.nodes[d].path,
        forall|j: int|
            0 <= j < entries.len() && j != k ==> (#[trigger] entries[j]).path != entries[k].path,
{
    let root = tree.nodes[d].path;
    let before = states[k];
    let entry = entries[k];
    let outcome = choose|outcome: Outcome| #[trigger]
        is_applied(before.tree, crawl_change(entry.path, recursive), entry.meta, outcome) && step
            == crawl_visit(outcome, before.stack, recursive, entry.depth);
    lemma_entry_is_inside(root, recursive, entries, k);
    lemma_walk_on_the_way(tree, d, recursive, entries, states, k);
    lemma_applied(before.tree, crawl_change(entry.path, recursive), entry.meta, outcome);
    if entry.meta is Some {
        lemma_entry_gets_node(
            before.tree,
            before.stack,
            d,
            root,
            recursive,
            entries,
            k,
            outcome,
        );
    }
    if let Some(i) = outcome.node {
        let visited = outcome.tree.with_flags(
            i,
            Flags { maybe_deleted: false, ..outcome.tree.nodes[i].flags },
        );
        let left = leave(visited, before.stack, entry.depth).tree;
        lemma_visit_on_the_way(
            before.tree,
            before.stack,
            d,
            root,
            recursive,
            entries,
            k,
            outcome,
            i,
        );
        lemma_frames_are_nodes(visited, before.stack, d, root, recursive, entries, k);
        lemma_leave(visited, before.stack, entry.depth);
        lemma_leave_on_the_way(
            visited,
            before.stack,
            entry.depth,
            d,
            root,
            recursive,
            entries,
            k + 1,
            k,
        );
        assert(left.is_at(i, entries[k].path));
        assert(shows(left.nodes[i], entries[k].meta));
    }
}

/// No two of the events are for the same path.
pub open spec fn are_of_different_files(events: Seq<EventView>) -> bool {
    forall|i: int, j: int|
        0 <= i < events.len() && 0 <= j < events.len() && (#[trigger] events[i]).path == (
        #[trigger] events[j]).path ==> i == j
}

/// Nothing more can be reported for the path: the walk came by it, or what it missed there is
/// deleted.
spec fn is_settled(
    first: TreeView,
    tree: TreeView,
    entries: Seq<Entry>,
    k: int,
    path: Seq<u8>,
) -> bool {
    ||| is_seen(entries, k, path)
    ||| !is_seen(entries, entries.len() as int, path) && exists|z: int|
        0 <= z < first.nodes.len() && first.nodes[z].path == path && (#[trigger] tree.nodes[z]).meta
            == NodeMeta::Deleted
}

/// Nothing more can be reported for the paths of the events.
spec fn are_settled(
    first: TreeView,
    tree: TreeView,
    entries: Seq<Entry>,
    k: int,
    events: Seq<EventView>,
) -> bool {
    forall|i: int|
        0 <= i < events.len() ==> is_settled(first, tree, entries, k, (#[trigger] events[i]).path)
}

/// What is settled stays so where what is deleted of what the walk does not come by does.
proof fn lemma_settled_later(
    first: TreeView,
    a: TreeView,
    b: TreeView,
    entries: Seq<Entry>,
    k: int,
    m: int,
    events: Seq<EventView>,
)
    requires
        are_settled(first, a, entries, k, events),
        k <= m,
        forall|z: int|
            0 <= z < first.nodes.len() && !is_seen(
                entries,
                entries.len() as int,
                first.nodes[z].path,
            ) && a.nodes[z].meta == NodeMeta::Deleted ==> (#[trigger] b.nodes[z]).meta
                == NodeMeta::Deleted,
    ensures
        are_settled(first, b, entries, m, events),
{
    assert forall|i: int| 0 <= i < events.len() implies is_settled(
        first,
        b,
        entries,
        m,
        (#[trigger] events[i]).path,
    ) by {
        let path = events[i].path;
        if is_seen(entries, k, path) {
            let e = choose|e: int| 0 <= e < k && (#[trigger] entries[e]).path == path;
            assert(entries[e].path == path);
        } else {
            let z = choose|z: int|
                0 <= z < first.nodes.len() && first.nodes[z].path == path && (
                #[trigger] a.nodes[z]).meta == NodeMeta::Deleted;
            assert(b.nodes[z].meta == NodeMeta::Deleted);
        }
    }
}

/// Events that were settled and events that were not are of different files.
proof fn lemma_different_files(
    first: TreeView,
    tree: TreeView,
    entries: Seq<Entry>,
    k: int,
    a: Seq<EventView>,
    b: Seq<EventView>,
)
    requires
        are_of_different_files(a),
        are_of_different_files(b),
        are_settled(first, tree, entries, k, a),
        forall|j: int|
            0 <= j < b.len() ==> !is_settled(first, tree, entries, k, (#[trigger] b[j]).path),
    ensures
        are_of_different_files(a + b),
{
    let sum = a + b;
    assert forall|i: int, j: int|
        0 <= i < sum.len() && 0 <= j < sum.len() && (#[trigger] sum[i]).path == (
        #[trigger] sum[j]).path implies i == j by {
        if i < a.len() && j >= a.len() {
            assert(is_settled(first, tree, entries, k, a[i].path));
            assert(!is_settled(first, tree, entries, k, b[j - a.len()].path));
        } else if j < a.len() && i >= a.len() {
            assert(is_settled(first, tree, entries, k, a[j].path));
            assert(!is_settled(first, tree, entries, k, b[i - a.len()].path));
        } else if i >= a.len() {
            assert(b[i - a.len()].path == b[j - a.len()].path);
        }
    }
}

/// A file that is deleted now, and that the walk does not come by, was not settled.
proof fn lemma_deletion_is_not_settled(
    first: TreeView,
    tree: TreeView,
    entries: Seq<Entry>,
    k: int,
    z: int,
)
    requires
        first.paths_distinct(),
        k <= entries.len(),
        0 <= z < first.nodes.len(),
        !is_seen(entries, entries.len() as int, first.nodes[z].path),
        tree.nodes[z].meta != NodeMeta::Deleted,
    ensures
        !is_settled(first, tree, entries, k, first.nodes[z].path),
{
    let path = first.nodes[z].path;
    if is_seen(entries, k, path) {
        let e = choose|e: int| 0 <= e < k && (#[trigger] entries[e]).path == path;
        assert(entries[e].path == path);
    } else if is_settled(first, tree, entries, k, path) {
        let y = choose|y: int|
            0 <= y < first.nodes.len() && first.nodes[y].path == path && (
            #[trigger] tree.nodes[y]).meta == NodeMeta::Deleted;
        assert(first.nodes[y].path == first.nodes[z].path);
    }
}

/// Deletions of which none comes twice are of different files.
proof fn lemma_deletions_are_different(events: Seq<EventView>)
    requires
        events.no_duplicates(),
        forall|i: int|
            0 <= i < events.len() ==> (#[trigger] events[i]).ty == EventType::Delete,
    ensures
        are_of_different_files(events),
{
    assert forall|i: int, j: int|
        0 <= i < events.len() && 0 <= j < events.len() && (#[trigger] events[i]).path == (
        #[trigger] events[j]).path implies i == j by {
        assert(events[i] == events[j]);
    }
}

/// What looking at an entry reports was not settled, is settled then, and is of different files.
#[verifier::rlimit(60)]
proof fn lemma_apply_reports_once(
    first: TreeView,
    tree: TreeView,
    stack: CrawlStack,
    d: int,
    root: Seq<u8>,
    recursive: bool,
    entries: Seq<Entry>,
    k: int,
    outcome: Outcome,
)
    requires
        first.wf(),
        0 <= d < first.nodes.len(),
        is_on_the_way(tree, stack, d, root, recursive, entries, k, k),
        is_followed(first, tree, d, entries, k),
        k < entries.len(),
        tree.has_room(),
        is_applied(tree, crawl_change(entries[k].path, recursive), entries[k].meta, outcome),
    ensures
        are_of_different_files(outcome.events),
        are_settled(first, outcome.tree, entries, k + 1, outcome.events),
        forall|i: int|
            0 <= i < outcome.events.len() ==> !is_settled(
                first,
                tree,
                entries,
                k,
                (#[trigger] outcome.events[i]).path,
            ),
{
    let n = entries.len() as int;
    let entry = entries[k];
    let change = crawl_change(entry.path, recursive);
    lemma_applied(tree, change, entry.meta, outcome);
    lemma_apply_spares(tree, change, entry.meta, outcome);
    assert(entries[k].path == entry.path);
    assert forall|i: int| 0 <= i < outcome.events.len() implies {
        &&& !is_settled(first, tree, entries, k, (#[trigger] outcome.events[i]).path)
        &&& is_settled(first, outcome.tree, entries, k + 1, outcome.events[i].path)
    } by {
        let event = outcome.events[i];
        assert(outcome.events.contains(event));
        law_change_reports_exactly_what_happened(tree, change, entry.meta, outcome, event);
        let j = choose|j: int| is_change_of(tree, outcome.tree, j, event);
        if outcome.node == Some(j) {
            assert(event.path == entries[k].path);
            assert(is_seen(entries, n, event.path));
            if is_seen(entries, k, event.path) {
                let e = choose|e: int| 0 <= e < k && (#[trigger] entries[e]).path == event.path;
                assert(entries[e].path == entries[k].path);
            }
        } else {
            if j >= tree.nodes.len() {
                lemma_new_node_is_the_entry(tree, change, entry.meta, outcome, j);
            }
            assert(outcome.tree.nodes[j].inode == tree.nodes[j].inode);
            lemma_apply_misses(
                first,
                tree,
                stack,
                d,
                root,
                recursive,
                entries,
                k,
                outcome,
                j,
            );
            assert(tree.nodes[j].path == first.nodes[j].path);
            assert(outcome.tree.nodes[j].path == tree.nodes[j].path);
            lemma_deletion_is_not_settled(first, tree, entries, k, j);
        }
    }
    if let Some(i) = tree.find(change.path) {
        assert(tree.is_at(i, change.path));
        let node = tree.nodes[i];
        let flags = if change.flags.mark_recursive {
            node.flags.marked_recursive()
        } else {
            node.flags
        };
        if entry.meta is None && node.meta == NodeMeta::Dir {
            let gone = tree.with_node(i, NodeView { flags, meta: NodeMeta::Deleted, ..node });
            lemma_same_shape(tree, gone);
            law_delete_reports_no_file_twice(gone, i);
            assert forall|l: int| 0 <= l < outcome.events.len() implies (
            #[trigger] outcome.events[l]).ty == EventType::Delete by {
                assert(outcome.events.contains(outcome.events[l]));
                law_delete_reports_exactly_the_files(gone, i, outcome.events[l]);
            }
            lemma_deletions_are_different(outcome.events);
        }
    }
}

/// What leaving directories reports was not settled, is settled then, and is of different files.
proof fn lemma_leave_reports_once(
    first: TreeView,
    tree: TreeView,
    stack: CrawlStack,
    depth: int,
    d: int,
    root: Seq<u8>,
    recursive: bool,
    entries: Seq<Entry>,
    k: int,
    m: int,
)
    requires
        first.wf(),
        0 <= d < first.nodes.len(),
        is_on_the_way(tree, stack, d, root, recursive, entries, k, m),
        is_followed(first, tree, d, entries, k),
        frames_walked(tree, stack, d, recursive, entries, m),
        k == entries.len() || (k == m + 1 && depth == entries[m].depth),
    ensures
        ({
            let left = leave(tree, stack, depth);
            &&& are_of_different_files(left.events)
            &&& are_settled(first, left.tree, entries, k, left.events)
            &&& forall|i: int|
                0 <= i < left.events.len() ==> !is_settled(
                    first,
                    tree,
                    entries,
                    k,
                    (#[trigger] left.events[i]).path,
                )
        }),
{
    let left = leave(tree, stack, depth);
    lemma_frames_are_nodes(tree, stack, d, root, recursive, entries, m);
    lemma_leave(tree, stack, depth);
    lemma_leave_followed(first, tree, stack, depth, d, root, recursive, entries, k, m);
    assert forall|i: int| 0 <= i < left.events.len() implies {
        &&& (#[trigger] left.events[i]).ty == EventType::Delete
        &&& !is_settled(first, tree, entries, k, left.events[i].path)
        &&& is_settled(first, left.tree, entries, k, left.events[i].path)
    } by {
        let event = left.events[i];
        assert(left.events.contains(event));
        law_leaving_reports_exactly_what_happened(tree, stack, depth, event);
        let j = choose|j: int| is_change_of(tree, left.tree, j, event);
        assert(left.tree.nodes[j].inode == tree.nodes[j].inode);
        assert(left.tree.nodes[j].meta != tree.nodes[j].meta);
        assert(tree.nodes[j].path == first.nodes[j].path);
        lemma_deletion_is_not_settled(first, tree, entries, k, j);
    }
    let any = EventView { path: root, ty: EventType::Delete };
    law_leaving_reports_exactly_what_happened(tree, stack, depth, any);
    lemma_deletions_are_different(left.events);
}

/// A step on the way reports no file that was reported.
#[verifier::rlimit(60)]
proof fn lemma_step_reports_once(
    first: TreeView,
    before: Walked,
    d: int,
    root: Seq<u8>,
    recursive: bool,
    entries: Seq<Entry>,
    k: int,
    after: Walked,
)
    requires
        first.wf(),
        0 <= d < first.nodes.len(),
        is_on_the_way(before.tree, before.stack, d, root, recursive, entries, k, k),
        is_followed(first, before.tree, d, entries, k),
        frames_walked(before.tree, before.stack, d, recursive, entries, k),
        k < entries.len(),
        before.tree.has_room(),
        is_walk_step(before, recursive, entries[k], after),
        are_of_different_files(before.events),
        are_settled(first, before.tree, entries, k, before.events),
    ensures
        are_of_different_files(after.events),
        are_settled(first, after.tree, entries, k + 1, after.events),
{
    let entry = entries[k];
    let tree = before.tree;
    let stack = before.stack;
    let change = crawl_change(entry.path, recursive);
    let outcome = lemma_step_outcome(before, recursive, entry, after);
    lemma_applied(tree, change, entry.meta, outcome);
    lemma_apply_spares(tree, change, entry.meta, outcome);
    lemma_apply_reports_once(first, tree, stack, d, root, recursive, entries, k, outcome);
    let reported = before.events + outcome.events;
    lemma_different_files(first, tree, entries, k, before.events, outcome.events);
    assert forall|z: int|
        0 <= z < first.nodes.len() && !is_seen(
            entries,
            entries.len() as int,
            first.nodes[z].path,
        ) && tree.nodes[z].meta == NodeMeta::Deleted implies (
    #[trigger] outcome.tree.nodes[z]).meta == NodeMeta::Deleted by {
        assert(tree.nodes[z].path == first.nodes[z].path);
        assert(entries[k].path != first.nodes[z].path);
        assert(outcome.node != Some(z));
    }
    lemma_settled_later(first, tree, outcome.tree, entries, k, k + 1, before.events);
    lemma_settled_sum(first, outcome.tree, entries, k + 1, before.events, outcome.events);
    match outcome.node {
        None => {},
        Some(i) => {
            let visited = with_visited(outcome.tree, i);
            let left = leave(visited, stack, entry.depth);
            lemma_visit_followed(
                first,
                tree,
                stack,
                d,
                root,
                recursive,
                entries,
                k,
                outcome,
                i,
            );
            lemma_frames_are_nodes(visited, stack, d, root, recursive, entries, k);
            lemma_leave(visited, stack, entry.depth);
            lemma_leave_followed(
                first,
                visited,
                stack,
                entry.depth,
                d,
                root,
                recursive,
                entries,
                k + 1,
                k,
            );
            lemma_leave_reports_once(
                first,
                visited,
                stack,
                entry.depth,
                d,
                root,
                recursive,
                entries,
                k + 1,
                k,
            );
            lemma_settled_later(first, outcome.tree, visited, entries, k + 1, k + 1, reported);
            lemma_different_files(first, visited, entries, k + 1, reported, left.events);
            lemma_settled_later(first, visited, left.tree, entries, k + 1, k + 1, reported);
            lemma_settled_sum(first, left.tree, entries, k + 1, reported, left.events);
            assert(after.events =~= reported + left.events);
            lemma_settled_later(
                first,
                left.tree,
                after.tree,
                entries,
                k + 1,
                k + 1,
                after.events,
            );
        },
    }
}

/// Settled events and settled events are settled.
proof fn lemma_settled_sum(
    first: TreeView,
    tree: TreeView,
    entries: Seq<Entry>,
    k: int,
    a: Seq<EventView>,
    b: Seq<EventView>,
)
    requires
        are_settled(first, tree, entries, k, a),
        are_settled(first, tree, entries, k, b),
    ensures
        are_settled(first, tree, entries, k, a + b),
{
    assert forall|i: int| 0 <= i < (a + b).len() implies is_settled(
        first,
        tree,
        entries,
        k,
        (#[trigger] (a + b)[i]).path,
    ) by {
        if i < a.len() {
            assert((a + b)[i] == a[i]);
        } else {
            assert((a + b)[i] == b[i - a.len()]);
        }
    }
}

/// The first `k` entries on the way report no file twice.
proof fn lemma_walk_reports_once(
    tree: TreeView,
    d: int,
    recursive: bool,
    entries: Seq<Entry>,
    states: Seq<Walked>,
    k: int,
)
    requires
        tree.wf(),
        0 <= d < tree.nodes.len(),
        is_walk(tree.nodes[d].path, recursive, entries),
        tree.nodes.len() + entries.len() <= id_limit(),
        tree.dirs.len() + 2 * entries.len() <= id_limit(),
        is_walked(
            entered(tree, d),
            stacked(tree, Seq::empty(), d, 0),
            recursive,
            entries,
            states,
        ),
        0 <= k <= entries.len(),
    ensures
        are_of_different_files(states[k].events),
        are_settled(tree, states[k].tree, entries, k, states[k].events),
    decreases k,
{
    if k > 0 {
        lemma_walk_reports_once(tree, d, recursive, entries, states, k - 1);
        lemma_walk_on_the_way(tree, d, recursive, entries, states, k - 1);
        lemma_walk_followed(tree, d, recursive, entries, states, k - 1);
        assert(is_walk_step(states[k - 1], recursive, entries[k - 1], states[k - 1 + 1]));
        lemma_step_reports_once(
            tree,
            states[k - 1],
            d,
            tree.nodes[d].path,
            recursive,
            entries,
            k - 1,
            states[k],
        );
    }
}

/// A crawl reports no file twice.
pub proof fn law_crawl_reports_no_file_twice(
    tree: TreeView,
    d: int,
    recursive: bool,
    entries: Seq<Entry>,
    states: Seq<Walked>,
)
    requires
        tree.wf(),
        0 <= d < tree.nodes.len(),
        is_walk(tree.nodes[d].path, recursive, entries),
        tree.nodes.len() + entries.len() <= id_limit(),
        tree.dirs.len() + 2 * entries.len() <= id_limit(),
        is_walked(
            entered(tree, d),
            stacked(tree, Seq::empty(), d, 0),
            recursive,
            entries,
            states,
        ),
    ensures
        are_of_different_files(
            states.last().events + leave(states.last().tree, states.last().stack, 0).events,
        ),
{
    let n = entries.len() as int;
    let root = tree.nodes[d].path;
    let last = states[n];
    lemma_walk_reports_once(tree, d, recursive, entries, states, n);
    lemma_walk_on_the_way(tree, d, recursive, entries, states, n);
    lemma_walk_followed(tree, d, recursive, entries, states, n);
    lemma_leave_reports_once(
        tree,
        last.tree,
        last.stack,
        0,
        d,
        root,
        recursive,
        entries,
        n,
        n,
    );
    lemma_different_files(
        tree,
        last.tree,
        entries,
        n,
        last.events,
        leave(last.tree, last.stack, 0).events,
    );
}

} // verus!
