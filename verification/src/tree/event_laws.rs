//! Which events are reported: every change of a file, and nothing else.

use super::crawl_laws::{is_walk_step, is_walked, Entry, Walked};
use super::laws::{
    beneath, known_meta, law_delete_marks_exactly_what_is_beneath,
    law_delete_reports_exactly_the_files, law_delete_reports_no_file_twice, lemma_start_is_marked,
};
use super::lemmas::{
    differ_in_metas, keeps_paths, lemma_applied, lemma_applied_wf, lemma_children_valid,
    lemma_delete_beneath_shape, lemma_kept_bound, lemma_leave, lemma_same_shape, lemma_sweep,
};
use super::model::{
    crawl_change, crawl_visit, delete_beneath, deletion, is_applied, is_crawled, leave, sweep,
    CrawlStack, Crawled, Outcome, TreeView,
};
use super::{meta_change, Flags, NodeMeta, NodeView};
use crate::events::EventView;
use crate::metadata::Metadata;
use crate::path::is_stored;
use crate::pending::ChangeView;
use crate::table::id_limit;
use vstd::prelude::*;

verus! {

/// The event is what happened to the file of node `j` from one tree to the other: it turned up, it
/// is gone, or it looks different or has another inode.
pub open spec fn is_change_of(before: TreeView, after: TreeView, j: int, event: EventView) -> bool {
    &&& 0 <= j < after.nodes.len()
    &&& event.path == after.nodes[j].path
    &&& meta_change(
        known_meta(before, j),
        known_meta(after, j),
        j < before.nodes.len() && before.nodes[j].inode != after.nodes[j].inode,
    ) == Some(event.ty)
}

/// The event is what happened to a file from one tree to the other.
pub open spec fn is_change(before: TreeView, after: TreeView, event: EventView) -> bool {
    exists|j: int| is_change_of(before, after, j, event)
}

/// Nodes are only marked as deleted, and the events are the deletions of the files among them, each
/// once.
pub open spec fn only_deletes(before: TreeView, after: TreeView, events: Seq<EventView>) -> bool {
    &&& differ_in_metas(after, before)
    &&& events.no_duplicates()
    &&& forall|j: int|
        0 <= j < before.nodes.len() ==> (#[trigger] after.nodes[j]).meta == before.nodes[j].meta
            || after.nodes[j].meta == NodeMeta::Deleted
    &&& forall|event: EventView| #[trigger]
        events.contains(event) <==> exists|j: int|
            0 <= j < before.nodes.len() && before.nodes[j].meta is File && after.nodes[j].meta
                == NodeMeta::Deleted && event == #[trigger] before.delete_event(j)
}

/// One deletion after the other is a deletion.
proof fn lemma_deletes_compose(
    a: TreeView,
    b: TreeView,
    c: TreeView,
    first: Seq<EventView>,
    rest: Seq<EventView>,
)
    requires
        a.paths_distinct(),
        only_deletes(a, b, first),
        only_deletes(b, c, rest),
    ensures
        only_deletes(a, c, first + rest),
{
    let events = first + rest;
    assert forall|j: int| 0 <= j < a.nodes.len() implies #[trigger] b.delete_event(j)
        == a.delete_event(j) by {
        assert(b.nodes[j].path == a.nodes[j].path);
    }
    assert forall|x: int, y: int| 0 <= x < y < events.len() implies events[x] != events[y] by {
        let n = first.len();
        if y < n {
            assert(events[x] == first[x] && events[y] == first[y]);
        } else if x >= n {
            assert(events[x] == rest[x - n] && events[y] == rest[y - n]);
        } else {
            assert(events[x] == first[x] && events[y] == rest[y - n]);
            assert(first.contains(first[x]));
            assert(rest.contains(rest[y - n]));
            let i = choose|i: int|
                0 <= i < a.nodes.len() && a.nodes[i].meta is File && b.nodes[i].meta
                    == NodeMeta::Deleted && first[x] == #[trigger] a.delete_event(i);
            let j = choose|j: int|
                0 <= j < b.nodes.len() && b.nodes[j].meta is File && c.nodes[j].meta
                    == NodeMeta::Deleted && rest[y - n] == #[trigger] b.delete_event(j);
            assert(i != j);
            assert(a.nodes[i].path != a.nodes[j].path);
            assert(b.delete_event(j) == a.delete_event(j));
        }
    }
    assert forall|j: int| 0 <= j < a.nodes.len() implies #[trigger] c.nodes[j] == (NodeView {
        meta: c.nodes[j].meta,
        ..a.nodes[j]
    }) by {
        assert(b.nodes[j] == (NodeView { meta: b.nodes[j].meta, ..a.nodes[j] }));
    }
    assert forall|event: EventView| #[trigger] events.contains(event) <==> exists|j: int|
        0 <= j < a.nodes.len() && a.nodes[j].meta is File && c.nodes[j].meta == NodeMeta::Deleted
            && event == #[trigger] a.delete_event(j) by {
        if events.contains(event) {
            let k = choose|k: int| 0 <= k < events.len() && events[k] == event;
            if k < first.len() {
                assert(first[k] == event);
                assert(first.contains(event));
                let j = choose|j: int|
                    0 <= j < a.nodes.len() && a.nodes[j].meta is File && b.nodes[j].meta
                        == NodeMeta::Deleted && event == #[trigger] a.delete_event(j);
                assert(c.nodes[j].meta == b.nodes[j].meta || c.nodes[j].meta == NodeMeta::Deleted);
                assert(event == a.delete_event(j));
            } else {
                assert(rest[k - first.len()] == event);
                assert(rest.contains(event));
                let j = choose|j: int|
                    0 <= j < b.nodes.len() && b.nodes[j].meta is File && c.nodes[j].meta
                        == NodeMeta::Deleted && event == #[trigger] b.delete_event(j);
                assert(b.nodes[j].meta == a.nodes[j].meta || b.nodes[j].meta == NodeMeta::Deleted);
                assert(event == a.delete_event(j));
            }
        }
        if exists|j: int|
            0 <= j < a.nodes.len() && a.nodes[j].meta is File && c.nodes[j].meta
                == NodeMeta::Deleted && event == #[trigger] a.delete_event(j) {
            let j = choose|j: int|
                0 <= j < a.nodes.len() && a.nodes[j].meta is File && c.nodes[j].meta
                    == NodeMeta::Deleted && event == #[trigger] a.delete_event(j);
            if b.nodes[j].meta == NodeMeta::Deleted {
                assert(first.contains(event));
                let k = choose|k: int| 0 <= k < first.len() && first[k] == event;
                assert(events[k] == event);
            } else {
                assert(b.nodes[j].meta == a.nodes[j].meta);
                assert(event == b.delete_event(j));
                assert(rest.contains(event));
                let k = choose|k: int| 0 <= k < rest.len() && rest[k] == event;
                assert(events[first.len() + k] == event);
            }
        }
    }
}

/// Doing nothing deletes nothing.
proof fn lemma_nothing_deletes(tree: TreeView)
    ensures
        only_deletes(tree, tree, Seq::empty()),
{
    let none = Seq::<EventView>::empty();
    assert forall|event: EventView| #[trigger] none.contains(event) implies false by {}
}

/// Deleting what is beneath a node that is deleted itself is a deletion.
proof fn lemma_delete_beneath_deletes(tree: TreeView, i: int)
    requires
        tree.wf(),
        0 <= i < tree.nodes.len(),
        tree.nodes[i].meta == NodeMeta::Deleted,
    ensures
        only_deletes(tree, delete_beneath(tree, i).tree, delete_beneath(tree, i).events),
{
    let after = delete_beneath(tree, i).tree;
    let events = delete_beneath(tree, i).events;
    lemma_delete_beneath_shape(tree, i);
    law_delete_reports_no_file_twice(tree, i);
    lemma_start_is_marked(tree, i);
    assert forall|j: int| 0 <= j < tree.nodes.len() implies (#[trigger] after.nodes[j]).meta
        == tree.nodes[j].meta || after.nodes[j].meta == NodeMeta::Deleted by {
        if j != i {
            law_delete_marks_exactly_what_is_beneath(tree, i, j);
        }
    }
    assert forall|event: EventView| #[trigger] events.contains(event) <==> exists|j: int|
        0 <= j < tree.nodes.len() && tree.nodes[j].meta is File && after.nodes[j].meta
            == NodeMeta::Deleted && event == #[trigger] tree.delete_event(j) by {
        law_delete_reports_exactly_the_files(tree, i, event);
        if events.contains(event) {
            let j = choose|j: int|
                0 <= j < tree.nodes.len() && #[trigger] beneath(tree, i, j) && tree.nodes[j].meta
                    is File && event == tree.delete_event(j);
            law_delete_marks_exactly_what_is_beneath(tree, i, j);
            assert(event == tree.delete_event(j));
        }
        if exists|j: int|
            0 <= j < tree.nodes.len() && tree.nodes[j].meta is File && after.nodes[j].meta
                == NodeMeta::Deleted && event == #[trigger] tree.delete_event(j) {
            let j = choose|j: int|
                0 <= j < tree.nodes.len() && tree.nodes[j].meta is File && after.nodes[j].meta
                    == NodeMeta::Deleted && event == #[trigger] tree.delete_event(j);
            law_delete_marks_exactly_what_is_beneath(tree, i, j);
            assert(beneath(tree, i, j));
        }
    }
}

/// Marking a node as deleted, with the event of a file, is a deletion.
proof fn lemma_mark_deletes(tree: TreeView, i: int)
    requires
        0 <= i < tree.nodes.len(),
    ensures
        only_deletes(tree, tree.with_meta(i, NodeMeta::Deleted), deletion(tree, i)),
{
    let after = tree.with_meta(i, NodeMeta::Deleted);
    let events = deletion(tree, i);
    assert forall|event: EventView| #[trigger] events.contains(event) <==> exists|j: int|
        0 <= j < tree.nodes.len() && tree.nodes[j].meta is File && after.nodes[j].meta
            == NodeMeta::Deleted && event == #[trigger] tree.delete_event(j) by {
        if tree.nodes[i].meta is File {
            assert(events[0] == tree.delete_event(i));
            assert(after.nodes[i].meta == NodeMeta::Deleted);
        }
    }
}

/// A sweep is a deletion.
pub proof fn lemma_sweep_deletes(tree: TreeView, list: Seq<u32>, k: int)
    requires
        tree.wf(),
        0 <= k <= list.len(),
        forall|l: int| 0 <= l < list.len() ==> #[trigger] list[l] < tree.nodes.len(),
    ensures
        only_deletes(tree, sweep(tree, list, k).tree, sweep(tree, list, k).events),
    decreases list.len() - k,
{
    if k < list.len() {
        let c = list[k] as int;
        if tree.nodes[c].flags.maybe_deleted {
            let marked = tree.with_meta(c, NodeMeta::Deleted);
            let below = delete_beneath(marked, c);
            let rest = sweep(below.tree, list, k + 1);
            lemma_same_shape(tree, marked);
            lemma_delete_beneath_shape(marked, c);
            lemma_same_shape(marked, below.tree);
            lemma_mark_deletes(tree, c);
            lemma_delete_beneath_deletes(marked, c);
            lemma_sweep_deletes(below.tree, list, k + 1);
            lemma_deletes_compose(tree, marked, below.tree, deletion(tree, c), below.events);
            lemma_deletes_compose(
                tree,
                below.tree,
                rest.tree,
                deletion(tree, c) + below.events,
                rest.events,
            );
        } else {
            lemma_sweep_deletes(tree, list, k + 1);
        }
    } else {
        lemma_nothing_deletes(tree);
    }
}

/// Leaving directories is a deletion.
proof fn lemma_leave_deletes(tree: TreeView, stack: CrawlStack, depth: int)
    requires
        tree.wf(),
        forall|j: int| 0 <= j < stack.len() ==> 0 <= (#[trigger] stack[j]).0 < tree.nodes.len(),
    ensures
        only_deletes(tree, leave(tree, stack, depth).tree, leave(tree, stack, depth).events),
    decreases stack.len(),
{
    if stack.len() > 0 && stack.last().1 >= depth {
        let i = stack.last().0;
        let list = tree.children_of(i);
        let swept = sweep(tree, list, 0);
        let rest = leave(swept.tree, stack.drop_last(), depth);
        lemma_children_valid(tree, i);
        lemma_sweep(tree, list, 0);
        lemma_sweep_deletes(tree, list, 0);
        lemma_leave_deletes(swept.tree, stack.drop_last(), depth);
        lemma_deletes_compose(tree, swept.tree, rest.tree, swept.events, rest.events);
    } else {
        lemma_nothing_deletes(tree);
    }
}

/// A deletion reports what happened to files.
proof fn lemma_deletes_report(
    before: TreeView,
    after: TreeView,
    events: Seq<EventView>,
    event: EventView,
)
    requires
        only_deletes(before, after, events),
    ensures
        events.contains(event) <==> is_change(before, after, event),
{
    assert forall|j: int| 0 <= j < before.nodes.len() implies #[trigger] after.nodes[j].path
        == before.nodes[j].path && after.nodes[j].inode == before.nodes[j].inode by {}
    if events.contains(event) {
        let j = choose|j: int|
            0 <= j < before.nodes.len() && before.nodes[j].meta is File && after.nodes[j].meta
                == NodeMeta::Deleted && event == #[trigger] before.delete_event(j);
        assert(is_change_of(before, after, j, event));
    }
    if is_change(before, after, event) {
        let j = choose|j: int| is_change_of(before, after, j, event);
        assert(after.nodes[j].meta == before.nodes[j].meta || after.nodes[j].meta
            == NodeMeta::Deleted);
        assert(event == before.delete_event(j));
    }
}

/// Applying a change that no watcher vouches for reports what happened to files, and nothing else.
pub proof fn law_change_reports_exactly_what_happened(
    tree: TreeView,
    change: ChangeView,
    meta: Option<Metadata>,
    outcome: Outcome,
    event: EventView,
)
    requires
        tree.wf(),
        !change.flags.origin_watcher,
        is_applied(tree, change, meta, outcome),
    ensures
        outcome.events.contains(event) <==> is_change(tree, outcome.tree, event),
{
    lemma_applied(tree, change, meta, outcome);
    match tree.find(change.path) {
        Some(i) => {
            assert(tree.is_at(i, change.path));
            let node = tree.nodes[i];
            let flags = if change.flags.mark_recursive {
                node.flags.marked_recursive()
            } else {
                node.flags
            };
            if meta is None && node.meta == NodeMeta::Dir {
                let gone = tree.with_node(i, NodeView { flags, meta: NodeMeta::Deleted, ..node });
                lemma_same_shape(tree, gone);
                lemma_delete_beneath_deletes(gone, i);
                lemma_deletes_report(gone, outcome.tree, outcome.events, event);
                assert forall|j: int| is_change_of(tree, outcome.tree, j, event) <==> is_change_of(
                    gone,
                    outcome.tree,
                    j,
                    event,
                ) by {
                    if 0 <= j < outcome.tree.nodes.len() && j != i {
                        assert(gone.nodes[j] == tree.nodes[j]);
                    }
                    if j == i {
                        assert(outcome.tree.nodes[i].meta == NodeMeta::Deleted);
                    }
                }
                if is_change(tree, outcome.tree, event) {
                    let j = choose|j: int| is_change_of(tree, outcome.tree, j, event);
                    assert(is_change_of(gone, outcome.tree, j, event));
                }
                if is_change(gone, outcome.tree, event) {
                    let j = choose|j: int| is_change_of(gone, outcome.tree, j, event);
                    assert(is_change_of(tree, outcome.tree, j, event));
                }
            } else {
                assert forall|j: int| 0 <= j < tree.nodes.len() && j != i implies (
                #[trigger] outcome.tree.nodes[j]).meta == tree.nodes[j].meta
                    && outcome.tree.nodes[j].inode == tree.nodes[j].inode by {}
                if outcome.events.contains(event) {
                    assert(outcome.events[0] == event);
                    assert(is_change_of(tree, outcome.tree, i, event));
                }
                if is_change(tree, outcome.tree, event) {
                    let j = choose|j: int| is_change_of(tree, outcome.tree, j, event);
                    assert(j == i);
                    assert(outcome.events[0] == event);
                }
            }
        },
        None => {
            let n = tree.nodes.len() as int;
            assert forall|j: int| 0 <= j < n implies (#[trigger] outcome.tree.nodes[j]).meta
                == tree.nodes[j].meta && outcome.tree.nodes[j].inode == tree.nodes[j].inode by {}
            if outcome.events.contains(event) {
                assert(outcome.events[0] == event);
                assert(is_change_of(tree, outcome.tree, n, event));
            }
            if is_change(tree, outcome.tree, event) {
                let j = choose|j: int| is_change_of(tree, outcome.tree, j, event);
                assert(j == n);
                assert(outcome.events[0] == event);
            }
        },
    }
}

/// A sweep reports no file twice.
pub proof fn law_sweep_reports_no_file_twice(tree: TreeView, list: Seq<u32>)
    requires
        tree.wf(),
        forall|l: int| 0 <= l < list.len() ==> #[trigger] list[l] < tree.nodes.len(),
    ensures
        sweep(tree, list, 0).events.no_duplicates(),
{
    lemma_sweep_deletes(tree, list, 0);
}

/// Leaving directories reports what happened to files, and nothing else, and no file twice.
pub proof fn law_leaving_reports_exactly_what_happened(
    tree: TreeView,
    stack: CrawlStack,
    depth: int,
    event: EventView,
)
    requires
        tree.wf(),
        forall|j: int| 0 <= j < stack.len() ==> 0 <= (#[trigger] stack[j]).0 < tree.nodes.len(),
    ensures
        leave(tree, stack, depth).events.contains(event) <==> is_change(
            tree,
            leave(tree, stack, depth).tree,
            event,
        ),
        leave(tree, stack, depth).events.no_duplicates(),
{
    let left = leave(tree, stack, depth);
    lemma_leave_deletes(tree, stack, depth);
    lemma_deletes_report(tree, left.tree, left.events, event);
}

/// The event is what happened to a file when a crawl got from one state to another by an entry of
/// the walk: when the entry was looked at, or when directories were left on the way to it.
pub open spec fn is_change_in_step(
    before: Walked,
    recursive: bool,
    entry: Entry,
    after: Walked,
    event: EventView,
) -> bool {
    exists|outcome: Outcome|
        {
            &&& #[trigger] is_applied(
                before.tree,
                crawl_change(entry.path, recursive),
                entry.meta,
                outcome,
            )
            &&& is_result_of(before, recursive, entry, outcome, after)
            &&& is_change(before.tree, outcome.tree, event) || is_change(
                outcome.tree,
                after.tree,
                event,
            )
        }
}

/// The state is what a crawl makes of an entry once `outcome` is known of it.
pub open spec fn is_result_of(
    before: Walked,
    recursive: bool,
    entry: Entry,
    outcome: Outcome,
    after: Walked,
) -> bool {
    let step = crawl_visit(outcome, before.stack, recursive, entry.depth);
    after == (Walked {
        tree: step.tree,
        stack: step.stack,
        events: before.events + step.events,
    })
}

/// The state of a crawl can be gone on from.
pub open spec fn is_crawl_state(state: Walked) -> bool {
    &&& state.tree.wf()
    &&& forall|j: int|
        0 <= j < state.stack.len() ==> 0 <= (#[trigger] state.stack[j]).0 < state.tree.nodes.len()
}

/// What a step adds to the events, given what was made of the entry.
pub proof fn lemma_step_reports(
    before: Walked,
    recursive: bool,
    entry: Entry,
    outcome: Outcome,
    after: Walked,
    event: EventView,
)
    requires
        is_crawl_state(before),
        before.tree.has_room(),
        is_stored(entry.path),
        is_applied(before.tree, crawl_change(entry.path, recursive), entry.meta, outcome),
        is_result_of(before, recursive, entry, outcome, after),
    ensures
        is_crawl_state(after),
        after.events.contains(event) <==> before.events.contains(event) || is_change(
            before.tree,
            outcome.tree,
            event,
        ) || is_change(outcome.tree, after.tree, event),
        after.tree.nodes.len() <= before.tree.nodes.len() + 1,
        after.tree.dirs.len() <= before.tree.dirs.len() + 2,
        after.tree.nodes.len() == outcome.tree.nodes.len(),
        keeps_paths(before.tree, after.tree),
{
    let change = crawl_change(entry.path, recursive);
    let step = crawl_visit(outcome, before.stack, recursive, entry.depth);
    lemma_applied(before.tree, change, entry.meta, outcome);
    lemma_applied_wf(before.tree, change, entry.meta, outcome);
    law_change_reports_exactly_what_happened(before.tree, change, entry.meta, outcome, event);
    lemma_contains_sum(before.events, step.events, event);
    match outcome.node {
        None => {
            if is_change(outcome.tree, after.tree, event) {
                let j = choose|j: int| is_change_of(outcome.tree, after.tree, j, event);
                assert(known_meta(outcome.tree, j) == known_meta(after.tree, j));
            }
        },
        Some(i) => {
            let visited = outcome.tree.with_flags(
                i,
                Flags { maybe_deleted: false, ..outcome.tree.nodes[i].flags },
            );
            let left = leave(visited, before.stack, entry.depth);
            lemma_same_shape(outcome.tree, visited);
            lemma_leave(visited, before.stack, entry.depth);
            lemma_same_shape(visited, left.tree);
            lemma_same_shape(left.tree, after.tree);
            law_leaving_reports_exactly_what_happened(visited, before.stack, entry.depth, event);
            lemma_contains_sum(outcome.events, left.events, event);
            lemma_kept_bound(before.stack, entry.depth);
            assert forall|j: int| 0 <= j < after.tree.nodes.len() implies {
                &&& (#[trigger] after.tree.nodes[j]).meta == left.tree.nodes[j].meta
                &&& after.tree.nodes[j].inode == left.tree.nodes[j].inode
                &&& after.tree.nodes[j].path == left.tree.nodes[j].path
                &&& outcome.tree.nodes[j].meta == visited.nodes[j].meta
                &&& outcome.tree.nodes[j].inode == visited.nodes[j].inode
            } by {}
            if is_change(outcome.tree, after.tree, event) {
                let j = choose|j: int| is_change_of(outcome.tree, after.tree, j, event);
                assert(is_change_of(visited, left.tree, j, event));
            }
            if is_change(visited, left.tree, event) {
                let j = choose|j: int| is_change_of(visited, left.tree, j, event);
                assert(is_change_of(outcome.tree, after.tree, j, event));
            }
        },
    }
}

/// What two sequences hold together.
proof fn lemma_contains_sum(a: Seq<EventView>, b: Seq<EventView>, event: EventView)
    ensures
        (a + b).contains(event) <==> a.contains(event) || b.contains(event),
{
    if a.contains(event) {
        let k = choose|k: int| 0 <= k < a.len() && a[k] == event;
        assert((a + b)[k] == event);
    }
    if b.contains(event) {
        let k = choose|k: int| 0 <= k < b.len() && b[k] == event;
        assert((a + b)[a.len() + k] == event);
    }
    if (a + b).contains(event) {
        let k = choose|k: int| 0 <= k < (a + b).len() && (a + b)[k] == event;
        if k < a.len() {
            assert(a[k] == event);
        } else {
            assert(b[k - a.len()] == event);
        }
    }
}

/// What was made of an entry on the way from one state to the next.
pub proof fn lemma_step_outcome(
    before: Walked,
    recursive: bool,
    entry: Entry,
    after: Walked,
) -> (outcome: Outcome)
    requires
        is_walk_step(before, recursive, entry, after),
    ensures
        is_applied(before.tree, crawl_change(entry.path, recursive), entry.meta, outcome),
        is_result_of(before, recursive, entry, outcome, after),
{
    let step = choose|step: Crawled|
        {
            &&& #[trigger] is_crawled(
                before.tree,
                before.stack,
                recursive,
                entry.depth,
                entry.path,
                entry.meta,
                step,
            )
            &&& after == (Walked {
                tree: step.tree,
                stack: step.stack,
                events: before.events + step.events,
            })
        };
    choose|outcome: Outcome| #[trigger]
        is_applied(before.tree, crawl_change(entry.path, recursive), entry.meta, outcome) && step
            == crawl_visit(outcome, before.stack, recursive, entry.depth)
}

/// The paths of the entries of a walk are stored ones.
pub open spec fn entries_stored(entries: Seq<Entry>) -> bool {
    forall|e: int| 0 <= e < entries.len() ==> is_stored((#[trigger] entries[e]).path)
}

/// The state of a crawl after `k` entries, and what was reported by then.
proof fn lemma_walk_reports(
    tree: TreeView,
    stack: CrawlStack,
    recursive: bool,
    entries: Seq<Entry>,
    states: Seq<Walked>,
    k: int,
    event: EventView,
)
    requires
        is_crawl_state(states[0]),
        tree.nodes.len() + entries.len() <= id_limit(),
        tree.dirs.len() + 2 * entries.len() <= id_limit(),
        entries_stored(entries),
        is_walked(tree, stack, recursive, entries, states),
        0 <= k <= entries.len(),
    ensures
        is_crawl_state(states[k]),
        states[k].tree.nodes.len() <= tree.nodes.len() + k,
        states[k].tree.dirs.len() <= tree.dirs.len() + 2 * k,
        keeps_paths(tree, states[k].tree),
        states[k].events.contains(event) <==> exists|i: int|
            0 <= i < k && is_change_in_step(
                states[i],
                recursive,
                #[trigger] entries[i],
                states[i + 1],
                event,
            ),
    decreases k,
{
    if k > 0 {
        let before = states[k - 1];
        let entry = entries[k - 1];
        lemma_walk_reports(tree, stack, recursive, entries, states, k - 1, event);
        assert(is_walk_step(before, recursive, entry, states[k - 1 + 1]));
        let outcome = lemma_step_outcome(before, recursive, entry, states[k]);
        lemma_step_reports(before, recursive, entry, outcome, states[k], event);
        if states[k].events.contains(event) {
            if before.events.contains(event) {
                let i = choose|i: int|
                    0 <= i < k - 1 && is_change_in_step(
                        states[i],
                        recursive,
                        #[trigger] entries[i],
                        states[i + 1],
                        event,
                    );
                assert(is_change_in_step(states[i], recursive, entries[i], states[i + 1], event));
            } else {
                assert(is_change_in_step(
                    states[k - 1],
                    recursive,
                    entries[k - 1],
                    states[k - 1 + 1],
                    event,
                ));
            }
        }
        if exists|i: int|
            0 <= i < k && is_change_in_step(
                states[i],
                recursive,
                #[trigger] entries[i],
                states[i + 1],
                event,
            ) {
            let i = choose|i: int|
                0 <= i < k && is_change_in_step(
                    states[i],
                    recursive,
                    #[trigger] entries[i],
                    states[i + 1],
                    event,
                );
            if i == k - 1 {
                let other = choose|other: Outcome|
                    {
                        &&& #[trigger] is_applied(
                            before.tree,
                            crawl_change(entry.path, recursive),
                            entry.meta,
                            other,
                        )
                        &&& is_result_of(before, recursive, entry, other, states[k])
                        &&& is_change(before.tree, other.tree, event) || is_change(
                            other.tree,
                            states[k].tree,
                            event,
                        )
                    };
                lemma_step_reports(before, recursive, entry, other, states[k], event);
            } else {
                assert(is_change_in_step(states[i], recursive, entries[i], states[i + 1], event));
            }
        }
    } else {
        assert(states[0].events.len() == 0);
        assert(keeps_paths(tree, states[0].tree));
    }
}

/// A crawl reports every change of a file that it comes by, and nothing else: an event is reported
/// if and only if it is what happened to a file when an entry was looked at, or when directories
/// were left.
pub proof fn law_crawl_reports_exactly_what_happened(
    tree: TreeView,
    stack: CrawlStack,
    recursive: bool,
    entries: Seq<Entry>,
    states: Seq<Walked>,
    event: EventView,
)
    requires
        tree.wf(),
        forall|j: int| 0 <= j < stack.len() ==> 0 <= (#[trigger] stack[j]).0 < tree.nodes.len(),
        tree.nodes.len() + entries.len() <= id_limit(),
        tree.dirs.len() + 2 * entries.len() <= id_limit(),
        entries_stored(entries),
        is_walked(tree, stack, recursive, entries, states),
    ensures
        ({
            let left = leave(states.last().tree, states.last().stack, 0);
            (states.last().events + left.events).contains(event) <==> is_change(
                states.last().tree,
                left.tree,
                event,
            ) || exists|i: int|
                0 <= i < entries.len() && is_change_in_step(
                    states[i],
                    recursive,
                    #[trigger] entries[i],
                    states[i + 1],
                    event,
                )
        }),
{
    let n = entries.len() as int;
    let left = leave(states[n].tree, states[n].stack, 0);
    lemma_walk_reports(tree, stack, recursive, entries, states, n, event);
    law_leaving_reports_exactly_what_happened(states[n].tree, states[n].stack, 0, event);
    lemma_contains_sum(states[n].events, left.events, event);
}

/// Something is reported for this path.
pub open spec fn is_reported(events: Seq<EventView>, path: Seq<u8>) -> bool {
    exists|event: EventView| #[trigger] events.contains(event) && event.path == path
}

/// What is known of a file is the same, or it is no file either way.
spec fn is_same_file(a: NodeMeta, b: NodeMeta) -> bool {
    a == b || (!(a is File) && !(b is File))
}

/// What is known of a file for whose path nothing was reported after `k` entries.
proof fn lemma_unreported(
    tree: TreeView,
    stack: CrawlStack,
    recursive: bool,
    entries: Seq<Entry>,
    states: Seq<Walked>,
    k: int,
    j: int,
    path: Seq<u8>,
)
    requires
        is_crawl_state(states[0]),
        tree.nodes.len() + entries.len() <= id_limit(),
        tree.dirs.len() + 2 * entries.len() <= id_limit(),
        entries_stored(entries),
        is_walked(tree, stack, recursive, entries, states),
        0 <= k <= entries.len(),
        0 <= j,
        j < states[k].tree.nodes.len() ==> states[k].tree.nodes[j].path == path,
        !is_reported(states[k].events, path),
    ensures
        is_same_file(known_meta(tree, j), known_meta(states[k].tree, j)),
    decreases k,
{
    if k > 0 {
        let before = states[k - 1];
        let after = states[k];
        let entry = entries[k - 1];
        let any = EventView { path, ty: crate::events::EventType::Create };
        lemma_walk_reports(tree, stack, recursive, entries, states, k - 1, any);
        assert(is_walk_step(before, recursive, entry, states[k - 1 + 1]));
        let outcome = lemma_step_outcome(before, recursive, entry, after);
        lemma_step_reports(before, recursive, entry, outcome, after, any);
        lemma_applied(
            before.tree,
            crawl_change(entry.path, recursive),
            entry.meta,
            outcome,
        );
        assert(!is_reported(before.events, path)) by {
            if is_reported(before.events, path) {
                let event = choose|event: EventView| #[trigger]
                    before.events.contains(event) && event.path == path;
                lemma_step_reports(before, recursive, entry, outcome, after, event);
            }
        }
        if j < after.tree.nodes.len() {
            if j < before.tree.nodes.len() {
                assert(after.tree.nodes[j].path == before.tree.nodes[j].path);
            }
            lemma_step_keeps_path(before, recursive, entry, outcome, after, j);
            lemma_unchanged(before, recursive, entry, outcome, after, before.tree, outcome.tree, j);
            lemma_unchanged(before, recursive, entry, outcome, after, outcome.tree, after.tree, j);
        }
        lemma_unreported(tree, stack, recursive, entries, states, k - 1, j, path);
    }
}

/// A node has the same path once an entry was looked at and after the step.
proof fn lemma_step_keeps_path(
    before: Walked,
    recursive: bool,
    entry: Entry,
    outcome: Outcome,
    after: Walked,
    j: int,
)
    requires
        is_crawl_state(before),
        before.tree.has_room(),
        is_stored(entry.path),
        is_applied(before.tree, crawl_change(entry.path, recursive), entry.meta, outcome),
        is_result_of(before, recursive, entry, outcome, after),
        0 <= j < after.tree.nodes.len(),
    ensures
        j < outcome.tree.nodes.len(),
        outcome.tree.nodes[j].path == after.tree.nodes[j].path,
{
    let change = crawl_change(entry.path, recursive);
    lemma_applied(before.tree, change, entry.meta, outcome);
    lemma_applied_wf(before.tree, change, entry.meta, outcome);
    if let Some(i) = outcome.node {
        let visited = outcome.tree.with_flags(
            i,
            Flags { maybe_deleted: false, ..outcome.tree.nodes[i].flags },
        );
        lemma_same_shape(outcome.tree, visited);
        lemma_leave(visited, before.stack, entry.depth);
        let left = leave(visited, before.stack, entry.depth).tree;
        assert(left.nodes[j].path == visited.nodes[j].path);
    }
}

/// Where nothing is reported for the path of a node, what is known of its file stays the same from
/// one tree to the other.
proof fn lemma_unchanged(
    before: Walked,
    recursive: bool,
    entry: Entry,
    outcome: Outcome,
    after: Walked,
    a: TreeView,
    b: TreeView,
    j: int,
)
    requires
        is_crawl_state(before),
        before.tree.has_room(),
        is_stored(entry.path),
        is_applied(before.tree, crawl_change(entry.path, recursive), entry.meta, outcome),
        is_result_of(before, recursive, entry, outcome, after),
        (a, b) == (before.tree, outcome.tree) || (a, b) == (outcome.tree, after.tree),
        0 <= j < b.nodes.len(),
        !is_reported(after.events, b.nodes[j].path),
    ensures
        is_same_file(known_meta(a, j), known_meta(b, j)),
{
    let replaced = j < a.nodes.len() && a.nodes[j].inode != b.nodes[j].inode;
    let ty = meta_change(known_meta(a, j), known_meta(b, j), replaced);
    if ty is Some {
        let event = EventView { path: b.nodes[j].path, ty: ty->0 };
        assert(is_change_of(a, b, j, event));
        lemma_step_reports(before, recursive, entry, outcome, after, event);
        assert(after.events.contains(event));
    }
}

/// Whenever what is known of a file is another after a crawl than before it, something was reported
/// for its path.
pub proof fn law_crawl_reports_every_net_change(
    tree: TreeView,
    stack: CrawlStack,
    recursive: bool,
    entries: Seq<Entry>,
    states: Seq<Walked>,
    j: int,
)
    requires
        tree.wf(),
        forall|l: int| 0 <= l < stack.len() ==> 0 <= (#[trigger] stack[l]).0 < tree.nodes.len(),
        tree.nodes.len() + entries.len() <= id_limit(),
        tree.dirs.len() + 2 * entries.len() <= id_limit(),
        entries_stored(entries),
        is_walked(tree, stack, recursive, entries, states),
        ({
            let after = leave(states.last().tree, states.last().stack, 0).tree;
            &&& 0 <= j < after.nodes.len()
            &&& known_meta(tree, j) != known_meta(after, j)
            &&& known_meta(tree, j) is File || known_meta(after, j) is File
        }),
    ensures
        ({
            let left = leave(states.last().tree, states.last().stack, 0);
            is_reported(states.last().events + left.events, left.tree.nodes[j].path)
        }),
{
    let n = entries.len() as int;
    let last = states[n];
    let left = leave(last.tree, last.stack, 0);
    let path = left.tree.nodes[j].path;
    let any = EventView { path, ty: crate::events::EventType::Create };
    lemma_walk_reports(tree, stack, recursive, entries, states, n, any);
    lemma_leave(last.tree, last.stack, 0);
    assert(left.tree.nodes[j].path == last.tree.nodes[j].path);
    if !is_reported(last.events, path) {
        lemma_unreported(tree, stack, recursive, entries, states, n, j, path);
        let ty = meta_change(known_meta(last.tree, j), known_meta(left.tree, j), false);
        assert(ty is Some);
        let event = EventView { path, ty: ty->0 };
        assert(is_change_of(last.tree, left.tree, j, event));
        law_leaving_reports_exactly_what_happened(last.tree, last.stack, 0, event);
        lemma_contains_sum(last.events, left.events, event);
        assert((last.events + left.events).contains(event));
    } else {
        let event = choose|event: EventView| #[trigger]
            last.events.contains(event) && event.path == path;
        lemma_contains_sum(last.events, left.events, event);
        assert((last.events + left.events).contains(event));
    }
}

} // verus!
