//! Marking what is beneath a node as deleted.

use super::model::{delete_beneath, delete_children, CrawlStack, TreeView};
use super::{lemmas, FileTree, NodeMeta};
use crate::events::{events_view, Event, EventType, EventView};
use crate::ids::NodeId;
use vstd::prelude::*;

verus! {

/// The part of a work stack above position `start`.
pub open spec fn frames(stack: Seq<(NodeId, usize)>, start: int) -> CrawlStack {
    Seq::new(
        (stack.len() - start) as nat,
        |j: int| (stack[start + j].0@->0, stack[start + j].1 as int),
    )
}

/// Each frame is a node of the tree.
pub open spec fn frames_valid(tree: TreeView, stack: Seq<(NodeId, usize)>, start: int) -> bool {
    forall|j: int|
        start <= j < stack.len() ==> (#[trigger] stack[j]).0@ is Some && 0 <= stack[j].0@->0
            < tree.nodes.len()
}

/// What is left to do for a stack of nodes, each with the position of the next child to look at,
/// the innermost node last.
spec fn unwind(tree: TreeView, metas: Seq<NodeMeta>, stack: CrawlStack) -> (
    Seq<NodeMeta>,
    Seq<EventView>,
)
    decreases stack.len(),
{
    if stack.len() == 0 {
        (metas, Seq::empty())
    } else {
        let (p, k) = stack.last();
        let (below, events) = delete_children(tree, metas, p, k);
        let (rest, more) = unwind(tree, below, stack.drop_last());
        (rest, events + more)
    }
}

/// A bound on the steps that are left for the children of a node from a position on.
spec fn load(tree: TreeView, p: int, k: int) -> nat
    decreases tree.nodes.len() - p, tree.children_of(p).len() - k,
{
    let list = tree.children_of(p);
    if 0 <= p && 0 <= k < list.len() && p < list[k] < tree.nodes.len() {
        2 + load(tree, list[k] as int, 0) + load(tree, p, k + 1)
    } else {
        0
    }
}

/// A bound on the steps that are left for a stack.
spec fn stack_load(tree: TreeView, stack: CrawlStack) -> nat
    decreases stack.len(),
{
    if stack.len() == 0 {
        0
    } else {
        1 + load(tree, stack.last().0, stack.last().1) + stack_load(tree, stack.drop_last())
    }
}

/// Looking at the next child of the innermost node of a stack.
proof fn lemma_unwind_step(tree: TreeView, metas: Seq<NodeMeta>, stack: CrawlStack)
    requires
        tree.wf(),
        metas.len() == tree.nodes.len(),
        stack.len() > 0,
        0 <= stack.last().0 < tree.nodes.len(),
        0 <= stack.last().1 < tree.children_of(stack.last().0).len(),
    ensures
        ({
            let (p, k) = stack.last();
            let c = tree.children_of(p)[k] as int;
            let marked = metas.update(c, NodeMeta::Deleted);
            let next = stack.update(stack.len() - 1, (p, k + 1));
            let deeper = next.push((c, 0));
            &&& p < c < tree.nodes.len()
            &&& stack_load(tree, next) < stack_load(tree, stack)
            &&& stack_load(tree, deeper) < stack_load(tree, stack)
            &&& metas[c] is File ==> {
                &&& unwind(tree, metas, stack).0 == unwind(tree, marked, next).0
                &&& unwind(tree, metas, stack).1 == seq![tree.delete_event(c)] + unwind(
                    tree,
                    marked,
                    next,
                ).1
            }
            &&& metas[c] == NodeMeta::Dir ==> unwind(tree, metas, stack) == unwind(
                tree,
                marked,
                deeper,
            )
            &&& metas[c] == NodeMeta::Dir && tree.nodes[c].children is None ==> unwind(
                tree,
                metas,
                stack,
            ) == unwind(tree, marked, next)
            &&& metas[c] == NodeMeta::Deleted ==> unwind(tree, metas, stack) == unwind(
                tree,
                marked,
                next,
            )
        }),
{
    let (p, k) = stack.last();
    let c = tree.children_of(p)[k] as int;
    let marked = metas.update(c, NodeMeta::Deleted);
    let next = stack.update(stack.len() - 1, (p, k + 1));
    let deeper = next.push((c, 0));
    let d = tree.nodes[p].children->0;
    assert(tree.dirs[d][k] < tree.nodes.len());
    assert(next.drop_last() =~= stack.drop_last());
    assert(deeper.drop_last() =~= next);
    assert(load(tree, p, k) == 2 + load(tree, c, 0) + load(tree, p, k + 1));
    assert(stack_load(tree, deeper) == 1 + load(tree, c, 0) + stack_load(tree, next));
    assert(stack_load(tree, next) == 1 + load(tree, p, k + 1) + stack_load(
        tree,
        stack.drop_last(),
    ));
    let (below, events) = if metas[c] is File {
        (marked, seq![tree.delete_event(c)])
    } else if metas[c] == NodeMeta::Dir {
        delete_children(tree, marked, c, 0)
    } else {
        (marked, Seq::empty())
    };
    let (after, later) = delete_children(tree, below, p, k + 1);
    let (rest, more) = unwind(tree, after, stack.drop_last());
    assert(delete_children(tree, metas, p, k) == (after, events + later));
    assert(unwind(tree, below, next) == (rest, later + more));
    assert(unwind(tree, metas, stack) == (rest, events + later + more));
    assert(events + later + more =~= events + (later + more));
    assert(Seq::<EventView>::empty() + (later + more) =~= later + more);
    if metas[c] == NodeMeta::Dir {
        assert(unwind(tree, marked, deeper) == (rest, events + (later + more)));
    }
}

impl FileTree {
    /// Marks everything beneath a node as deleted, and the node itself if it has a list of
    /// children.
    pub(super) fn delete_rec(
        &mut self,
        id: usize,
        work_stack: &mut Vec<(NodeId, usize)>,
        events: &mut Vec<Event>,
    )
        requires
            old(self).wf(),
            id < old(self)@.nodes.len(),
        ensures
            final(self).wf(),
            final(self)@ == delete_beneath(old(self)@, id as int).tree,
            events_view(final(events)@) == events_view(old(events)@) + delete_beneath(
                old(self)@,
                id as int,
            ).events,
            final(work_stack)@ == old(work_stack)@,
    {
        if self.nodes[id].children.is_none() {
            assert(self@.nodes[id as int] == self.nodes@[id as int]@);
            return;
        }
        let ghost tree = self@;
        self.set_meta(id, NodeMeta::Deleted);
        let start_len = work_stack.len();
        work_stack.push((NodeId::from(id), 0));
        let ghost mut metas = tree.metas().update(id as int, NodeMeta::Deleted);
        let ghost target = delete_children(tree, metas, id as int, 0);
        proof {
            assert(self@ =~= tree.with_metas(metas));
            let one = frames(work_stack@, start_len as int);
            assert(one =~= seq![(id as int, 0int)]);
            assert(one.drop_last() =~= Seq::empty());
            assert(unwind(tree, target.0, one.drop_last()) == (
                target.0,
                Seq::<EventView>::empty(),
            ));
            assert(unwind(tree, metas, one) == (target.0, target.1 + Seq::<EventView>::empty()));
            assert(target.1 + Seq::<EventView>::empty() =~= target.1);
        }
        while work_stack.len() > start_len
            invariant
                self.wf(),
                self@ == tree.with_metas(metas),
                tree.wf(),
                metas.len() == tree.nodes.len(),
                work_stack@.len() >= start_len,
                work_stack@.subrange(0, start_len as int) == old(work_stack)@,
                frames_valid(tree, work_stack@, start_len as int),
                forall|j: int|
                    start_len <= j < work_stack@.len() ==> metas[(
                    #[trigger] work_stack@[j]).0@->0] == NodeMeta::Deleted,
                unwind(tree, metas, frames(work_stack@, start_len as int)).0 == target.0,
                events_view(events@) + unwind(
                    tree,
                    metas,
                    frames(work_stack@, start_len as int),
                ).1 == events_view(old(events)@) + target.1,
            decreases stack_load(tree, frames(work_stack@, start_len as int)),
        {
            let ghost before = frames(work_stack@, start_len as int);
            let ghost emitted = events_view(events@);
            proof {
                lemmas::lemma_same_shape(tree, self@);
            }
            let last = work_stack.len() - 1;
            let (node, child) = work_stack[last];
            let p = node.idx();
            if self.child_count(p) <= child {
                self.set_meta(p, NodeMeta::Deleted);
                work_stack.pop();
                proof {
                    assert(self@ =~= tree.with_metas(metas));
                    assert(frames(work_stack@, start_len as int) =~= before.drop_last());
                    let rest = unwind(tree, metas, before.drop_last());
                    assert(unwind(tree, metas, before) == (
                        rest.0,
                        Seq::<EventView>::empty() + rest.1,
                    ));
                    assert(Seq::<EventView>::empty() + rest.1 =~= rest.1);
                }
                continue;
            }
            let c = self.child_at(p, child);
            work_stack[last] = (node, child + 1);
            if self.nodes[c].meta.is_file() {
                events.push(Event { path: self.nodes[c].path.clone(), ty: EventType::Delete });
            } else if self.nodes[c].meta.is_dir() && self.nodes[c].children.is_some() {
                work_stack.push((NodeId::from(c), 0));
            }
            self.set_meta(c, NodeMeta::Deleted);
            proof {
                lemma_unwind_step(tree, metas, before);
                let next = before.update(before.len() - 1, (p as int, child + 1));
                let after = frames(work_stack@, start_len as int);
                let old_metas = metas;
                metas = metas.update(c as int, NodeMeta::Deleted);
                assert(self@ =~= tree.with_metas(metas));
                if old_metas[c as int] is File {
                    let event = tree.delete_event(c as int);
                    assert(after =~= next);
                    assert(events_view(events@) =~= emitted.push(event));
                    let rest = unwind(tree, metas, next).1;
                    assert(emitted.push(event) + rest =~= emitted + (seq![event] + rest));
                } else if old_metas[c as int] == NodeMeta::Dir && tree.nodes[c as int].children
                    is Some {
                    assert(after =~= next.push((c as int, 0)));
                } else {
                    assert(after =~= next);
                }
            }
        }
    }
}

} // verus!
