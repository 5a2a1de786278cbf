//! Changes that were reported and wait to be looked into.

use crate::path::{is_ancestor, path_stem, precedes, CanonicalPathBuf};
use crate::path_laws::law_descendants_are_contiguous;
use vstd::prelude::*;

verus! {

/// How a reported change is to be looked into.
#[derive(Debug, PartialEq, Eq, Structural, Clone, Copy)]
pub struct Flags {
    /// Everything beneath the path may have changed.
    pub needs_recursive_crawl: bool,
    /// The directory at the path changed, and it is not known what in it.
    pub needs_non_recursive_crawl: bool,
    /// What is at the path is to be watched recursively.
    pub mark_recursive: bool,
    /// The change was reported by the system, not found by a crawl.
    pub origin_watcher: bool,
}

impl Flags {
    /// No flag.
    pub open spec fn none() -> Flags {
        Flags {
            needs_recursive_crawl: false,
            needs_non_recursive_crawl: false,
            mark_recursive: false,
            origin_watcher: false,
        }
    }

    /// Only the flag for a change that may affect everything beneath the path.
    pub open spec fn recursive_crawl() -> Flags {
        Flags { needs_recursive_crawl: true, ..Flags::none() }
    }

    /// Only the flag for a change somewhere in a directory.
    pub open spec fn non_recursive_crawl() -> Flags {
        Flags { needs_non_recursive_crawl: true, ..Flags::none() }
    }

    /// No flag.
    pub fn empty() -> (r: Flags)
        ensures
            r == Flags::none(),
            !r.needs_recursive_crawl && !r.needs_non_recursive_crawl,
            !r.mark_recursive && !r.origin_watcher,
    {
        Flags {
            needs_recursive_crawl: false,
            needs_non_recursive_crawl: false,
            mark_recursive: false,
            origin_watcher: false,
        }
    }

    /// Only the flag for a change that may affect everything beneath the path.
    pub fn needs_recursive_crawl() -> (r: Flags)
        ensures
            r == Flags::recursive_crawl(),
            r.needs_recursive_crawl && !r.needs_non_recursive_crawl,
            !r.mark_recursive && !r.origin_watcher,
    {
        Flags { needs_recursive_crawl: true, ..Flags::empty() }
    }

    /// Only the flag for a change somewhere in a directory.
    pub fn needs_non_recursive_crawl() -> (r: Flags)
        ensures
            r == Flags::non_recursive_crawl(),
            !r.needs_recursive_crawl && r.needs_non_recursive_crawl,
            !r.mark_recursive && !r.origin_watcher,
    {
        Flags { needs_non_recursive_crawl: true, ..Flags::empty() }
    }
}

/// A change that waits to be looked into.
#[derive(Debug)]
pub struct PendingChange {
    pub path: CanonicalPathBuf,
    pub flags: Flags,
}

/// A change, with its path taken as the stored bytes.
pub struct ChangeView {
    pub path: Seq<u8>,
    pub flags: Flags,
}

impl View for PendingChange {
    type V = ChangeView;

    open spec fn view(&self) -> ChangeView {
        ChangeView { path: self.path@, flags: self.flags }
    }
}

/// The changes of a list, in order.
pub open spec fn changes_view(changes: Seq<PendingChange>) -> Seq<ChangeView> {
    changes.map_values(|c: PendingChange| c@)
}

/// The changes are in tree order of their paths.
pub open spec fn in_tree_order(changes: Seq<ChangeView>) -> bool {
    forall|i: int, j: int|
        0 <= i < j < changes.len() ==> !precedes(
            path_stem(#[trigger] changes[j].path),
            path_stem(#[trigger] changes[i].path),
        )
}

/// `slice::sort_unstable_by` on the paths in tree order: the same elements, sorted. Elements with
/// the same path come in any order.
#[verifier::external_body]
fn sort_changes(changes: &mut Vec<PendingChange>)
    ensures
        in_tree_order(changes_view(final(changes)@)),
        final(changes)@.to_multiset() == old(changes)@.to_multiset(),
{
    changes.sort_unstable_by(|a, b| a.path.cmp(&b.path))
}

/// The changes that the system reported since they were last looked into.
#[derive(Debug)]
pub struct PendingChanges {
    changes: Vec<PendingChange>,
    recrawl: bool,
}

impl PendingChanges {
    /// The changes, in the order in which they were reported.
    pub closed spec fn changes(&self) -> Seq<ChangeView> {
        changes_view(self.changes@)
    }

    /// Whether everything is to be crawled anew.
    pub closed spec fn wants_recrawl(&self) -> bool {
        self.recrawl
    }

    /// Records a change that the system reported.
    pub fn add_watcher(&mut self, path: CanonicalPathBuf, flags: Flags)
        ensures
            final(self).changes() == old(self).changes().push(
                ChangeView { path: path@, flags: Flags { origin_watcher: true, ..flags } },
            ),
            final(self).wants_recrawl() == old(self).wants_recrawl(),
    {
        let ghost before = self.changes@;
        self.changes.push(PendingChange { path, flags: Flags { origin_watcher: true, ..flags } });
        proof {
            assert(changes_view(self.changes@) =~= changes_view(before).push(
                self.changes@.last()@,
            ));
        }
    }

    /// Asks for everything to be crawled anew.
    pub fn recrawl(&mut self)
        ensures
            final(self).wants_recrawl(),
            final(self).changes() == old(self).changes(),
    {
        self.recrawl = true;
    }

    /// Whether everything is to be crawled anew. It is asked for no longer.
    pub fn take_recrawl(&mut self) -> (r: bool)
        ensures
            r == old(self).wants_recrawl(),
            !final(self).wants_recrawl(),
            final(self).changes() == old(self).changes(),
    {
        let r = self.recrawl;
        self.recrawl = false;
        r
    }

    /// Whether there is nothing to look into.
    pub fn is_empty(&self) -> (r: bool)
        ensures
            r == (self.changes().len() == 0 && !self.wants_recrawl()),
    {
        self.changes.len() == 0 && !self.recrawl
    }

    /// Moves what was reported over to `target`, behind what is there.
    pub fn take_into(&mut self, target: &mut PendingChanges)
        ensures
            final(target).changes() == old(target).changes() + old(self).changes(),
            final(target).wants_recrawl() == (old(target).wants_recrawl() || old(
                self,
            ).wants_recrawl()),
            final(self).changes() == Seq::<ChangeView>::empty(),
            !final(self).wants_recrawl(),
    {
        let ghost a = target.changes@;
        let ghost b = self.changes@;
        target.changes.append(&mut self.changes);
        if self.recrawl {
            target.recrawl = true;
        }
        self.recrawl = false;
        proof {
            assert(changes_view(target.changes@) =~= changes_view(a) + changes_view(b));
            assert(changes_view(self.changes@) =~= Seq::<ChangeView>::empty());
        }
    }

    /// Hands out the changes in tree order and keeps none.
    pub fn drain(&mut self) -> (r: Transaction)
        ensures
            r.wf(),
            r@.to_multiset() == old(self).changes().to_multiset(),
            final(self).changes() == Seq::<ChangeView>::empty(),
            final(self).wants_recrawl() == old(self).wants_recrawl(),
    {
        let mut changes: Vec<PendingChange> = Vec::new();
        changes.append(&mut self.changes);
        proof {
            assert(changes@ =~= old(self).changes@);
            assert(changes_view(self.changes@) =~= Seq::<ChangeView>::empty());
        }
        sort_changes(&mut changes);
        let r = Transaction { changes, next: 0 };
        proof {
            assert(r@ =~= changes_view(changes@));
            lemma_same_changes(changes@, old(self).changes@);
        }
        r
    }
}

impl Default for PendingChanges {
    fn default() -> (r: Self)
        ensures
            r.changes() == Seq::<ChangeView>::empty(),
            !r.wants_recrawl(),
    {
        let r = PendingChanges { changes: Vec::new(), recrawl: false };
        proof {
            assert(r.changes() =~= Seq::<ChangeView>::empty());
        }
        r
    }
}

/// Lists of the same changes are lists of the same views.
proof fn lemma_same_changes(a: Seq<PendingChange>, b: Seq<PendingChange>)
    requires
        a.to_multiset() == b.to_multiset(),
    ensures
        changes_view(a).to_multiset() == changes_view(b).to_multiset(),
    decreases a.len(),
{
    broadcast use vstd::seq_lib::group_to_multiset_ensures;

    if a.len() == 0 {
        if b.len() > 0 {
            assert(b.contains(b[0]));
            assert(a.to_multiset().count(b[0]) > 0);
            assert(a.contains(b[0]));
        }
        assert(a =~= b);
    } else {
        let x = a.last();
        assert(a.to_multiset().count(x) > 0) by {
            assert(a.contains(x));
        }
        assert(b.contains(x));
        let k = choose|k: int| 0 <= k < b.len() && b[k] == x;
        let a1 = a.drop_last();
        let b1 = b.remove(k);
        assert(a1.push(x) =~= a);
        assert(a1.to_multiset() =~= a.to_multiset().remove(x));
        assert(b1.to_multiset() =~= b.to_multiset().remove(x));
        lemma_same_changes(a1, b1);
        assert(changes_view(a) =~= changes_view(a1).push(x@));
        assert(changes_view(b).remove(k) =~= changes_view(b1));
        assert(changes_view(b)[k] == x@);
        assert(changes_view(a).to_multiset() =~= changes_view(a1).to_multiset().insert(x@));
        assert(changes_view(b1).to_multiset() =~= changes_view(b).to_multiset().remove(x@));
        assert(changes_view(b).contains(x@));
        assert(changes_view(b).to_multiset() =~= changes_view(b1).to_multiset().insert(x@));
    }
}

/// Changes that are looked into one after the other, in tree order.
#[derive(Debug)]
pub struct Transaction {
    changes: Vec<PendingChange>,
    next: usize,
}

impl View for Transaction {
    type V = Seq<ChangeView>;

    /// The changes that are left.
    closed spec fn view(&self) -> Seq<ChangeView> {
        changes_view(self.changes@).skip(self.next as int)
    }
}

/// The changes without those at the front that are beneath `parent`.
pub open spec fn without_beneath(changes: Seq<ChangeView>, parent: Seq<u8>) -> Seq<ChangeView>
    decreases changes.len(),
{
    if changes.len() > 0 && is_ancestor(parent, changes[0].path) {
        without_beneath(changes.skip(1), parent)
    } else {
        changes
    }
}

impl Transaction {
    /// The changes that are left are in tree order.
    pub closed spec fn wf(&self) -> bool {
        &&& self.next <= self.changes@.len()
        &&& in_tree_order(self@)
    }

    /// The changes that are left come in tree order.
    pub proof fn lemma_wf(&self)
        requires
            self.wf(),
        ensures
            in_tree_order(self@),
    {
    }

    /// The change that comes next.
    pub fn current(&self) -> (r: Option<&PendingChange>)
        requires
            self.wf(),
        ensures
            match r {
                Some(change) => self@.len() > 0 && change@ == self@[0],
                None => self@.len() == 0,
            },
    {
        if self.next < self.changes.len() {
            Some(&self.changes[self.next])
        } else {
            None
        }
    }

    /// Leaves the change that comes next behind.
    pub fn advance(&mut self)
        requires
            old(self).wf(),
            old(self)@.len() > 0,
        ensures
            final(self).wf(),
            final(self)@ == old(self)@.skip(1),
    {
        let n = self.changes.len();
        proof {
            assert(self@.len() == n - self.next);
        }
        self.next = self.next + 1;
        proof {
            assert(self@ =~= old(self)@.skip(1));
            lemma_skip_keeps_order(old(self)@, 1);
        }
    }

    /// Leaves the changes that come next behind, as long as they are beneath `parent`.
    pub fn skip_beneath(&mut self, parent: &CanonicalPathBuf)
        requires
            old(self).wf(),
        ensures
            final(self).wf(),
            final(self)@ == without_beneath(old(self)@, parent@),
    {
        while self.next < self.changes.len()
            invariant
                self.wf(),
                without_beneath(self@, parent@) == without_beneath(old(self)@, parent@),
            ensures
                self.wf(),
                self@ == without_beneath(old(self)@, parent@),
            decreases self@.len(),
        {
            proof {
                assert(self@[0] == self.changes@[self.next as int]@);
            }
            if !parent.is_parent_of(&self.changes[self.next].path) {
                break;
            }
            self.advance();
        }
    }
}

/// Changes in tree order stay so when the first `n` are left out.
proof fn lemma_skip_keeps_order(changes: Seq<ChangeView>, n: int)
    requires
        in_tree_order(changes),
        0 <= n <= changes.len(),
    ensures
        in_tree_order(changes.skip(n)),
{
    let rest = changes.skip(n);
    assert forall|i: int, j: int| 0 <= i < j < rest.len() implies !precedes(
        path_stem(#[trigger] rest[j].path),
        path_stem(#[trigger] rest[i].path),
    ) by {
        assert(rest[i] == changes[i + n]);
        assert(rest[j] == changes[j + n]);
    }
}

/// Leaving out what comes next beneath a directory leaves out everything beneath it: what is left
/// beneath it comes behind another change for the directory itself.
pub proof fn law_everything_beneath_is_skipped(changes: Seq<ChangeView>, parent: Seq<u8>, k: int)
    requires
        in_tree_order(changes),
        forall|i: int|
            0 <= i < changes.len() ==> !precedes(
                path_stem(#[trigger] changes[i].path),
                path_stem(parent),
            ),
        0 <= k < without_beneath(changes, parent).len(),
        is_ancestor(parent, without_beneath(changes, parent)[k].path),
    ensures
        path_stem(without_beneath(changes, parent)[0].path) == path_stem(parent),
    decreases changes.len(),
{
    if changes.len() > 0 && is_ancestor(parent, changes[0].path) {
        let rest = changes.skip(1);
        lemma_skip_keeps_order(changes, 1);
        assert forall|i: int| 0 <= i < rest.len() implies !precedes(
            path_stem(#[trigger] rest[i].path),
            path_stem(parent),
        ) by {
            assert(rest[i] == changes[i + 1]);
        }
        law_everything_beneath_is_skipped(rest, parent, k);
    } else {
        assert(k > 0);
        law_descendants_are_contiguous(parent, changes[0].path, changes[k].path);
    }
}

} // verus!
