//! The directories that were asked to be watched, in tree order.

use crate::config::{ignores_with_ancestors, Filter};
use crate::ids::NodeId;
use crate::path::{
    is_ancestor, lemma_precedes_asymmetric, lemma_precedes_irreflexive, path_stem, path_text,
    precedes,
};
use crate::path_laws::{
    law_descendants_are_contiguous, lemma_parent_precedes, lemma_precedes_total,
    lemma_precedes_transitive,
};
use crate::tree::model::TreeView;
use crate::tree::FileTree;
use vstd::prelude::*;

verus! {

/// The number of the node of a root, and whether the root is watched recursively.
pub type RootView = (int, bool);

/// The stored path of a root.
pub open spec fn root_path(tree: TreeView, root: RootView) -> Seq<u8> {
    tree.nodes[root.0].path
}

/// The roots are nodes of the tree.
pub open spec fn roots_valid(tree: TreeView, roots: Seq<RootView>) -> bool {
    forall|i: int| 0 <= i < roots.len() ==> 0 <= (#[trigger] roots[i]).0 < tree.nodes.len()
}

/// The roots are in tree order of their paths.
pub open spec fn roots_sorted(tree: TreeView, roots: Seq<RootView>) -> bool {
    forall|i: int, j: int|
        0 <= i < j < roots.len() ==> !precedes(
            path_stem(root_path(tree, #[trigger] roots[j])),
            path_stem(root_path(tree, #[trigger] roots[i])),
        )
}

/// How many roots at the front come before a path.
pub open spec fn roots_before(tree: TreeView, roots: Seq<RootView>, path: Seq<u8>) -> int
    decreases roots.len(),
{
    if roots.len() > 0 && precedes(path_stem(root_path(tree, roots[0])), path_stem(path)) {
        1 + roots_before(tree, roots.skip(1), path)
    } else {
        0
    }
}

/// The root has this path.
pub open spec fn is_root_at(tree: TreeView, path: Seq<u8>, root: RootView) -> bool {
    path_stem(root_path(tree, root)) == path_stem(path)
}

/// The root has this path, or is beneath it.
pub open spec fn is_root_within(tree: TreeView, path: Seq<u8>, root: RootView) -> bool {
    is_root_at(tree, path, root) || is_ancestor(path, root_path(tree, root))
}

/// How many roots at the front have a path or are beneath it.
pub open spec fn roots_within(tree: TreeView, roots: Seq<RootView>, path: Seq<u8>) -> int
    decreases roots.len(),
{
    if roots.len() > 0 && is_root_within(tree, path, roots[0]) {
        1 + roots_within(tree, roots.skip(1), path)
    } else {
        0
    }
}

/// Whether the path of a root, or an ancestor of it, is ignored.
pub open spec fn root_ignored<F: Filter + ?Sized>(
    filter: &F,
    tree: TreeView,
    root: RootView,
) -> bool {
    ignores_with_ancestors(filter, path_text(root_path(tree, root)), Some(true))
}

/// The root stays beside a recursive one with this path: it is not that directory, and a crawl of
/// it does not come to the root.
pub open spec fn stays_beside<F: Filter + ?Sized>(
    filter: &F,
    tree: TreeView,
    path: Seq<u8>,
    root: RootView,
) -> bool {
    !is_root_at(tree, path, root) && root_ignored(filter, tree, root)
}

/// The roots among these that stay beside a recursive one with this path, in order.
pub open spec fn staying_roots<F: Filter + ?Sized>(
    filter: &F,
    tree: TreeView,
    path: Seq<u8>,
    roots: Seq<RootView>,
) -> Seq<RootView>
    decreases roots.len(),
{
    if roots.len() == 0 {
        roots
    } else if stays_beside(filter, tree, path, roots[0]) {
        seq![roots[0]] + staying_roots(filter, tree, path, roots.skip(1))
    } else {
        staying_roots(filter, tree, path, roots.skip(1))
    }
}

/// How many roots from its place on a new root may take the place of.
pub open spec fn roots_absorbed(tree: TreeView, roots: Seq<RootView>, root: RootView) -> int {
    let path = root_path(tree, root);
    if root.1 {
        roots_within(tree, roots.skip(roots_before(tree, roots, path)), path)
    } else {
        0
    }
}

/// The roots with one more, in its place in tree order. A recursive root takes the place of one
/// with the same path, and of those beneath it. The ones that are ignored stay, since a crawl from
/// further up does not come to them.
pub open spec fn with_root<F: Filter + ?Sized>(
    filter: &F,
    tree: TreeView,
    roots: Seq<RootView>,
    root: RootView,
) -> Seq<RootView> {
    let path = root_path(tree, root);
    let i = roots_before(tree, roots, path);
    let n = roots_absorbed(tree, roots, root);
    roots.take(i).push(root) + staying_roots(filter, tree, path, roots.subrange(i, i + n))
        + roots.skip(i + n)
}

/// The roots of a list.
pub open spec fn roots_view(roots: Seq<(NodeId, bool)>) -> Seq<RootView> {
    roots.map_values(|r: (NodeId, bool)| (r.0@->0, r.1))
}

/// Each root of a list has a number.
pub open spec fn roots_numbered(roots: Seq<(NodeId, bool)>) -> bool {
    forall|i: int| 0 <= i < roots.len() ==> (#[trigger] roots[i]).0@ is Some
}

/// How many roots there are at most that precede a path, have it or are beneath it.
proof fn lemma_root_counts(tree: TreeView, roots: Seq<RootView>, path: Seq<u8>)
    ensures
        0 <= roots_before(tree, roots, path) <= roots.len(),
        0 <= roots_within(tree, roots, path) <= roots.len(),
    decreases roots.len(),
{
    if roots.len() > 0 {
        lemma_root_counts(tree, roots.skip(1), path);
    }
}

/// Adds a root. It is inserted where it belongs in tree order; a recursive root removes one with
/// the same path, and the roots beneath it that are not ignored, to avoid looking through them
/// twice.
pub fn insert_root<F: Filter + ?Sized>(
    tree: &FileTree,
    filter: &F,
    roots: &mut Vec<(NodeId, bool)>,
    node: NodeId,
    recursive: bool,
)
    requires
        tree.wf(),
        roots_numbered(old(roots)@),
        roots_valid(tree@, roots_view(old(roots)@)),
        node@ is Some,
        0 <= node@->0 < tree@.nodes.len(),
    ensures
        roots_numbered(final(roots)@),
        roots_view(final(roots)@) == with_root(
            filter,
            tree@,
            roots_view(old(roots)@),
            (node@->0, recursive),
        ),
{
    let path = tree.path_of(node);
    let ghost all = roots_view(roots@);
    let ghost lead = roots_before(tree@, all, path@);
    let mut i: usize = 0;
    proof {
        lemma_root_counts(tree@, all, path@);
        assert(all.skip(0) =~= all);
    }
    while i < roots.len()
        invariant
            tree.wf(),
            roots_numbered(roots@),
            all == roots_view(roots@),
            roots_valid(tree@, all),
            0 <= i <= roots@.len(),
            lead == i + roots_before(tree@, all.skip(i as int), path@),
        ensures
            i == lead,
            i <= roots@.len(),
        decreases roots@.len() - i,
    {
        let ghost rest = all.skip(i as int);
        assert(rest[0] == all[i as int]);
        assert(all[i as int] == (roots@[i as int].0@->0, roots@[i as int].1));
        assert(rest.skip(1) =~= all.skip(i + 1));
        if !tree.path_of(roots[i].0).comes_before(path) {
            break;
        }
        i = i + 1;
    }
    let ghost count = if recursive {
        roots_within(tree@, all.skip(lead), path@)
    } else {
        0
    };
    let ghost behind = all.skip(lead + count);
    if recursive {
        let mut end = i;
        proof {
            lemma_root_counts(tree@, all.skip(lead), path@);
        }
        while end < roots.len()
            invariant
                tree.wf(),
                roots_numbered(roots@),
                all == roots_view(roots@),
                roots_valid(tree@, all),
                i <= end <= roots@.len(),
                count == end - i + roots_within(tree@, all.skip(end as int), path@),
            ensures
                end == i + count,
                i <= end <= roots@.len(),
            decreases roots@.len() - end,
        {
            let ghost rest = all.skip(end as int);
            assert(rest[0] == all[end as int]);
            assert(all[end as int] == (roots@[end as int].0@->0, roots@[end as int].1));
            assert(rest.skip(1) =~= all.skip(end + 1));
            let other = tree.path_of(roots[end].0);
            proof {
                lemma_precedes_total(path_stem(path@), path_stem(other@));
                lemma_precedes_irreflexive(path_stem(path@));
            }
            let same = !path.comes_before(other) && !other.comes_before(path);
            if !same && !path.is_parent_of(other) {
                break;
            }
            end = end + 1;
        }
        let mut j = i;
        let ghost target = staying_roots(filter, tree@, path@, all.subrange(i as int, i + count));
        proof {
            assert(all.subrange(i as int, i as int) + target =~= target);
            assert(roots_view(roots@).skip(end as int) =~= behind);
        }
        while j < end
            invariant
                tree.wf(),
                roots_numbered(roots@),
                roots_valid(tree@, roots_view(roots@)),
                i <= j <= end <= roots@.len(),
                i <= all.len(),
                roots_view(roots@).take(i as int) == all.take(i as int),
                roots_view(roots@).skip(end as int) == behind,
                roots_view(roots@).subrange(i as int, j as int) + staying_roots(
                    filter,
                    tree@,
                    path@,
                    roots_view(roots@).subrange(j as int, end as int),
                ) == target,
            decreases end - j,
        {
            let ghost now = roots_view(roots@);
            let ghost left = now.subrange(j as int, end as int);
            assert(left[0] == now[j as int]);
            assert(now[j as int] == (roots@[j as int].0@->0, roots@[j as int].1));
            let other = tree.path_of(roots[j].0);
            proof {
                lemma_precedes_total(path_stem(path@), path_stem(other@));
                lemma_precedes_irreflexive(path_stem(path@));
            }
            let same = !path.comes_before(other) && !other.comes_before(path);
            if !same && filter.ignore_path_rec(other.as_bytes(), Some(true)) {
                j = j + 1;
                proof {
                    assert(left.skip(1) =~= now.subrange(j as int, end as int));
                    assert(now.subrange(i as int, j as int) =~= now.subrange(i as int, j - 1)
                        + seq![left[0]]);
                    let rest = staying_roots(filter, tree@, path@, left.skip(1));
                    assert(now.subrange(i as int, j - 1) + (seq![left[0]] + rest) =~= now.subrange(
                        i as int,
                        j as int,
                    ) + rest);
                }
            } else {
                roots.remove(j);
                end = end - 1;
                proof {
                    let next = roots_view(roots@);
                    assert(next =~= now.remove(j as int));
                    assert(left.skip(1) =~= next.subrange(j as int, end as int));
                    assert(next.subrange(i as int, j as int) =~= now.subrange(i as int, j as int));
                    assert(next.take(i as int) =~= now.take(i as int));
                    assert(next.skip(end as int) =~= now.skip(end + 1));
                }
            }
        }
        proof {
            let now = roots_view(roots@);
            assert(now.subrange(j as int, end as int) =~= Seq::empty());
            assert(target =~= now.subrange(i as int, end as int));
            assert(now =~= all.take(i as int) + target + behind);
        }
    }
    let ghost middle = roots_view(roots@);
    proof {
        if !recursive {
            assert(all.subrange(lead, lead) =~= Seq::empty());
            assert(middle =~= all.take(lead) + Seq::<RootView>::empty() + behind);
        }
    }
    roots.insert(i, (node, recursive));
    proof {
        assert(roots_view(roots@) =~= middle.insert(i as int, (node@->0, recursive)));
        assert(roots_view(roots@) =~= with_root(filter, tree@, all, (node@->0, recursive)));
    }
}

/// What the roots before a path and behind it are.
proof fn lemma_split(tree: TreeView, roots: Seq<RootView>, path: Seq<u8>, k: int)
    requires
        roots_sorted(tree, roots),
        0 <= k < roots.len(),
    ensures
        precedes(path_stem(root_path(tree, roots[k])), path_stem(path)) <==> k < roots_before(
            tree,
            roots,
            path,
        ),
    decreases roots.len(),
{
    let rest = roots.skip(1);
    let p = path_stem(path);
    let first = path_stem(root_path(tree, roots[0]));
    lemma_root_counts(tree, roots, path);
    lemma_root_counts(tree, rest, path);
    assert forall|i: int, j: int| 0 <= i < j < rest.len() implies !precedes(
        path_stem(root_path(tree, #[trigger] rest[j])),
        path_stem(root_path(tree, #[trigger] rest[i])),
    ) by {
        assert(rest[i] == roots[i + 1] && rest[j] == roots[j + 1]);
    }
    if k == 0 {
    } else if precedes(first, p) {
        assert(rest[k - 1] == roots[k]);
        lemma_split(tree, rest, path, k - 1);
    } else {
        let other = path_stem(root_path(tree, roots[k]));
        if precedes(other, p) {
            assert(!precedes(other, first));
            lemma_precedes_total(other, first);
            if other != first {
                lemma_precedes_transitive(first, other, p);
            }
        }
    }
}

/// The roots that stay among some are some of them, in their order.
proof fn lemma_staying_roots<F: Filter + ?Sized>(
    filter: &F,
    tree: TreeView,
    path: Seq<u8>,
    roots: Seq<RootView>,
)
    requires
        roots_sorted(tree, roots),
    ensures
        roots_sorted(tree, staying_roots(filter, tree, path, roots)),
        forall|i: int|
            0 <= i < staying_roots(filter, tree, path, roots).len() ==> roots.contains(
                #[trigger] staying_roots(filter, tree, path, roots)[i],
            ) && stays_beside(filter, tree, path, staying_roots(filter, tree, path, roots)[i]),
    decreases roots.len(),
{
    if roots.len() > 0 {
        let rest = roots.skip(1);
        assert forall|i: int, j: int| 0 <= i < j < rest.len() implies !precedes(
            path_stem(root_path(tree, #[trigger] rest[j])),
            path_stem(root_path(tree, #[trigger] rest[i])),
        ) by {
            assert(rest[i] == roots[i + 1] && rest[j] == roots[j + 1]);
        }
        lemma_staying_roots(filter, tree, path, rest);
        let found = staying_roots(filter, tree, path, rest);
        let all = staying_roots(filter, tree, path, roots);
        assert forall|i: int| #![trigger found[i]] 0 <= i < found.len() implies exists|l: int|
            1 <= l < roots.len() && #[trigger] roots[l] == found[i] by {
            let l = choose|l: int| 0 <= l < rest.len() && rest[l] == found[i];
            assert(roots[l + 1] == found[i]);
        }
        let shift: int = if stays_beside(filter, tree, path, roots[0]) {
            1
        } else {
            0
        };
        assert forall|i: int| 0 <= i < all.len() implies roots.contains(#[trigger] all[i])
            && stays_beside(filter, tree, path, all[i]) by {
            if i >= shift {
                assert(all[i] == found[i - shift]);
            }
        }
        assert forall|i: int, j: int| 0 <= i < j < all.len() implies !precedes(
            path_stem(root_path(tree, #[trigger] all[j])),
            path_stem(root_path(tree, #[trigger] all[i])),
        ) by {
            assert(all[j] == found[j - shift]);
            if i >= shift {
                assert(all[i] == found[i - shift]);
            }
        }
    }
}

/// Which roots at the front have a path or are beneath it.
proof fn lemma_within_run(tree: TreeView, roots: Seq<RootView>, path: Seq<u8>, k: int)
    requires
        0 <= k <= roots_within(tree, roots, path),
        k < roots.len(),
    ensures
        k < roots_within(tree, roots, path) <==> is_root_within(tree, path, roots[k]),
    decreases roots.len(),
{
    let rest = roots.skip(1);
    lemma_root_counts(tree, rest, path);
    if k > 0 {
        assert(rest[k - 1] == roots[k]);
        lemma_within_run(tree, rest, path, k - 1);
    }
}

/// Where each root of a list with one more comes from.
pub proof fn lemma_with_root<F: Filter + ?Sized>(
    filter: &F,
    tree: TreeView,
    roots: Seq<RootView>,
    root: RootView,
)
    requires
        roots_sorted(tree, roots),
    ensures
        ({
            let path = root_path(tree, root);
            let i = roots_before(tree, roots, path);
            let n = roots_absorbed(tree, roots, root);
            let staying = staying_roots(filter, tree, path, roots.subrange(i, i + n));
            let all = with_root(filter, tree, roots, root);
            &&& 0 <= i <= i + n <= roots.len()
            &&& all.len() == i + 1 + staying.len() + roots.len() - i - n
            &&& forall|k: int| 0 <= k < i ==> #[trigger] all[k] == roots[k]
            &&& all[i] == root
            &&& forall|k: int|
                i < k < i + 1 + staying.len() ==> #[trigger] all[k] == staying[k - i - 1]
            &&& forall|k: int|
                i + 1 + staying.len() <= k < all.len() ==> #[trigger] all[k] == roots[k - 1
                    - staying.len() + n]
            &&& roots_sorted(tree, staying)
            &&& forall|k: int|
                0 <= k < staying.len() ==> stays_beside(filter, tree, path, #[trigger] staying[k])
                    && exists|l: int| i <= l < i + n && #[trigger] roots[l] == staying[k]
        }),
{
    let path = root_path(tree, root);
    let i = roots_before(tree, roots, path);
    lemma_root_counts(tree, roots, path);
    lemma_root_counts(tree, roots.skip(i), path);
    let n = roots_absorbed(tree, roots, root);
    let part = roots.subrange(i, i + n);
    assert forall|a: int, b: int| 0 <= a < b < part.len() implies !precedes(
        path_stem(root_path(tree, #[trigger] part[b])),
        path_stem(root_path(tree, #[trigger] part[a])),
    ) by {
        assert(part[a] == roots[a + i] && part[b] == roots[b + i]);
    }
    lemma_staying_roots(filter, tree, path, part);
    let staying = staying_roots(filter, tree, path, part);
    assert forall|k: int| #![trigger staying[k]] 0 <= k < staying.len() implies exists|l: int|
        i <= l < i + n && #[trigger] roots[l] == staying[k] by {
        let l = choose|l: int| 0 <= l < part.len() && part[l] == staying[k];
        assert(roots[l + i] == staying[k]);
    }
}

/// Adding a root keeps the roots in tree order.
pub proof fn law_roots_stay_sorted<F: Filter + ?Sized>(
    filter: &F,
    tree: TreeView,
    roots: Seq<RootView>,
    root: RootView,
)
    requires
        roots_sorted(tree, roots),
    ensures
        roots_sorted(tree, with_root(filter, tree, roots, root)),
{
    let path = root_path(tree, root);
    let all = with_root(filter, tree, roots, root);
    let i = roots_before(tree, roots, path);
    let n = roots_absorbed(tree, roots, root);
    let m = staying_roots(filter, tree, path, roots.subrange(i, i + n)).len();
    lemma_with_root(filter, tree, roots, root);
    assert forall|k: int| #![trigger all[k]] 0 <= k < all.len() && k != i implies exists|l: int|
        0 <= l < roots.len() && #[trigger] roots[l] == all[k] && (k < i <==> l < i) && (k <= i + m
            <==> l < i + n) by {
        if k < i {
            assert(roots[k] == all[k]);
        } else if k <= i + m {
            let l = choose|l: int|
                i <= l < i + n && #[trigger] roots[l] == staying_roots(
                    filter,
                    tree,
                    path,
                    roots.subrange(i, i + n),
                )[k - i - 1];
            assert(roots[l] == all[k]);
        } else {
            assert(roots[k - 1 - m + n] == all[k]);
        }
    }
    assert forall|a: int, b: int| 0 <= a < b < all.len() implies !precedes(
        path_stem(root_path(tree, #[trigger] all[b])),
        path_stem(root_path(tree, #[trigger] all[a])),
    ) by {
        if a == i {
            let l = choose|l: int|
                0 <= l < roots.len() && #[trigger] roots[l] == all[b] && (b < i <==> l < i);
            lemma_split(tree, roots, path, l);
        } else if b == i {
            lemma_split(tree, roots, path, a);
            lemma_precedes_asymmetric(path_stem(root_path(tree, roots[a])), path_stem(path));
        } else if a < i {
            let l = choose|l: int|
                0 <= l < roots.len() && #[trigger] roots[l] == all[b] && (b < i <==> l < i);
            if b < i {
                assert(all[b] == roots[b]);
            }
        } else if b <= i + m {
        } else if a > i + m {
        } else {
            let l = choose|l: int|
                0 <= l < roots.len() && #[trigger] roots[l] == all[a] && (a <= i + m <==> l < i
                    + n);
            assert(all[b] == roots[b - 1 - m + n]);
        }
    }
}

/// Adding a recursive root leaves no other root with its path, and none beneath it but ignored
/// ones, so that a crawl of all roots does not come by a directory twice on their account.
pub proof fn law_recursive_root_absorbs_roots_beneath<F: Filter + ?Sized>(
    filter: &F,
    tree: TreeView,
    roots: Seq<RootView>,
    root: RootView,
    k: int,
)
    requires
        roots_sorted(tree, roots),
        root.1,
        0 <= k < with_root(filter, tree, roots, root).len(),
        k != roots_before(tree, roots, root_path(tree, root)),
        is_root_within(
            tree,
            root_path(tree, root),
            with_root(filter, tree, roots, root)[k],
        ),
    ensures
        with_root(filter, tree, roots, root)[roots_before(tree, roots, root_path(tree, root))]
            == root,
        stays_beside(
            filter,
            tree,
            root_path(tree, root),
            with_root(filter, tree, roots, root)[k],
        ),
{
    let path = root_path(tree, root);
    let all = with_root(filter, tree, roots, root);
    let i = roots_before(tree, roots, path);
    let n = roots_within(tree, roots.skip(i), path);
    let m = staying_roots(filter, tree, path, roots.subrange(i, i + n)).len();
    lemma_with_root(filter, tree, roots, root);
    let place = path_stem(root_path(tree, all[k]));
    if k < i {
        lemma_split(tree, roots, path, k);
        lemma_precedes_irreflexive(place);
        if !is_root_at(tree, path, all[k]) {
            lemma_parent_precedes(path, root_path(tree, all[k]));
            lemma_precedes_asymmetric(path_stem(path), place);
        }
    } else if k > i + m {
        let l = k - 1 - m + n;
        let stop = i + n;
        assert(all[k] == roots[l]);
        // The first root behind the run is not within the path, so nothing behind it is.
        let first = path_stem(root_path(tree, roots[stop]));
        lemma_split(tree, roots, path, stop);
        assert(roots.skip(i)[n] == roots[stop]);
        lemma_within_run(tree, roots.skip(i), path, n);
        assert(l != stop);
        assert(!precedes(path_stem(root_path(tree, roots[l])), first));
        if is_root_at(tree, path, all[k]) {
            lemma_precedes_total(path_stem(path), first);
        } else {
            law_descendants_are_contiguous(
                path,
                root_path(tree, roots[stop]),
                root_path(tree, all[k]),
            );
        }
    }
}

/// Adding a root keeps every other root that does not have its path and is not beneath it, and
/// keeps all if it is not recursive.
pub proof fn law_other_roots_are_kept<F: Filter + ?Sized>(
    filter: &F,
    tree: TreeView,
    roots: Seq<RootView>,
    root: RootView,
    j: int,
)
    requires
        roots_sorted(tree, roots),
        0 <= j < roots.len(),
        !root.1 || !is_root_within(tree, root_path(tree, root), roots[j]),
    ensures
        with_root(filter, tree, roots, root).contains(roots[j]),
{
    let path = root_path(tree, root);
    let all = with_root(filter, tree, roots, root);
    let i = roots_before(tree, roots, path);
    let n = roots_absorbed(tree, roots, root);
    let m = staying_roots(filter, tree, path, roots.subrange(i, i + n)).len();
    lemma_with_root(filter, tree, roots, root);
    if j < i {
        assert(all[j] == roots[j]);
    } else if j >= i + n {
        assert(all[j + 1 + m - n] == roots[j]);
    } else {
        assert(roots.skip(i)[j - i] == roots[j]);
        lemma_within_run(tree, roots.skip(i), path, j - i);
    }
}

/// A root that is added is among the roots then, and everything else among them was there before.
/// Roots beneath a recursive one that are ignored stay as well.
pub proof fn law_added_root_is_among_the_roots<F: Filter + ?Sized>(
    filter: &F,
    tree: TreeView,
    roots: Seq<RootView>,
    root: RootView,
    j: int,
)
    requires
        roots_sorted(tree, roots),
    ensures
        with_root(filter, tree, roots, root).contains(root),
        with_root(filter, tree, roots, root).len() <= roots.len() + 1,
        forall|k: int|
            0 <= k < with_root(filter, tree, roots, root).len() ==> #[trigger] with_root(
                filter,
                tree,
                roots,
                root,
            )[k] == root || roots.contains(with_root(filter, tree, roots, root)[k]),
        0 <= j < roots.len() && path_stem(tree.nodes[roots[j].0].path) != path_stem(
            tree.nodes[root.0].path,
        ) && ignores_with_ancestors(
            filter,
            path_text(tree.nodes[roots[j].0].path),
            Some(true),
        ) ==> with_root(filter, tree, roots, root).contains(roots[j]),
{
    let path = root_path(tree, root);
    let all = with_root(filter, tree, roots, root);
    let i = roots_before(tree, roots, path);
    let n = roots_absorbed(tree, roots, root);
    let part = roots.subrange(i, i + n);
    let staying = staying_roots(filter, tree, path, part);
    lemma_with_root(filter, tree, roots, root);
    lemma_staying_count(filter, tree, path, part);
    assert(all[i] == root);
    assert forall|k: int| 0 <= k < all.len() implies #[trigger] all[k] == root || roots.contains(
        all[k],
    ) by {
        if k < i {
            assert(roots[k] == all[k]);
        } else if i < k && k < i + 1 + staying.len() {
            let l = choose|l: int| i <= l < i + n && #[trigger] roots[l] == staying[k - i - 1];
            assert(roots[l] == all[k]);
        } else if k > i {
            assert(roots[k - 1 - staying.len() + n] == all[k]);
        }
    }
    if 0 <= j < roots.len() && stays_beside(filter, tree, path, roots[j]) {
        if j < i {
            assert(all[j] == roots[j]);
        } else if j >= i + n {
            assert(all[j + 1 + staying.len() - n] == roots[j]);
        } else {
            assert(part[j - i] == roots[j]);
            lemma_staying_root(filter, tree, path, part, j - i);
            let l = choose|l: int| 0 <= l < staying.len() && staying[l] == roots[j];
            assert(all[i + 1 + l] == roots[j]);
        }
    }
}

/// No more roots stay than there are.
proof fn lemma_staying_count<F: Filter + ?Sized>(
    filter: &F,
    tree: TreeView,
    path: Seq<u8>,
    roots: Seq<RootView>,
)
    ensures
        staying_roots(filter, tree, path, roots).len() <= roots.len(),
    decreases roots.len(),
{
    if roots.len() > 0 {
        lemma_staying_count(filter, tree, path, roots.skip(1));
    }
}

/// A root that stays is among those that stay.
proof fn lemma_staying_root<F: Filter + ?Sized>(
    filter: &F,
    tree: TreeView,
    path: Seq<u8>,
    roots: Seq<RootView>,
    j: int,
)
    requires
        0 <= j < roots.len(),
        stays_beside(filter, tree, path, roots[j]),
    ensures
        staying_roots(filter, tree, path, roots).contains(roots[j]),
    decreases roots.len(),
{
    let rest = roots.skip(1);
    let all = staying_roots(filter, tree, path, roots);
    if j == 0 {
        assert(all[0] == roots[0]);
    } else {
        assert(rest[j - 1] == roots[j]);
        lemma_staying_root(filter, tree, path, rest, j - 1);
        let found = staying_roots(filter, tree, path, rest);
        let l = choose|l: int| 0 <= l < found.len() && found[l] == roots[j];
        if stays_beside(filter, tree, path, roots[0]) {
            assert(all[l + 1] == roots[j]);
        } else {
            assert(all[l] == roots[j]);
        }
    }
}

} // verus!
