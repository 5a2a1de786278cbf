//! What holds of all paths: their order, ancestry, and how components are added and removed.

use crate::bytes::{
    is_last_index, last_index, lemma_last_index, lemma_no_last_index, PATH_SEPARATOR,
};
use crate::path::{
    byte_rank, ends_with_separator, has_room_for, is_ancestor, is_stored, joined,
    lemma_precedes_asymmetric, lemma_precedes_irreflexive, lemma_without_separators, parent_text,
    path_stem, path_text, popped, precedes, precedes_at, pushed, pushed_raw, tree_order,
    without_separators,
};
use std::cmp::Ordering;
use vstd::prelude::*;

verus! {

/// The opposite of an ordering.
pub open spec fn reversed(order: Ordering) -> Ordering {
    match order {
        Ordering::Less => Ordering::Greater,
        Ordering::Equal => Ordering::Equal,
        Ordering::Greater => Ordering::Less,
    }
}

/// Of two different byte strings one comes before the other.
pub proof fn lemma_precedes_total(a: Seq<u8>, b: Seq<u8>)
    ensures
        precedes(a, b) || a == b || precedes(b, a),
    decreases a.len(),
{
    if a.len() == 0 {
        if b.len() > 0 {
            assert(precedes_at(a, b, 0));
        } else {
            assert(a =~= b);
        }
    } else {
        let a1 = a.drop_last();
        lemma_precedes_total(a1, b);
        let n = a1.len() as int;
        if precedes(a1, b) {
            let i = choose|i: int| precedes_at(a1, b, i);
            if i < n {
                assert(precedes_at(a, b, i));
            } else if byte_rank(a[n]) < byte_rank(b[n]) {
                assert(precedes_at(a, b, n));
            } else if a[n] == b[n] {
                if b.len() > n + 1 {
                    assert(precedes_at(a, b, n + 1));
                } else {
                    assert(a =~= b);
                }
            } else {
                assert(precedes_at(b, a, n));
            }
        } else if a1 == b {
            assert(precedes_at(b, a, n));
        } else {
            let i = choose|i: int| precedes_at(b, a1, i);
            assert(precedes_at(b, a, i));
        }
    }
}

/// Coming before is transitive.
pub proof fn lemma_precedes_transitive(a: Seq<u8>, b: Seq<u8>, c: Seq<u8>)
    requires
        precedes(a, b),
        precedes(b, c),
    ensures
        precedes(a, c),
{
    let i = choose|i: int| precedes_at(a, b, i);
    let k = choose|k: int| precedes_at(b, c, k);
    let m = if i < k {
        i
    } else {
        k
    };
    assert(precedes_at(a, c, m));
}

/// A path is equal, in tree order, to itself and to no other path.
pub proof fn law_order_is_equal_only_on_the_same(a: Seq<u8>, b: Seq<u8>)
    ensures
        tree_order(a, b) == Ordering::Equal <==> a == b,
{
    lemma_precedes_irreflexive(a);
}

/// Comparing the other way round gives the opposite answer.
pub proof fn law_order_is_antisymmetric(a: Seq<u8>, b: Seq<u8>)
    ensures
        tree_order(b, a) == reversed(tree_order(a, b)),
{
    lemma_precedes_total(a, b);
    lemma_precedes_irreflexive(a);
    if precedes(a, b) {
        lemma_precedes_asymmetric(a, b);
    } else if precedes(b, a) {
        lemma_precedes_asymmetric(b, a);
    }
}

/// Where `a` is not behind `b` and `b` is not behind `c`, `a` is not behind `c`.
pub proof fn law_order_is_transitive(a: Seq<u8>, b: Seq<u8>, c: Seq<u8>)
    requires
        tree_order(a, b) != Ordering::Greater,
        tree_order(b, c) != Ordering::Greater,
    ensures
        tree_order(a, c) != Ordering::Greater,
{
    if precedes(a, b) && precedes(b, c) {
        lemma_precedes_transitive(a, b, c);
    }
}

/// A directory comes before everything beneath it.
pub proof fn law_parent_comes_first(parent: Seq<u8>, child: Seq<u8>)
    requires
        is_ancestor(parent, child),
    ensures
        tree_order(path_stem(parent), path_stem(child)) == Ordering::Less,
{
    lemma_parent_precedes(parent, child);
}

/// A directory comes before everything beneath it.
pub proof fn lemma_parent_precedes(parent: Seq<u8>, child: Seq<u8>)
    requires
        is_ancestor(parent, child),
    ensures
        precedes(path_stem(parent), path_stem(child)),
{
    let p = path_text(parent);
    let c = path_text(child);
    lemma_descendant_is_stored(parent, child);
    assert forall|j: int| 0 <= j < p.len() implies p[j] == c[j] by {
        assert(c.take(p.len() as int)[j] == p[j]);
    }
    assert(precedes_at(p, c, p.len() as int));
}

/// Only a path with bytes can be beneath another.
pub proof fn lemma_descendant_is_stored(parent: Seq<u8>, child: Seq<u8>)
    requires
        is_ancestor(parent, child),
    ensures
        child.len() > 0,
        path_stem(child) == path_text(child),
        path_stem(parent) == path_text(parent),
{
}

/// What is beneath a directory follows it without a gap: a path that comes neither before the
/// directory nor behind something beneath it is the directory itself or beneath it.
pub proof fn law_descendants_are_contiguous(parent: Seq<u8>, between: Seq<u8>, child: Seq<u8>)
    requires
        is_ancestor(parent, child),
        !precedes(path_stem(between), path_stem(parent)),
        !precedes(path_stem(child), path_stem(between)),
    ensures
        path_stem(between) == path_stem(parent) || is_ancestor(parent, between),
{
    let p = path_text(parent);
    let c = path_text(child);
    let b = path_stem(between);
    let n = p.len() as int;
    lemma_descendant_is_stored(parent, child);
    assert forall|j: int| 0 <= j < n implies p[j] == c[j] by {
        assert(c.take(n)[j] == p[j]);
    }
    lemma_precedes_total(p, b);
    if b != p {
        let i = choose|i: int| precedes_at(p, b, i);
        if i < n {
            assert(precedes_at(c, b, i));
        } else {
            if b[n] != PATH_SEPARATOR {
                assert(precedes_at(c, b, n));
            }
            assert(b.take(n) =~= p);
            assert(path_text(between) == b);
        }
    }
}

/// What is beneath a directory comes before every other path that starts with the bytes of the
/// directory.
pub proof fn law_descendants_precede_siblings(parent: Seq<u8>, child: Seq<u8>, sibling: Seq<u8>)
    requires
        is_ancestor(parent, child),
        path_stem(parent).is_prefix_of(path_stem(sibling)),
        path_stem(sibling) != path_stem(parent),
        !is_ancestor(parent, sibling),
    ensures
        precedes(path_stem(child), path_stem(sibling)),
{
    let p = path_text(parent);
    let s = path_stem(sibling);
    lemma_descendant_is_stored(parent, child);
    assert(s.take(p.len() as int) =~= p);
    if s.len() == p.len() {
        assert(s =~= p);
    }
    assert(path_text(sibling) == s);
    assert forall|j: int| 0 <= j < p.len() implies p[j] == s[j] && p[j] == path_text(child)[j] by {
        assert(s.take(p.len() as int)[j] == p[j]);
        assert(path_text(child).take(p.len() as int)[j] == p[j]);
    }
    assert(precedes_at(path_text(child), s, p.len() as int));
}

/// No path is its own ancestor, and of two paths at most one is an ancestor of the other.
pub proof fn law_ancestry_is_asymmetric(a: Seq<u8>, b: Seq<u8>)
    requires
        is_ancestor(a, b),
    ensures
        a != b,
        !is_ancestor(b, a),
{
}

/// An ancestor of an ancestor is an ancestor.
pub proof fn law_ancestry_is_transitive(a: Seq<u8>, b: Seq<u8>, c: Seq<u8>)
    requires
        is_ancestor(a, b),
        is_ancestor(b, c),
    ensures
        is_ancestor(a, c),
{
    let x = path_text(a);
    let y = path_text(b);
    let z = path_text(c);
    assert(z.take(x.len() as int) =~= z.take(y.len() as int).take(x.len() as int));
    assert(z[x.len() as int] == z.take(y.len() as int)[x.len() as int]);
}

/// A name without a separator in it.
pub open spec fn is_component(name: Seq<u8>) -> bool {
    forall|j: int| 0 <= j < name.len() ==> name[j] != PATH_SEPARATOR
}

/// The last separator of a path to which a component was added is the one before it.
proof fn lemma_joined_separator(raw: Seq<u8>, name: Seq<u8>)
    requires
        is_component(name),
        name.len() > 0,
    ensures
        joined(raw, name) == (path_stem(raw).push(PATH_SEPARATOR) + name).push(0),
        last_index(joined(raw, name), PATH_SEPARATOR) == Some(path_stem(raw).len() as int),
{
    let s = joined(raw, name);
    assert(!ends_with_separator(name));
    assert(s =~= (path_stem(raw).push(PATH_SEPARATOR) + name).push(0));
    assert(is_last_index(s, PATH_SEPARATOR, path_stem(raw).len() as int));
    lemma_last_index(s, PATH_SEPARATOR, path_stem(raw).len() as int);
}

/// Removing the component that was added gives back the path. The root directory is left out: what
/// is given back there is the path without any bytes.
pub proof fn law_pop_undoes_push(raw: Seq<u8>, name: Seq<u8>)
    requires
        is_stored(raw),
        raw.len() != 1,
        is_component(name),
        name.len() > 0,
    ensures
        popped(joined(raw, name)) == Some(raw),
{
    lemma_joined_separator(raw, name);
    if raw.len() == 0 {
        assert(raw =~= Seq::empty());
    } else {
        assert(joined(raw, name).take(path_stem(raw).len() as int) =~= path_stem(raw));
        assert(path_stem(raw).push(0) =~= raw);
    }
}

/// A path to which a component was added has the path as its parent, and as an ancestor.
pub proof fn law_join_is_beneath(raw: Seq<u8>, name: Seq<u8>)
    requires
        is_component(name),
        name.len() > 0,
    ensures
        path_text(joined(raw, name)) == path_stem(raw).push(PATH_SEPARATOR) + name,
        parent_text(joined(raw, name)) == Some(path_stem(raw)),
        raw.len() > 0 ==> parent_text(joined(raw, name)) == Some(path_text(raw)),
        raw.len() > 0 ==> is_ancestor(raw, joined(raw, name)),
{
    lemma_joined_separator(raw, name);
    let s = joined(raw, name);
    assert(s.take(path_stem(raw).len() as int) =~= path_stem(raw));
    assert(path_text(s) =~= path_stem(raw).push(PATH_SEPARATOR) + name);
    assert(path_text(s).take(path_stem(raw).len() as int) =~= path_stem(raw));
}

/// A canonical absolute path other than the root: it starts with a separator, does not end with
/// one, and no two are adjacent.
pub open spec fn is_canonical(text: Seq<u8>) -> bool {
    &&& text.len() > 0
    &&& text[0] == PATH_SEPARATOR
    &&& text.last() != PATH_SEPARATOR
    &&& forall|j: int|
        0 < j < text.len() && #[trigger] text[j] == PATH_SEPARATOR ==> text[j - 1]
            != PATH_SEPARATOR
}

/// An absolute path that does not end with a separator is stored as it is, with a NUL behind it: it
/// says what was put in, and what it says gives it back.
pub proof fn law_absolute_path_is_kept(text: Seq<u8>)
    requires
        text.len() > 0,
        text[0] == PATH_SEPARATOR,
        !ends_with_separator(text),
    ensures
        joined(Seq::empty(), text) == text.push(0),
        path_text(joined(Seq::empty(), text)) == text,
        joined(Seq::empty(), path_text(joined(Seq::empty(), text))) == joined(Seq::empty(), text),
{
    assert(joined(Seq::empty(), text) =~= text.push(0));
    assert(path_text(text.push(0)) =~= text);
}

/// A path does not end with a separator, whatever was added to it.
pub proof fn law_path_never_ends_with_a_separator(raw: Seq<u8>, src: Seq<u8>)
    requires
        is_stored(raw),
    ensures
        is_stored(joined(raw, src)),
        !ends_with_separator(path_text(joined(raw, src))),
        is_stored(pushed_raw(raw, without_separators(src))),
{
    let text = without_separators(src);
    lemma_without_separators(src);
    assert(path_text(pushed_raw(raw, text)) =~= path_stem(raw) + text);
    if text.len() > 0 {
        assert(path_text(pushed(raw, text)).last() == text.last());
        assert(pushed(raw, text).last() == 0);
    }
}

/// Everything that is given by an absolute path is beneath the root directory.
pub proof fn law_root_is_an_ancestor_of_everything(text: Seq<u8>)
    requires
        without_separators(text).len() > 0,
    ensures
        joined(Seq::empty(), seq![PATH_SEPARATOR]) == seq![0u8],
        is_ancestor(joined(Seq::empty(), seq![PATH_SEPARATOR]), joined(Seq::empty(), text)),
{
    let root = seq![PATH_SEPARATOR];
    assert(root.drop_last() =~= Seq::empty());
    assert(without_separators(root) == without_separators(root.drop_last()));
    assert(without_separators(Seq::<u8>::empty()) == Seq::<u8>::empty());
    let p = path_text(seq![0u8]);
    let c = path_text(joined(Seq::empty(), text));
    assert(p =~= Seq::empty());
    assert(c.take(0) =~= p);
    assert(c[0] == PATH_SEPARATOR);
}

/// One or more components: no separator at the start or at the end, and no two are adjacent.
pub open spec fn is_relative(name: Seq<u8>) -> bool {
    &&& name.len() > 0
    &&& name[0] != PATH_SEPARATOR
    &&& name.last() != PATH_SEPARATOR
    &&& forall|j: int|
        0 < j < name.len() && #[trigger] name[j] == PATH_SEPARATOR ==> name[j - 1]
            != PATH_SEPARATOR
}

/// Adding one or more components to a canonical path, or to the path without any bytes, gives a
/// canonical path.
pub proof fn law_push_keeps_canonical(raw: Seq<u8>, name: Seq<u8>)
    requires
        raw.len() == 0 || is_canonical(path_text(raw)),
        is_relative(name),
    ensures
        is_canonical(path_text(joined(raw, name))),
{
    let stem = path_stem(raw);
    let t = path_text(joined(raw, name));
    assert(t =~= stem.push(PATH_SEPARATOR) + name);
    assert forall|j: int|
        0 < j < t.len() && #[trigger] t[j] == PATH_SEPARATOR implies t[j - 1] != PATH_SEPARATOR by {
        if j < stem.len() {
            assert(stem[j] == PATH_SEPARATOR);
        } else if j > stem.len() {
            assert(name[j - stem.len() - 1] == PATH_SEPARATOR);
        }
    }
}

/// Removing the last component of a canonical path leaves a canonical path, or nothing.
pub proof fn law_pop_keeps_canonical(raw: Seq<u8>)
    requires
        is_stored(raw),
        raw.len() > 0,
        is_canonical(path_text(raw)),
    ensures
        popped(raw) is Some,
        popped(raw)->0.len() == 0 || is_canonical(path_text(popped(raw)->0)),
{
    let t = path_text(raw);
    lemma_has_last_index(raw, PATH_SEPARATOR, 0);
    let i = last_index(raw, PATH_SEPARATOR)->0;
    if i > 0 {
        let u = path_text(popped(raw)->0);
        assert(!ends_with_separator(raw.take(i))) by {
            assert(t[i] == PATH_SEPARATOR);
            assert(raw.take(i)[i - 1] == t[i - 1]);
        }
        assert(u =~= t.take(i));
        assert(t[i] == PATH_SEPARATOR);
        assert forall|j: int|
            0 < j < u.len() && #[trigger] u[j] == PATH_SEPARATOR implies u[j - 1]
            != PATH_SEPARATOR by {
            assert(t[j] == PATH_SEPARATOR);
        }
    }
}

/// A byte string that holds `needle` has a last position of it.
proof fn lemma_has_last_index(s: Seq<u8>, needle: u8, k: int)
    requires
        0 <= k < s.len(),
        s[k] == needle,
    ensures
        last_index(s, needle) is Some,
        is_last_index(s, needle, last_index(s, needle)->0),
    decreases s.len() - k,
{
    if forall|j: int| k < j < s.len() ==> s[j] != needle {
        assert(is_last_index(s, needle, k));
    } else {
        let j = choose|j: int| k < j < s.len() && s[j] == needle;
        lemma_has_last_index(s, needle, j);
    }
}

/// What is joined to a path comes behind it, with a separator in between, and without separators at
/// its end.
pub proof fn law_join_puts_a_separator_in_between(raw: Seq<u8>, src: Seq<u8>)
    requires
        without_separators(src).len() > 0,
    ensures
        src[0] != 47 ==> path_text(joined(raw, src)) == path_stem(raw).push(47)
            + without_separators(src),
        src[0] == 47 ==> path_text(joined(raw, src)) == path_stem(raw) + without_separators(src),
        joined(raw, src).last() == 0,
        raw.len() > 0 ==> is_ancestor(raw, joined(raw, src)),
{
    let text = without_separators(src);
    lemma_without_separators(src);
    assert(text[0] == src[0]);
    let all = path_text(joined(raw, src));
    if src[0] != 47 {
        assert(all =~= path_stem(raw).push(47) + text);
    } else {
        assert(all =~= path_stem(raw) + text);
    }
    if raw.len() > 0 {
        assert(all.take(path_stem(raw).len() as int) =~= path_text(raw));
        assert(all[path_stem(raw).len() as int] == 47);
    }
}

/// Only the separators at the end are left out of what is joined.
pub proof fn law_only_separators_are_left_out(text: Seq<u8>)
    ensures
        without_separators(text).len() <= text.len(),
        forall|i: int|
            0 <= i < without_separators(text).len() ==> #[trigger] without_separators(text)[i]
                == text[i],
        forall|i: int|
            without_separators(text).len() <= i < text.len() ==> #[trigger] text[i] == 47,
        without_separators(text).len() > 0 ==> without_separators(text).last() != 47,
    decreases text.len(),
{
    if ends_with_separator(text) {
        law_only_separators_are_left_out(text.drop_last());
        assert forall|i: int| without_separators(text).len() <= i < text.len() implies
            #[trigger] text[i] == 47 by {
            if i < text.len() - 1 {
                assert(text.drop_last()[i] == text[i]);
            }
        }
    }
}

/// Separators around a name do not matter, and where there is no name nothing is joined. Only the
/// path without any bytes becomes the root directory by a separator.
pub proof fn law_separators_around_a_name_do_not_matter(raw: Seq<u8>, src: Seq<u8>)
    ensures
        joined(raw, Seq::empty()) == raw,
        raw.len() > 0 || src.len() > 0 ==> joined(raw, src.push(47)) == joined(raw, src),
        src.len() > 0 && src[0] != 47 ==> joined(raw, seq![47u8] + src) == joined(raw, src),
        joined(Seq::empty(), seq![47u8]) == seq![0u8],
{
    assert(without_separators(Seq::<u8>::empty()) == Seq::<u8>::empty());
    assert(src.push(47).drop_last() =~= src);
    assert(without_separators(src.push(47)) == without_separators(src));
    let root = seq![47u8];
    assert(root.drop_last() =~= Seq::empty());
    assert(without_separators(root) == without_separators(root.drop_last()));
    if src.len() > 0 && src[0] != 47 {
        lemma_leading_separator(src);
        lemma_without_separators(src);
        assert(without_separators(src).len() > 0) by {
            law_only_separators_are_left_out(src);
        }
        let text = without_separators(src);
        assert(text[0] == src[0]);
        assert(seq![PATH_SEPARATOR] + text =~= seq![47u8] + text);
    }
}

/// A separator in front of a name stays when those at the end are left out.
proof fn lemma_leading_separator(src: Seq<u8>)
    requires
        src.len() > 0,
        src[0] != 47,
    ensures
        without_separators(seq![47u8] + src) == seq![47u8] + without_separators(src),
    decreases src.len(),
{
    let all = seq![47u8] + src;
    assert(all.last() == src.last());
    if ends_with_separator(src) {
        assert(all.drop_last() =~= seq![47u8] + src.drop_last());
        lemma_leading_separator(src.drop_last());
    }
}

/// Joining two names one after the other is joining both with a separator in between.
pub proof fn law_names_are_joined_one_by_one(raw: Seq<u8>, a: Seq<u8>, b: Seq<u8>)
    requires
        a.len() > 0,
        a.last() != 47,
        b.len() > 0,
        b[0] != 47,
        b.last() != 47,
    ensures
        joined(joined(raw, a), b) == joined(raw, a.push(47) + b),
{
    let both = a.push(47) + b;
    assert(both.last() == b.last());
    assert(joined(joined(raw, a), b) =~= joined(raw, both));
}

/// A path is an ancestor of another if and only if the other one goes on with a separator where it
/// ends.
pub proof fn law_descendant_goes_on_behind_a_separator(parent: Seq<u8>, child: Seq<u8>)
    ensures
        is_ancestor(parent, child) <==> parent.len() > 0 && exists|rest: Seq<u8>|
            path_text(child) == #[trigger] (path_text(parent).push(47) + rest),
{
    let p = path_text(parent);
    let c = path_text(child);
    if is_ancestor(parent, child) {
        let rest = c.skip(p.len() as int + 1);
        assert forall|j: int| 0 <= j < p.len() implies p[j] == c[j] by {
            assert(c.take(p.len() as int)[j] == p[j]);
        }
        assert(c =~= p.push(47) + rest);
    }
    if parent.len() > 0 && exists|rest: Seq<u8>|
        path_text(child) == #[trigger] (path_text(parent).push(47) + rest) {
        let rest = choose|rest: Seq<u8>|
            path_text(child) == #[trigger] (path_text(parent).push(47) + rest);
        assert(c.take(p.len() as int) =~= p);
        assert(c[p.len() as int] == 47);
    }
}

/// Paths that go on differently behind the same bytes come in the order of the byte in which they
/// differ, a separator before all others, and one that ends there before those that go on.
pub proof fn law_paths_come_in_byte_order(
    stem: Seq<u8>,
    x: u8,
    y: u8,
    left: Seq<u8>,
    right: Seq<u8>,
)
    ensures
        precedes(stem, stem.push(x) + left),
        x < y && x != 47 && y != 47 ==> precedes(stem.push(x) + left, stem.push(y) + right),
        x == 47 && y != 47 ==> precedes(stem.push(x) + left, stem.push(y) + right),
{
    let n = stem.len() as int;
    let a = stem.push(x) + left;
    let b = stem.push(y) + right;
    assert(precedes_at(stem, a, n));
    if (x < y && x != 47 && y != 47) || (x == 47 && y != 47) {
        assert(a[n] == x && b[n] == y);
        assert(precedes_at(a, b, n));
    }
}

/// The path without any bytes says `.`, and nothing is left of it behind which a component is
/// added. Any other path says all its bytes but the last.
pub proof fn law_path_says_its_bytes(raw: Seq<u8>)
    ensures
        path_text(Seq::empty()) == seq![46u8],
        path_stem(Seq::empty()) == Seq::<u8>::empty(),
        raw.len() > 0 ==> path_text(raw) == raw.take(raw.len() - 1) && path_stem(raw) == raw.take(
            raw.len() - 1,
        ),
{
    if raw.len() > 0 {
        assert(raw.drop_last() =~= raw.take(raw.len() - 1));
    }
}

/// Nothing is left of a path in the root directory without its name, and what has no separator in
/// it has nothing to be removed.
pub proof fn law_pop_ends_at_the_root(name: Seq<u8>)
    requires
        is_component(name),
        name.len() > 0,
    ensures
        popped(joined(seq![0u8], name)) == Some(Seq::<u8>::empty()),
        parent_text(joined(seq![0u8], name)) == Some(Seq::<u8>::empty()),
        popped(name.push(0)) is None,
        parent_text(name.push(0)) is None,
{
    let root = seq![0u8];
    lemma_joined_separator(root, name);
    assert(path_stem(root) =~= Seq::empty());
    assert(joined(root, name).take(0) =~= Seq::empty());
    assert(without_separators(Seq::<u8>::empty()) == Seq::<u8>::empty());
    assert forall|j: int| 0 <= j < name.push(0).len() implies name.push(0)[j]
        != PATH_SEPARATOR by {
        if j < name.len() {
            assert(name.push(0)[j] == name[j]);
        }
    }
    lemma_no_last_index(name.push(0), PATH_SEPARATOR);
}

/// Paths of up to a million bytes can be stored.
pub proof fn law_long_paths_fit(raw: Seq<u8>, more: int)
    requires
        raw.len() + more <= 1_000_000,
    ensures
        has_room_for(raw, more),
{
}

} // verus!
