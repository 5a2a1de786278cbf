//! What the ancestors of a path are, and what being beneath an ignored directory comes to.

use crate::bytes::{is_last_index, lemma_last_index, lemma_no_last_index, PATH_SEPARATOR};
use crate::components::{
    ancestors, body_start, component_end, is_dotted, is_verbatim, last_component, last_piece,
    parent_path, piece_cut, prefix_end, trimmed,
};
use crate::config::{ancestor_hint, ignores_with_ancestors, Filter};
use vstd::prelude::*;

verus! {

/// The names that a path can be made of: they have no separator in them, and name something.
pub open spec fn are_names(names: Seq<Seq<u8>>) -> bool {
    forall|i: int|
        0 <= i < names.len() ==> {
            let name = #[trigger] names[i];
            &&& name.len() > 0
            &&& name != seq![46u8]
            &&& forall|j: int| 0 <= j < name.len() ==> name[j] != 47
        }
}

/// A separator and a name, for each of some names.
pub open spec fn slashed(names: Seq<Seq<u8>>) -> Seq<u8>
    decreases names.len(),
{
    if names.len() == 0 {
        Seq::empty()
    } else {
        slashed(names.drop_last()).push(47) + names.last()
    }
}

/// The absolute path of these names, one directory in the other.
pub open spec fn path_of(names: Seq<Seq<u8>>) -> Seq<u8> {
    if names.len() == 0 {
        seq![47u8]
    } else {
        slashed(names)
    }
}

/// Fewer names are names.
proof fn lemma_fewer_names(names: Seq<Seq<u8>>, n: int)
    requires
        are_names(names),
        0 <= n <= names.len(),
    ensures
        are_names(names.take(n)),
        names.len() > 0 ==> are_names(names.drop_last()),
{
    assert forall|i: int| 0 <= i < n implies #[trigger] names.take(n)[i] == names[i] by {}
    if names.len() > 0 {
        assert forall|i: int| 0 <= i < names.len() - 1 implies #[trigger] names.drop_last()[i]
            == names[i] by {}
    }
}

/// How a path of names starts.
proof fn lemma_slashed_start(names: Seq<Seq<u8>>)
    requires
        are_names(names),
        names.len() > 0,
    ensures
        slashed(names).len() >= 2,
        slashed(names)[0] == 47,
        slashed(names)[1] != 47,
        body_start(slashed(names)) == 1,
    decreases names.len(),
{
    let before = slashed(names.drop_last());
    let path = slashed(names);
    let name = names[names.len() - 1];
    assert(names.last() == name);
    if names.len() == 1 {
        assert(before =~= Seq::empty());
        assert(path[1] == name[0]);
    } else {
        lemma_fewer_names(names, 0);
        lemma_slashed_start(names.drop_last());
        assert(path[0] == before[0] && path[1] == before[1]);
    }
    if is_verbatim(path) {
        assert(path.take(4)[1] == path[1]);
    }
}

/// The last piece of a path of names, behind whatever it starts with, is the last name, and nothing
/// is to be trimmed.
proof fn lemma_slashed_end(prefix: Seq<u8>, names: Seq<Seq<u8>>)
    requires
        are_names(names),
        names.len() > 0,
    ensures
        ({
            let path = prefix + slashed(names);
            let start = prefix.len() as int + 1;
            &&& path.len() > start
            &&& last_piece(path, start) == names.last()
            &&& trimmed(path, start) == path
            &&& path.take(piece_cut(path, start)) == prefix + path_of(names.drop_last())
        }),
{
    let before = slashed(names.drop_last());
    let path = prefix + slashed(names);
    let start = prefix.len() as int + 1;
    let rest = path.skip(start);
    let name = names[names.len() - 1];
    assert(names.last() == name);
    lemma_slashed_start(names);
    if names.len() == 1 {
        assert(before =~= Seq::empty());
        assert(rest =~= name);
        lemma_no_last_index(rest, PATH_SEPARATOR);
        assert(path.take(start) =~= prefix + seq![47u8]);
    } else {
        lemma_fewer_names(names, 0);
        lemma_slashed_start(names.drop_last());
        let i = before.len() - 1;
        assert forall|j: int| i < j < rest.len() implies rest[j] != PATH_SEPARATOR by {
            assert(rest[j] == name[j - i - 1]);
        }
        assert(rest[i] == PATH_SEPARATOR);
        assert(is_last_index(rest, PATH_SEPARATOR, i));
        lemma_last_index(rest, PATH_SEPARATOR, i);
        assert(path.take(start + i) =~= prefix + before);
    }
    assert(last_piece(path, start) =~= name);
}

/// What a canonical path on Windows starts with: `//?/` and a drive, or `//?/UNC/`, a server and a
/// share.
pub open spec fn is_prefix(prefix: Seq<u8>, drive: Seq<Seq<u8>>) -> bool {
    &&& are_names(drive)
    &&& {
        ||| drive.len() == 1 && drive[0] != seq![85u8, 78u8, 67u8]
        ||| drive.len() == 3 && drive[0] == seq![85u8, 78u8, 67u8]
    }
    &&& prefix == seq![47u8, 47u8, 63u8] + slashed(drive)
}

/// Where a component ends.
proof fn lemma_component_end_at(path: Seq<u8>, from: int, to: int)
    requires
        0 <= from <= to <= path.len(),
        forall|j: int| from <= j < to ==> path[j] != 47,
        to == path.len() || path[to] == 47,
    ensures
        component_end(path, from) == to,
    decreases to - from,
{
    if from < to {
        lemma_component_end_at(path, from + 1, to);
    }
}

/// The components behind the prefix of a path on Windows start behind the separator there.
proof fn lemma_prefix_end(prefix: Seq<u8>, drive: Seq<Seq<u8>>, rest: Seq<u8>)
    requires
        is_prefix(prefix, drive),
        rest.len() == 0 || rest[0] == 47,
    ensures
        is_verbatim(prefix + rest),
        prefix_end(prefix + rest) == prefix.len(),
        body_start(prefix + rest) == if rest.len() == 0 {
            prefix.len() as int
        } else {
            prefix.len() as int + 1
        },
{
    let path = prefix + rest;
    let a = drive[0];
    reveal_with_fuel(slashed, 4);
    if drive.len() == 1 {
        assert(drive.drop_last() =~= Seq::empty());
        assert(drive.last() == a);
        assert(prefix =~= seq![47u8, 47u8, 63u8, 47u8] + a);
        assert(path =~= seq![47u8, 47u8, 63u8, 47u8] + a + rest);
        assert(path.take(4) =~= seq![47u8, 47u8, 63u8, 47u8]);
        assert forall|j: int| 4 <= j < prefix.len() implies path[j] != 47 by {
            assert(path[j] == a[j - 4]);
        }
        lemma_component_end_at(path, 4, prefix.len() as int);
        assert(path.subrange(4, prefix.len() as int) =~= a);
    } else {
        let b = drive[1];
        let c = drive[2];
        assert(drive.drop_last().drop_last().drop_last() =~= Seq::empty());
        assert(drive.drop_last().drop_last().last() == a);
        assert(drive.drop_last().last() == b);
        assert(drive.last() == c);
        assert(prefix =~= seq![47u8, 47u8, 63u8, 47u8] + a + seq![47u8] + b + seq![47u8] + c);
        assert(path =~= seq![47u8, 47u8, 63u8, 47u8] + a + seq![47u8] + b + seq![47u8] + c + rest);
        assert(path.take(4) =~= seq![47u8, 47u8, 63u8, 47u8]);
        let server = 8 + b.len() as int;
        assert forall|j: int| 4 <= j < 7 implies path[j] != 47 by {
            assert(path[j] == a[j - 4]);
        }
        assert(path[7] == 47);
        lemma_component_end_at(path, 4, 7);
        assert(path.subrange(4, 7) =~= a);
        assert forall|j: int| 8 <= j < server implies path[j] != 47 by {
            assert(path[j] == b[j - 8]);
        }
        assert(path[server] == 47);
        lemma_component_end_at(path, 8, server);
        assert forall|j: int| server + 1 <= j < prefix.len() implies path[j] != 47 by {
            assert(path[j] == c[j - server - 1]);
        }
        lemma_component_end_at(path, server + 1, prefix.len() as int);
    }
}

/// On Windows the parents of a path end at the drive or the share that it starts with: the parent
/// has one name less, and what has no name behind the prefix has none.
pub proof fn law_parents_end_at_the_drive(
    prefix: Seq<u8>,
    drive: Seq<Seq<u8>>,
    names: Seq<Seq<u8>>,
)
    requires
        is_prefix(prefix, drive),
        are_names(names),
    ensures
        names.len() > 0 ==> parent_path(prefix + path_of(names)) == Some(
            prefix + path_of(names.drop_last()),
        ),
        names.len() > 0 ==> last_component(prefix + path_of(names)) == Some(names.last()),
        names.len() == 0 ==> parent_path(prefix + path_of(names)) is None,
        parent_path(prefix) is None,
        last_component(prefix) is None,
{
    assert(prefix + Seq::<u8>::empty() =~= prefix);
    lemma_prefix_end(prefix, drive, Seq::empty());
    if names.len() > 0 {
        lemma_slashed_start(names);
    }
    lemma_prefix_end(prefix, drive, path_of(names));
    if names.len() > 0 {
        lemma_slashed_end(prefix, names);
        if names.len() > 1 {
            lemma_fewer_names(names, 0);
            lemma_slashed_end(prefix, names.drop_last());
        }
    }
}

/// The parent of a path is the path of its names but the last, and the last is its name. The root
/// has neither.
pub proof fn law_parent_has_one_name_less(names: Seq<Seq<u8>>)
    requires
        are_names(names),
    ensures
        names.len() > 0 ==> parent_path(path_of(names)) == Some(path_of(names.drop_last())),
        names.len() > 0 ==> last_component(path_of(names)) == Some(names.last()),
        names.len() == 0 ==> parent_path(path_of(names)) is None,
        names.len() == 0 ==> last_component(path_of(names)) is None,
{
    if names.len() > 0 {
        let none = Seq::<u8>::empty();
        lemma_slashed_start(names);
        lemma_slashed_end(none, names);
        assert(none + slashed(names) =~= slashed(names));
        assert(none + path_of(names.drop_last()) =~= path_of(names.drop_last()));
        if names.len() > 1 {
            lemma_fewer_names(names, 0);
            lemma_slashed_end(none, names.drop_last());
            assert(none + slashed(names.drop_last()) =~= slashed(names.drop_last()));
        }
    }
}

/// The ancestors of a path are the paths of fewer of its names, down to the root.
pub proof fn law_ancestors_have_fewer_names(names: Seq<Seq<u8>>)
    requires
        are_names(names),
    ensures
        ancestors(path_of(names)).len() == names.len() + 1,
        forall|i: int|
            0 <= i <= names.len() ==> #[trigger] ancestors(path_of(names))[i] == path_of(
                names.take(names.len() - i),
            ),
    decreases names.len(),
{
    let all = ancestors(path_of(names));
    law_parent_has_one_name_less(names);
    assert(names.take(names.len() as int) =~= names);
    if names.len() > 0 {
        let fewer = names.drop_last();
        lemma_fewer_names(names, 0);
        law_ancestors_have_fewer_names(fewer);
        assert forall|i: int| 0 <= i <= names.len() implies #[trigger] all[i] == path_of(
            names.take(names.len() - i),
        ) by {
            if i > 0 {
                assert(all[i] == ancestors(path_of(fewer))[i - 1]);
                assert(fewer.take(fewer.len() - (i - 1)) =~= names.take(names.len() - i));
            }
        }
    }
}

/// A path counts as ignored with its ancestors if and only if the filter ignores the path itself,
/// going by what is known of it, or one of the directories above it, each of which it is asked for
/// as a directory.
pub proof fn law_beneath_an_ignored_directory_is_ignored<F: Filter + ?Sized>(
    filter: &F,
    names: Seq<Seq<u8>>,
    is_dir: Option<bool>,
)
    requires
        are_names(names),
    ensures
        ignores_with_ancestors(filter, path_of(names), is_dir) <==> {
            ||| filter.ignores(path_of(names), is_dir)
            ||| exists|n: int|
                0 <= n < names.len() && filter.ignores(
                    #[trigger] path_of(names.take(n)),
                    Some(true),
                )
        },
{
    let all = ancestors(path_of(names));
    law_ancestors_have_fewer_names(names);
    assert(names.take(names.len() as int) =~= names);
    assert(all[0] == path_of(names.take(names.len() - 0)));
    if ignores_with_ancestors(filter, path_of(names), is_dir) {
        let i = choose|i: int|
            0 <= i < all.len() && filter.ignores(
                #[trigger] all[i],
                ancestor_hint(i, is_dir),
            );
        assert(all[i] == path_of(names.take(names.len() - i)));
    }
    if filter.ignores(path_of(names), is_dir) {
        assert(filter.ignores(all[0], ancestor_hint(0, is_dir)));
    }
    if exists|n: int|
        0 <= n < names.len() && filter.ignores(#[trigger] path_of(names.take(n)), Some(true)) {
        let n = choose|n: int|
            0 <= n < names.len() && filter.ignores(#[trigger] path_of(names.take(n)), Some(true));
        let i = names.len() - n;
        assert(all[i] == path_of(names.take(names.len() - i)));
    }
}

/// Where nothing else is asked for, what is named `.git` is ignored, with everything beneath it,
/// and nothing else is, whatever is known of it.
pub proof fn law_git_directories_are_ignored(names: Seq<Seq<u8>>, is_dir: Option<bool>)
    requires
        are_names(names),
    ensures
        ().ignores(path_of(names), is_dir) <==> names.len() > 0 && names.last() == seq![
            46u8,
            103u8,
            105u8,
            116u8,
        ],
        ignores_with_ancestors(&(), path_of(names), is_dir) <==> names.contains(
            seq![46u8, 103u8, 105u8, 116u8],
        ),
{
    let git = seq![46u8, 103u8, 105u8, 116u8];
    law_parent_has_one_name_less(names);
    law_beneath_an_ignored_directory_is_ignored(&(), names, is_dir);
    assert forall|n: int| 0 < n <= names.len() implies (().ignores(
        #[trigger] path_of(names.take(n)),
        Some(true),
    ) <==> names[n - 1] == git) by {
        lemma_fewer_names(names, n);
        law_parent_has_one_name_less(names.take(n));
        assert(names.take(n).last() == names[n - 1]);
    }
    lemma_fewer_names(names, 0);
    law_parent_has_one_name_less(names.take(0));
    assert(names.take(names.len() as int) =~= names);
    if names.contains(git) {
        let k = choose|k: int| 0 <= k < names.len() && names[k] == git;
        assert(().ignores(path_of(names.take(k + 1)), Some(true)));
    }
    if ignores_with_ancestors(&(), path_of(names), is_dir) {
        if names.len() > 0 && names.last() == git {
            assert(names[names.len() - 1] == git);
        } else {
            let n = choose|n: int|
                0 <= n < names.len() && ().ignores(#[trigger] path_of(names.take(n)), Some(true));
            assert(n > 0);
            assert(names[n - 1] == git);
        }
    }
}

/// A piece at the end that names nothing is dropped with the separator before it.
proof fn lemma_blank_end(path: Seq<u8>, piece: Seq<u8>, start: int)
    requires
        0 <= start <= path.len(),
        piece.len() == 0 || piece == seq![46u8],
    ensures
        trimmed(path.push(47) + piece, start) == trimmed(path, start),
{
    let all = path.push(47) + piece;
    let rest = all.skip(start);
    let i = path.len() - start;
    assert(rest[i] == PATH_SEPARATOR);
    assert forall|j: int| i < j < rest.len() implies rest[j] != PATH_SEPARATOR by {
        assert(rest[j] == piece[j - i - 1]);
    }
    assert(is_last_index(rest, PATH_SEPARATOR, i));
    lemma_last_index(rest, PATH_SEPARATOR, i);
    assert(last_piece(all, start) =~= piece);
    assert(all.take(piece_cut(all, start)) =~= path);
}

/// A separator at the end of an absolute path, alone or with a `.` behind it, changes neither its
/// parent nor its name.
pub proof fn law_blank_pieces_do_not_count(path: Seq<u8>)
    requires
        path.len() > 0,
        path[0] == 47,
        path.len() > 1 ==> path[1] != 47,
    ensures
        parent_path(path.push(47)) == parent_path(path),
        last_component(path.push(47)) == last_component(path),
        parent_path(path + seq![47u8, 46u8]) == parent_path(path),
        last_component(path + seq![47u8, 46u8]) == last_component(path),
{
    let none = Seq::<u8>::empty();
    let dot = seq![46u8];
    let slash = path.push(47);
    let both = path + seq![47u8, 46u8];
    assert(slash + none =~= slash);
    assert(slash + dot =~= both);
    lemma_blank_end(path, none, 1);
    lemma_blank_end(path, dot, 1);
    lemma_not_verbatim(path);
    lemma_not_verbatim(slash);
    lemma_not_verbatim(both);
}

/// An absolute path of which the second byte is no separator, or that is too short, is none with a
/// prefix.
proof fn lemma_not_verbatim(path: Seq<u8>)
    requires
        path.len() > 0,
        path[0] == 47,
        path.len() <= 3 || path[1] != 47,
    ensures
        body_start(path) == 1,
{
    if is_verbatim(path) {
        assert(path.take(4)[1] == path[1]);
    }
}

/// A relative path of one name is in the directory that says nothing, and what says nothing, or
/// only `.`, has no name. The parent of `.` says nothing, and that has no parent.
pub proof fn law_relative_name_has_an_empty_parent(name: Seq<u8>)
    requires
        are_names(seq![name]),
    ensures
        parent_path(name) == Some(Seq::<u8>::empty()),
        last_component(name) == Some(name),
        parent_path(seq![46u8]) == Some(Seq::<u8>::empty()),
        last_component(seq![46u8]) is None,
        parent_path(Seq::empty()) is None,
        last_component(Seq::empty()) is None,
{
    let names = seq![name];
    let none = Seq::<u8>::empty();
    assert(names[0] == name);
    assert(name.skip(0) =~= name);
    lemma_no_last_index(name.skip(0), PATH_SEPARATOR);
    if is_verbatim(name) {
        assert(name.take(4)[0] == name[0]);
    }
    if is_dotted(name) {
        assert(name.len() == 1);
        assert(name =~= seq![46u8]);
    }
    assert(last_piece(name, 0) =~= name);
    assert(name.take(0) =~= none);
    assert(trimmed(none, 0) == none);
    assert(!is_verbatim(seq![46u8]));
}

} // verus!
