//! The components of a path, read as the platform reads them: repeated separators count once, and
//! a `.` counts only where the whole path starts with it. The drive or the share that a path on
//! Windows starts with is no component.

use crate::bytes::{
    find_last, is_last_index, last_index, lemma_last_index, lemma_no_last_index, prefix,
    same_bytes, DOT, PATH_SEPARATOR,
};
use vstd::prelude::*;

verus! {

/// Whether the path starts at the root.
pub open spec fn is_rooted(path: Seq<u8>) -> bool {
    path.len() > 0 && path[0] == PATH_SEPARATOR
}

/// Whether the path starts with the component `.`.
pub open spec fn is_dotted(path: Seq<u8>) -> bool {
    path.len() > 0 && path[0] == DOT && (path.len() == 1 || path[1] == PATH_SEPARATOR)
}

/// Whether the path starts as canonical paths on Windows do. A canonical path elsewhere does not
/// start with two separators.
pub open spec fn is_verbatim(path: Seq<u8>) -> bool {
    path.len() >= 4 && path.take(4) == seq![PATH_SEPARATOR, PATH_SEPARATOR, 63u8, PATH_SEPARATOR]
}

/// Where the component that starts at `from` ends.
pub open spec fn component_end(path: Seq<u8>, from: int) -> int
    decreases path.len() - from,
{
    if 0 <= from < path.len() && path[from] != PATH_SEPARATOR {
        component_end(path, from + 1)
    } else {
        from
    }
}

/// Behind the separator at `i`, or where the path ends.
pub open spec fn behind_separator(path: Seq<u8>, i: int) -> int {
    if i < path.len() {
        i + 1
    } else {
        i
    }
}

/// Where the prefix of a verbatim path ends: behind the drive, as in `//?/C:`, or behind the share,
/// as in `//?/UNC/server/share`.
pub open spec fn prefix_end(path: Seq<u8>) -> int {
    let first = component_end(path, 4);
    if path.subrange(4, first) == seq![85u8, 78, 67] {
        let server = component_end(path, behind_separator(path, first));
        component_end(path, behind_separator(path, server))
    } else {
        first
    }
}

/// Where the components behind the root, or behind a leading `.`, start.
pub open spec fn body_start(path: Seq<u8>) -> int {
    if is_verbatim(path) {
        behind_separator(path, prefix_end(path))
    } else if is_rooted(path) || is_dotted(path) {
        1
    } else {
        0
    }
}

/// Where the last piece of `path`, read from position `start` on, begins.
pub open spec fn piece_start(path: Seq<u8>, start: int) -> int {
    match last_index(path.skip(start), PATH_SEPARATOR) {
        Some(i) => start + i + 1,
        None => start,
    }
}

/// What is left of `path` when its last piece is removed with the separator before it.
pub open spec fn piece_cut(path: Seq<u8>, start: int) -> int {
    match last_index(path.skip(start), PATH_SEPARATOR) {
        Some(i) => start + i,
        None => start,
    }
}

/// The last piece of `path`, read from position `start` on.
pub open spec fn last_piece(path: Seq<u8>, start: int) -> Seq<u8> {
    path.skip(piece_start(path, start))
}

/// A piece that names nothing.
pub open spec fn is_blank(piece: Seq<u8>) -> bool {
    piece.len() == 0 || piece == seq![DOT]
}

/// The path without the pieces at its end that name nothing.
pub open spec fn trimmed(path: Seq<u8>, start: int) -> Seq<u8>
    decreases path.len(),
{
    if 0 <= start < path.len() && is_blank(last_piece(path, start)) && 0 <= piece_cut(path, start)
        < path.len() {
        trimmed(path.take(piece_cut(path, start)), start)
    } else {
        path
    }
}

/// The path without its last component. There is none for the root, for a drive or a share, and for
/// the empty path.
pub open spec fn parent_path(path: Seq<u8>) -> Option<Seq<u8>> {
    let start = body_start(path);
    let whole = trimmed(path, start);
    if start < whole.len() {
        Some(trimmed(whole.take(piece_cut(whole, start)), start))
    } else if is_dotted(path) {
        Some(Seq::empty())
    } else {
        None
    }
}

/// The name that the path ends with. There is none where the path ends at the root, or with the
/// `.` that it starts with.
pub open spec fn last_component(path: Seq<u8>) -> Option<Seq<u8>> {
    let start = body_start(path);
    let whole = trimmed(path, start);
    if start < whole.len() {
        Some(last_piece(whole, start))
    } else {
        None
    }
}

/// Cutting off the last piece makes a path shorter.
proof fn lemma_piece_cut(path: Seq<u8>, start: int)
    requires
        0 <= start < path.len(),
    ensures
        start <= piece_cut(path, start) < path.len(),
        piece_cut(path, start) <= piece_start(path, start) <= path.len(),
{
    let rest = path.skip(start);
    if exists|i: int| is_last_index(rest, PATH_SEPARATOR, i) {
        let i = choose|i: int| is_last_index(rest, PATH_SEPARATOR, i);
        assert(is_last_index(rest, PATH_SEPARATOR, i));
    }
}

/// Trimming does not make a path longer, and stops before `start`.
pub proof fn lemma_trimmed_len(path: Seq<u8>, start: int)
    requires
        0 <= start,
    ensures
        trimmed(path, start).len() <= path.len(),
        start <= path.len() ==> start <= trimmed(path, start).len(),
        trimmed(path, start) == path.take(trimmed(path, start).len() as int),
    decreases path.len(),
{
    if 0 <= start < path.len() && is_blank(last_piece(path, start)) {
        lemma_piece_cut(path, start);
        let cut = piece_cut(path, start);
        lemma_trimmed_len(path.take(cut), start);
        let t = trimmed(path.take(cut), start);
        assert(path.take(cut).take(t.len() as int) =~= path.take(t.len() as int));
    }
    assert(path.take(path.len() as int) =~= path);
}

/// A component does not end before it starts.
proof fn lemma_component_end(path: Seq<u8>, from: int)
    ensures
        from <= component_end(path, from),
    decreases path.len() - from,
{
    if 0 <= from < path.len() && path[from] != PATH_SEPARATOR {
        lemma_component_end(path, from + 1);
    }
}

/// A path is longer than its parent.
pub proof fn lemma_parent_is_shorter(path: Seq<u8>)
    ensures
        parent_path(path) matches Some(parent) ==> parent.len() < path.len(),
{
    let first = component_end(path, 4);
    let server = component_end(path, behind_separator(path, first));
    lemma_component_end(path, 4);
    lemma_component_end(path, behind_separator(path, first));
    lemma_component_end(path, behind_separator(path, server));
    let start = body_start(path);
    let whole = trimmed(path, start);
    lemma_trimmed_len(path, start);
    if start < whole.len() {
        lemma_piece_cut(whole, start);
        lemma_trimmed_len(whole.take(piece_cut(whole, start)), start);
    }
}

/// The path, its parent, the parent of that, and so on.
pub open spec fn ancestors(path: Seq<u8>) -> Seq<Seq<u8>>
    decreases path.len(),
{
    proof {
        lemma_parent_is_shorter(path);
    }
    match parent_path(path) {
        Some(parent) => seq![path] + ancestors(parent),
        None => seq![path],
    }
}

/// Where the component that starts at `from` ends.
fn find_end(path: &[u8], from: usize) -> (r: usize)
    requires
        from <= path@.len(),
    ensures
        r == component_end(path@, from as int),
        from <= r <= path@.len(),
{
    let mut i: usize = from;
    while i < path.len() && path[i] != PATH_SEPARATOR
        invariant
            from <= i <= path@.len(),
            component_end(path@, i as int) == component_end(path@, from as int),
        decreases path@.len() - i,
    {
        i = i + 1;
    }
    i
}

/// Behind the separator at `i`, or where the path ends.
fn step_over(path: &[u8], i: usize) -> (r: usize)
    requires
        i <= path@.len(),
    ensures
        r == behind_separator(path@, i as int),
        i <= r <= path@.len(),
{
    if i < path.len() {
        i + 1
    } else {
        i
    }
}

/// Where the components behind the root, or behind a leading `.`, start.
fn find_body(path: &[u8]) -> (start: usize)
    ensures
        start == body_start(path@),
        start <= path@.len(),
{
    let verbatim = path.len() >= 4 && path[0] == PATH_SEPARATOR && path[1] == PATH_SEPARATOR
        && path[2] == 63 && path[3] == PATH_SEPARATOR;
    proof {
        let start = seq![PATH_SEPARATOR, PATH_SEPARATOR, 63u8, PATH_SEPARATOR];
        if verbatim {
            assert(path@.take(4) =~= start);
        } else if is_verbatim(path@) {
            assert(path@[0] == start[0] && path@[1] == start[1] && path@[2] == start[2] && path@[3]
                == start[3]);
        }
    }
    if verbatim {
        let first = find_end(path, 4);
        let unc = first == 7 && path[4] == 85 && path[5] == 78 && path[6] == 67;
        proof {
            let word = seq![85u8, 78, 67];
            let part = path@.subrange(4, first as int);
            if unc {
                assert(part =~= word);
            } else if part == word {
                assert(part.len() == 3);
                assert(part[0] == path@[4] && part[1] == path@[5] && part[2] == path@[6]);
            }
        }
        if unc {
            let server = find_end(path, step_over(path, first));
            return step_over(path, find_end(path, step_over(path, server)));
        }
        return step_over(path, first);
    }
    if path.len() == 0 {
        0
    } else if path[0] == PATH_SEPARATOR {
        1
    } else if path[0] == DOT && (path.len() == 1 || path[1] == PATH_SEPARATOR) {
        1
    } else {
        0
    }
}

/// Splits off the last piece of `path`, read from position `start` on.
fn split_piece(path: &[u8], start: usize) -> (r: (&[u8], &[u8]))
    requires
        start < path@.len(),
    ensures
        r.0@ == path@.take(piece_cut(path@, start as int)),
        r.1@ == last_piece(path@, start as int),
        start <= r.0@.len() < path@.len(),
{
    let n = path.len();
    let (_head, rest) = path.split_at(start);
    proof {
        assert(rest@ =~= path@.skip(start as int));
        lemma_piece_cut(path@, start as int);
    }
    match find_last(PATH_SEPARATOR, rest) {
        Some(i) => {
            proof {
                lemma_last_index(rest@, PATH_SEPARATOR, i as int);
                assert(start + i < n);
            }
            let (_before, piece) = path.split_at(start + i + 1);
            assert(piece@ =~= last_piece(path@, start as int));
            (prefix(path, start + i), piece)
        },
        None => {
            proof {
                lemma_no_last_index(rest@, PATH_SEPARATOR);
            }
            (prefix(path, start), rest)
        },
    }
}

/// Drops the pieces at the end of `path` that name nothing.
fn trim(path: &[u8], start: usize) -> (r: &[u8])
    requires
        start <= path@.len(),
    ensures
        r@ == trimmed(path@, start as int),
        start <= r@.len() <= path@.len(),
{
    let mut rest = path;
    while start < rest.len()
        invariant
            start <= rest@.len() <= path@.len(),
            trimmed(rest@, start as int) == trimmed(path@, start as int),
        decreases rest@.len(),
    {
        let (before, piece) = split_piece(rest, start);
        proof {
            lemma_piece_cut(rest@, start as int);
        }
        if piece.len() == 0 || (piece.len() == 1 && piece[0] == DOT) {
            proof {
                if piece@.len() == 1 {
                    assert(piece@ =~= seq![DOT]);
                }
            }
            rest = before;
        } else {
            assert(!is_blank(piece@));
            return rest;
        }
    }
    rest
}

/// The path without its last component, as `std::path::Path::parent` gives it.
pub fn parent_of(path: &[u8]) -> (r: Option<&[u8]>)
    ensures
        match r {
            Some(parent) => parent_path(path@) == Some(parent@),
            None => parent_path(path@) is None,
        },
{
    let start = find_body(path);
    let whole = trim(path, start);
    if start < whole.len() {
        let (before, _piece) = split_piece(whole, start);
        Some(trim(before, start))
    } else if path.len() > 0 && path[0] == DOT && start == 1 {
        let r = prefix(path, 0);
        assert(r@ =~= Seq::<u8>::empty());
        Some(r)
    } else {
        None
    }
}

/// Whether the last component of the path is `name`.
pub fn ends_with_name(path: &[u8], name: &[u8]) -> (r: bool)
    ensures
        r == (last_component(path@) == Some(name@)),
{
    let start = find_body(path);
    let whole = trim(path, start);
    if start < whole.len() {
        let (_before, piece) = split_piece(whole, start);
        same_bytes(piece, name)
    } else {
        false
    }
}

} // verus!
