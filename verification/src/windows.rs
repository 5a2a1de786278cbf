//! What `ReadDirectoryChangesW` reports, and which changes that makes pending.
//!
//! A buffer holds records one behind the other. Each starts with three numbers of four bytes, the
//! lowest byte first: how far it is to the next record, or zero; what happened; and how many bytes
//! the name takes. The name follows, in UTF-16.

use crate::bytes::PATH_SEPARATOR;
use crate::config::Filter;
use crate::path::{
    has_room_for, is_ancestor, joined, path_text, CanonicalPathBuf,
};
use crate::path_laws::{law_ancestry_is_asymmetric, law_ancestry_is_transitive};
use crate::pending::{ChangeView, Flags, PendingChanges};
use vstd::prelude::*;

verus! {

pub const FILE_ACTION_ADDED: u32 = 1;

pub const FILE_ACTION_REMOVED: u32 = 2;

pub const FILE_ACTION_MODIFIED: u32 = 3;

pub const FILE_ACTION_RENAMED_OLD_NAME: u32 = 4;

pub const FILE_ACTION_RENAMED_NEW_NAME: u32 = 5;

/// The separator that Windows reports paths with.
pub const BACKSLASH: u8 = 92;

/// How many bytes precede the name of a record.
pub const HEADER: usize = 12;

/// The number in four bytes, the lowest first.
pub open spec fn le32(buf: Seq<u8>, at: int) -> int {
    buf[at] + 0x100 * buf[at + 1] + 0x1_0000 * buf[at + 2] + 0x100_0000 * buf[at + 3]
}

/// The number in two bytes, the lowest first.
pub open spec fn le16(buf: Seq<u8>, at: int) -> u16 {
    (buf[at] + 0x100 * buf[at + 1]) as u16
}

/// The units of UTF-16 in some bytes. A byte that is left over at the end is dropped.
pub open spec fn utf16_units(bytes: Seq<u8>) -> Seq<u16> {
    Seq::new(bytes.len() / 2, |i: int| le16(bytes, 2 * i))
}

/// Where the name of the record at `offset` ends. A name that goes beyond the buffer is cut off.
pub open spec fn name_end(buf: Seq<u8>, offset: int) -> int {
    if offset + HEADER + le32(buf, offset + 8) <= buf.len() {
        offset + HEADER + le32(buf, offset + 8)
    } else {
        buf.len() as int
    }
}

/// What `String::from_utf16_lossy` makes of some units, as UTF-8.
pub uninterp spec fn utf16_lossy(units: Seq<u16>) -> Seq<u8>;

/// `String::from_utf16_lossy`: decodes UTF-16, with U+FFFD in place of what is not valid. Its
/// result depends on the units alone and goes by a name.
#[verifier::external_body]
fn decode_utf16_lossy(units: &[u16]) -> (text: Vec<u8>)
    ensures
        text@ == utf16_lossy(units@),
{
    String::from_utf16_lossy(units).into_bytes()
}

/// The path with the separators of the library in place of those of Windows.
pub open spec fn with_separators(path: Seq<u8>) -> Seq<u8> {
    path.map_values(
        |b: u8|
            if b == BACKSLASH {
                PATH_SEPARATOR
            } else {
                b
            },
    )
}

/// The name of the record at `offset`.
pub open spec fn record_name(buf: Seq<u8>, offset: int) -> Seq<u8> {
    utf16_lossy(utf16_units(buf.subrange(offset + HEADER, name_end(buf, offset))))
}

/// The change that an action makes pending, if it makes one so. `name` is the path beneath the
/// root, with the separators of Windows.
pub open spec fn action_change<F: Filter + ?Sized>(
    filter: &F,
    root: Seq<u8>,
    action: int,
    name: Seq<u8>,
) -> Option<ChangeView> {
    let path = joined(root, with_separators(name));
    if filter.ignores(path_text(path), None) {
        None
    } else if action == FILE_ACTION_ADDED || action == FILE_ACTION_REMOVED || action
        == FILE_ACTION_RENAMED_OLD_NAME || action == FILE_ACTION_RENAMED_NEW_NAME {
        Some(ChangeView { path, flags: Flags::recursive_crawl() })
    } else if action == FILE_ACTION_MODIFIED {
        Some(ChangeView { path, flags: Flags::none() })
    } else {
        None
    }
}

/// The changes after one that the system reported.
pub open spec fn with_reported(
    changes: Seq<ChangeView>,
    change: Option<ChangeView>,
) -> Seq<ChangeView> {
    match change {
        Some(change) => changes.push(
            ChangeView { flags: Flags { origin_watcher: true, ..change.flags }, ..change },
        ),
        None => changes,
    }
}

/// What is pending after the records of a buffer from `offset` on, and whether everything is to be
/// crawled anew because a path is too long to be stored.
pub open spec fn record_changes<F: Filter + ?Sized>(
    filter: &F,
    root: Seq<u8>,
    buf: Seq<u8>,
    offset: int,
    changes: Seq<ChangeView>,
) -> (Seq<ChangeView>, bool)
    decreases
            (if offset <= buf.len() {
                buf.len() - offset
            } else {
                0
            }),
{
    if offset + HEADER <= buf.len() {
        let next = le32(buf, offset);
        let name = record_name(buf, offset);
        let fits = has_room_for(root, name.len() as int);
        let after = if fits {
            with_reported(changes, action_change(filter, root, le32(buf, offset + 4), name))
        } else {
            changes
        };
        if next <= 0 {
            (after, !fits)
        } else {
            let (rest, recrawl) = record_changes(filter, root, buf, offset + next, after);
            (rest, !fits || recrawl)
        }
    } else {
        (changes, false)
    }
}

/// Reads the number in four bytes.
fn read_u32(buf: &[u8], at: usize) -> (r: u32)
    requires
        at + 4 <= buf@.len(),
    ensures
        r == le32(buf@, at as int),
{
    buf[at] as u32 + 0x100 * buf[at + 1] as u32 + 0x1_0000 * buf[at + 2] as u32 + 0x100_0000
        * buf[at + 3] as u32
}

/// Reads the units of UTF-16 between two positions.
fn read_units(buf: &[u8], start: usize, end: usize) -> (r: Vec<u16>)
    requires
        start <= end <= buf@.len(),
    ensures
        r@ == utf16_units(buf@.subrange(start as int, end as int)),
{
    let ghost part = buf@.subrange(start as int, end as int);
    let mut units: Vec<u16> = Vec::new();
    let mut at = start;
    while end - at >= 2
        invariant
            start <= at <= end <= buf@.len(),
            part == buf@.subrange(start as int, end as int),
            at - start == 2 * units@.len(),
            forall|i: int| 0 <= i < units@.len() ==> #[trigger] units@[i] == le16(part, 2 * i),
        decreases end - at,
    {
        let low = buf[at];
        let high = buf[at + 1];
        proof {
            let i = units@.len() as int;
            assert(part[2 * i] == low);
            assert(part[2 * i + 1] == high);
        }
        units.push(low as u16 + 0x100 * high as u16);
        at = at + 2;
    }
    assert(units@ =~= utf16_units(part));
    units
}

/// Puts the separators of the library in place of those of Windows.
fn rewrite_separators(path: Vec<u8>) -> (r: Vec<u8>)
    ensures
        r@ == with_separators(path@),
{
    let mut path = path;
    let ghost before = path@;
    let mut i: usize = 0;
    while i < path.len()
        invariant
            i <= path@.len(),
            path@.len() == before.len(),
            forall|j: int| 0 <= j < i ==> #[trigger] path@[j] == with_separators(before)[j],
            forall|j: int| i <= j < path@.len() ==> #[trigger] path@[j] == before[j],
        decreases path@.len() - i,
    {
        if path[i] == BACKSLASH {
            path[i] = PATH_SEPARATOR;
        }
        i = i + 1;
    }
    assert(path@ =~= with_separators(before));
    path
}

/// Decides which change an action makes pending. `name` is the path beneath the root, with the
/// separators of Windows.
pub fn interpret<F: Filter + ?Sized>(
    filter: &F,
    root: &CanonicalPathBuf,
    action: u32,
    name: Vec<u8>,
) -> (r: Option<(CanonicalPathBuf, Flags)>)
    requires
        has_room_for(root@, name@.len() as int),
    ensures
        match r {
            Some((path, flags)) => action_change(filter, root@, action as int, name@) == Some(
                ChangeView { path: path@, flags },
            ),
            None => action_change(filter, root@, action as int, name@) is None,
        },
{
    let name = rewrite_separators(name);
    let path = root.deref().join(name.as_slice());
    if filter.ignore_path(path.as_bytes(), None) {
        return None;
    }
    if action == FILE_ACTION_ADDED || action == FILE_ACTION_REMOVED || action
        == FILE_ACTION_RENAMED_OLD_NAME || action == FILE_ACTION_RENAMED_NEW_NAME {
        Some((path, Flags::needs_recursive_crawl()))
    } else if action == FILE_ACTION_MODIFIED {
        Some((path, Flags::empty()))
    } else {
        None
    }
}

/// Records what a buffer of records means for the changes that are pending.
pub fn handle_records<F: Filter + ?Sized>(
    filter: &F,
    root: &CanonicalPathBuf,
    buf: &[u8],
    changes: &mut PendingChanges,
)
    ensures
        ({
            let (after, recrawl) = record_changes(
                filter,
                root@,
                buf@,
                0,
                old(changes).changes(),
            );
            &&& final(changes).changes() == after
            &&& final(changes).wants_recrawl() == (old(changes).wants_recrawl() || recrawl)
        }),
{
    let ghost target = record_changes(filter, root@, buf@, 0, changes.changes());
    let ghost wanted = changes.wants_recrawl() || target.1;
    let mut offset: usize = 0;
    while HEADER <= buf.len() - offset
        invariant_except_break
            record_changes(filter, root@, buf@, offset as int, changes.changes()).0 == target.0,
            (changes.wants_recrawl() || record_changes(
                filter,
                root@,
                buf@,
                offset as int,
                changes.changes(),
            ).1) == wanted,
        invariant
            offset <= buf@.len(),
        ensures
            changes.changes() == target.0,
            changes.wants_recrawl() == wanted,
        decreases buf@.len() - offset,
    {
        let ghost before = changes.changes();
        let next_entry = read_u32(buf, offset) as usize;
        let action = read_u32(buf, offset + 4);
        let name_len = read_u32(buf, offset + 8) as usize;
        let name_start = offset + HEADER;
        let end = if name_len <= buf.len() - name_start {
            name_start + name_len
        } else {
            buf.len()
        };
        let units = read_units(buf, name_start, end);
        let name = decode_utf16_lossy(units.as_slice());
        assert(name@ == record_name(buf@, offset as int));
        if root.fits(name.len()) {
            if let Some((path, flags)) = interpret(filter, root, action, name) {
                changes.add_watcher(path, flags);
            }
        } else {
            changes.recrawl();
        }
        if next_entry == 0 || next_entry > buf.len() - offset {
            proof {
                if next_entry != 0 {
                    assert(record_changes(
                        filter,
                        root@,
                        buf@,
                        offset + next_entry,
                        changes.changes(),
                    ) == (changes.changes(), false));
                }
            }
            break;
        }
        offset = offset + next_entry;
    }
}

/// No action on a path that is not ignored is lost: what was added, removed, modified, or renamed,
/// from one name or to another, makes a change pending for the root joined with the name. It asks
/// for what is beneath to be looked through, unless what is there was just modified. A path that is
/// ignored, and what is none of these actions, makes none pending.
pub proof fn law_every_action_is_a_change<F: Filter + ?Sized>(
    filter: &F,
    root: Seq<u8>,
    action: int,
    name: Seq<u8>,
)
    ensures
        action_change(filter, root, action, name) is Some <==> 1 <= action <= 5 && !filter.ignores(
            path_text(joined(root, with_separators(name))),
            None,
        ),
        action_change(filter, root, action, name) matches Some(change) ==> {
            &&& change.path == joined(root, with_separators(name))
            &&& change.flags.needs_recursive_crawl <==> action != 3
            &&& !change.flags.needs_non_recursive_crawl
            &&& !change.flags.mark_recursive
            &&& !change.flags.origin_watcher
        },
{
}

/// The separators of Windows, and only those, become those of the library.
pub proof fn law_only_separators_are_rewritten(path: Seq<u8>)
    ensures
        with_separators(path).len() == path.len(),
        forall|i: int|
            0 <= i < path.len() ==> #[trigger] with_separators(path)[i] == if path[i] == 92 {
                47
            } else {
                path[i]
            },
{
}

/// The name of a record is what the bytes behind its header say in UTF-16, the lower byte of each
/// unit first: as many as the header says, or as there are.
pub proof fn law_record_name_is_behind_the_header(buf: Seq<u8>, offset: int) -> (units: Seq<u16>)
    requires
        0 <= offset,
        offset + 12 <= buf.len(),
    ensures
        record_name(buf, offset) == utf16_lossy(units),
        ({
            let said = buf[offset + 8] + 256 * buf[offset + 9] + 65536 * buf[offset + 10] + 16777216
                * buf[offset + 11];
            let there = buf.len() - offset - 12;
            units.len() == if said <= there {
                said / 2
            } else {
                there / 2
            }
        }),
        forall|i: int|
            0 <= i < units.len() ==> (#[trigger] units[i]) as int == buf[offset + 12 + 2 * i] + 256
                * buf[offset + 13 + 2 * i],
{
    let bytes = buf.subrange(offset + HEADER, name_end(buf, offset));
    let units = utf16_units(bytes);
    assert forall|i: int| 0 <= i < units.len() implies (#[trigger] units[i]) as int == buf[offset
        + 12 + 2 * i] + 256 * buf[offset + 13 + 2 * i] by {
        assert(bytes[2 * i] == buf[offset + 12 + 2 * i]);
        assert(bytes[2 * i + 1] == buf[offset + 13 + 2 * i]);
    }
    units
}

/// The record at `offset` says that there is another one, at `next`.
pub open spec fn is_next_record(buf: Seq<u8>, offset: int, next: int) -> bool {
    le32(buf, offset) > 0 && next == offset + le32(buf, offset)
}

/// The records of a buffer start at these positions: the first at the start, each other one as far
/// behind the one before it as that one says, and the last is followed by none, or by one that the
/// buffer has no room for.
pub open spec fn are_records(buf: Seq<u8>, offsets: Seq<int>) -> bool {
    &&& offsets.len() > 0
    &&& offsets[0] == 0
    &&& forall|k: int| 0 <= k < offsets.len() ==> 0 <= #[trigger] offsets[k] <= buf.len() - 12
    &&& forall|k: int, l: int|
        0 <= k && l == k + 1 && l < offsets.len() ==> is_next_record(
            buf,
            #[trigger] offsets[k],
            #[trigger] offsets[l],
        )
    &&& le32(buf, offsets.last()) == 0 || offsets.last() + le32(buf, offsets.last()) > buf.len()
        - 12
}

/// What is pending after the records from the one at `offsets[k]` on.
#[verifier::rlimit(60)]
proof fn lemma_records<F: Filter + ?Sized>(
    filter: &F,
    root: Seq<u8>,
    buf: Seq<u8>,
    offsets: Seq<int>,
    changes: Seq<ChangeView>,
    k: int,
)
    requires
        are_records(buf, offsets),
        0 <= k < offsets.len(),
    ensures
        ({
            let (after, recrawl) = record_changes(filter, root, buf, offsets[k], changes);
            &&& changes.len() <= after.len()
            &&& after.take(changes.len() as int) == changes
            &&& recrawl <==> is_one_too_long(root, buf, offsets, k)
            &&& forall|l: int|
                k <= l < offsets.len() && is_recorded(filter, root, buf, #[trigger] offsets[l])
                    ==> after.skip(changes.len() as int).contains(
                    recorded_change(root, buf, offsets[l]),
                )
            &&& forall|j: int|
                changes.len() <= j < after.len() ==> is_of_a_record(
                    filter,
                    root,
                    buf,
                    offsets,
                    k,
                    #[trigger] after[j],
                )
        }),
    decreases offsets.len() - k,
{
    let offset = offsets[k];
    let name = record_name(buf, offset);
    let fits = has_room_for(root, name.len() as int);
    let next = if fits {
        with_reported(changes, action_change(filter, root, le32(buf, offset + 4), name))
    } else {
        changes
    };
    let (after, recrawl) = record_changes(filter, root, buf, offset, changes);
    assert(next.take(changes.len() as int) =~= changes);
    let last = k == offsets.len() - 1;
    if last {
        assert(offsets.last() == offset);
        if le32(buf, offset) > 0 {
            assert(record_changes(filter, root, buf, offset + le32(buf, offset), next) == (
                next,
                false,
            ));
        }
        assert(after == next);
    } else {
        let l = k + 1;
        assert(is_next_record(buf, offsets[k], offsets[l]));
        lemma_records(filter, root, buf, offsets, next, l);
        assert(after.take(next.len() as int) == next);
        assert(after.take(changes.len() as int) =~= next.take(changes.len() as int));
    }
    assert forall|l: int|
        k <= l < offsets.len() && is_recorded(
            filter,
            root,
            buf,
            #[trigger] offsets[l],
        ) implies after.skip(changes.len() as int).contains(
        recorded_change(root, buf, offsets[l]),
    ) by {
        let change = recorded_change(root, buf, offsets[l]);
        let tail = after.skip(changes.len() as int);
        if l == k {
            assert(next[changes.len() as int] == change);
            assert(after.take(next.len() as int)[changes.len() as int] == change) by {
                if last {
                    assert(after.take(next.len() as int) =~= next);
                }
            }
            assert(tail[0] == change);
        } else {
            let rest = after.skip(next.len() as int);
            let j = choose|j: int| 0 <= j < rest.len() && rest[j] == change;
            assert(tail[j + next.len() - changes.len()] == change);
        }
    }
    assert forall|j: int| changes.len() <= j < after.len() implies is_of_a_record(
        filter,
        root,
        buf,
        offsets,
        k,
        #[trigger] after[j],
    ) by {
        if j < next.len() {
            assert(after.take(next.len() as int)[j] == next[j]) by {
                if last {
                    assert(after.take(next.len() as int) =~= next);
                }
            }
            assert(is_recorded(filter, root, buf, offsets[k]));
            assert(after[j] == recorded_change(root, buf, offsets[k]));
        } else {
            assert(is_of_a_record(filter, root, buf, offsets, k + 1, after[j]));
            let l = choose|l: int|
                k + 1 <= l < offsets.len() && is_recorded(filter, root, buf, #[trigger] offsets[l])
                    && after[j] == recorded_change(root, buf, offsets[l]);
            assert(is_recorded(filter, root, buf, offsets[l]));
        }
    }
    if !last && is_one_too_long(root, buf, offsets, k + 1) {
        let l = choose|l: int|
            k + 1 <= l < offsets.len() && !has_room_for(
                root,
                record_name(buf, #[trigger] offsets[l]).len() as int,
            );
        assert(!has_room_for(root, record_name(buf, offsets[l]).len() as int));
        assert(is_one_too_long(root, buf, offsets, k));
    }
    if !fits {
        assert(!has_room_for(root, record_name(buf, offsets[k]).len() as int));
        assert(is_one_too_long(root, buf, offsets, k));
    } else if is_one_too_long(root, buf, offsets, k) {
        let l = choose|l: int|
            k <= l < offsets.len() && !has_room_for(
                root,
                record_name(buf, #[trigger] offsets[l]).len() as int,
            );
        assert(l != k);
        assert(is_one_too_long(root, buf, offsets, k + 1));
    }
}

/// The change is that of one of the records from number `k` on.
pub open spec fn is_of_a_record<F: Filter + ?Sized>(
    filter: &F,
    root: Seq<u8>,
    buf: Seq<u8>,
    offsets: Seq<int>,
    k: int,
    change: ChangeView,
) -> bool {
    exists|l: int|
        k <= l < offsets.len() && is_recorded(filter, root, buf, #[trigger] offsets[l]) && change
            == recorded_change(root, buf, offsets[l])
}

/// The path of one of the records from number `k` on is too long to be stored.
pub open spec fn is_one_too_long(root: Seq<u8>, buf: Seq<u8>, offsets: Seq<int>, k: int) -> bool {
    exists|l: int|
        k <= l < offsets.len() && !has_room_for(
            root,
            record_name(buf, #[trigger] offsets[l]).len() as int,
        )
}

/// The record at this position is about a path that can be stored and is not ignored, and its
/// action is one of those that are reported.
pub open spec fn is_recorded<F: Filter + ?Sized>(
    filter: &F,
    root: Seq<u8>,
    buf: Seq<u8>,
    offset: int,
) -> bool {
    &&& has_room_for(root, record_name(buf, offset).len() as int)
    &&& 1 <= le32(buf, offset + 4) <= 5
    &&& !filter.ignores(
        path_text(joined(root, with_separators(record_name(buf, offset)))),
        None,
    )
}

/// The change that the record at this position stands for.
pub open spec fn recorded_change(root: Seq<u8>, buf: Seq<u8>, offset: int) -> ChangeView {
    ChangeView {
        path: joined(root, with_separators(record_name(buf, offset))),
        flags: Flags {
            needs_recursive_crawl: le32(buf, offset + 4) != 3,
            needs_non_recursive_crawl: false,
            mark_recursive: false,
            origin_watcher: true,
        },
    }
}

/// No record of a buffer is lost. What was pending stays so; each record for a path that is not
/// ignored adds its change, and nothing else is added. Everything is crawled anew if and only if a
/// path is too long to be stored.
pub proof fn law_no_record_is_lost<F: Filter + ?Sized>(
    filter: &F,
    root: Seq<u8>,
    buf: Seq<u8>,
    offsets: Seq<int>,
    changes: Seq<ChangeView>,
)
    requires
        are_records(buf, offsets),
    ensures
        ({
            let (after, recrawl) = record_changes(filter, root, buf, 0, changes);
            &&& changes.len() <= after.len()
            &&& after.take(changes.len() as int) == changes
            &&& recrawl <==> is_one_too_long(root, buf, offsets, 0)
            &&& forall|l: int|
                0 <= l < offsets.len() && is_recorded(filter, root, buf, #[trigger] offsets[l])
                    ==> after.skip(changes.len() as int).contains(
                    recorded_change(root, buf, offsets[l]),
                )
            &&& forall|j: int|
                changes.len() <= j < after.len() ==> is_of_a_record(
                    filter,
                    root,
                    buf,
                    offsets,
                    0,
                    #[trigger] after[j],
                )
        }),
{
    assert(offsets[0] == 0);
    lemma_records(filter, root, buf, offsets, changes, 0);
}

/// A buffer that is too short for a record changes nothing.
pub proof fn law_short_buffer_changes_nothing<F: Filter + ?Sized>(
    filter: &F,
    root: Seq<u8>,
    buf: Seq<u8>,
    changes: Seq<ChangeView>,
)
    requires
        buf.len() < 12,
    ensures
        record_changes(filter, root, buf, 0, changes) == (changes, false),
{
}

/// A directory that a handle is open on.
pub struct WatchedRoot {
    pub path: CanonicalPathBuf,
    /// Whether everything beneath it is watched.
    pub recursive: bool,
}

/// The watch covers what is asked for: it is on that directory, and on everything beneath it if
/// that is asked for, or it is on everything beneath an ancestor.
pub open spec fn covers(root: WatchedRoot, path: Seq<u8>, recursive: bool) -> bool {
    ||| root.path@ == path && (root.recursive || !recursive)
    ||| root.recursive && is_ancestor(root.path@, path)
}

/// Whether a directory is watched already, with everything beneath it if `recursive` says so.
pub fn is_watched(roots: &[WatchedRoot], path: &CanonicalPathBuf, recursive: bool) -> (r: bool)
    ensures
        r == exists|i: int|
            0 <= i < roots@.len() && covers(#[trigger] roots@[i], path@, recursive),
{
    let mut i: usize = 0;
    while i < roots.len()
        invariant
            i <= roots@.len(),
            forall|j: int| 0 <= j < i ==> !covers(#[trigger] roots@[j], path@, recursive),
        decreases roots@.len() - i,
    {
        let root = &roots[i];
        if (root.path == *path && (root.recursive || !recursive)) || (root.recursive
            && root.path.is_parent_of(path)) {
            assert(covers(roots@[i as int], path@, recursive));
            return true;
        }
        i = i + 1;
    }
    false
}

/// Takes a directory up among those that are watched, which a watch on it covers from then on.
pub fn add_watched(roots: &mut Vec<WatchedRoot>, path: CanonicalPathBuf, recursive: bool)
    ensures
        final(roots)@.len() == old(roots)@.len() + 1,
        final(roots)@.take(old(roots)@.len() as int) == old(roots)@,
        final(roots)@.last().path@ == path@,
        final(roots)@.last().recursive == recursive,
        covers(final(roots)@.last(), path@, recursive),
{
    roots.push(WatchedRoot { path, recursive });
    assert(roots@.take(old(roots)@.len() as int) =~= old(roots)@);
}

/// A directory that is watched recursively has a recursive watch on itself or on an ancestor.
pub proof fn law_recursive_watch_covers_the_subtree(roots: Seq<WatchedRoot>, path: Seq<u8>, i: int)
    requires
        0 <= i < roots.len(),
        covers(roots[i], path, true),
    ensures
        roots[i].recursive,
        roots[i].path@ == path || is_ancestor(roots[i].path@, path),
        forall|beneath: Seq<u8>| #[trigger]
            is_ancestor(path, beneath) ==> is_ancestor(roots[i].path@, beneath),
{
    assert forall|beneath: Seq<u8>| #[trigger] is_ancestor(path, beneath) implies is_ancestor(
        roots[i].path@,
        beneath,
    ) by {
        if roots[i].path@ != path {
            law_ancestry_is_transitive(roots[i].path@, path, beneath);
        }
    }
}

/// What to do about a completed read.
#[derive(Debug, Clone, Copy, PartialEq, Eq, Structural)]
pub enum Completion {
    /// Stop reading.
    Stop,
    /// Nothing.
    Ignore,
    /// Crawl everything anew. The read failed, most likely because the root is gone, and is not
    /// issued again.
    Recrawl,
    /// Crawl everything anew, since the buffer was too small for what happened, and read on.
    Overflow,
    /// Handle the records in the buffer, and read on.
    Records,
}

/// Decides what to do about a completed read. `ok` says that it was dequeued without a failure,
/// `failed_read` that what failed is a read, `known` that the root of the read is still watched,
/// and `bytes` how much was read.
pub fn completion(
    shutdown: bool,
    ok: bool,
    failed_read: bool,
    known: bool,
    bytes: u32,
) -> (r: Completion)
    ensures
        r == Completion::Stop <==> shutdown,
        r == Completion::Recrawl <==> !shutdown && !ok && failed_read,
        r == Completion::Overflow <==> !shutdown && ok && known && bytes == 0,
        r == Completion::Records <==> !shutdown && ok && known && bytes > 0,
{
    if shutdown {
        Completion::Stop
    } else if !ok {
        if failed_read {
            Completion::Recrawl
        } else {
            Completion::Ignore
        }
    } else if !known {
        Completion::Ignore
    } else if bytes == 0 {
        Completion::Overflow
    } else {
        Completion::Records
    }
}

/// A watch covers the directory that it is on, with what is beneath it only if it is recursive. A
/// recursive watch covers everything beneath its directory, recursively or not, and no watch covers
/// anything else.
pub proof fn law_watch_covers_its_directory(root: WatchedRoot, path: Seq<u8>, recursive: bool)
    ensures
        root.path@ == path ==> (covers(root, path, recursive) <==> root.recursive || !recursive),
        root.path@ != path ==> (covers(root, path, recursive) <==> root.recursive && is_ancestor(
            root.path@,
            path,
        )),
{
    if is_ancestor(root.path@, path) {
        law_ancestry_is_asymmetric(root.path@, path);
    }
}

} // verus!
