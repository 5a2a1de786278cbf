//! What inotify reports, and which changes that makes pending.

use crate::config::Filter;
use crate::eco::{bytes_limit, eco_bytes};
use crate::path::{
    has_room_for, is_stored, joined, path_text, CanonicalPathBuf,
};
use crate::pending::{ChangeView, Flags, PendingChanges};
use ecow::EcoVec;
use hashbrown::DefaultHashBuilder;
use papaya::HashMap;
use vstd::prelude::*;

verus! {

/// Something was created in the watched directory.
pub const IN_CREATE: u32 = 0x100;

/// Something was deleted from the watched directory.
pub const IN_DELETE: u32 = 0x200;

/// The watched directory itself was deleted.
pub const IN_DELETE_SELF: u32 = 0x400;

/// The watched directory itself was moved.
pub const IN_MOVE_SELF: u32 = 0x800;

/// The file system of the watched directory was unmounted.
pub const IN_UNMOUNT: u32 = 0x2000;

/// Events were lost.
pub const IN_Q_OVERFLOW: u32 = 0x4000;

/// The watch was removed.
pub const IN_IGNORED: u32 = 0x8000;

/// What the event is about is a directory.
pub const IN_ISDIR: u32 = 0x4000_0000;

/// An event as the kernel reports it.
pub struct Event<'a> {
    /// The watch, or a negative number where the event belongs to none.
    pub wd: i32,
    /// What happened, as a set of bits.
    pub mask: u32,
    /// The name of the entry of the watched directory that it happened to; empty if it happened to
    /// the directory itself.
    pub child: &'a [u8],
}

/// What an event amounts to.
pub enum Effect {
    /// Nothing is to be done.
    Nothing,
    /// All roots are to be crawled anew.
    Recrawl,
    /// This path is to be looked into.
    Change(CanonicalPathBuf, Flags),
}

/// What an event amounts to, with the path taken as the stored bytes.
pub enum EffectView {
    Nothing,
    Recrawl,
    Change(ChangeView),
}

impl View for Effect {
    type V = EffectView;

    open spec fn view(&self) -> EffectView {
        match self {
            Effect::Nothing => EffectView::Nothing,
            Effect::Recrawl => EffectView::Recrawl,
            Effect::Change(path, flags) => EffectView::Change(
                ChangeView { path: path@, flags: *flags },
            ),
        }
    }
}

/// One of these bits is set in the mask.
pub open spec fn has_any(mask: u32, bits: u32) -> bool {
    mask & bits != 0
}

/// The event says that the watch is of no use any more.
pub open spec fn ends_watch(mask: u32) -> bool {
    has_any(mask, IN_IGNORED) || has_any(mask, IN_MOVE_SELF) || has_any(mask, IN_DELETE_SELF)
        || has_any(mask, IN_UNMOUNT)
}

/// What an event amounts to. `dir` is the stored path of the directory that the watch is on, where
/// the watch is known.
pub open spec fn effect_of<F: Filter + ?Sized>(
    filter: &F,
    dir: Option<Seq<u8>>,
    wd: int,
    mask: u32,
    child: Seq<u8>,
) -> EffectView {
    if has_any(mask, IN_Q_OVERFLOW) {
        EffectView::Recrawl
    } else {
        match dir {
            None => if wd < 0 || has_any(mask, IN_MOVE_SELF) || has_any(mask, IN_IGNORED) {
                EffectView::Recrawl
            } else {
                EffectView::Nothing
            },
            Some(dir) => if child.len() == 0 || ends_watch(mask) {
                EffectView::Change(ChangeView { path: dir, flags: Flags::recursive_crawl() })
            } else if filter.ignores(
                path_text(joined(dir, child)),
                Some(has_any(mask, IN_ISDIR)),
            ) {
                EffectView::Nothing
            } else {
                EffectView::Change(
                    ChangeView {
                        path: joined(dir, child),
                        flags: if has_any(mask, IN_CREATE) || has_any(mask, IN_DELETE) {
                            Flags::recursive_crawl()
                        } else {
                            Flags::none()
                        },
                    },
                )
            },
        }
    }
}

/// Decides what an event amounts to.
pub fn interpret<F: Filter + ?Sized>(
    filter: &F,
    dir: Option<&CanonicalPathBuf>,
    event: &Event<'_>,
) -> (r: Effect)
    requires
        dir matches Some(dir) ==> has_room_for(dir@, event.child@.len() as int),
    ensures
        r@ == effect_of(
            filter,
            match dir {
                Some(dir) => Some(dir@),
                None => None,
            },
            event.wd as int,
            event.mask,
            event.child@,
        ),
{
    // Whatever was lost, all of it has to be looked through again.
    if event.mask & IN_Q_OVERFLOW != 0 {
        return Effect::Recrawl;
    }
    let dir = match dir {
        Some(dir) => dir,
        None => {
            if event.wd < 0 || event.mask & IN_MOVE_SELF != 0 || event.mask & IN_IGNORED != 0 {
                return Effect::Recrawl;
            }
            return Effect::Nothing;
        },
    };
    let ended = event.mask & IN_IGNORED != 0 || event.mask & IN_MOVE_SELF != 0 || event.mask
        & IN_DELETE_SELF != 0 || event.mask & IN_UNMOUNT != 0;
    if event.child.len() == 0 || ended {
        return Effect::Change(dir.clone(), Flags::needs_recursive_crawl());
    }
    let path = dir.deref().join(event.child);
    if filter.ignore_path(path.as_bytes(), Some(event.mask & IN_ISDIR != 0)) {
        return Effect::Nothing;
    }
    if event.mask & IN_CREATE != 0 || event.mask & IN_DELETE != 0 {
        Effect::Change(path, Flags::needs_recursive_crawl())
    } else {
        Effect::Change(path, Flags::empty())
    }
}

/// `papaya::HashMap`, a concurrent hash map.
#[verifier::external_type_specification]
#[verifier::external_body]
#[verifier::reject_recursive_types(K)]
#[verifier::reject_recursive_types(V)]
#[verifier::reject_recursive_types(S)]
pub struct ExHashMap<K, V, S>(HashMap<K, V, S>);

/// `hashbrown::DefaultHashBuilder`, which makes the hashers of a hash map.
#[verifier::external_type_specification]
#[verifier::external_body]
pub struct ExDefaultHashBuilder(DefaultHashBuilder);

/// A map from watches to the stored paths of the directories that they are on.
pub type WatchMap = HashMap<i32, EcoVec<u8>, DefaultHashBuilder>;

/// The stored paths that a map holds, by their watches.
pub uninterp spec fn watch_paths(map: WatchMap) -> Map<i32, Seq<u8>>;

/// `HashMap::with_capacity_and_hasher`: a map that holds nothing.
#[verifier::external_body]
fn map_with_capacity(capacity: usize) -> (map: WatchMap)
    requires
        capacity <= 65536,
    ensures
        watch_paths(map).dom() == Set::<i32>::empty(),
{
    HashMap::with_capacity_and_hasher(capacity, DefaultHashBuilder::default())
}

/// `HashMapRef::get`: a copy of the value of a key, or `None` where the key has none.
#[verifier::external_body]
fn map_get(map: &WatchMap, wd: i32) -> (path: Option<EcoVec<u8>>)
    ensures
        match path {
            Some(path) => watch_paths(*map).contains_key(wd) && eco_bytes(path) == watch_paths(
                *map,
            )[wd],
            None => !watch_paths(*map).contains_key(wd),
        },
{
    map.pin().get(&wd).cloned()
}

/// `HashMapRef::insert`: gives a key a value, in place of the one that it has.
#[verifier::external_body]
fn map_insert(map: &mut WatchMap, wd: i32, path: EcoVec<u8>)
    ensures
        watch_paths(*final(map)) == watch_paths(*old(map)).insert(wd, eco_bytes(path)),
{
    map.pin().insert(wd, path);
}

/// `HashMapRef::remove`: takes the value of a key away, where the key has one.
#[verifier::external_body]
fn map_remove(map: &mut WatchMap, wd: i32)
    ensures
        watch_paths(*final(map)) == watch_paths(*old(map)).remove(wd),
{
    map.pin().remove(&wd);
}

/// The longest stored path that is watched. It leaves room for a name behind it.
pub open spec fn path_limit() -> int {
    bytes_limit() / 2
}

/// The directories that are watched, by their watches.
pub struct Watches {
    map: WatchMap,
}

impl View for Watches {
    type V = Map<i32, Seq<u8>>;

    /// The stored paths, by their watches.
    closed spec fn view(&self) -> Map<i32, Seq<u8>> {
        watch_paths(self.map)
    }
}

impl Watches {
    /// Each path is a stored one, and none is longer than what is watched.
    pub open spec fn wf(&self) -> bool {
        forall|wd: i32| #[trigger]
            self@.contains_key(wd) ==> is_stored(self@[wd]) && self@[wd].len() <= path_limit()
    }

    /// Nothing is watched.
    pub fn new() -> (r: Watches)
        ensures
            r.wf(),
            r@ == Map::<i32, Seq<u8>>::empty(),
    {
        let r = Watches { map: map_with_capacity(1024) };
        assert(r@ =~= Map::<i32, Seq<u8>>::empty());
        r
    }

    /// Whether a path is short enough to be watched.
    pub fn is_watchable(path: &CanonicalPathBuf) -> (r: bool)
        ensures
            r == (path@.len() <= path_limit()),
    {
        path.stored_len() <= usize::MAX / 8 / 2
    }

    /// Whether a name is short enough to be added to the path of any watch.
    pub fn is_joinable(child: &[u8]) -> (r: bool)
        ensures
            r == (child@.len() + 3 <= path_limit()),
    {
        child.len() <= usize::MAX / 8 / 2 - 3
    }

    /// Records the watch on a directory.
    pub fn watch(&mut self, wd: i32, path: CanonicalPathBuf)
        requires
            old(self).wf(),
            path@.len() <= path_limit(),
        ensures
            final(self).wf(),
            final(self)@ == old(self)@.insert(wd, path@),
    {
        map_insert(&mut self.map, wd, path.into_buf());
    }

    /// Records what an event means for the changes that are pending. A watch that was removed is
    /// forgotten.
    pub fn handle_event<F: Filter + ?Sized>(
        &mut self,
        event: &Event<'_>,
        filter: &F,
        changes: &mut PendingChanges,
    )
        requires
            old(self).wf(),
            event.child@.len() + 3 <= path_limit(),
        ensures
            final(self).wf(),
            ({
                let effect = effect_of(
                    filter,
                    old(self)@.get(event.wd),
                    event.wd as int,
                    event.mask,
                    event.child@,
                );
                &&& final(changes).changes() == match effect {
                    EffectView::Change(change) => old(changes).changes().push(
                        ChangeView {
                            flags: Flags { origin_watcher: true, ..change.flags },
                            ..change
                        },
                    ),
                    _ => old(changes).changes(),
                }
                &&& final(changes).wants_recrawl() == (old(changes).wants_recrawl()
                    || effect is Recrawl)
            }),
            final(self)@ == if has_any(event.mask, IN_IGNORED) && !has_any(
                event.mask,
                IN_Q_OVERFLOW,
            ) {
                old(self)@.remove(event.wd)
            } else {
                old(self)@
            },
            final(self)@ == if event.mask & 0x8000 != 0 && event.mask & 0x4000 == 0 {
                old(self)@.remove(event.wd)
            } else {
                old(self)@
            },
    {
        let dir = match map_get(&self.map, event.wd) {
            Some(buf) => Some(CanonicalPathBuf::from_buf(buf)),
            None => None,
        };
        let effect = interpret(filter, dir.as_ref(), event);
        if event.mask & IN_IGNORED != 0 && event.mask & IN_Q_OVERFLOW == 0 {
            map_remove(&mut self.map, event.wd);
        }
        match effect {
            Effect::Nothing => {},
            Effect::Recrawl => {
                changes.recrawl();
            },
            Effect::Change(path, flags) => {
                changes.add_watcher(path, flags);
            },
        }
    }
}

/// An event for a directory that is watched is passed over only where the filter ignores the path
/// that it is about.
pub proof fn law_only_ignored_paths_are_passed_over<F: Filter + ?Sized>(
    filter: &F,
    dir: Seq<u8>,
    wd: int,
    mask: u32,
    child: Seq<u8>,
)
    requires
        effect_of(filter, Some(dir), wd, mask, child) is Nothing,
    ensures
        child.len() > 0,
        filter.ignores(path_text(joined(dir, child)), Some(has_any(mask, IN_ISDIR))),
{
}

/// Where events were lost, or one came that belongs to no watch, everything is crawled anew,
/// whatever else the event says. For a directory that is watched nothing else asks for that.
pub proof fn law_lost_events_ask_for_a_recrawl<F: Filter + ?Sized>(
    filter: &F,
    dir: Option<Seq<u8>>,
    wd: int,
    mask: u32,
    child: Seq<u8>,
)
    ensures
        mask & 0x4000 != 0 || (dir is None && wd < 0) ==> effect_of(
            filter,
            dir,
            wd,
            mask,
            child,
        ) is Recrawl,
        mask & 0x4000 == 0 && dir is Some ==> !(effect_of(filter, dir, wd, mask, child) is Recrawl),
{
}

/// What happens to an entry of a watched directory makes one change pending: for the directory
/// joined with the name, asking for what is beneath it to be looked through if and only if the
/// entry was created or deleted. It is passed over if and only if the filter ignores that path.
/// This holds of every event that names an entry, as long as the watch goes on and no events were
/// lost.
pub proof fn law_named_event_is_a_change_of_the_entry<F: Filter + ?Sized>(
    filter: &F,
    dir: Seq<u8>,
    wd: int,
    mask: u32,
    child: Seq<u8>,
)
    requires
        child.len() > 0,
        mask & 0x4000 == 0,
        mask & 0x8000 == 0,
        mask & 0x2000 == 0,
        mask & 0x800 == 0,
        mask & 0x400 == 0,
    ensures
        effect_of(filter, Some(dir), wd, mask, child) is Nothing <==> filter.ignores(
            path_text(joined(dir, child)),
            Some(mask & 0x4000_0000 != 0),
        ),
        effect_of(filter, Some(dir), wd, mask, child) is Nothing || effect_of(
            filter,
            Some(dir),
            wd,
            mask,
            child,
        ) is Change,
        effect_of(filter, Some(dir), wd, mask, child) matches EffectView::Change(change) ==> {
            &&& change.path == joined(dir, child)
            &&& change.flags.needs_recursive_crawl <==> mask & 0x100 != 0 || mask & 0x200 != 0
            &&& !change.flags.needs_non_recursive_crawl
            &&& !change.flags.mark_recursive
            &&& !change.flags.origin_watcher
        },
{
}

/// What happens to a watched directory itself, and the end of its watch, whatever name comes with
/// it, make one change pending: for the directory, asking for everything beneath it to be looked
/// through. The filter has no say in it.
pub proof fn law_event_of_the_directory_looks_through_it<F: Filter + ?Sized>(
    filter: &F,
    dir: Seq<u8>,
    wd: int,
    mask: u32,
    child: Seq<u8>,
)
    requires
        mask & 0x4000 == 0,
        child.len() == 0 || mask & 0x8000 != 0 || mask & 0x2000 != 0 || mask & 0x800 != 0 || mask
            & 0x400 != 0,
    ensures
        effect_of(filter, Some(dir), wd, mask, child) matches EffectView::Change(change) && {
            &&& change.path == dir
            &&& change.flags.needs_recursive_crawl
            &&& !change.flags.needs_non_recursive_crawl
            &&& !change.flags.mark_recursive
            &&& !change.flags.origin_watcher
        },
{
}

/// An event of a watch that is not known is passed over, unless it says that the watch ended or
/// that its directory was moved: what it stood for may be anywhere then.
pub proof fn law_unknown_watch_is_passed_over<F: Filter + ?Sized>(
    filter: &F,
    wd: int,
    mask: u32,
    child: Seq<u8>,
)
    requires
        wd >= 0,
        mask & 0x4000 == 0,
    ensures
        effect_of(filter, None, wd, mask, child) is Recrawl <==> mask & 0x800 != 0 || mask & 0x8000
            != 0,
        effect_of(filter, None, wd, mask, child) is Nothing <==> mask & 0x800 == 0 && mask & 0x8000
            == 0,
{
}

/// Directories with paths of up to a hundred thousand bytes can be watched, and names as long can
/// be joined to them.
pub proof fn law_long_paths_are_watched()
    ensures
        path_limit() > 100_003,
        2 * path_limit() <= bytes_limit(),
{
}

} // verus!
