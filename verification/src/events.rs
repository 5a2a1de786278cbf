//! Events, and how events for the same path are merged before they are handed out.

use crate::path::{path_text, CanonicalPathBuf};
use crate::table::{
    id_limit, is_filed, max_entries, table_ids, table_reach, PathKey, PathSource, PathTable,
};
use ecow::EcoVec;
use vstd::prelude::*;

verus! {

/// What happened to a file.
#[derive(Debug, PartialEq, Eq, Structural, Hash, Clone, Copy, PartialOrd, Ord)]
pub enum EventType {
    Create,
    Delete,
    Modified,
    /// A file that was added and removed again within the settle period. It can usually be
    /// ignored.
    Tempfile,
}

/// Something that happened to the file at a path.
#[derive(Debug)]
pub struct Event {
    pub path: CanonicalPathBuf,
    pub ty: EventType,
}

/// An event, with its path taken as the stored bytes.
#[verifier::ext_equal]
pub struct EventView {
    pub path: Seq<u8>,
    pub ty: EventType,
}

impl View for Event {
    type V = EventView;

    open spec fn view(&self) -> EventView {
        EventView { path: self.path@, ty: self.ty }
    }
}

/// The events of a sequence.
pub open spec fn events_view(events: Seq<Event>) -> Seq<EventView> {
    events.map_values(|e: Event| e@)
}

/// The events at the end of `after` that `before` does not have.
pub open spec fn emitted(before: Seq<Event>, after: Seq<Event>) -> Seq<EventView> {
    events_view(after).skip(before.len() as int)
}

impl Clone for Event {
    fn clone(&self) -> (r: Self)
        ensures
            r@ == self@,
    {
        Event { path: self.path.clone(), ty: self.ty }
    }
}

impl PartialEq for Event {
    fn eq(&self, other: &Self) -> (r: bool) {
        self.path == other.path && self.ty == other.ty
    }
}

impl vstd::std_specs::cmp::PartialEqSpecImpl for Event {
    open spec fn obeys_eq_spec() -> bool {
        true
    }

    open spec fn eq_spec(&self, other: &Self) -> bool {
        self@ == other@
    }
}

impl Eq for Event {

}

/// The events that an `EcoVec<Event>` holds, in order.
pub uninterp spec fn eco_events(v: EcoVec<Event>) -> Seq<EventView>;

/// `EcoVec::with_capacity`: a vector without elements. It panics when the allocation would be too
/// large, which the bound on `capacity` rules out.
#[verifier::external_body]
fn events_with_capacity(capacity: usize) -> (v: EcoVec<Event>)
    requires
        capacity <= 65536,
    ensures
        eco_events(v) == Seq::<EventView>::empty(),
{
    EcoVec::with_capacity(capacity)
}

/// `EcoVec::as_slice`: all elements, in order.
#[verifier::external_body]
fn events_slice(v: &EcoVec<Event>) -> (s: &[Event])
    ensures
        s@.map_values(|e: Event| e@) == eco_events(*v),
{
    v.as_slice()
}

/// `EcoVec::push`: adds one element at the end. It panics when the allocation would be too large,
/// which the bound rules out.
#[verifier::external_body]
fn events_push(v: &mut EcoVec<Event>, event: Event)
    requires
        eco_events(*old(v)).len() < id_limit(),
    ensures
        eco_events(*final(v)) == eco_events(*old(v)).push(event@),
{
    v.push(event)
}

/// `EcoVec::make_mut`: gives access to the elements, of which the one at `i` gets another type.
#[verifier::external_body]
fn events_set_type(v: &mut EcoVec<Event>, i: usize, ty: EventType)
    requires
        i < eco_events(*old(v)).len(),
    ensures
        eco_events(*final(v)) == eco_events(*old(v)).update(
            i as int,
            EventView { path: eco_events(*old(v))[i as int].path, ty },
        ),
{
    v.make_mut()[i].ty = ty
}

/// `EcoVec::clone`: a second vector over the same elements.
#[verifier::external_body]
fn events_clone(v: &EcoVec<Event>) -> (copy: EcoVec<Event>)
    ensures
        eco_events(copy) == eco_events(*v),
{
    v.clone()
}

/// `EcoVec::from`: the elements of a `Vec`, in order. It panics when the allocation would be too
/// large, which the bound rules out.
#[verifier::external_body]
fn events_from_vec(events: Vec<Event>) -> (v: EcoVec<Event>)
    requires
        events@.len() <= usize::MAX / 128,
    ensures
        eco_events(v) == events@.map_values(|e: Event| e@),
{
    EcoVec::from(events)
}

impl PathSource for EcoVec<Event> {
    open spec fn has_entry(&self, id: u32) -> bool {
        id < eco_events(*self).len()
    }

    open spec fn entry_path(&self, id: u32) -> Seq<u8> {
        eco_events(*self)[id as int].path
    }

    fn path_at(&self, id: u32) -> (r: &CanonicalPathBuf) {
        let all = events_slice(self);
        proof {
            assert(eco_events(*self)[id as int] == all@[id as int]@);
        }
        &all[id as usize].path
    }
}

/// What is known of a file for which `old` was recorded when `new` is reported. Where `new` cannot
/// follow `old`, what was recorded stays.
pub open spec fn merged_type(old: EventType, new: EventType) -> EventType {
    match (old, new) {
        (EventType::Create, EventType::Delete) => EventType::Tempfile,
        (_, EventType::Delete) => EventType::Delete,
        (EventType::Delete, EventType::Create) => EventType::Modified,
        (EventType::Tempfile, EventType::Create) => EventType::Create,
        _ => old,
    }
}

/// The event at this position is for this path.
pub open spec fn is_event_for(events: Seq<EventView>, i: int, path: Seq<u8>) -> bool {
    0 <= i < events.len() && events[i].path == path
}

/// The events after one more was reported: merged into the event for its path, or added at the end
/// where there is none.
pub open spec fn with_event(events: Seq<EventView>, event: EventView) -> Seq<EventView> {
    if exists|i: int| is_event_for(events, i, event.path) {
        let i = choose|i: int| is_event_for(events, i, event.path);
        events.update(
            i,
            EventView { path: event.path, ty: merged_type(events[i].ty, event.ty) },
        )
    } else {
        events.push(event)
    }
}

/// The events after some more were reported, one after the other.
pub open spec fn with_events(events: Seq<EventView>, more: Seq<EventView>) -> Seq<EventView>
    decreases more.len(),
{
    if more.len() == 0 {
        events
    } else {
        with_event(with_events(events, more.drop_last()), more.last())
    }
}

/// No two events are for the same path.
pub open spec fn distinct_paths(events: Seq<EventView>) -> bool {
    forall|i: int, j: int|
        0 <= i < events.len() && 0 <= j < events.len() && #[trigger] events[i].path
            == #[trigger] events[j].path ==> i == j
}

/// Collects events and keeps one per path.
pub struct EventDebouncer {
    table: PathTable,
    events: EcoVec<Event>,
}

impl View for EventDebouncer {
    type V = Seq<EventView>;

    /// The events collected so far.
    closed spec fn view(&self) -> Seq<EventView> {
        eco_events(self.events)
    }
}

impl EventDebouncer {
    /// No two events are for the same path, and the table finds each.
    pub closed spec fn wf(&self) -> bool {
        &&& distinct_paths(self@)
        &&& self@.len() <= id_limit()
        &&& forall|id: u32| #[trigger] table_ids(self.table).contains(id) <==> id < self@.len()
        &&& is_filed(self.table, self.events)
    }

    /// No two events are for the same path.
    pub proof fn lemma_wf(&self)
        requires
            self.wf(),
        ensures
            distinct_paths(self@),
    {
    }

    /// Collects nothing yet.
    pub fn new() -> (r: Self)
        ensures
            r.wf(),
            r@ == Seq::<EventView>::empty(),
    {
        EventDebouncer { table: PathTable::with_capacity(128), events: events_with_capacity(8) }
    }

    /// Whether one more path can be collected.
    pub fn has_room(&self) -> (r: bool)
        ensures
            r == (self@.len() < id_limit()),
    {
        let all = events_slice(&self.events);
        all.len() < max_entries()
    }

    /// Records an event.
    pub fn add(&mut self, path: CanonicalPathBuf, ty: EventType)
        requires
            old(self).wf(),
            old(self)@.len() < id_limit() || exists|i: int| is_event_for(old(self)@, i, path@),
        ensures
            final(self).wf(),
            final(self)@ == with_event(old(self)@, (EventView { path: path@, ty })),
            distinct_paths(final(self)@),
    {
        let found = self.table.lookup(&PathKey::Stored(&path), &self.events);
        match found {
            Some(id) => {
                let i: usize = id as usize;
                proof {
                    assert(is_event_for(self@, i as int, path@));
                    let k = choose|k: int| is_event_for(self@, k, path@);
                    assert(self@[k].path == self@[i as int].path);
                }
                let all = events_slice(&self.events);
                proof {
                    assert(self@[i as int] == all@[i as int]@);
                }
                let merged: EventType = match (all[i].ty, ty) {
                    // a temporary file that was created and immediately removed
                    (EventType::Create, EventType::Delete) => EventType::Tempfile,
                    (_, EventType::Delete) => EventType::Delete,
                    (EventType::Delete, EventType::Create) => EventType::Modified,
                    // a temporary file that is created again exists once more
                    (EventType::Tempfile, EventType::Create) => EventType::Create,
                    (recorded, _) => recorded,
                };
                events_set_type(&mut self.events, i, merged);
                proof {
                    let before = old(self)@;
                    assert forall|j: int| 0 <= j < before.len() implies #[trigger] self@[j].path
                        == before[j].path by {
                        assert(is_event_for(before, i as int, path@));
                    }
                    assert forall|j: u32| #[trigger] table_ids(self.table).contains(j) implies
                        self.events.has_entry(j) && self.events.entry_path(j) == old(
                        self,
                    ).events.entry_path(j) by {}
                }
            },
            None => {
                proof {
                    assert forall|j: int| !is_event_for(self@, j, path@) by {
                        if is_event_for(self@, j, path@) {
                            assert(table_ids(self.table).contains(j as u32));
                            assert(self.events.entry_path(j as u32) == self@[j].path);
                        }
                    }
                    assert forall|j: int| 0 <= j < self@.len() implies #[trigger] self@[j].path
                        != path@ by {
                        assert(!is_event_for(self@, j, path@));
                    }
                }
                let all = events_slice(&self.events);
                let id: u32 = all.len() as u32;
                self.table.insert(path.as_bytes(), id, &self.events);
                events_push(&mut self.events, Event { path, ty });
                proof {
                    assert forall|j: u32| #[trigger] table_ids(self.table).contains(j) implies
                        self.events.has_entry(j) && table_reach(self.table).contains(
                        (path_text(self.events.entry_path(j)), j),
                    ) by {
                        if j != id {
                            assert(table_ids(old(self).table).contains(j));
                            assert(self.events.entry_path(j) == old(self).events.entry_path(j));
                        }
                    }
                }
            },
        }
    }

    /// Hands out what was collected and starts anew.
    pub fn take(&mut self) -> (r: Events)
        requires
            old(self).wf(),
        ensures
            final(self).wf(),
            r@ == old(self)@,
            distinct_paths(r@),
            final(self)@ == Seq::<EventView>::empty(),
    {
        self.table.clear();
        let mut events = events_with_capacity(8);
        core::mem::swap(&mut events, &mut self.events);
        Events { events }
    }

    /// Whether nothing was collected.
    pub fn is_empty(&self) -> (r: bool)
        ensures
            r == (self@.len() == 0),
    {
        let all = events_slice(&self.events);
        all.len() == 0
    }
}

/// Events that are handed out together. Copies share their elements.
#[derive(Debug)]
pub struct Events {
    events: EcoVec<Event>,
}

impl View for Events {
    type V = Seq<EventView>;

    closed spec fn view(&self) -> Seq<EventView> {
        eco_events(self.events)
    }
}

impl Events {
    /// The events of a list.
    pub fn from(events: Vec<Event>) -> (r: Events)
        requires
            events@.len() <= usize::MAX / 128,
        ensures
            r@ == events@.map_values(|e: Event| e@),
    {
        Events { events: events_from_vec(events) }
    }

    /// The events as a slice.
    pub fn deref(&self) -> (r: &[Event])
        ensures
            r@.map_values(|e: Event| e@) == self@,
    {
        events_slice(&self.events)
    }
}

impl Clone for Events {
    fn clone(&self) -> (r: Self)
        ensures
            r@ == self@,
    {
        Events { events: events_clone(&self.events) }
    }
}

impl PartialEq for Events {
    fn eq(&self, other: &Self) -> (r: bool) {
        let a = events_slice(&self.events);
        let b = events_slice(&other.events);
        assert(self@.len() == a@.len() && other@.len() == b@.len());
        if a.len() != b.len() {
            return false;
        }
        let mut i: usize = 0;
        while i < a.len()
            invariant
                i <= a@.len() == b@.len(),
                events_view(a@) == self@,
                events_view(b@) == other@,
                forall|j: int| 0 <= j < i ==> self@[j] == other@[j],
            decreases a@.len() - i,
        {
            assert(self@[i as int] == a@[i as int]@);
            assert(other@[i as int] == b@[i as int]@);
            if a[i] != b[i] {
                return false;
            }
            i = i + 1;
        }
        assert(self@ =~= other@);
        true
    }
}

impl vstd::std_specs::cmp::PartialEqSpecImpl for Events {
    open spec fn obeys_eq_spec() -> bool {
        true
    }

    open spec fn eq_spec(&self, other: &Self) -> bool {
        self@ == other@
    }
}

impl Eq for Events {

}

/// Whether the file existed before the first event that an event type stands for.
pub open spec fn existed_before(ty: EventType) -> bool {
    ty == EventType::Delete || ty == EventType::Modified
}

/// Whether the file exists after the last event that an event type stands for.
pub open spec fn exists_after(ty: EventType) -> bool {
    ty == EventType::Create || ty == EventType::Modified
}

/// `new` is a single step that can follow: a file is created where there is none, and deleted or
/// modified where there is one.
pub open spec fn can_follow(old: EventType, new: EventType) -> bool {
    match new {
        EventType::Create => !exists_after(old),
        EventType::Delete => exists_after(old),
        EventType::Modified => exists_after(old),
        EventType::Tempfile => false,
    }
}

/// Merging keeps track of what matters: the merged event says whether the file existed before the
/// first of the two, and whether it exists after the second.
pub proof fn law_merge_tracks_existence(old: EventType, new: EventType)
    requires
        can_follow(old, new),
    ensures
        existed_before(merged_type(old, new)) == existed_before(old),
        exists_after(merged_type(old, new)) == exists_after(new),
{
}

/// A file that was there and is gone is reported as deleted, whatever was recorded of it; only a
/// file that was also created in the meantime is a temporary one.
pub proof fn law_delete_is_never_lost(old: EventType)
    ensures
        !exists_after(merged_type(old, EventType::Delete)),
        merged_type(old, EventType::Delete) == EventType::Tempfile <==> old == EventType::Create,
{
}

/// What is recorded for a path.
pub open spec fn recorded(events: Seq<EventView>, path: Seq<u8>) -> Option<EventType> {
    if exists|i: int| is_event_for(events, i, path) {
        Some(events[choose|i: int| is_event_for(events, i, path)].ty)
    } else {
        None
    }
}

/// What was reported for a path, in order.
pub open spec fn reported(events: Seq<EventView>, path: Seq<u8>) -> Seq<EventType>
    decreases events.len(),
{
    if events.len() == 0 {
        Seq::empty()
    } else if events.last().path == path {
        reported(events.drop_last(), path).push(events.last().ty)
    } else {
        reported(events.drop_last(), path)
    }
}

/// Each step can follow the one before it.
pub open spec fn is_history(steps: Seq<EventType>) -> bool {
    forall|i: int, j: int|
        0 <= i && j == i + 1 && j < steps.len() ==> can_follow(
            #[trigger] steps[i],
            #[trigger] steps[j],
        )
}

/// One more event changes what is recorded for its path, and for no other.
proof fn lemma_with_event(events: Seq<EventView>, event: EventView, path: Seq<u8>)
    requires
        distinct_paths(events),
    ensures
        distinct_paths(with_event(events, event)),
        recorded(with_event(events, event), path) == if path != event.path {
            recorded(events, path)
        } else {
            match recorded(events, path) {
                Some(ty) => Some(merged_type(ty, event.ty)),
                None => Some(event.ty),
            }
        },
{
    let after = with_event(events, event);
    let found = exists|i: int| is_event_for(events, i, event.path);
    let at = if found {
        choose|i: int| is_event_for(events, i, event.path)
    } else {
        events.len() as int
    };
    assert forall|i: int| 0 <= i < events.len() implies #[trigger] after[i].path
        == events[i].path by {}
    assert forall|i: int| 0 <= i < events.len() && !found implies #[trigger] events[i].path
        != event.path by {
        assert(!is_event_for(events, i, event.path));
    }
    assert(is_event_for(after, at, event.path));
    let k = choose|k: int| is_event_for(after, k, path);
    let l = choose|l: int| is_event_for(events, l, path);
    if exists|i: int| is_event_for(after, i, path) {
        assert(is_event_for(after, k, path));
        if path == event.path {
            assert(after[k].path == after[at].path);
        } else {
            assert(is_event_for(events, k, path));
            assert(events[k].path == events[l].path);
        }
    } else if exists|i: int| is_event_for(events, i, path) {
        assert(is_event_for(after, l, path));
    }
}

/// What is handed out for a file tells the net effect of what was reported for it: whether the file
/// existed before the first report, and whether it exists after the last. Nothing is handed out for
/// a path for which nothing was reported, and no two events for the same.
pub proof fn law_events_tell_the_net_effect(events: Seq<EventView>, path: Seq<u8>)
    requires
        is_history(reported(events, path)),
    ensures
        distinct_paths(with_events(Seq::empty(), events)),
        ({
            let steps = reported(events, path);
            match recorded(with_events(Seq::empty(), events), path) {
                Some(ty) => {
                    &&& steps.len() > 0
                    &&& existed_before(ty) == existed_before(steps[0])
                    &&& exists_after(ty) == exists_after(steps.last())
                },
                None => steps.len() == 0,
            }
        }),
    decreases events.len(),
{
    if events.len() > 0 {
        let earlier = events.drop_last();
        let steps = reported(earlier, path);
        let all = reported(events, path);
        assert forall|i: int, j: int| 0 <= i && j == i + 1 && j < steps.len() implies can_follow(
            #[trigger] steps[i],
            #[trigger] steps[j],
        ) by {
            assert(steps[i] == all[i] && steps[j] == all[j]);
        }
        law_events_tell_the_net_effect(earlier, path);
        lemma_with_event(with_events(Seq::empty(), earlier), events.last(), path);
        if events.last().path == path && steps.len() > 0 {
            let n = steps.len() as int;
            assert(can_follow(all[n - 1], all[n]));
        }
    }
}

/// Where a path is reported first, or how many reports there are if it is not reported.
pub open spec fn first_report(events: Seq<EventView>, path: Seq<u8>) -> int
    decreases events.len(),
{
    if events.len() == 0 {
        0
    } else if first_report(events.drop_last(), path) < events.len() - 1 {
        first_report(events.drop_last(), path)
    } else if events.last().path == path {
        events.len() - 1
    } else {
        events.len() as int
    }
}

/// One more event leaves those for other paths as they are, and where they are.
pub proof fn law_other_events_are_left_alone(events: Seq<EventView>, event: EventView, k: int)
    requires
        0 <= k < events.len(),
        events[k].path != event.path,
    ensures
        k < with_event(events, event).len(),
        with_event(events, event)[k] == events[k],
{
    if exists|i: int| is_event_for(events, i, event.path) {
        let i = choose|i: int| is_event_for(events, i, event.path);
        assert(is_event_for(events, i, event.path));
    }
}

/// Events are handed out in the order in which their paths were first reported, one for each path
/// that was reported.
pub proof fn law_events_come_in_order_of_first_report(events: Seq<EventView>)
    ensures
        ({
            let all = with_events(Seq::empty(), events);
            &&& distinct_paths(all)
            &&& forall|i: int|
                0 <= i < all.len() ==> 0 <= first_report(events, (#[trigger] all[i]).path)
                    < events.len()
            &&& forall|i: int, j: int|
                0 <= i < j < all.len() ==> first_report(events, (#[trigger] all[i]).path)
                    < first_report(events, (#[trigger] all[j]).path)
            &&& forall|k: int|
                0 <= k < events.len() ==> exists|i: int|
                    is_event_for(all, i, (#[trigger] events[k]).path)
        }),
    decreases events.len(),
{
    if events.len() > 0 {
        let earlier = events.drop_last();
        let event = events.last();
        let before = with_events(Seq::empty(), earlier);
        let all = with_events(Seq::empty(), events);
        law_events_come_in_order_of_first_report(earlier);
        lemma_with_event(before, event, event.path);
        let found = exists|i: int| is_event_for(before, i, event.path);
        assert forall|i: int| 0 <= i < before.len() implies (#[trigger] all[i]).path
            == before[i].path by {}
        assert forall|i: int| 0 <= i < before.len() implies first_report(
            events,
            (#[trigger] all[i]).path,
        ) == first_report(earlier, before[i].path) by {}
        if !found {
            lemma_first_report(earlier, event.path, before);
        }
        assert forall|k: int| 0 <= k < events.len() implies exists|i: int|
            is_event_for(all, i, (#[trigger] events[k]).path) by {
            if k < earlier.len() {
                assert(earlier[k] == events[k]);
                let i = choose|i: int| is_event_for(before, i, earlier[k].path);
                assert(is_event_for(all, i, events[k].path));
            } else if found {
                let i = choose|i: int| is_event_for(before, i, event.path);
                assert(is_event_for(all, i, events[k].path));
            } else {
                assert(is_event_for(all, before.len() as int, events[k].path));
            }
        }
    }
}

/// A path that is not among those for which each report has an event was not reported.
proof fn lemma_first_report(events: Seq<EventView>, path: Seq<u8>, all: Seq<EventView>)
    requires
        forall|k: int|
            0 <= k < events.len() ==> exists|i: int|
                is_event_for(all, i, (#[trigger] events[k]).path),
        !exists|i: int| is_event_for(all, i, path),
    ensures
        first_report(events, path) == events.len(),
    decreases events.len(),
{
    if events.len() > 0 {
        let earlier = events.drop_last();
        assert forall|k: int| 0 <= k < earlier.len() implies exists|i: int|
            is_event_for(all, i, (#[trigger] earlier[k]).path) by {
            assert(earlier[k] == events[k]);
        }
        lemma_first_report(earlier, path, all);
        assert(events[events.len() - 1] == events.last());
    }
}

/// What cannot follow on what was recorded does not change it. A deletion alone always counts.
pub proof fn law_impossible_step_changes_nothing(old: EventType, new: EventType)
    requires
        !can_follow(old, new),
        new != EventType::Delete,
    ensures
        merged_type(old, new) == old,
{
}

/// One more event changes what is recorded for its path, as merging says, or records it where
/// nothing was. Nothing is recorded for any other path on its account, and no event is dropped.
pub proof fn law_event_is_recorded_for_its_path(
    events: Seq<EventView>,
    event: EventView,
    path: Seq<u8>,
)
    requires
        distinct_paths(events),
    ensures
        recorded(with_event(events, event), event.path) == match recorded(events, event.path) {
            Some(ty) => Some(merged_type(ty, event.ty)),
            None => Some(event.ty),
        },
        path != event.path ==> recorded(with_event(events, event), path) == recorded(events, path),
        with_event(events, event).len() == events.len() + if recorded(events, event.path) is None {
            1int
        } else {
            0int
        },
{
    lemma_with_event(events, event, event.path);
    lemma_with_event(events, event, path);
}

/// Events are recorded one after the other, in order.
pub proof fn law_events_are_recorded_in_order(
    events: Seq<EventView>,
    more: Seq<EventView>,
    event: EventView,
)
    ensures
        with_events(events, Seq::empty()) == events,
        with_events(events, more.push(event)) == with_event(with_events(events, more), event),
{
    assert(more.push(event).drop_last() =~= more);
}

} // verus!
