use filesentry::events::{Event, EventDebouncer, EventType, Events};
use filesentry::path::CanonicalPathBuf;

fn path(p: &str) -> CanonicalPathBuf {
    CanonicalPathBuf::assert_canonicalized(p.as_bytes())
}

fn merged(types: &[EventType]) -> EventType {
    let mut debouncer = EventDebouncer::new();
    for &ty in types {
        debouncer.add(path("/tmp/x"), ty);
    }
    let events = debouncer.take();
    assert_eq!(events.deref().len(), 1);
    events.deref()[0].ty
}

#[test]
fn recreated_tempfile_is_a_create() {
    let mut debouncer = EventDebouncer::new();
    debouncer.add(path("/tmp/x"), EventType::Create);
    debouncer.add(path("/tmp/x"), EventType::Delete);
    debouncer.add(path("/tmp/x"), EventType::Create);
    let events = debouncer.take();
    assert_eq!(events.deref().len(), 1);
    assert_eq!(events.deref()[0].ty, EventType::Create);
}

#[test]
fn events_for_a_path_are_merged() {
    assert_eq!(
        merged(&[EventType::Create, EventType::Delete]),
        EventType::Tempfile
    );
    assert_eq!(
        merged(&[EventType::Modified, EventType::Delete]),
        EventType::Delete
    );
    assert_eq!(
        merged(&[EventType::Delete, EventType::Create]),
        EventType::Modified
    );
    assert_eq!(
        merged(&[EventType::Create, EventType::Modified]),
        EventType::Create
    );
    assert_eq!(
        merged(&[EventType::Modified, EventType::Modified]),
        EventType::Modified
    );
    assert_eq!(
        merged(&[EventType::Delete, EventType::Delete]),
        EventType::Delete
    );
}

#[test]
fn events_for_other_paths_are_kept_apart_and_in_order() {
    let mut debouncer = EventDebouncer::new();
    assert!(debouncer.is_empty());
    assert!(debouncer.has_room());
    for i in 0..300 {
        debouncer.add(path(&format!("/tmp/{i}")), EventType::Create);
    }
    debouncer.add(path("/tmp/7"), EventType::Delete);
    assert!(!debouncer.is_empty());
    let events = debouncer.take();
    assert!(debouncer.is_empty());
    let all = events.deref();
    assert_eq!(all.len(), 300);
    for (i, event) in all.iter().enumerate() {
        assert_eq!(event.path.as_bytes(), format!("/tmp/{i}").as_bytes());
        let ty = if i == 7 {
            EventType::Tempfile
        } else {
            EventType::Create
        };
        assert_eq!(event.ty, ty);
    }
    // What was handed out is not seen again.
    debouncer.add(path("/tmp/7"), EventType::Delete);
    let events = debouncer.take();
    assert_eq!(events.deref().len(), 1);
    assert_eq!(events.deref()[0].ty, EventType::Delete);
}

#[test]
fn copies_of_events_share_their_contents() {
    let events = Events::from(vec![
        Event {
            path: path("/a"),
            ty: EventType::Create,
        },
        Event {
            path: path("/b"),
            ty: EventType::Delete,
        },
    ]);
    let copy = events.clone();
    assert_eq!(copy.deref().len(), 2);
    assert!(copy.deref()[1] == events.deref()[1]);
    assert_eq!(copy.deref()[1].path.as_bytes(), b"/b");
    assert_eq!(copy.deref()[1].ty, EventType::Delete);
    assert!(copy == events);
    assert!(copy != Events::from(Vec::new()));
}
