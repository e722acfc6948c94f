use pane_bridge::codec::{Cursor, Event};
use pane_bridge::registry::{Outcome, Registry, RemotePaneState};

fn added(registry: &mut Registry, id: u64) -> pane_bridge::pty::TmuxPty {
    let applied = registry.apply(Event::PaneAdded { pane_id: id, parent_window: None });
    assert_eq!(applied.outcome, Outcome::Added);
    applied.pane.expect("a new pane comes with its handle")
}

#[test]
fn new_registry_is_empty() {
    let registry = Registry::new();
    assert_eq!(registry.len(), 0);
    assert!(registry.get(0).is_none());
}

#[test]
fn upsert_stores_and_replaces() {
    let mut registry = Registry::new();
    let (tx, _rx) = flume::unbounded();
    registry.upsert(5, RemotePaneState::new(5, 100, 30, tx));
    assert_eq!(registry.len(), 1);
    let state = registry.get(5).unwrap();
    assert_eq!((state.id(), state.width(), state.height()), (5, 100, 30));
    assert!(state.is_alive());
    assert_eq!(state.exit_status(), 0);
    assert_eq!(state.cursor(), Cursor { x: 0, y: 0 });

    let (tx2, _rx2) = flume::unbounded();
    registry.upsert(5, RemotePaneState::new(5, 90, 20, tx2));
    assert_eq!(registry.len(), 1);
    let state = registry.get(5).unwrap();
    assert_eq!((state.width(), state.height()), (90, 20));
}

#[test]
fn upsert_stores_under_the_given_id() {
    let mut registry = Registry::new();
    let (tx, _rx) = flume::unbounded();
    registry.upsert(8, RemotePaneState::new(5, 100, 30, tx));
    assert!(registry.get(5).is_none());
    assert_eq!(registry.get(8).unwrap().id(), 8);
}

#[test]
fn remove_takes_only_the_named_pane() {
    let mut registry = Registry::new();
    let _a = added(&mut registry, 1);
    let _b = added(&mut registry, 2);
    let _c = added(&mut registry, 3);
    let gone = registry.remove(2).unwrap();
    assert_eq!(gone.id(), 2);
    assert_eq!(registry.len(), 2);
    assert!(registry.get(2).is_none());
    assert!(registry.get(1).is_some());
    assert!(registry.get(3).is_some());
    assert!(registry.remove(2).is_none());
    assert_eq!(registry.len(), 2);
}

#[test]
fn added_pane_has_default_geometry() {
    let mut registry = Registry::new();
    let pty = added(&mut registry, 1);
    assert_eq!(pty.pane_id(), 1);
    let state = registry.get(1).unwrap();
    assert_eq!((state.width(), state.height()), (80, 24));
    assert!(state.is_alive());
}

#[test]
fn adding_twice_is_reported_and_changes_nothing() {
    let mut registry = Registry::new();
    let _pty = added(&mut registry, 1);
    registry.apply(Event::LayoutChanged { pane_id: 1, width: 10, height: 11, cursor: None });
    let again = registry.apply(Event::PaneAdded { pane_id: 1, parent_window: Some(3) });
    assert_eq!(again.outcome, Outcome::AlreadyAdded);
    assert!(again.pane.is_none());
    assert_eq!(registry.len(), 1);
    assert_eq!(registry.get(1).unwrap().width(), 10);
}

#[test]
fn layout_change_sets_geometry_and_cursor() {
    let mut registry = Registry::new();
    let _pty = added(&mut registry, 1);
    let applied = registry.apply(Event::LayoutChanged {
        pane_id: 1,
        width: 132,
        height: 43,
        cursor: Some(Cursor { x: 3, y: 4 }),
    });
    assert_eq!(applied.outcome, Outcome::Resized);
    let state = registry.get(1).unwrap();
    assert_eq!((state.width(), state.height(), state.cursor()), (132, 43, Cursor { x: 3, y: 4 }));
    registry.apply(Event::LayoutChanged { pane_id: 1, width: 60, height: 20, cursor: None });
    let state = registry.get(1).unwrap();
    assert_eq!((state.width(), state.height(), state.cursor()), (60, 20, Cursor { x: 3, y: 4 }));
}

#[test]
fn geometry_stays_until_the_next_layout_change() {
    let mut registry = Registry::new();
    let _a = added(&mut registry, 1);
    let _b = added(&mut registry, 2);
    registry.apply(Event::LayoutChanged { pane_id: 1, width: 100, height: 50, cursor: None });
    registry.apply(Event::Output { pane_id: 1, data: b"x".to_vec() });
    registry.apply(Event::LayoutChanged { pane_id: 2, width: 1, height: 2, cursor: None });
    registry.apply(Event::CommandReply { seq: 1, payload: vec![] });
    registry.apply(Event::Unknown { raw: b"?".to_vec() });
    registry.apply(Event::PaneExited { pane_id: 1, status: 3 });
    let state = registry.get(1).unwrap();
    assert_eq!((state.width(), state.height()), (100, 50));
    registry.apply(Event::LayoutChanged { pane_id: 1, width: 101, height: 51, cursor: None });
    let state = registry.get(1).unwrap();
    assert_eq!((state.width(), state.height()), (101, 51));
}

#[test]
fn output_does_not_touch_geometry() {
    let mut registry = Registry::new();
    let _pty = added(&mut registry, 1);
    registry.apply(Event::LayoutChanged {
        pane_id: 1,
        width: 90,
        height: 30,
        cursor: Some(Cursor { x: 1, y: 2 }),
    });
    let applied = registry.apply(Event::Output { pane_id: 1, data: b"abc".to_vec() });
    assert_eq!(applied.outcome, Outcome::Forwarded);
    let state = registry.get(1).unwrap();
    assert_eq!((state.width(), state.height(), state.cursor()), (90, 30, Cursor { x: 1, y: 2 }));
    assert!(state.is_alive());
}

#[test]
fn output_without_bytes_is_skipped() {
    let mut registry = Registry::new();
    let pty = added(&mut registry, 1);
    let applied = registry.apply(Event::Output { pane_id: 1, data: vec![] });
    assert_eq!(applied.outcome, Outcome::Skipped);
    registry.apply(Event::Output { pane_id: 1, data: b"z".to_vec() });
    let mut reader = pty.try_clone_reader();
    let mut buf = [0u8; 8];
    assert_eq!(reader.read(&mut buf), pane_bridge::pty::ReadOutcome::Data(1));
    assert_eq!(buf[0], b'z');
}

#[test]
fn output_for_a_pane_without_reader_is_no_error() {
    let mut registry = Registry::new();
    let pty = added(&mut registry, 1);
    drop(pty);
    let applied = registry.apply(Event::Output { pane_id: 1, data: b"lost".to_vec() });
    assert_eq!(applied.outcome, Outcome::Forwarded);
    assert!(registry.get(1).unwrap().is_alive());
}

#[test]
fn exit_marks_the_pane_and_keeps_the_first_status() {
    let mut registry = Registry::new();
    let _pty = added(&mut registry, 1);
    let applied = registry.apply(Event::PaneExited { pane_id: 1, status: 42 });
    assert_eq!(applied.outcome, Outcome::Exited);
    let state = registry.get(1).unwrap();
    assert!(!state.is_alive());
    assert_eq!(state.exit_status(), 42);
    assert_eq!(registry.len(), 1);

    let again = registry.apply(Event::PaneExited { pane_id: 1, status: 7 });
    assert_eq!(again.outcome, Outcome::AlreadyExited);
    assert_eq!(registry.get(1).unwrap().exit_status(), 42);
    let late = registry.apply(Event::Output { pane_id: 1, data: b"late".to_vec() });
    assert_eq!(late.outcome, Outcome::AlreadyExited);
}

#[test]
fn command_reply_and_unknown_are_skipped() {
    let mut registry = Registry::new();
    let _pty = added(&mut registry, 1);
    let reply = registry.apply(Event::CommandReply { seq: 3, payload: b"ok".to_vec() });
    assert_eq!(reply.outcome, Outcome::Replied);
    assert_eq!(reply.reply, Some((3, b"ok".to_vec())));
    assert!(reply.pane.is_none());
    let unknown = registry.apply(Event::Unknown { raw: b"%future 1 2".to_vec() });
    assert_eq!(unknown.outcome, Outcome::Skipped);
    assert_eq!(unknown.reply, None);
    assert_eq!(registry.len(), 1);
}

#[test]
fn event_for_unknown_pane_is_dropped() {
    let mut registry = Registry::new();
    let _pty = added(&mut registry, 1);
    registry.apply(Event::LayoutChanged { pane_id: 1, width: 70, height: 20, cursor: None });
    for event in [
        Event::Output { pane_id: 99, data: b"x".to_vec() },
        Event::LayoutChanged { pane_id: 99, width: 1, height: 1, cursor: None },
        Event::PaneExited { pane_id: 99, status: 1 },
    ] {
        let applied = registry.apply(event);
        assert_eq!(applied.outcome, Outcome::UnknownPane);
        assert!(applied.pane.is_none());
        assert_eq!(registry.len(), 1);
        assert!(registry.get(99).is_none());
        let state = registry.get(1).unwrap();
        assert_eq!((state.width(), state.height(), state.is_alive()), (70, 20, true));
    }
}

#[test]
fn disconnect_ends_every_pane() {
    let mut registry = Registry::new();
    let _a = added(&mut registry, 1);
    let _b = added(&mut registry, 2);
    let _c = added(&mut registry, 3);
    registry.apply(Event::PaneExited { pane_id: 2, status: 9 });
    registry.apply(Event::LayoutChanged { pane_id: 3, width: 11, height: 12, cursor: None });
    registry.disconnect();
    assert_eq!(registry.len(), 3);
    for id in [1u64, 2, 3] {
        assert!(!registry.get(id).unwrap().is_alive());
    }
    assert_eq!(registry.get(1).unwrap().exit_status(), 0);
    assert_eq!(registry.get(2).unwrap().exit_status(), 9);
    assert_eq!((registry.get(3).unwrap().width(), registry.get(3).unwrap().height()), (11, 12));
}

#[test]
fn upserted_pane_gets_its_output_on_the_given_channel() {
    let mut registry = Registry::new();
    let (tx, rx) = flume::unbounded();
    let (other_tx, other_rx) = flume::unbounded();
    registry.upsert(5, RemotePaneState::new(5, 100, 30, tx));
    registry.upsert(6, RemotePaneState::new(6, 100, 30, other_tx));
    registry.apply(Event::Output { pane_id: 5, data: b"five".to_vec() });
    registry.apply(Event::Output { pane_id: 6, data: b"six".to_vec() });
    registry.apply(Event::LayoutChanged { pane_id: 5, width: 1, height: 1, cursor: None });
    registry.apply(Event::Output { pane_id: 5, data: b"more".to_vec() });
    assert_eq!(rx.try_recv(), Ok(b"five".to_vec()));
    assert_eq!(rx.try_recv(), Ok(b"more".to_vec()));
    assert_eq!(rx.try_recv(), Err(flume::TryRecvError::Empty));
    assert_eq!(other_rx.try_recv(), Ok(b"six".to_vec()));
    registry.apply(Event::PaneExited { pane_id: 5, status: 0 });
    assert_eq!(rx.try_recv(), Err(flume::TryRecvError::Disconnected));
    assert_eq!(other_rx.try_recv(), Err(flume::TryRecvError::Empty));
    registry.disconnect();
    assert_eq!(other_rx.try_recv(), Err(flume::TryRecvError::Disconnected));
}

#[test]
fn removed_pane_takes_its_sender_along() {
    let mut registry = Registry::new();
    let (tx, rx) = flume::unbounded::<Vec<u8>>();
    registry.upsert(5, RemotePaneState::new(5, 100, 30, tx));
    let state = registry.remove(5).unwrap();
    assert_eq!(rx.try_recv(), Err(flume::TryRecvError::Empty));
    drop(state);
    assert_eq!(rx.try_recv(), Err(flume::TryRecvError::Disconnected));
}
