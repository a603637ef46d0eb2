use platforms::change::{ChangeError, ChangeLog, ChangeType, ComponentEvent};

#[test]
fn combination_table() {
    assert_eq!(ChangeType::Unchanged.and(ChangeType::Inserted), ChangeType::Inserted);
    assert_eq!(ChangeType::Modified.and(ChangeType::Unchanged), ChangeType::Modified);
    assert_eq!(ChangeType::Inserted.and(ChangeType::Modified), ChangeType::Inserted);
    assert_eq!(ChangeType::Inserted.and(ChangeType::Removed), ChangeType::Unchanged);
    assert_eq!(ChangeType::Modified.and(ChangeType::Modified), ChangeType::Modified);
    assert_eq!(ChangeType::Modified.and(ChangeType::Removed), ChangeType::Removed);
    assert_eq!(ChangeType::Removed.and(ChangeType::Inserted), ChangeType::Modified);
    assert_eq!(ChangeType::Removed.and(ChangeType::Unchanged), ChangeType::Removed);
}

#[test]
fn invalid_combinations_are_reported() {
    assert!(!ChangeType::Inserted.combines_with(ChangeType::Inserted));
    assert!(!ChangeType::Modified.combines_with(ChangeType::Inserted));
    assert!(!ChangeType::Removed.combines_with(ChangeType::Modified));
    assert!(!ChangeType::Removed.combines_with(ChangeType::Removed));
    assert!(ChangeType::Removed.combines_with(ChangeType::Inserted));
    assert!(ChangeType::Unchanged.combines_with(ChangeType::Removed));
}

#[test]
fn add_change_folds_in_place() {
    let mut c = ChangeType::Removed;
    c.add_change(ChangeType::Inserted);
    assert_eq!(c, ChangeType::Modified);
    c.add_change(ChangeType::Removed);
    assert_eq!(c, ChangeType::Removed);
}

#[test]
fn event_kind_and_index() {
    assert_eq!(ChangeType::of(ComponentEvent::Inserted(3)), ChangeType::Inserted);
    assert_eq!(ChangeType::of(ComponentEvent::Modified(3)), ChangeType::Modified);
    assert_eq!(ChangeType::of(ComponentEvent::Removed(3)), ChangeType::Removed);
    assert_eq!(ComponentEvent::Modified(42).idx(), 42);
    assert_eq!(ComponentEvent::Removed(7).idx(), 7);
}

#[test]
fn events_collapse_per_entity() {
    let events = vec![
        ComponentEvent::Inserted(1),
        ComponentEvent::Modified(2),
        ComponentEvent::Modified(1),
        ComponentEvent::Inserted(3),
        ComponentEvent::Removed(3),
        ComponentEvent::Removed(2),
        ComponentEvent::Removed(4),
        ComponentEvent::Inserted(4),
    ];
    let log = ChangeLog::from_events(&events).unwrap();
    assert_eq!(log.get(1), ChangeType::Inserted);
    assert_eq!(log.get(2), ChangeType::Removed);
    assert_eq!(log.get(3), ChangeType::Unchanged);
    assert_eq!(log.get(4), ChangeType::Modified);
    assert_eq!(log.get(5), ChangeType::Unchanged);
}

#[test]
fn empty_stream_changes_nothing() {
    let log = ChangeLog::from_events(&Vec::new()).unwrap();
    assert_eq!(log.get(0), ChangeType::Unchanged);
    assert_eq!(ChangeLog::new().get(9), ChangeType::Unchanged);
}

#[test]
fn double_insert_fails_at_its_position() {
    let events = vec![
        ComponentEvent::Inserted(1),
        ComponentEvent::Inserted(2),
        ComponentEvent::Inserted(1),
    ];
    assert_eq!(
        ChangeLog::from_events(&events).err(),
        Some(ChangeError::BadCombination { position: 2 })
    );
}

#[test]
fn modify_after_remove_fails() {
    let events = vec![ComponentEvent::Removed(5), ComponentEvent::Modified(5)];
    assert_eq!(
        ChangeLog::from_events(&events).err(),
        Some(ChangeError::BadCombination { position: 1 })
    );
}
