use platforms::change::{ChangeLog, ComponentEvent};
use platforms::sync::HandleTable;

fn log_of(events: Vec<ComponentEvent>) -> ChangeLog {
    ChangeLog::from_events(&events).unwrap()
}

#[test]
fn live_entities_get_fresh_handles() {
    let mut table = HandleTable::new();
    let changes = log_of(vec![ComponentEvent::Inserted(4), ComponentEvent::Inserted(9)]);
    let plan = table.synchronize(&changes, &vec![4, 9]);
    assert!(plan.updates.is_empty());
    assert_eq!(plan.inserts, vec![(4, 0), (9, 1)]);
    assert!(plan.removes.is_empty());
    assert_eq!(table.handle_of(4), Some(0));
    assert_eq!(table.handle_of(9), Some(1));
    assert_eq!(table.entity_of(1), Some(9));
    assert_eq!(table.entity_of(2), None);
    assert_eq!(table.len(), 2);
}

#[test]
fn modified_entities_are_refreshed() {
    let mut table = HandleTable::new();
    table.synchronize(&log_of(vec![ComponentEvent::Inserted(1), ComponentEvent::Inserted(2)]), &vec![1, 2]);
    let plan = table.synchronize(&log_of(vec![ComponentEvent::Modified(2)]), &vec![1, 2]);
    assert_eq!(plan.updates, vec![(2, 1)]);
    assert!(plan.inserts.is_empty());
    assert!(plan.removes.is_empty());
}

#[test]
fn second_run_in_a_tick_is_a_no_op() {
    let mut table = HandleTable::new();
    let live = vec![3, 5, 8];
    let changes = log_of(vec![
        ComponentEvent::Inserted(3),
        ComponentEvent::Inserted(5),
        ComponentEvent::Inserted(8),
    ]);
    let first = table.synchronize(&changes, &live);
    assert_eq!(first.inserts.len(), 3);
    let second = table.synchronize(&ChangeLog::new(), &live);
    assert!(second.updates.is_empty());
    assert!(second.inserts.is_empty());
    assert!(second.removes.is_empty());
    assert_eq!(table.len(), 3);
    assert_eq!(table.handle_of(8), Some(2));
}

#[test]
fn removed_entity_is_unbound_and_rebinds_with_a_new_handle() {
    let mut table = HandleTable::new();
    table.synchronize(&log_of(vec![ComponentEvent::Inserted(7)]), &vec![7]);
    assert_eq!(table.handle_of(7), Some(0));
    let plan = table.synchronize(&log_of(vec![ComponentEvent::Removed(7)]), &vec![]);
    assert_eq!(plan.removes, vec![(7, 0)]);
    assert_eq!(table.handle_of(7), None);
    assert_eq!(table.entity_of(0), None);
    let plan = table.synchronize(&log_of(vec![ComponentEvent::Inserted(7)]), &vec![7]);
    assert_eq!(plan.inserts, vec![(7, 1)]);
    assert_eq!(table.handle_of(7), Some(1));
}

#[test]
fn removal_does_not_see_bindings_made_in_the_same_run() {
    let mut table = HandleTable::new();
    let plan = table.synchronize(&log_of(vec![ComponentEvent::Removed(2)]), &vec![2]);
    assert_eq!(plan.inserts, vec![(2, 0)]);
    assert!(plan.removes.is_empty());
    assert_eq!(table.handle_of(2), Some(0));
    assert_eq!(table.len(), 1);
}

#[test]
fn removal_and_insertion_in_one_run() {
    let mut table = HandleTable::new();
    table.synchronize(&log_of(vec![ComponentEvent::Inserted(1)]), &vec![1]);
    let plan = table.synchronize(
        &log_of(vec![ComponentEvent::Removed(1), ComponentEvent::Inserted(3)]),
        &vec![3],
    );
    assert_eq!(plan.inserts, vec![(3, 1)]);
    assert_eq!(plan.removes, vec![(1, 0)]);
    assert_eq!(table.handle_of(1), None);
    assert_eq!(table.handle_of(3), Some(1));
}

#[test]
fn entity_listed_twice_is_bound_once() {
    let mut table = HandleTable::new();
    let plan = table.synchronize(&ChangeLog::new(), &vec![6, 6]);
    assert_eq!(plan.inserts, vec![(6, 0)]);
    assert_eq!(table.len(), 1);
}
