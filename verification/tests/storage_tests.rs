use lockbox::node::{LockedNode, NO_PARENT_ID};
use lockbox::storage::{Error, Storage};

fn raw_node(id: u64, parent_id: u64) -> LockedNode {
    LockedNode { id, parent_id, content: vec![], dirty: false }
}

#[test]
fn storage_test_move_node_to_itself() {
    let mut storage = Storage::new();
    storage.add(raw_node(0, NO_PARENT_ID));
    assert_eq!(storage.move_to(0, 0), Err(Error::NotAllowed));
}

#[test]
fn storage_test_move_node_to_own_parent() {
    let mut storage = Storage::new();
    storage.add(raw_node(0, NO_PARENT_ID));
    storage.add(raw_node(1, 0));
    assert_eq!(storage.move_to(1, 0), Err(Error::NotAllowed));
}

#[test]
fn storage_test_move_node_to_non_existent_parent() {
    let mut storage = Storage::new();
    storage.add(raw_node(0, NO_PARENT_ID));
    storage.add(raw_node(1, 0));
    assert_eq!(storage.move_to(1, 999), Err(Error::NotFound(999)));
}

#[test]
fn storage_test_move_non_existent_node() {
    let mut storage = Storage::new();
    storage.add(raw_node(0, NO_PARENT_ID));
    assert_eq!(storage.move_to(999, 0), Err(Error::NotFound(999)));
}

#[test]
fn storage_test_move_node_to_valid_parent() {
    let mut storage = Storage::new();
    storage.add(raw_node(0, NO_PARENT_ID));
    storage.add(raw_node(1, 0));
    storage.add(raw_node(2, 1));
    assert_eq!(storage.move_to(2, 0), Ok(()));
}

#[test]
fn storage_test_move_node_outside_hierarchy() {
    let mut storage = Storage::new();
    storage.add(raw_node(0, NO_PARENT_ID));
    storage.add(raw_node(1, 0));
    assert_eq!(storage.move_to(0, NO_PARENT_ID), Err(Error::NotAllowed));
    assert_eq!(storage.move_to(1, NO_PARENT_ID), Err(Error::NotAllowed));
}

#[test]
fn storage_test_prevent_circular_reference() {
    let mut storage = Storage::new();
    storage.add(raw_node(0, NO_PARENT_ID));
    storage.add(raw_node(1, 0));
    storage.add(raw_node(2, 1));
    storage.add(raw_node(3, 2));
    assert_eq!(storage.move_to(0, 1), Err(Error::NotAllowed));
    assert_eq!(storage.move_to(0, 2), Err(Error::NotAllowed));
    assert_eq!(storage.move_to(0, 3), Err(Error::NotAllowed));
    assert_eq!(storage.move_to(1, 2), Err(Error::NotAllowed));
    assert_eq!(storage.move_to(1, 3), Err(Error::NotAllowed));
}

#[test]
fn storage_test_move_node_several_times() {
    let mut storage = Storage::new();
    storage.add(raw_node(0, NO_PARENT_ID));
    storage.add(raw_node(1, 0));
    storage.add(raw_node(2, 0));
    storage.add(raw_node(3, 1));
    assert_eq!(storage.move_to(3, 2), Ok(()));
    assert_eq!(storage.move_to(3, 1), Ok(()));
    assert_eq!(storage.move_to(2, 3), Ok(()));
    assert_eq!(storage.move_to(2, 1), Ok(()));
    assert_eq!(storage.move_to(3, 0), Ok(()));
    assert_eq!(storage.move_to(2, 0), Ok(()));
    assert_eq!(storage.children_of(0).unwrap().len(), 3);
}

#[test]
fn test_remove_node_no_children() {
    let mut storage = Storage::new();
    storage.add(raw_node(0, NO_PARENT_ID));
    assert_eq!(storage.contains_node(0), true);
    storage.remove(0);
    assert_eq!(storage.contains_node(0), false);
}

#[test]
fn test_remove_node_with_children() {
    let mut storage = Storage::new();
    storage.add(raw_node(0, NO_PARENT_ID));
    storage.add(raw_node(1, 0));
    storage.add(raw_node(2, 0));
    assert_eq!(storage.contains_node(0), true);
    assert_eq!(storage.contains_node(1), true);
    assert_eq!(storage.contains_node(2), true);
    storage.remove(0);
    assert_eq!(storage.contains_node(0), false);
    assert_eq!(storage.contains_node(1), false);
    assert_eq!(storage.contains_node(2), false);
}

#[test]
fn test_remove_non_existent_node() {
    let mut storage = Storage::new();
    storage.add(raw_node(0, NO_PARENT_ID));
    assert_eq!(storage.contains_node(0), true);
    storage.remove(999);
    assert_eq!(storage.contains_node(0), true);
}

#[test]
fn test_remove_root_node() {
    let mut storage = Storage::new();
    storage.add(raw_node(0, NO_PARENT_ID));
    storage.add(raw_node(1, 0));
    assert_eq!(storage.contains_node(0), true);
    assert_eq!(storage.contains_node(1), true);
    storage.remove(0);
    assert_eq!(storage.contains_node(0), false);
    assert_eq!(storage.contains_node(1), false);
}

#[test]
fn test_remove_leaf_node() {
    let mut storage = Storage::new();
    storage.add(raw_node(0, NO_PARENT_ID));
    storage.add(raw_node(1, 0));
    assert_eq!(storage.contains_node(1), true);
    storage.remove(1);
    assert_eq!(storage.contains_node(1), false);
    assert!(storage.children_of(0).unwrap().is_empty());
}

#[test]
fn test_storage_remove_reports_presence() {
    let mut storage = Storage::new();
    storage.add(raw_node(7, NO_PARENT_ID));
    assert_eq!(storage.remove(7), Some(7));
    assert_eq!(storage.remove(7), None);
}
