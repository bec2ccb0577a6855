use lockbox::encrypted::Encrypted;
use lockbox::id::Uid;
use lockbox::node::NO_PARENT_ID;
use lockbox::nodes::{Error, LockedNode, Nodes};
use lockbox::purge::Purge;
use lockbox::salt::Salt;

fn stub_encrypted() -> Encrypted {
    Encrypted { ct: vec![], salt: Salt::generate() }
}

fn tree_node(id: u64, parent_id: u64) -> LockedNode {
    LockedNode {
        id: Uid::new(id),
        parent_id: Uid::new(parent_id),
        content: stub_encrypted(),
        dirty: false,
    }
}

fn deleted_ids(v: Vec<Uid>) -> Vec<u64> {
    v.into_iter().map(|u| u.0).collect()
}

#[test]
fn nodes_test_move_node_to_itself() {
    let mut storage = Nodes::new();
    storage.add(tree_node(0, NO_PARENT_ID));
    assert_eq!(storage.move_to(Uid::new(0), Uid::new(0)), Err(Error::NotAllowed));
}

#[test]
fn nodes_test_move_node_to_own_parent() {
    let mut storage = Nodes::new();
    storage.add(tree_node(0, NO_PARENT_ID));
    storage.add(tree_node(1, 0));
    assert_eq!(storage.move_to(Uid::new(1), Uid::new(0)), Err(Error::NotAllowed));
}

#[test]
fn nodes_test_move_node_to_non_existent_parent() {
    let mut storage = Nodes::new();
    storage.add(tree_node(0, NO_PARENT_ID));
    storage.add(tree_node(1, 0));
    assert_eq!(storage.move_to(Uid::new(1), Uid::new(999)), Err(Error::NotFound(Uid::new(999))));
}

#[test]
fn nodes_test_move_non_existent_node() {
    let mut storage = Nodes::new();
    storage.add(tree_node(0, NO_PARENT_ID));
    assert_eq!(storage.move_to(Uid::new(999), Uid::new(0)), Err(Error::NotFound(Uid::new(999))));
}

#[test]
fn nodes_test_move_node_to_valid_parent() {
    let mut storage = Nodes::new();
    storage.add(tree_node(0, NO_PARENT_ID));
    storage.add(tree_node(1, 0));
    storage.add(tree_node(2, 1));
    assert_eq!(storage.move_to(Uid::new(2), Uid::new(0)), Ok(()));
}

#[test]
fn nodes_test_move_node_outside_hierarchy() {
    let mut storage = Nodes::new();
    storage.add(tree_node(0, NO_PARENT_ID));
    storage.add(tree_node(1, 0));
    assert_eq!(storage.move_to(Uid::new(0), Uid::new(NO_PARENT_ID)), Err(Error::NotAllowed));
    assert_eq!(storage.move_to(Uid::new(1), Uid::new(NO_PARENT_ID)), Err(Error::NotAllowed));
}

#[test]
fn nodes_test_prevent_circular_reference() {
    let mut storage = Nodes::new();
    storage.add(tree_node(0, NO_PARENT_ID));
    storage.add(tree_node(1, 0));
    storage.add(tree_node(2, 1));
    storage.add(tree_node(3, 2));
    assert_eq!(storage.move_to(Uid::new(0), Uid::new(1)), Err(Error::NotAllowed));
    assert_eq!(storage.move_to(Uid::new(0), Uid::new(2)), Err(Error::NotAllowed));
    assert_eq!(storage.move_to(Uid::new(0), Uid::new(3)), Err(Error::NotAllowed));
    assert_eq!(storage.move_to(Uid::new(1), Uid::new(2)), Err(Error::NotAllowed));
    assert_eq!(storage.move_to(Uid::new(1), Uid::new(3)), Err(Error::NotAllowed));
}

#[test]
fn nodes_test_move_node_several_times() {
    let mut storage = Nodes::new();
    storage.add(tree_node(0, NO_PARENT_ID));
    storage.add(tree_node(1, 0));
    storage.add(tree_node(2, 0));
    storage.add(tree_node(3, 1));
    assert_eq!(storage.move_to(Uid::new(3), Uid::new(2)), Ok(()));
    assert_eq!(storage.move_to(Uid::new(3), Uid::new(1)), Ok(()));
    assert_eq!(storage.move_to(Uid::new(2), Uid::new(3)), Ok(()));
    assert_eq!(storage.move_to(Uid::new(2), Uid::new(1)), Ok(()));
    assert_eq!(storage.move_to(Uid::new(3), Uid::new(0)), Ok(()));
    assert_eq!(storage.move_to(Uid::new(2), Uid::new(0)), Ok(()));
    assert_eq!(storage.children_of(Uid::new(0)).unwrap().len(), 3);
}

#[test]
fn test_delete_node_no_children() {
    let mut storage = Nodes::new();
    storage.add(tree_node(0, NO_PARENT_ID));
    assert_eq!(storage.contains_node(Uid::new(0)), true);
    storage.delete(Uid::new(0));
    assert_eq!(storage.contains_node(Uid::new(0)), false);
}

#[test]
fn test_delete_node_with_children() {
    let mut storage = Nodes::new();
    storage.add(tree_node(0, NO_PARENT_ID));
    storage.add(tree_node(1, 0));
    storage.add(tree_node(2, 0));
    assert_eq!(storage.contains_node(Uid::new(0)), true);
    assert_eq!(storage.contains_node(Uid::new(1)), true);
    assert_eq!(storage.contains_node(Uid::new(2)), true);
    storage.delete(Uid::new(0));
    assert_eq!(storage.contains_node(Uid::new(0)), false);
    assert_eq!(storage.contains_node(Uid::new(1)), false);
    assert_eq!(storage.contains_node(Uid::new(2)), false);
}

#[test]
fn test_delete_non_existent_node() {
    let mut storage = Nodes::new();
    storage.add(tree_node(0, NO_PARENT_ID));
    assert_eq!(storage.contains_node(Uid::new(0)), true);
    storage.delete(Uid::new(999));
    assert_eq!(storage.contains_node(Uid::new(0)), true);
}

#[test]
fn test_delete_root_node() {
    let mut storage = Nodes::new();
    storage.add(tree_node(0, NO_PARENT_ID));
    storage.add(tree_node(1, 0));
    assert_eq!(storage.contains_node(Uid::new(0)), true);
    assert_eq!(storage.contains_node(Uid::new(1)), true);
    storage.delete(Uid::new(0));
    assert_eq!(storage.contains_node(Uid::new(0)), false);
    assert_eq!(storage.contains_node(Uid::new(1)), false);
}

#[test]
fn test_delete_leaf_node() {
    let mut storage = Nodes::new();
    storage.add(tree_node(0, NO_PARENT_ID));
    storage.add(tree_node(1, 0));
    assert_eq!(storage.contains_node(Uid::new(1)), true);
    storage.delete(Uid::new(1));
    assert_eq!(storage.contains_node(Uid::new(1)), false);
    assert!(storage.children_of(Uid::new(0)).unwrap().is_empty());
}

fn one_root_forest() -> Nodes {
    let mut one_root = Nodes::new();
    one_root.add(tree_node(0, NO_PARENT_ID));
    one_root.add(tree_node(1, 0));
    one_root.add(tree_node(11, 1));
    one_root.add(tree_node(111, 11));
    one_root.add(tree_node(12, 1));
    one_root.add(tree_node(121, 12));
    one_root.add(tree_node(2, 0));
    one_root.add(tree_node(21, 2));
    one_root.add(tree_node(3, 0));
    one_root
}

#[test]
fn test_delete_returns_whole_subtree_in_one_root() {
    let one_root = one_root_forest();
    assert_eq!(
        deleted_ids(one_root.clone().delete(Uid::new(0))),
        vec![0, 1, 11, 111, 12, 121, 2, 21, 3]
    );
    assert_eq!(deleted_ids(one_root.clone().delete(Uid::new(1))), vec![1, 11, 111, 12, 121]);
    assert_eq!(deleted_ids(one_root.clone().delete(Uid::new(11))), vec![11, 111]);
    assert_eq!(deleted_ids(one_root.clone().delete(Uid::new(111))), vec![111]);
    assert_eq!(deleted_ids(one_root.clone().delete(Uid::new(12))), vec![12, 121]);
    assert_eq!(deleted_ids(one_root.clone().delete(Uid::new(121))), vec![121]);
    assert_eq!(deleted_ids(one_root.clone().delete(Uid::new(2))), vec![2, 21]);
    assert_eq!(deleted_ids(one_root.clone().delete(Uid::new(21))), vec![21]);
    assert_eq!(deleted_ids(one_root.clone().delete(Uid::new(3))), vec![3]);
    assert_eq!(deleted_ids(one_root.clone().delete(Uid::new(999))), Vec::<u64>::new());
}

#[test]
fn test_delete_returns_whole_subtree_in_when_detached() {
    let mut one_root = Nodes::new();
    // orphans: 1 and 0 are never inserted
    one_root.add(tree_node(11, 1));
    one_root.add(tree_node(111, 11));
    one_root.add(tree_node(12, 1));
    one_root.add(tree_node(121, 12));
    one_root.add(tree_node(2, 0));
    one_root.add(tree_node(21, 2));
    one_root.add(tree_node(3, 0));
    assert_eq!(deleted_ids(one_root.clone().delete(Uid::new(11))), vec![11, 111]);
    assert_eq!(deleted_ids(one_root.clone().delete(Uid::new(111))), vec![111]);
    assert_eq!(deleted_ids(one_root.clone().delete(Uid::new(12))), vec![12, 121]);
    assert_eq!(deleted_ids(one_root.clone().delete(Uid::new(121))), vec![121]);
    assert_eq!(deleted_ids(one_root.clone().delete(Uid::new(2))), vec![2, 21]);
    assert_eq!(deleted_ids(one_root.clone().delete(Uid::new(21))), vec![21]);
    assert_eq!(deleted_ids(one_root.clone().delete(Uid::new(3))), vec![3]);
    assert_eq!(deleted_ids(one_root.clone().delete(Uid::new(0))), Vec::<u64>::new());
    assert_eq!(deleted_ids(one_root.clone().delete(Uid::new(1))), Vec::<u64>::new());
    assert_eq!(deleted_ids(one_root.clone().delete(Uid::new(999))), Vec::<u64>::new());
}

#[test]
fn test_rdelete_list() {
    let one_root = one_root_forest();
    // specifying children will not do harm
    assert_eq!(
        deleted_ids(
            one_root
                .clone()
                .delete_list(&[Uid::new(0), Uid::new(111), Uid::new(12), Uid::new(3)])
        ),
        vec![0, 1, 11, 111, 12, 121, 2, 21, 3]
    );
    // non existing ids will not do harm either
    assert_eq!(
        deleted_ids(one_root.clone().delete_list(&[Uid::new(11), Uid::new(111), Uid::new(999)])),
        vec![11, 111]
    );
}

#[test]
fn test_delete_twice_yields_nothing() {
    let mut storage = one_root_forest();
    let first = deleted_ids(storage.delete(Uid::new(1)));
    assert_eq!(first, vec![1, 11, 111, 12, 121]);
    let second = deleted_ids(storage.delete(Uid::new(1)));
    assert_eq!(second, Vec::<u64>::new());
}

#[test]
fn test_move_then_delete_preorder() {
    // add root 0, add 1 under 0, add 2 under 1; move 2 under 0; delete 0
    let mut storage = Nodes::new();
    storage.add(tree_node(0, NO_PARENT_ID));
    storage.add(tree_node(1, 0));
    storage.add(tree_node(2, 1));
    assert_eq!(storage.move_to(Uid::new(2), Uid::new(0)), Ok(()));
    assert_eq!(deleted_ids(storage.delete(Uid::new(0))), vec![0, 1, 2]);
}

#[test]
fn test_move_updates_child_lists_once() {
    let one_root = one_root_forest();
    let mut storage = one_root;
    assert_eq!(storage.move_to(Uid::new(11), Uid::new(2)), Ok(()));
    let under_two = storage.children_of(Uid::new(2)).unwrap();
    assert_eq!(under_two.iter().filter(|&&c| c == 11).count(), 1);
    let under_one = storage.children_of(Uid::new(1)).unwrap();
    assert!(!under_one.contains(&11));
}

#[test]
fn test_get_all_returns_every_node() {
    let storage = one_root_forest();
    let mut ids: Vec<u64> = storage.get_all().into_iter().map(|n| n.id.0).collect();
    ids.sort();
    assert_eq!(ids, vec![0, 1, 2, 3, 11, 12, 21, 111, 121]);
}

#[test]
fn test_add_is_create_only() {
    let mut storage = Nodes::new();
    storage.add(tree_node(0, NO_PARENT_ID));
    storage.add(tree_node(1, 0));
    // a duplicate id leaves the first node in place
    storage.add(tree_node(1, NO_PARENT_ID));
    let all = storage.get_all();
    let one = all.iter().find(|n| n.id.0 == 1).unwrap();
    assert_eq!(one.parent_id.0, 0);
}
