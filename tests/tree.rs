use mls_tree::{LeafNode, MlsError, ParentNode, TreeKemPublic};

fn leaf(tag: u8) -> LeafNode {
    LeafNode { public_key: vec![tag], signature_key: vec![tag, tag] }
}

fn nodes(tree: &TreeKemPublic, index: u64, exclude: &[u32]) -> Vec<u64> {
    tree.resolution(index, exclude).unwrap().into_iter().map(|e| e.0).collect()
}

fn three_members() -> TreeKemPublic {
    let mut tree = TreeKemPublic::new(leaf(0));
    assert_eq!(tree.add_leaf(leaf(1)), 1);
    assert_eq!(tree.add_leaf(leaf(2)), 2);
    tree
}

#[test]
fn new_tree_has_one_slot() {
    let tree = TreeKemPublic::new(leaf(7));
    assert_eq!(tree.total_slots(), 1);
    assert_eq!(tree.leaf_count(), 1);
    assert_eq!(tree.resolution(0, &[]).unwrap(), vec![(0, vec![7])]);
}

#[test]
fn capacity_grows_and_freed_slot_is_reused() {
    let mut tree = TreeKemPublic::new(leaf(0));
    assert_eq!(tree.total_slots(), 1);
    assert_eq!(tree.add_leaf(leaf(1)), 1);
    assert_eq!(tree.total_slots(), 3);
    tree.remove_leaf(1).unwrap();
    assert_eq!(tree.total_slots(), 1);
    assert_eq!(tree.add_leaf(leaf(2)), 1);
    assert_eq!(tree.total_slots(), 3);
    assert_eq!(tree.leaves[1], Some(leaf(2)));
}

#[test]
fn third_member_doubles_capacity() {
    let tree = three_members();
    assert_eq!(tree.total_slots(), 7);
    assert_eq!(tree.leaf_count(), 4);
    assert_eq!(tree.leaves[3], None);
    assert!(tree.parents.iter().all(|p| p.is_none()));
}

#[test]
fn resolution_of_blank_parents_descends() {
    let tree = three_members();
    assert_eq!(nodes(&tree, 3, &[]), vec![0, 2, 4]);
    assert_eq!(nodes(&tree, 5, &[]), vec![4]);
    assert_eq!(nodes(&tree, 6, &[]), Vec::<u64>::new());
    assert_eq!(nodes(&tree, 3, &[0]), vec![2, 4]);
    assert_eq!(tree.resolution(3, &[]).unwrap(), tree.resolution(3, &[]).unwrap());
    assert_eq!(
        tree.resolution(3, &[]).unwrap(),
        vec![(0, vec![0]), (2, vec![1]), (4, vec![2])]
    );
}

#[test]
fn resolution_rejects_node_outside_tree() {
    let tree = three_members();
    assert_eq!(tree.resolution(7, &[]), Err(MlsError::InvalidNodeIndex));
}

#[test]
fn apply_path_sets_parent_keys() {
    let mut tree = three_members();
    tree.apply_path(0, vec![vec![11], vec![33]]).unwrap();
    assert_eq!(tree.parents[0], Some(ParentNode { public_key: vec![11], unmerged_leaves: vec![] }));
    assert_eq!(tree.parents[1], Some(ParentNode { public_key: vec![33], unmerged_leaves: vec![] }));
    assert_eq!(tree.parents[2], None);
    assert_eq!(nodes(&tree, 3, &[]), vec![3]);
    assert_eq!(nodes(&tree, 1, &[]), vec![1]);
}

#[test]
fn apply_path_checks_its_input() {
    let mut tree = three_members();
    let before = tree.clone();
    assert_eq!(tree.apply_path(0, vec![vec![11]]), Err(MlsError::InvalidTreeStructure));
    assert_eq!(tree.apply_path(3, vec![vec![1], vec![2]]), Err(MlsError::InvalidLeafIndex));
    assert_eq!(tree.apply_path(9, vec![vec![1], vec![2]]), Err(MlsError::InvalidLeafIndex));
    assert_eq!(tree, before);
}

#[test]
fn removed_member_slot_is_reused_and_listed_unmerged() {
    let mut tree = three_members();
    tree.apply_path(0, vec![vec![11], vec![33]]).unwrap();
    tree.remove_leaf(1).unwrap();
    assert_eq!(tree.leaves[1], None);
    assert_eq!(tree.total_slots(), 7);
    assert_eq!(tree.parents[0], Some(ParentNode { public_key: vec![11], unmerged_leaves: vec![] }));
    assert_eq!(nodes(&tree, 1, &[]), vec![1]);

    assert_eq!(tree.add_leaf(leaf(9)), 1);
    assert_eq!(tree.total_slots(), 7);
    assert_eq!(tree.parents[0].as_ref().unwrap().unmerged_leaves, vec![1]);
    assert_eq!(tree.parents[1].as_ref().unwrap().unmerged_leaves, vec![1]);
    assert_eq!(nodes(&tree, 1, &[]), vec![1, 2]);
    assert_eq!(tree.resolution(1, &[]).unwrap(), vec![(1, vec![11]), (2, vec![9])]);
    assert_eq!(nodes(&tree, 1, &[1]), vec![1]);

    tree.apply_path(1, vec![vec![12], vec![34]]).unwrap();
    assert_eq!(tree.parents[0], Some(ParentNode { public_key: vec![12], unmerged_leaves: vec![] }));
    assert_eq!(tree.parents[1], Some(ParentNode { public_key: vec![34], unmerged_leaves: vec![] }));
}

#[test]
fn removing_last_member_of_subtree_blanks_parent() {
    let mut tree = three_members();
    tree.apply_path(0, vec![vec![11], vec![33]]).unwrap();
    tree.remove_leaf(0).unwrap();
    tree.remove_leaf(1).unwrap();
    assert_eq!(tree.parents[0], None);
    assert_eq!(tree.parents[1], Some(ParentNode { public_key: vec![33], unmerged_leaves: vec![] }));
    assert_eq!(tree.total_slots(), 7);
}

#[test]
fn capacity_halves_when_right_half_empties() {
    let mut tree = three_members();
    tree.remove_leaf(2).unwrap();
    assert_eq!(tree.total_slots(), 3);
    assert_eq!(tree.leaves, vec![Some(leaf(0)), Some(leaf(1))]);
    assert_eq!(tree.parents.len(), 1);
}

#[test]
fn remove_rejects_blank_or_missing_leaf() {
    let mut tree = three_members();
    let before = tree.clone();
    assert_eq!(tree.remove_leaf(3), Err(MlsError::InvalidLeafIndex));
    assert_eq!(tree.remove_leaf(4), Err(MlsError::InvalidLeafIndex));
    assert_eq!(tree, before);
}

#[test]
fn update_replaces_member_key() {
    let mut tree = three_members();
    tree.update_leaf(2, leaf(42)).unwrap();
    assert_eq!(tree.leaves[2], Some(leaf(42)));
    assert_eq!(tree.update_leaf(3, leaf(1)), Err(MlsError::InvalidLeafIndex));
}

#[test]
fn capacity_kept_while_right_half_has_a_parent() {
    let mut tree = TreeKemPublic {
        leaves: vec![Some(leaf(0)), Some(leaf(1)), None, None],
        parents: vec![None, None, Some(ParentNode { public_key: vec![55], unmerged_leaves: vec![] })],
    };
    tree.remove_leaf(1).unwrap();
    assert_eq!(tree.total_slots(), 7);
    assert_eq!(tree.parents[2], Some(ParentNode { public_key: vec![55], unmerged_leaves: vec![] }));
}
