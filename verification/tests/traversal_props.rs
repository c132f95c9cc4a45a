use tree_of_madness::tree::Tree;

fn build_tree(values: &[i64]) -> Tree {
    Tree::from_sequence(&values.to_vec())
}

fn level_order(tree: &Tree) -> Vec<i64> {
    let mut iter = tree.iter_shared();
    let mut values: Vec<i64> = Vec::new();
    while let Some(value) = iter.next() {
        values.push(value);
    }
    values
}

#[test]
fn level_order_visits_breadth_first() {
    let tree = build_tree(&[100, 25, 10, 30]);
    assert_eq!(level_order(&tree), vec![100, 25, 10, 30]);

    let tree = build_tree(&[50, 20, 70, 10, 30, 60, 80]);
    assert_eq!(level_order(&tree), vec![50, 20, 70, 10, 30, 60, 80]);
}

#[test]
fn level_order_of_empty_tree_is_empty() {
    let tree = Tree::new();
    let mut iter = tree.iter_shared();
    assert!(iter.next().is_none());
    assert!(iter.next().is_none());
}

#[test]
fn traversal_is_a_snapshot_unmoved_by_later_mutation() {
    let mut tree = build_tree(&[10, 5, 15]);
    let mut iter = tree.iter_shared();
    tree.delete(5);
    tree.add(7);

    let mut seen: Vec<i64> = Vec::new();
    while let Some(value) = iter.next() {
        seen.push(value);
    }
    assert_eq!(seen, vec![10, 5, 15]);
    assert_eq!(level_order(&tree), vec![10, 7, 15]);
}

#[test]
fn readding_a_present_value_changes_nothing() {
    let mut tree = build_tree(&[8, 4, 12]);
    let before = level_order(&tree);

    assert!(!tree.add(8));
    assert!(!tree.add(4));

    assert_eq!(level_order(&tree), before);
    assert!(tree.contains(8));
    assert!(tree.contains(4));
    assert!(tree.contains(12));
}

#[test]
fn deleting_an_absent_value_changes_nothing() {
    let mut tree = build_tree(&[8, 4, 12, 2, 6]);
    let before = level_order(&tree);

    assert!(!tree.delete(-99));
    assert!(!tree.delete(5));
    assert!(!tree.delete(100));

    assert_eq!(level_order(&tree), before);
}

#[test]
fn two_child_delete_promotes_the_predecessor() {
    let mut tree = build_tree(&[50, 20, 70, 10, 30, 60, 80]);

    assert!(tree.delete(50));

    // 30, the greatest value of the left subtree, takes the root's place.
    assert_eq!(level_order(&tree), vec![30, 20, 70, 10, 60, 80]);
    assert!(!tree.contains(50));
}

#[test]
fn two_child_delete_when_the_left_child_is_the_predecessor() {
    let mut tree = build_tree(&[50, 20, 70, 10]);

    assert!(tree.delete(50));

    // 20 has no right descendant, so it is itself the predecessor and is
    // promoted, keeping its left child and adopting the right subtree.
    assert_eq!(level_order(&tree), vec![20, 10, 70]);
}

#[test]
fn membership_tracks_adds_and_deletes() {
    let mut tree = Tree::new();
    assert!(!tree.contains(1));
    assert!(!tree.delete(1));

    assert!(tree.add(1));
    assert!(tree.contains(1));

    assert!(tree.delete(1));
    assert!(!tree.contains(1));
    assert!(!tree.delete(1));

    assert!(tree.add(1));
    assert!(tree.contains(1));
}

#[test]
fn level_order_yields_each_stored_value_once() {
    let values: [i64; 7] = [35, 10, 4, 8, 6, 16, 35];
    let tree = build_tree(&values);
    let mut yielded = level_order(&tree);
    yielded.sort();
    assert_eq!(yielded, vec![4, 6, 8, 10, 16, 35]);
}

#[test]
fn in_order_is_strictly_ascending() {
    let tree = build_tree(&[35, 10, 4, 8, 46, 38]);
    assert_eq!(tree.in_order_values(), vec![4, 8, 10, 35, 38, 46]);

    let mut tree = build_tree(&[50, 20, 70, 10, 30, 60, 80]);
    assert_eq!(tree.in_order_values(), vec![10, 20, 30, 50, 60, 70, 80]);

    tree.delete(50);
    assert_eq!(tree.in_order_values(), vec![10, 20, 30, 60, 70, 80]);

    tree.delete(10);
    assert_eq!(tree.in_order_values(), vec![20, 30, 60, 70, 80]);
}
