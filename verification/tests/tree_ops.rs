use tree_of_madness::node::Node;
use tree_of_madness::tree::Tree;

fn build_tree(values: &[i64]) -> Tree {
    Tree::from_sequence(&values.to_vec())
}

#[test]
fn should_add_and_figure_what_added() {
    let tree = build_tree(&[10, 3, 4, 10, 8, 6, 16]);

    assert!(tree.contains(10));
    assert!(tree.contains(3));
    assert!(tree.contains(4));
    assert!(tree.contains(8));
    assert!(tree.contains(6));
    assert!(tree.contains(16));

    assert!(!tree.contains(11));
    assert!(!tree.contains(-10));
    assert!(!tree.contains(0));
}

#[test]
fn should_delete_leafs() {
    //      35
    //   10    16
    //  4
    // 6  8
    let mut tree = build_tree(&[35, 10, 4, 8, 6, 16]);

    assert!(tree.delete(6));
    assert!(tree.delete(8));

    assert!(!tree.delete(6));
    assert!(!tree.delete(-8));

    assert!(tree.delete(16));

    assert!(!tree.contains(6));
    assert!(!tree.contains(8));
    assert!(!tree.contains(16));

    assert!(tree.contains(35));
    assert!(tree.contains(10));
    assert!(tree.contains(4));
}

#[test]
fn should_delete_without_losing_one_child() {
    //      35
    //   10    46
    //  4     38
    //   8
    let mut tree = build_tree(&[35, 10, 4, 8, 46, 38]);

    assert!(tree.delete(46));
    assert!(tree.delete(4));

    assert!(!tree.delete(46), "46 was already deleted");
    assert!(!tree.delete(4), "4 was already deleted");

    assert!(!tree.contains(46));
    assert!(!tree.contains(4));

    assert!(tree.contains(8));
    assert!(tree.contains(38));

    assert!(tree.contains(35));
    assert!(tree.contains(10));
    //      35
    //    10  38
    //   8
}

#[test]
fn should_delete_root_with_one_left_child() {
    //      35
    //   10
    //  8  23
    let mut tree = build_tree(&[35, 10, 8, 23]);

    assert!(tree.delete(35));

    assert!(!tree.delete(35), "35 was already deleted");

    assert!(!tree.contains(35));

    assert!(tree.contains(8));
    assert!(tree.contains(23));
    assert!(tree.contains(10));
    //      10
    //    8   23
}

#[test]
fn should_delete_root_with_one_right_child() {
    //      35
    //            80
    //          40  83
    let mut tree = build_tree(&[35, 80, 40, 83]);

    assert!(tree.delete(35));

    assert!(!tree.delete(35), "35 was already deleted");

    assert!(!tree.contains(35));

    assert!(tree.contains(80));
    assert!(tree.contains(40));
    assert!(tree.contains(83));
    //            80
    //          40  83
}

#[test]
fn should_find_no_greatest_left_node() {
    let tree = build_tree(&[100]);
    let root = tree.get_root_node().expect("No root found to return for test.");

    let actual_node_found = Node::find_greatest_node_from(root);

    assert!(actual_node_found.is_none());
}

fn assert_greatest_node_subtree(subroot: &Node, expected_value: i64) {
    let actual_node_found =
        Node::find_greatest_node_from(subroot).expect("No greatest node from left was returned.");

    assert_eq!(&expected_value, actual_node_found.get_value_ref());
}

#[test]
fn should_find_greatest_from_left_node() {
    let tree = build_tree(&[100, 25, 50, 200, 400]);
    let root = tree.get_root_node().expect("No root found to return for test.");

    assert_greatest_node_subtree(root, 400);
    assert_greatest_node_subtree(root.get_left_child_shared().unwrap(), 50);
    assert_greatest_node_subtree(root.get_right_child_shared().unwrap(), 400);
}

#[test]
fn should_remove_node_with_left_right_children() {
    //      100
    //    25
    //  10   30
    let mut tree = build_tree(&[100, 25, 10, 30]);

    let has_deleted = tree.delete(25);

    //     100
    //    10
    //      30
    assert!(has_deleted);

    let mut iter = tree.iter_shared();
    let mut actual_nodes: Vec<i64> = Vec::new();
    while let Some(value) = iter.next() {
        actual_nodes.push(value);
    }
    assert_eq!(actual_nodes.len(), 3);
}
