use tree_of_madness::node::{DiretionFromParent, Node};

#[test]
fn should_left_add() {
    let mut root = Node::new(2);
    let expected_value = 1;
    Node::spawn_left_child(&mut root, expected_value);

    let actual_left_child = root.get_left_child_shared();
    match actual_left_child {
        Some(child) => assert_eq!(&expected_value, child.get_value_ref()),
        None => panic!("No left child created"),
    }

    let actual_right_child = root.get_right_child_shared();
    match actual_right_child {
        Some(_) => panic!("Should not add left value as right child"),
        None => (),
    }
}

#[test]
fn should_right_add() {
    let mut root = Node::new(2);
    let expected_value = 1;
    Node::spawn_right_child(&mut root, expected_value);

    let actual_right_child = root.get_right_child_shared();
    match actual_right_child {
        Some(child) => assert_eq!(&expected_value, child.get_value_ref()),
        None => panic!("No right child created"),
    }

    let actual_left_child = root.get_left_child_shared();
    match actual_left_child {
        Some(_) => panic!("Should not add right value as left child"),
        None => (),
    }
}

#[test]
fn should_add_and_remove_left() {
    let mut root = Node::new(2);
    let expected_value = 0;
    Node::spawn_left_child(&mut root, expected_value);
    let taken_child = Node::take_left_child(&mut root);

    match taken_child {
        Some(child) => assert_eq!(&expected_value, child.get_value_ref()),
        None => panic!("left child is not returned as removed node."),
    }

    match root.get_left_child_shared() {
        Some(_) => panic!("Left child was not removed."),
        None => (),
    }
}

#[test]
fn should_add_and_remove_right() {
    let mut root = Node::new(2);
    let expected_value = 0;
    Node::spawn_right_child(&mut root, expected_value);
    let taken_child = Node::take_right_child(&mut root);

    match taken_child {
        Some(child) => assert_eq!(&expected_value, child.get_value_ref()),
        None => panic!("right child is not returned as removed node."),
    }

    match root.get_left_child_shared() {
        Some(_) => panic!("Right child was not removed."),
        None => (),
    }
}

#[test]
fn direction_tags_follow_attach_and_detach() {
    let mut root = Node::new(5);
    assert_eq!(root.get_direction_from_parent(), DiretionFromParent::NoParent);

    Node::spawn_left_child(&mut root, 3);
    Node::spawn_right_child(&mut root, 8);
    assert_eq!(
        root.get_left_child_shared().unwrap().get_direction_from_parent(),
        DiretionFromParent::Left
    );
    assert_eq!(
        root.get_right_child_shared().unwrap().get_direction_from_parent(),
        DiretionFromParent::Right
    );

    let orphan = Node::take_left_child(&mut root).unwrap();
    assert_eq!(orphan.get_direction_from_parent(), DiretionFromParent::NoParent);
    assert_eq!(orphan.get_shared_value(), 3);
}

#[test]
fn replace_child_returns_displaced_orphan() {
    let mut root = Node::new(5);
    Node::spawn_left_child(&mut root, 3);

    let displaced = Node::replace_left_child_with(&mut root, Box::new(Node::new(4)));
    let displaced = displaced.expect("the old left child should come back");
    assert_eq!(displaced.get_shared_value(), 3);
    assert_eq!(displaced.get_direction_from_parent(), DiretionFromParent::NoParent);

    let new_left = root.get_left_child_shared().expect("a new left child should be installed");
    assert_eq!(new_left.get_shared_value(), 4);
    assert_eq!(new_left.get_direction_from_parent(), DiretionFromParent::Left);

    let none_displaced = Node::replace_right_child_with(&mut root, Box::new(Node::new(9)));
    assert!(none_displaced.is_none());
    assert_eq!(root.get_right_child_shared().unwrap().get_shared_value(), 9);
    assert_eq!(
        root.get_right_child_shared().unwrap().get_direction_from_parent(),
        DiretionFromParent::Right
    );
}

#[test]
fn extract_greatest_detaches_rightmost_descendant() {
    let mut root = Node::new(1);
    assert!(Node::extract_greatest_node_from(&mut root).is_none());

    Node::spawn_right_child(&mut root, 3);
    {
        let right = root.get_right_child_shared().unwrap();
        assert_eq!(right.get_shared_value(), 3);
    }

    let greatest = Node::extract_greatest_node_from(&mut root).expect("3 should be extracted");
    assert_eq!(greatest.get_shared_value(), 3);
    assert_eq!(greatest.get_direction_from_parent(), DiretionFromParent::NoParent);
    assert_eq!(greatest.left_right_taken(), (false, false));
    assert!(root.get_right_child_shared().is_none());
}
