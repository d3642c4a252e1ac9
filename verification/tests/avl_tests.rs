use balanced_bst::node::Node;
use balanced_bst::tree::Tree;
use balanced_bst::TreeError;

#[test]
fn test_new_node() {
    let data = 10;
    let node = Node::new(data);

    assert_eq!(node.data, data);
    assert_eq!(node.height, 1);
    assert!(node.left.is_none());
    assert!(node.right.is_none());
}

#[test]
fn test_update_height_single_child() {
    let mut parent = Node::new(10);
    let child = Node::new(5);

    // Simulate adding a left child
    parent.left = Some(Box::new(child));

    Node::update_height(&mut parent);

    assert_eq!(parent.height, 2);
}

#[test]
fn test_update_height_two_children() {
    let mut parent = Node::new(10);
    let left_child = Node::new(5);
    let mut right_child = Node::new(15);

    right_child.right = Some(Box::new(Node::new(20)));

    Node::update_height(&mut right_child);

    parent.left = Some(Box::new(left_child));
    parent.right = Some(Box::new(right_child));

    Node::update_height(&mut parent);

    assert_eq!(parent.height, 3);
}

#[test]
fn test_balance_factor() {
    let mut parent = Node::new(10);
    let mut left_child = Node::new(5);
    let mut right_child = Node::new(15);

    right_child.right = Some(Box::new(Node::new(20)));
    Node::update_height(&mut left_child);
    Node::update_height(&mut right_child);

    parent.left = Some(Box::new(left_child));
    parent.right = Some(Box::new(right_child));
    Node::update_height(&mut parent);

    let balance_factor = Node::balance_factor(&parent);
    assert_eq!(balance_factor, -1);
}

#[test]
fn test_insert_into_empty_tree() {
    let mut tree = Tree::new();
    tree.insert(10);
    if let Tree::Root(node) = tree {
        assert_eq!(node.data, 10);
    } else {
        panic!("Tree was expected to have a root");
    }
}

#[test]
fn test_insert_lesser_than_root() {
    let mut tree = Tree::new();
    tree.insert(10);
    tree.insert(5);
    if let Tree::Root(node) = &tree {
        if let Some(left_child) = &node.left {
            assert_eq!(left_child.data, 5);
        } else {
            panic!("Left child was expected");
        }
    } else {
        panic!("Tree was expected to have a root");
    }
}

#[test]
fn test_insert_greater_than_root() {
    let mut tree = Tree::new();
    tree.insert(10);
    tree.insert(15);
    if let Tree::Root(node) = &tree {
        if let Some(right_child) = &node.right {
            assert_eq!(right_child.data, 15);
        } else {
            panic!("Right child was expected");
        }
    } else {
        panic!("Tree was expected to have a root");
    }
}

#[test]
fn test_insert_duplicate_value() {
    let mut tree = Tree::new();
    tree.insert(10);
    tree.insert(10);
    if let Tree::Root(node) = &tree {
        assert!(
            node.left.is_none(),
            "Left child should not exist for a duplicate value"
        );
        assert!(
            node.right.is_none(),
            "Right child should not exist for a duplicate value"
        );
    } else {
        panic!("Tree was expected to have a root");
    }
}

#[test]
fn test_insert_multiple_values() {
    let mut tree = Tree::new();
    tree.insert(10);
    tree.insert(5);
    tree.insert(15);
    tree.insert(3);
    tree.insert(7);
    tree.insert(12);
    tree.insert(17);

    if let Tree::Root(node) = &tree {
        assert_eq!(node.data, 10);
        if let Some(left_child) = &node.left {
            assert_eq!(left_child.data, 5);
            if let Some(left_left_child) = &left_child.left {
                assert_eq!(left_left_child.data, 3);
            } else {
                panic!("A left-left child was expected");
            }
            if let Some(left_right_child) = &left_child.right {
                assert_eq!(left_right_child.data, 7);
            } else {
                panic!("A left-right child was expected");
            }
        } else {
            panic!("A left child was expected");
        }

        if let Some(right_child) = &node.right {
            assert_eq!(right_child.data, 15);
            if let Some(right_left_child) = &right_child.left {
                assert_eq!(right_left_child.data, 12);
            } else {
                panic!("A right-left child was expected");
            }
            if let Some(right_right_child) = &right_child.right {
                assert_eq!(right_right_child.data, 17);
            } else {
                panic!("A right-right child was expected");
            }
        } else {
            panic!("A right child was expected");
        }
    } else {
        panic!("Tree was expected to have a root");
    }
}

#[test]
fn test_leaves_count() {
    let mut tree = Tree::new();
    tree.insert(2);
    tree.insert(1);
    tree.insert(3);
    tree.insert(4);
    tree.insert(5);
    assert_eq!(tree.leaves(), 3);
}

#[test]
fn test_is_tree_empty() {
    let mut tree = Tree::new();
    assert_eq!(tree.is_empty(), true);
    tree.insert(2);
    assert_eq!(tree.is_empty(), false);
    let _ = tree.delete(2);
    assert_eq!(tree.is_empty(), true);
}

#[test]
fn test_get_height() {
    let mut tree: Tree = Tree::new();
    assert_eq!(tree.get_height(0), 0);
    tree.insert(50);
    assert_eq!(tree.get_height(0), 1);
    tree.insert(40);
    assert_eq!(tree.get_height(0), 2);
    tree.insert(30);
    tree.insert(70);
    tree.insert(80);
    assert_eq!(tree.get_height(0), 3);
}

#[test]
fn test_avl_seven_ascending_perfectly_balanced() {
    // inserting an ascending run produces the perfectly balanced shape
    let mut tree = Tree::new();
    for k in [10, 20, 30, 40, 50, 60, 70] {
        tree.insert(k);
    }
    assert_eq!(tree.get_height(0), 3);
    if let Tree::Root(node) = &tree {
        assert_eq!(node.data, 40);
        assert_eq!(node.left.as_ref().expect("left").data, 20);
        assert_eq!(node.right.as_ref().expect("right").data, 60);
        let l = node.left.as_ref().unwrap();
        let r = node.right.as_ref().unwrap();
        assert_eq!(l.left.as_ref().expect("ll").data, 10);
        assert_eq!(l.right.as_ref().expect("lr").data, 30);
        assert_eq!(r.left.as_ref().expect("rl").data, 50);
        assert_eq!(r.right.as_ref().expect("rr").data, 70);
    } else {
        panic!("Tree was expected to have a root");
    }
}

#[test]
fn test_avl_traversal_ascending() {
    let mut tree = Tree::new();
    for k in [13, 8, 1, 6, 11, 17, 15, 25, 22, 27, 5, 9, 2, 3, 4] {
        tree.insert(k);
    }
    let out = tree.in_order_traversal();
    assert_eq!(out.len(), 15);
    for w in out.windows(2) {
        assert!(w[0] < w[1]);
    }
}

#[test]
fn test_avl_delete_not_found_leaves_tree_unchanged() {
    let mut tree = Tree::new();
    for k in 1..=10 {
        tree.insert(k);
    }
    let before = tree.in_order_traversal();
    assert_eq!(tree.delete(999), Err(TreeError::KeyNotFound));
    let after = tree.in_order_traversal();
    assert_eq!(before, after);
    assert_eq!(after, vec![1, 2, 3, 4, 5, 6, 7, 8, 9, 10]);
}

#[test]
fn test_avl_delete_two_child_node() {
    let mut tree = Tree::new();
    for k in [50, 40, 70, 30, 45, 60, 80] {
        tree.insert(k);
    }
    assert_eq!(tree.delete(50), Ok(()));
    assert!(!tree.search(50));
    assert!(tree.search(40) && tree.search(80));
    let out = tree.in_order_traversal();
    assert_eq!(out, vec![30, 40, 45, 60, 70, 80]);
}

#[test]
fn test_avl_duplicate_insert_keeps_size() {
    let mut tree = Tree::new();
    tree.insert(7);
    tree.insert(3);
    tree.insert(7);
    assert!(tree.search(7));
    assert_eq!(tree.in_order_traversal().len(), 2);
}

#[test]
fn test_avl_round_trip_empties_tree() {
    let mut tree = Tree::new();
    let keys = [5, 12, 1, 9, 14, 3, 7, 11, 2, 8];
    for k in keys {
        tree.insert(k);
    }
    // delete in a different order than inserted
    for k in [14, 1, 7, 12, 2, 9, 5, 8, 3, 11] {
        assert_eq!(tree.delete(k), Ok(()));
    }
    assert!(tree.is_empty());
}

#[test]
fn test_avl_single_insert_delete_is_empty() {
    let mut tree = Tree::new();
    tree.insert(42);
    assert_eq!(tree.delete(42), Ok(()));
    assert_eq!(tree.is_empty(), true);
}

#[test]
fn test_avl_stays_shallow_under_many_inserts() {
    // 127 ascending keys: a plain search tree would become a list of
    // height 127, the balanced tree stays within 2*log2(n+1) = 14
    let mut tree = Tree::new();
    for k in 1..=127 {
        tree.insert(k);
    }
    assert_eq!(tree.in_order_traversal().len(), 127);
    assert!(tree.get_height(0) <= 14);
    assert_eq!(tree.get_height(0), 7);
}
