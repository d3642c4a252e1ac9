use balanced_bst::rbt::{NodeColor, RedBlackTreeSet, TreeNode};
use balanced_bst::TreeError;

#[test]
fn test_flip_color() {
    assert_eq!(NodeColor::flip_color(NodeColor::Red), NodeColor::Black);
    assert_eq!(NodeColor::flip_color(NodeColor::Black), NodeColor::Red);
}

#[test]
fn test_tree_node_new_is_red_leaf() {
    let node = TreeNode::new(9);
    assert_eq!(node.key, 9);
    assert_eq!(node.color, NodeColor::Red);
    assert!(node.left.is_none());
    assert!(node.right.is_none());
}

#[test]
fn test_rbt_new_is_empty() {
    let mut tree = RedBlackTreeSet::new();
    assert!(tree.isEmpty());
    tree.insert(4);
    assert!(!tree.isEmpty());
}

#[test]
fn test_rbt_find() {
    let mut tree = RedBlackTreeSet::new();
    for k in [8, 3, 11, 1, 6] {
        tree.insert(k);
    }
    assert!(tree.find(8));
    assert!(tree.find(1));
    assert!(tree.find(6));
    assert!(!tree.find(2));
    assert!(!tree.find(100));
}

#[test]
fn test_rbt_find_minimum() {
    let mut tree = RedBlackTreeSet::new();
    assert_eq!(RedBlackTreeSet::find_minimum(&tree.root), None);
    for k in [8, 3, 11, 1, 6] {
        tree.insert(k);
    }
    assert_eq!(RedBlackTreeSet::find_minimum(&tree.root), Some(1));
    assert_eq!(RedBlackTreeSet::find_minimum_recursion(&tree.root), Some(1));
}

#[test]
fn test_rotate_left_reshapes() {
    let mut x = TreeNode::new(1);
    let mut y = TreeNode::new(3);
    y.left = Some(Box::new(TreeNode::new(2)));
    y.right = Some(Box::new(TreeNode::new(4)));
    x.right = Some(Box::new(y));

    let r = RedBlackTreeSet::rotate_left(Box::new(x));
    assert_eq!(r.key, 3);
    let inner = r.left.as_ref().expect("left child after rotation");
    assert_eq!(inner.key, 1);
    assert_eq!(inner.right.as_ref().expect("inner right").key, 2);
    assert_eq!(r.right.as_ref().expect("right").key, 4);
}

#[test]
fn test_rotate_right_reshapes() {
    let mut x = TreeNode::new(4);
    let mut y = TreeNode::new(2);
    y.left = Some(Box::new(TreeNode::new(1)));
    y.right = Some(Box::new(TreeNode::new(3)));
    x.left = Some(Box::new(y));

    let r = RedBlackTreeSet::rotate_right(Box::new(x));
    assert_eq!(r.key, 2);
    assert_eq!(r.left.as_ref().expect("left").key, 1);
    let inner = r.right.as_ref().expect("right child after rotation");
    assert_eq!(inner.key, 4);
    assert_eq!(inner.left.as_ref().expect("inner left").key, 3);
}

#[test]
fn test_rbt_ascending_three_recolors_root() {
    // 10, 20, 30 in ascending order: the rotation at the root makes 20
    // the black root with two red children, so the height is 2
    let mut tree = RedBlackTreeSet::new();
    tree.insert(10);
    tree.insert(20);
    tree.insert(30);

    let root = tree.root.as_ref().expect("root");
    assert_eq!(root.key, 20);
    assert_eq!(root.color, NodeColor::Black);
    let l = root.left.as_ref().expect("left");
    let r = root.right.as_ref().expect("right");
    assert_eq!(l.key, 10);
    assert_eq!(l.color, NodeColor::Red);
    assert!(l.left.is_none() && l.right.is_none());
    assert_eq!(r.key, 30);
    assert_eq!(r.color, NodeColor::Red);
    assert!(r.left.is_none() && r.right.is_none());
}

fn no_red_red_below(t: &Option<Box<TreeNode>>) -> bool {
    match t {
        None => true,
        Some(n) => {
            let here = n.color == NodeColor::Black
                || (child_color(&n.left) == NodeColor::Black
                    && child_color(&n.right) == NodeColor::Black);
            here && no_red_red_below(&n.left) && no_red_red_below(&n.right)
        }
    }
}

fn child_color(t: &Option<Box<TreeNode>>) -> NodeColor {
    match t {
        None => NodeColor::Black,
        Some(n) => n.color,
    }
}

fn black_height(t: &Option<Box<TreeNode>>) -> Option<usize> {
    match t {
        None => Some(0),
        Some(n) => {
            let l = black_height(&n.left)?;
            let r = black_height(&n.right)?;
            if l != r {
                return None;
            }
            Some(l + if n.color == NodeColor::Black { 1 } else { 0 })
        }
    }
}

#[test]
fn test_rbt_delete_root_keeps_discipline() {
    // build {5,2,10,12,8,6,9,4,13} and delete 5
    let mut tree = RedBlackTreeSet::new();
    for k in [5, 2, 10, 12, 8, 6, 9, 4, 13] {
        tree.insert(k);
    }
    assert_eq!(tree.delete(5), Ok(()));
    assert!(!tree.find(5));
    assert!(tree.find(4));
    assert!(tree.find(13));
    let out = tree.in_order_traversal();
    assert_eq!(out, vec![2, 4, 6, 8, 9, 10, 12, 13]);
    assert!(no_red_red_below(&tree.root));
    assert!(black_height(&tree.root).is_some());
    assert_eq!(child_color(&tree.root), NodeColor::Black);
}

#[test]
fn test_rbt_delete_not_found_leaves_tree_unchanged() {
    let mut tree = RedBlackTreeSet::new();
    for k in 1..=10 {
        tree.insert(k);
    }
    let before = tree.in_order_traversal();
    assert_eq!(tree.delete(999), Err(TreeError::KeyNotFound));
    let after = tree.in_order_traversal();
    assert_eq!(before, after);
    assert_eq!(after, vec![1, 2, 3, 4, 5, 6, 7, 8, 9, 10]);
}

#[test]
fn test_rbt_single_insert_delete_is_empty() {
    let mut tree = RedBlackTreeSet::new();
    tree.insert(42);
    assert_eq!(tree.delete(42), Ok(()));
    assert!(tree.isEmpty());
}

#[test]
fn test_rbt_duplicate_insert_keeps_size() {
    let mut tree = RedBlackTreeSet::new();
    tree.insert(7);
    tree.insert(3);
    tree.insert(7);
    assert!(tree.find(7));
    assert_eq!(tree.in_order_traversal().len(), 2);
}

#[test]
fn test_rbt_round_trip_empties_tree() {
    let mut tree = RedBlackTreeSet::new();
    let keys = [5, 12, 1, 9, 14, 3, 7, 11, 2, 8];
    for k in keys {
        tree.insert(k);
    }
    // delete in a different order than inserted
    for k in [14, 1, 7, 12, 2, 9, 5, 8, 3, 11] {
        assert_eq!(tree.delete(k), Ok(()));
    }
    assert!(tree.isEmpty());
}

#[test]
fn test_rbt_bulk_churn_keeps_discipline() {
    // drive the repair through all its cases: fill, then delete odd
    // keys ascending and even keys descending, checking the coloring
    // rules after every step
    let mut tree = RedBlackTreeSet::new();
    for k in 1..=64 {
        tree.insert(k);
        assert!(no_red_red_below(&tree.root));
        assert!(black_height(&tree.root).is_some());
        assert_eq!(child_color(&tree.root), NodeColor::Black);
    }
    let mut k = 1;
    while k <= 64 {
        assert_eq!(tree.delete(k), Ok(()));
        assert!(no_red_red_below(&tree.root));
        assert!(black_height(&tree.root).is_some());
        k += 2;
    }
    let mut k = 64;
    while k >= 2 {
        assert_eq!(tree.delete(k), Ok(()));
        assert!(no_red_red_below(&tree.root));
        assert!(black_height(&tree.root).is_some());
        k -= 2;
    }
    assert!(tree.isEmpty());
}

#[test]
fn test_rbt_many_inserts_and_deletes_keep_discipline() {
    let mut tree = RedBlackTreeSet::new();
    for k in 1..=19 {
        tree.insert(k);
    }
    assert!(no_red_red_below(&tree.root));
    assert!(black_height(&tree.root).is_some());
    assert_eq!(tree.delete(15), Ok(()));
    assert!(no_red_red_below(&tree.root));
    assert!(black_height(&tree.root).is_some());
    let out = tree.in_order_traversal();
    assert_eq!(out.len(), 18);
    for w in out.windows(2) {
        assert!(w[0] < w[1]);
    }
    // a mixed work load: remove the evens, reinsert a few
    for k in [2, 4, 6, 8, 10, 12, 14, 16, 18] {
        assert_eq!(tree.delete(k), Ok(()));
        assert!(no_red_red_below(&tree.root));
        assert!(black_height(&tree.root).is_some());
    }
    for k in [4, 16] {
        tree.insert(k);
        assert!(no_red_red_below(&tree.root));
        assert!(black_height(&tree.root).is_some());
    }
    let out = tree.in_order_traversal();
    assert_eq!(out, vec![1, 3, 4, 5, 7, 9, 11, 13, 16, 17, 19]);
}
