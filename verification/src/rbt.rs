//! The red-black search tree.
//!
//! Each node carries a color.  Well-formedness combines the
//! search-tree order with the red-black discipline: the root is black,
//! a red node never has a red child, and every path from a node down
//! to an absent child passes the same number of black nodes.  Insert
//! and delete restore the discipline with the standard recoloring and
//! rotation cases, working bottom-up from the point of change.

use vstd::prelude::*;

use crate::TreeError;

verus! {

use vstd::arithmetic::power2::pow2;

/// The color of a red-black tree node.
#[derive(Clone, Copy, Debug, PartialEq, Eq, Structural)]
pub enum NodeColor {
    Red,
    Black,
}

impl NodeColor {
    /// The opposite color.
    pub fn flip_color(color: NodeColor) -> (r: NodeColor)
        ensures
            r == (match color {
                NodeColor::Red => NodeColor::Black,
                NodeColor::Black => NodeColor::Red,
            }),
    {
        match color {
            NodeColor::Red => NodeColor::Black,
            NodeColor::Black => NodeColor::Red,
        }
    }
}

/// One node of the red-black tree: a color, a key, and the two owned
/// children.
pub struct TreeNode {
    pub color: NodeColor,
    pub key: u64,
    pub left: Option<Box<TreeNode>>,
    pub right: Option<Box<TreeNode>>,
}

impl TreeNode {
    /// A fresh red node holding `val`, with no children.
    pub fn new(val: u64) -> (r: TreeNode)
        ensures
            r.color == NodeColor::Red,
            r.key == val,
            r.left is None,
            r.right is None,
    {
        TreeNode { color: NodeColor::Red, key: val, left: None, right: None }
    }
}

/// The set of keys stored in a subtree.
pub open spec fn keys(t: Option<Box<TreeNode>>) -> Set<u64>
    decreases t,
{
    match t {
        None => Set::empty(),
        Some(n) => keys(n.left).union(keys(n.right)).insert(n.key),
    }
}

/// The keys of a subtree, in order of an in-order traversal.
pub open spec fn inorder(t: Option<Box<TreeNode>>) -> Seq<u64>
    decreases t,
{
    match t {
        None => Seq::empty(),
        Some(n) => inorder(n.left) + seq![n.key] + inorder(n.right),
    }
}

/// The number of nodes in a subtree.
pub open spec fn size_of(t: Option<Box<TreeNode>>) -> nat
    decreases t,
{
    match t {
        None => 0,
        Some(n) => 1 + size_of(n.left) + size_of(n.right),
    }
}

/// The height of a subtree: 0 when empty, 1 for a single node.
pub open spec fn height_of(t: Option<Box<TreeNode>>) -> nat
    decreases t,
{
    match t {
        None => 0,
        Some(n) => 1 + if height_of(n.left) >= height_of(n.right) {
            height_of(n.left)
        } else {
            height_of(n.right)
        },
    }
}

/// The search-tree ordering: at every node, all keys of the left
/// subtree are below the node's key and all keys of the right subtree
/// are above it.
pub open spec fn bst(t: Option<Box<TreeNode>>) -> bool
    decreases t,
{
    match t {
        None => true,
        Some(n) => {
            &&& bst(n.left)
            &&& bst(n.right)
            &&& forall|k: u64| keys(n.left).contains(k) ==> k < n.key
            &&& forall|k: u64| keys(n.right).contains(k) ==> k > n.key
        },
    }
}

/// Whether a subtree is rooted at a red node.  An absent child counts
/// as black.
pub open spec fn is_red(t: Option<Box<TreeNode>>) -> bool {
    match t {
        None => false,
        Some(n) => n.color is Red,
    }
}

/// No red node has a red child, anywhere in the subtree.
pub open spec fn no_red_red(t: Option<Box<TreeNode>>) -> bool
    decreases t,
{
    match t {
        None => true,
        Some(n) => {
            &&& no_red_red(n.left)
            &&& no_red_red(n.right)
            &&& (n.color is Red ==> !is_red(n.left) && !is_red(n.right))
        },
    }
}

/// The black-height of a subtree, counted along its left spine: the
/// number of black nodes on the path to the leftmost absent child,
/// including the root itself.
pub open spec fn bh(t: Option<Box<TreeNode>>) -> nat
    decreases t,
{
    match t {
        None => 0,
        Some(n) => bh(n.left) + if n.color is Black {
            1nat
        } else {
            0nat
        },
    }
}

/// Every node's two subtrees have the same black-height.
pub open spec fn bh_ok(t: Option<Box<TreeNode>>) -> bool
    decreases t,
{
    match t {
        None => true,
        Some(n) => {
            &&& bh_ok(n.left)
            &&& bh_ok(n.right)
            &&& bh(n.left) == bh(n.right)
        },
    }
}

/// A valid red-black subtree: ordered, no red-red edge, and equal
/// black-heights.  The root may be either color.
pub open spec fn rbs(t: Option<Box<TreeNode>>) -> bool {
    bst(t) && no_red_red(t) && bh_ok(t)
}

/// A subtree that is valid except possibly for one red-red edge at its
/// root: both children are valid with equal black-heights, and a red
/// root has at most one red child.  This is the state that insertion
/// passes upward until a black ancestor resolves it.
pub open spec fn infra(t: Option<Box<TreeNode>>) -> bool {
    t matches Some(n) && {
        &&& bst(t)
        &&& no_red_red(n.left)
        &&& no_red_red(n.right)
        &&& bh_ok(n.left)
        &&& bh_ok(n.right)
        &&& bh(n.left) == bh(n.right)
        &&& (n.color is Red ==> !(is_red(n.left) && is_red(n.right)))
    }
}

/// Recoloring a node changes neither its keys nor the search order.
proof fn lemma_bst_recolor(a: Option<Box<TreeNode>>, b: Option<Box<TreeNode>>)
    requires
        a matches Some(x) && b matches Some(y) && x.key == y.key && x.left == y.left && x.right
            == y.right,
        bst(a),
    ensures
        bst(b),
        keys(b) == keys(a),
        size_of(b) == size_of(a),
{
    let x = a.unwrap();
    let y = b.unwrap();
    assert(keys(a) == keys(x.left).union(keys(x.right)).insert(x.key));
    assert(keys(b) == keys(y.left).union(keys(y.right)).insert(y.key));
    assert(keys(b) =~= keys(a));
    assert(size_of(a) == 1 + size_of(x.left) + size_of(x.right));
    assert(size_of(b) == 1 + size_of(y.left) + size_of(y.right));
    assert(bst(y.left) && bst(y.right));
    assert(bst(b));
}

/// A node whose children were replaced by subtrees with the same key
/// sets keeps the search order.
proof fn lemma_bst_rebuild(a: Option<Box<TreeNode>>, b: Option<Box<TreeNode>>)
    requires
        a matches Some(x) && b matches Some(y) && x.key == y.key,
        bst(a),
        bst(b.unwrap().left),
        bst(b.unwrap().right),
        keys(b.unwrap().left) == keys(a.unwrap().left),
        keys(b.unwrap().right) == keys(a.unwrap().right),
        size_of(b.unwrap().left) == size_of(a.unwrap().left),
        size_of(b.unwrap().right) == size_of(a.unwrap().right),
    ensures
        bst(b),
        keys(b) == keys(a),
        size_of(b) == size_of(a),
{
    let x = a.unwrap();
    let y = b.unwrap();
    assert(keys(a) == keys(x.left).union(keys(x.right)).insert(x.key));
    assert(keys(b) == keys(y.left).union(keys(y.right)).insert(y.key));
    assert(keys(b) =~= keys(a));
    assert(size_of(a) == 1 + size_of(x.left) + size_of(x.right));
    assert(size_of(b) == 1 + size_of(y.left) + size_of(y.right));
    assert forall|k: u64| keys(y.left).contains(k) implies k < y.key by {
        assert(keys(x.left).contains(k));
    }
    assert forall|k: u64| keys(y.right).contains(k) implies k > y.key by {
        assert(keys(x.right).contains(k));
    }
    assert(bst(b));
}

/// The set of keys in the tree.
pub struct RedBlackTreeSet {
    pub root: Option<Box<TreeNode>>,
}

impl View for RedBlackTreeSet {
    type V = Set<u64>;

    /// A tree is viewed as its set of keys.
    open spec fn view(&self) -> Set<u64> {
        keys(self.root)
    }
}

impl RedBlackTreeSet {
    /// Well-formedness: the red-black discipline holds everywhere and
    /// the root is black.
    pub open spec fn wf(self) -> bool {
        rbs(self.root) && !is_red(self.root)
    }

    /// The number of keys in the tree.
    pub open spec fn size(self) -> nat {
        size_of(self.root)
    }

    /// The height of the tree: 0 when empty, 1 for a single node.
    pub open spec fn height(self) -> nat {
        height_of(self.root)
    }

    /// The empty tree.
    pub fn new() -> (r: RedBlackTreeSet)
        ensures
            r.wf(),
            r@ == Set::<u64>::empty(),
            r.root is None,
    {
        RedBlackTreeSet { root: None }
    }

    /// Whether the tree holds no keys.
    #[allow(non_snake_case)]
    pub fn isEmpty(&self) -> (r: bool)
        ensures
            r == (self@ == Set::<u64>::empty()),
            r == (self.root is None),
    {
        match &self.root {
            None => true,
            Some(root) => {
                proof {
                    assert(self@.contains(root.key));
                }
                false
            },
        }
    }

    /// Whether `key` is stored in the subtree under `node`.
    pub fn find_recursion(node: &Option<Box<TreeNode>>, key: u64) -> (r: bool)
        requires
            bst(*node),
        ensures
            r == keys(*node).contains(key),
        decreases *node,
    {
        match node {
            None => false,
            Some(n) => {
                if key < n.key {
                    proof {
                        if keys(n.right).contains(key) {
                            assert(key > n.key);
                        }
                    }
                    let r = Self::find_recursion(&n.left, key);
                    proof {
                        assert(keys(*node).contains(key) == keys(n.left).contains(key));
                    }
                    r
                } else if key > n.key {
                    proof {
                        if keys(n.left).contains(key) {
                            assert(key < n.key);
                        }
                    }
                    let r = Self::find_recursion(&n.right, key);
                    proof {
                        assert(keys(*node).contains(key) == keys(n.right).contains(key));
                    }
                    r
                } else {
                    proof {
                        assert(keys(*node).contains(key));
                    }
                    true
                }
            },
        }
    }

    /// Whether `key` is stored in the tree.
    pub fn find(&self, key: u64) -> (r: bool)
        requires
            self.wf(),
        ensures
            r == self@.contains(key),
    {
        Self::find_recursion(&self.root, key)
    }

    /// The smallest key of the subtree under `tree`, if any.
    pub fn find_minimum_recursion(tree: &Option<Box<TreeNode>>) -> (r: Option<u64>)
        requires
            bst(*tree),
        ensures
            r is None <==> *tree is None,
            r matches Some(m) ==> keys(*tree).contains(m) && forall|k: u64|
                keys(*tree).contains(k) ==> m <= k,
        decreases *tree,
    {
        match tree {
            None => None,
            Some(n) => {
                match &n.left {
                    Some(_) => {
                        let r = Self::find_minimum_recursion(&n.left);
                        proof {
                            let m = r.unwrap();
                            assert(keys(n.left).contains(m));
                            assert(m < n.key);
                            assert forall|k: u64| keys(*tree).contains(k) implies m <= k by {
                                if keys(n.left).contains(k) {
                                } else if keys(n.right).contains(k) {
                                    assert(k > n.key);
                                } else {
                                    assert(k == n.key);
                                }
                            }
                        }
                        r
                    },
                    None => {
                        proof {
                            assert(keys(n.left) =~= Set::<u64>::empty());
                            assert forall|k: u64| keys(*tree).contains(k) implies n.key <= k by {
                                if keys(n.right).contains(k) {
                                    assert(k > n.key);
                                }
                            }
                        }
                        Some(n.key)
                    },
                }
            },
        }
    }

    /// The smallest key of the subtree under `tree`, if any.
    pub fn find_minimum(tree: &Option<Box<TreeNode>>) -> (r: Option<u64>)
        requires
            bst(*tree),
        ensures
            r is None <==> *tree is None,
            r matches Some(m) ==> keys(*tree).contains(m) && forall|k: u64|
                keys(*tree).contains(k) ==> m <= k,
    {
        Self::find_minimum_recursion(tree)
    }

    /// Left rotation: the right child becomes the local root and the
    /// old root becomes its left child, keeping the in-order sequence.
    /// Colors are not touched; callers recolor around the call.
    pub fn rotate_left(x: Box<TreeNode>) -> (r: Box<TreeNode>)
        requires
            x.right is Some,
        ensures
            r.key == x.right.unwrap().key,
            r.color == x.right.unwrap().color,
            r.right == x.right.unwrap().right,
            r.left matches Some(xx) && xx.key == x.key && xx.color == x.color && xx.left
                == x.left && xx.right == x.right.unwrap().left,
            keys(Some(r)) == keys(Some(x)),
            size_of(Some(r)) == size_of(Some(x)),
            bst(Some(x)) ==> bst(Some(r)),
    {
        let ghost orig = x;
        let mut x = x;
        let mut y = x.right.take().unwrap();
        let ghost y0 = y;
        x.right = y.left.take();
        y.left = Some(x);
        proof {
            let xn = y.left.unwrap();
            assert(keys(Some(y)) == keys(Some(xn)).union(keys(y0.right)).insert(y0.key));
            assert(keys(Some(xn)) == keys(orig.left).union(keys(y0.left)).insert(orig.key));
            assert(keys(Some(orig)) == keys(orig.left).union(keys(Some(y0))).insert(orig.key));
            assert(keys(Some(y0)) == keys(y0.left).union(keys(y0.right)).insert(y0.key));
            assert(keys(Some(y)) =~= keys(Some(orig)));
            assert(size_of(Some(y)) == 1 + size_of(Some(xn)) + size_of(y0.right));
            assert(size_of(Some(xn)) == 1 + size_of(orig.left) + size_of(y0.left));
            assert(size_of(Some(orig)) == 1 + size_of(orig.left) + size_of(Some(y0)));
            assert(size_of(Some(y0)) == 1 + size_of(y0.left) + size_of(y0.right));
            if bst(Some(orig)) {
                assert(bst(Some(y0)));
                assert(keys(orig.right).contains(y0.key));
                assert(y0.key > orig.key);
                assert forall|k: u64| keys(Some(xn)).contains(k) implies k < y.key by {
                    if keys(orig.left).contains(k) {
                        assert(k < orig.key);
                    } else if keys(y0.left).contains(k) {
                        assert(k < y0.key);
                    } else {
                        assert(k == orig.key);
                    }
                }
                assert forall|k: u64| keys(xn.right).contains(k) implies k > xn.key by {
                    assert(keys(Some(y0)).contains(k));
                }
                assert(bst(Some(xn)));
                assert(bst(Some(y)));
            }
        }
        y
    }

    /// Right rotation, the mirror image of `rotate_left`.
    pub fn rotate_right(x: Box<TreeNode>) -> (r: Box<TreeNode>)
        requires
            x.left is Some,
        ensures
            r.key == x.left.unwrap().key,
            r.color == x.left.unwrap().color,
            r.left == x.left.unwrap().left,
            r.right matches Some(xx) && xx.key == x.key && xx.color == x.color && xx.right
                == x.right && xx.left == x.left.unwrap().right,
            keys(Some(r)) == keys(Some(x)),
            size_of(Some(r)) == size_of(Some(x)),
            bst(Some(x)) ==> bst(Some(r)),
    {
        let ghost orig = x;
        let mut x = x;
        let mut y = x.left.take().unwrap();
        let ghost y0 = y;
        x.left = y.right.take();
        y.right = Some(x);
        proof {
            let xn = y.right.unwrap();
            assert(keys(Some(y)) == keys(y0.left).union(keys(Some(xn))).insert(y0.key));
            assert(keys(Some(xn)) == keys(y0.right).union(keys(orig.right)).insert(orig.key));
            assert(keys(Some(orig)) == keys(Some(y0)).union(keys(orig.right)).insert(orig.key));
            assert(keys(Some(y0)) == keys(y0.left).union(keys(y0.right)).insert(y0.key));
            assert(keys(Some(y)) =~= keys(Some(orig)));
            assert(size_of(Some(y)) == 1 + size_of(y0.left) + size_of(Some(xn)));
            assert(size_of(Some(xn)) == 1 + size_of(y0.right) + size_of(orig.right));
            assert(size_of(Some(orig)) == 1 + size_of(Some(y0)) + size_of(orig.right));
            assert(size_of(Some(y0)) == 1 + size_of(y0.left) + size_of(y0.right));
            if bst(Some(orig)) {
                assert(bst(Some(y0)));
                assert(keys(orig.left).contains(y0.key));
                assert(y0.key < orig.key);
                assert forall|k: u64| keys(Some(xn)).contains(k) implies k > y.key by {
                    if keys(orig.right).contains(k) {
                        assert(k > orig.key);
                    } else if keys(y0.right).contains(k) {
                        assert(k > y0.key);
                    } else {
                        assert(k == orig.key);
                    }
                }
                assert forall|k: u64| keys(xn.left).contains(k) implies k < xn.key by {
                    assert(keys(Some(y0)).contains(k));
                }
                assert(bst(Some(xn)));
                assert(bst(Some(y)));
            }
        }
        y
    }
}

impl RedBlackTreeSet {
    /// Resolve a red-red violation two levels below the black node
    /// `n`: recolor when the uncle is red, otherwise rotate the
    /// grandparent toward the violating side, with the zig-zag case
    /// first rotating the red child.  `left_side` says which child of
    /// `n` holds the violation.
    fn fix(n: Box<TreeNode>, left_side: bool) -> (r: Box<TreeNode>)
        requires
            n.color is Black,
            bst(Some(n)),
            bh(n.left) == bh(n.right),
            left_side ==> infra(n.left) && no_red_red(n.right) && bh_ok(n.right) && is_red(
                n.left) && (is_red(n.left.unwrap().left) || is_red(n.left.unwrap().right)),
            !left_side ==> infra(n.right) && no_red_red(n.left) && bh_ok(n.left) && is_red(
                n.right) && (is_red(n.right.unwrap().left) || is_red(n.right.unwrap().right)),
        ensures
            rbs(Some(r)),
            keys(Some(r)) == keys(Some(n)),
            size_of(Some(r)) == size_of(Some(n)),
            bh(Some(r)) == bh(Some(n)),
    {
        let ghost orig = n;
        let mut n = n;
        if left_side {
            let ghost c0 = orig.left.unwrap();
            let uncle_red = node_is_red(&n.right);
            if uncle_red {
                // red uncle: push blackness down from the grandparent
                let mut c = n.left.take().unwrap();
                c.color = NodeColor::Black;
                n.left = Some(c);
                let mut u = n.right.take().unwrap();
                u.color = NodeColor::Black;
                n.right = Some(u);
                n.color = NodeColor::Red;
                proof {
                    let ghost u0 = orig.right.unwrap();
                    let c1 = n.left.unwrap();
                    let u1 = n.right.unwrap();
                    assert(keys(Some(c1)) == keys(c0.left).union(keys(c0.right)).insert(c0.key));
                    assert(keys(Some(c0)) == keys(c0.left).union(keys(c0.right)).insert(c0.key));
                    assert(keys(Some(u1)) == keys(u0.left).union(keys(u0.right)).insert(u0.key));
                    assert(keys(Some(u0)) == keys(u0.left).union(keys(u0.right)).insert(u0.key));
                    assert(keys(Some(n)) =~= keys(Some(orig)));
                    assert(bst(Some(orig)) && bst(orig.left) && bst(orig.right));
                    lemma_bst_recolor(orig.left, n.left);
                    lemma_bst_recolor(orig.right, n.right);
                    assert forall|k: u64| keys(n.left).contains(k) implies k < n.key by {
                        assert(keys(Some(c0)).contains(k));
                    }
                    assert forall|k: u64| keys(n.right).contains(k) implies k > n.key by {
                        assert(keys(Some(u0)).contains(k));
                    }
                    assert(bst(Some(n)));
                    assert(infra(orig.left));
                    assert(no_red_red(c0.left) && no_red_red(c0.right));
                    assert(no_red_red(Some(orig.right.unwrap())));
                    assert(no_red_red(u0.left) && no_red_red(u0.right));
                    assert(no_red_red(n.left) && no_red_red(n.right));
                    assert(no_red_red(Some(n)));
                    assert(bh_ok(c0.left) && bh_ok(c0.right) && bh(c0.left) == bh(c0.right));
                    assert(bh_ok(n.left));
                    assert(bh_ok(Some(u0)));
                    assert(bh_ok(u0.left) && bh_ok(u0.right) && bh(u0.left) == bh(u0.right));
                    assert(bh_ok(n.right));
                    assert(bh(Some(c0)) == bh(c0.left));
                    assert(bh(Some(u0)) == bh(u0.left));
                    assert(bh(c0.left) == bh(u0.left));
                    assert(bh(n.left) == bh(c0.left) + 1);
                    assert(bh(n.right) == bh(u0.left) + 1);
                    assert(bh_ok(Some(n)));
                    assert(bh(Some(n)) == bh(Some(orig)));
                    assert(size_of(Some(n)) == 1 + size_of(n.left) + size_of(n.right));
                    assert(size_of(Some(orig)) == 1 + size_of(orig.left) + size_of(
                        orig.right));
                    assert(size_of(Some(n)) == size_of(Some(orig)));
                }
                n
            } else {
                proof {
                    assert(infra(orig.left));
                    assert(no_red_red(c0.left) && no_red_red(c0.right));
                    assert(bh_ok(c0.left) && bh_ok(c0.right));
                    assert(bh(c0.left) == bh(c0.right));
                    assert(bh(Some(c0)) == bh(c0.left));
                    assert(no_red_red(orig.right) && bh_ok(orig.right));
                }
                let c = n.left.take().unwrap();
                let ll = node_is_red(&c.left);
                let mut c2 = if ll {
                    c
                } else {
                    // zig-zag: the red grandchild sits on the inner side
                    proof {
                        assert(is_red(c.right));
                        assert(bst(Some(c)));
                    }
                    Self::rotate_left(c)
                };
                let ghost c2g = c2;
                proof {
                    assert(is_red(c2g.left));
                    assert(bst(Some(c2g)));
                    assert(keys(Some(c2g)) == keys(Some(c0)));
                }
                c2.color = NodeColor::Black;
                n.color = NodeColor::Red;
                n.left = Some(c2);
                proof {
                    assert(bst(Some(orig)) && bst(orig.left) && bst(orig.right));
                    lemma_bst_recolor(Some(c2g), n.left);
                    assert forall|k: u64| keys(n.left).contains(k) implies k < n.key by {
                        assert(keys(Some(c0)).contains(k));
                    }
                    assert(bst(Some(n)));
                }
                let ghost n1 = n;
                let res = Self::rotate_right(n);
                proof {
                    let x = res.right.unwrap();
                    if ll {
                        let cl = c0.left.unwrap();
                        // straight case: the red pair is on the outside
                        assert(no_red_red(Some(cl)));
                        assert(!is_red(c0.right));
                        assert(res.left == c0.left);
                        assert(x.left == c0.right && x.right == orig.right);
                        assert(no_red_red(Some(x)));
                        assert(res.right == Some(x));
                        assert(no_red_red(res.left));
                        assert(!(res.color is Red));
                        assert(no_red_red(Some(res)));
                        assert(bh(x.left) == bh(c0.left));
                        assert(bh(Some(x)) == bh(c0.left));
                        assert(bh(res.left) == bh(c0.left));
                        assert(bh_ok(Some(x)));
                        assert(bh_ok(Some(res)));
                        assert(bh(Some(res)) == bh(Some(orig)));
                    } else {
                        let cr = c0.right.unwrap();
                        let ci = res.left.unwrap();
                        assert(!is_red(c0.left));
                        assert(no_red_red(c0.left));
                        assert(no_red_red(Some(cr)));
                        assert(no_red_red(cr.left) && no_red_red(cr.right));
                        assert(bh_ok(cr.left) && bh_ok(cr.right) && bh(cr.left) == bh(
                            cr.right));
                        assert(ci.key == c0.key && ci.color == c0.color && ci.left == c0.left
                            && ci.right == cr.left);
                        assert(x.left == cr.right && x.right == orig.right);
                        assert(!is_red(cr.left) && !is_red(cr.right));
                        assert(no_red_red(Some(ci)));
                        assert(no_red_red(Some(x)));
                        assert(!(res.color is Red));
                        assert(no_red_red(Some(res)));
                        assert(bh(Some(cr)) == bh(cr.left));
                        assert(bh(c0.left) == bh(Some(cr)));
                        assert(bh(Some(ci)) == bh(c0.left));
                        assert(bh(Some(x)) == bh(cr.right));
                        assert(bh_ok(Some(ci)) && bh_ok(Some(x)));
                        assert(bh_ok(Some(res)));
                        assert(bh(Some(res)) == bh(Some(orig)));
                    }
                    assert(size_of(Some(n1)) == 1 + size_of(n1.left) + size_of(n1.right));
                    assert(size_of(Some(orig)) == 1 + size_of(orig.left) + size_of(
                        orig.right));
                    assert(size_of(Some(res)) == size_of(Some(orig)));
                }
                res
            }
        } else {
            let ghost c0 = orig.right.unwrap();
            let uncle_red = node_is_red(&n.left);
            if uncle_red {
                // red uncle: push blackness down from the grandparent
                let mut c = n.right.take().unwrap();
                c.color = NodeColor::Black;
                n.right = Some(c);
                let mut u = n.left.take().unwrap();
                u.color = NodeColor::Black;
                n.left = Some(u);
                n.color = NodeColor::Red;
                proof {
                    let ghost u0 = orig.left.unwrap();
                    let c1 = n.right.unwrap();
                    let u1 = n.left.unwrap();
                    assert(keys(Some(c1)) == keys(c0.left).union(keys(c0.right)).insert(c0.key));
                    assert(keys(Some(c0)) == keys(c0.left).union(keys(c0.right)).insert(c0.key));
                    assert(keys(Some(u1)) == keys(u0.left).union(keys(u0.right)).insert(u0.key));
                    assert(keys(Some(u0)) == keys(u0.left).union(keys(u0.right)).insert(u0.key));
                    assert(keys(Some(n)) =~= keys(Some(orig)));
                    assert(bst(Some(orig)) && bst(orig.left) && bst(orig.right));
                    lemma_bst_recolor(orig.right, n.right);
                    lemma_bst_recolor(orig.left, n.left);
                    assert forall|k: u64| keys(n.right).contains(k) implies k > n.key by {
                        assert(keys(Some(c0)).contains(k));
                    }
                    assert forall|k: u64| keys(n.left).contains(k) implies k < n.key by {
                        assert(keys(Some(u0)).contains(k));
                    }
                    assert(bst(Some(n)));
                    assert(infra(orig.right));
                    assert(no_red_red(c0.left) && no_red_red(c0.right));
                    assert(no_red_red(Some(orig.left.unwrap())));
                    assert(no_red_red(u0.left) && no_red_red(u0.right));
                    assert(no_red_red(n.left) && no_red_red(n.right));
                    assert(no_red_red(Some(n)));
                    assert(bh_ok(c0.left) && bh_ok(c0.right) && bh(c0.left) == bh(c0.right));
                    assert(bh_ok(n.right));
                    assert(bh_ok(Some(u0)));
                    assert(bh_ok(u0.left) && bh_ok(u0.right) && bh(u0.left) == bh(u0.right));
                    assert(bh_ok(n.left));
                    assert(bh(Some(c0)) == bh(c0.left));
                    assert(bh(Some(u0)) == bh(u0.left));
                    assert(bh(c0.left) == bh(u0.left));
                    assert(bh(n.right) == bh(c0.left) + 1);
                    assert(bh(n.left) == bh(u0.left) + 1);
                    assert(bh_ok(Some(n)));
                    assert(bh(Some(n)) == bh(Some(orig)));
                    assert(size_of(Some(n)) == 1 + size_of(n.left) + size_of(n.right));
                    assert(size_of(Some(orig)) == 1 + size_of(orig.left) + size_of(
                        orig.right));
                    assert(size_of(Some(n)) == size_of(Some(orig)));
                }
                n
            } else {
                proof {
                    assert(infra(orig.right));
                    assert(no_red_red(c0.left) && no_red_red(c0.right));
                    assert(bh_ok(c0.left) && bh_ok(c0.right));
                    assert(bh(c0.left) == bh(c0.right));
                    assert(bh(Some(c0)) == bh(c0.left));
                    assert(no_red_red(orig.left) && bh_ok(orig.left));
                }
                let c = n.right.take().unwrap();
                let rr = node_is_red(&c.right);
                let mut c2 = if rr {
                    c
                } else {
                    // zig-zag: the red grandchild sits on the inner side
                    proof {
                        assert(is_red(c.left));
                        assert(bst(Some(c)));
                    }
                    Self::rotate_right(c)
                };
                let ghost c2g = c2;
                proof {
                    assert(is_red(c2g.right));
                    assert(bst(Some(c2g)));
                    assert(keys(Some(c2g)) == keys(Some(c0)));
                }
                c2.color = NodeColor::Black;
                n.color = NodeColor::Red;
                n.right = Some(c2);
                proof {
                    assert(bst(Some(orig)) && bst(orig.left) && bst(orig.right));
                    lemma_bst_recolor(Some(c2g), n.right);
                    assert forall|k: u64| keys(n.right).contains(k) implies k > n.key by {
                        assert(keys(Some(c0)).contains(k));
                    }
                    assert(bst(Some(n)));
                }
                let ghost n1 = n;
                let res = Self::rotate_left(n);
                proof {
                    let x = res.left.unwrap();
                    if rr {
                        let cr = c0.right.unwrap();
                        assert(no_red_red(Some(cr)));
                        assert(!is_red(c0.left));
                        assert(res.right == c0.right);
                        assert(x.right == c0.left && x.left == orig.left);
                        assert(no_red_red(Some(x)));
                        assert(res.left == Some(x));
                        assert(no_red_red(res.right));
                        assert(!(res.color is Red));
                        assert(no_red_red(Some(res)));
                        assert(bh(x.left) == bh(orig.left));
                        assert(bh(Some(x)) == bh(orig.left));
                        assert(bh(orig.left) == bh(c0.left));
                        assert(bh(res.right) == bh(c0.left));
                        assert(bh_ok(Some(x)));
                        assert(bh_ok(Some(res)));
                        assert(bh(Some(res)) == bh(Some(orig)));
                    } else {
                        let cl = c0.left.unwrap();
                        let ci = res.right.unwrap();
                        assert(!is_red(c0.right));
                        assert(no_red_red(c0.right));
                        assert(no_red_red(Some(cl)));
                        assert(no_red_red(cl.left) && no_red_red(cl.right));
                        assert(bh_ok(cl.left) && bh_ok(cl.right) && bh(cl.left) == bh(
                            cl.right));
                        assert(ci.key == c0.key && ci.color == c0.color && ci.right
                            == c0.right && ci.left == cl.right);
                        assert(x.right == cl.left && x.left == orig.left);
                        assert(!is_red(cl.left) && !is_red(cl.right));
                        assert(no_red_red(Some(ci)));
                        assert(no_red_red(Some(x)));
                        assert(!(res.color is Red));
                        assert(no_red_red(Some(res)));
                        assert(bh(Some(cl)) == bh(cl.left));
                        assert(bh(c0.left) == bh(Some(cl)) + (if c0.color is Black {
                            1int
                        } else {
                            0int
                        }) - (if c0.color is Black {
                            1int
                        } else {
                            0int
                        }));
                        assert(bh(Some(x)) == bh(x.left));
                        assert(bh(Some(ci)) == bh(ci.left));
                        assert(bh_ok(Some(ci)) && bh_ok(Some(x)));
                        assert(bh_ok(Some(res)));
                        assert(bh(Some(res)) == bh(Some(orig)));
                    }
                    assert(size_of(Some(n1)) == 1 + size_of(n1.left) + size_of(n1.right));
                    assert(size_of(Some(orig)) == 1 + size_of(orig.left) + size_of(
                        orig.right));
                    assert(size_of(Some(res)) == size_of(Some(orig)));
                }
                res
            }
        }
    }

    /// Ordinary search-tree insertion of a red node, resolving any
    /// red-red violation at the first black ancestor.  The result may
    /// carry one violation at its root, which the caller resolves (or
    /// the tree root absorbs by turning black).
    fn insert_recursive(node: Option<Box<TreeNode>>, key: u64) -> (r: Box<TreeNode>)
        requires
            rbs(node),
        ensures
            keys(Some(r)) == keys(node).insert(key),
            size_of(Some(r)) == size_of(node) + (if keys(node).contains(key) {
                0int
            } else {
                1int
            }),
            bh(Some(r)) == bh(node),
            infra(Some(r)),
            !is_red(node) ==> rbs(Some(r)),
            is_red(node) ==> r.color is Red,
            keys(node).contains(key) ==> node == Some(r),
        decreases node,
    {
        match node {
            None => {
                let r = Box::new(TreeNode::new(key));
                proof {
                    assert(keys(Some(r)) =~= keys(node).insert(key));
                    assert(rbs(Some(r)));
                    assert(infra(Some(r)));
                }
                r
            },
            Some(n) => {
                let ghost orig = n;
                let mut n = n;
                if key < n.key {
                    proof {
                        if keys(Some(orig)).contains(key) {
                            if keys(orig.right).contains(key) {
                                assert(key > orig.key);
                            }
                            assert(keys(orig.left).contains(key));
                        }
                        if keys(orig.left).contains(key) {
                            assert(keys(Some(orig)).contains(key));
                        }
                    }
                    let c = n.left.take();
                    let c2 = Self::insert_recursive(c, key);
                    n.left = Some(c2);
                    proof {
                        assert forall|k: u64| keys(n.left).contains(k) implies k < n.key by {
                            if keys(orig.left).contains(k) {
                            } else {
                                assert(k == key);
                            }
                        }
                        assert(bst(Some(n)));
                    }
                    let is_black = match n.color {
                        NodeColor::Black => true,
                        NodeColor::Red => false,
                    };
                    let fix_needed = match &n.left {
                        Some(c) => {
                            let cr = match c.color {
                                NodeColor::Red => true,
                                NodeColor::Black => false,
                            };
                            cr && (node_is_red(&c.left) || node_is_red(&c.right))
                        },
                        None => false,
                    };
                    if is_black && fix_needed {
                        n = Self::fix(n, true);
                    } else {
                        proof {
                            if !fix_needed {
                                assert(no_red_red(n.left));
                            }
                            if orig.color is Red {
                                assert(!is_red(orig.left) && !is_red(orig.right));
                                assert(!is_red(n.right));
                            }
                            assert(infra(Some(n)));
                        }
                    }
                    proof {
                        assert(keys(Some(n)) =~= keys(Some(orig)).insert(key));
                    }
                    n
                } else if key > n.key {
                    proof {
                        if keys(Some(orig)).contains(key) {
                            if keys(orig.left).contains(key) {
                                assert(key < orig.key);
                            }
                            assert(keys(orig.right).contains(key));
                        }
                        if keys(orig.right).contains(key) {
                            assert(keys(Some(orig)).contains(key));
                        }
                    }
                    let c = n.right.take();
                    let c2 = Self::insert_recursive(c, key);
                    n.right = Some(c2);
                    proof {
                        assert forall|k: u64| keys(n.right).contains(k) implies k > n.key by {
                            if keys(orig.right).contains(k) {
                            } else {
                                assert(k == key);
                            }
                        }
                        assert(bst(Some(n)));
                    }
                    let is_black = match n.color {
                        NodeColor::Black => true,
                        NodeColor::Red => false,
                    };
                    let fix_needed = match &n.right {
                        Some(c) => {
                            let cr = match c.color {
                                NodeColor::Red => true,
                                NodeColor::Black => false,
                            };
                            cr && (node_is_red(&c.left) || node_is_red(&c.right))
                        },
                        None => false,
                    };
                    if is_black && fix_needed {
                        n = Self::fix(n, false);
                    } else {
                        proof {
                            if !fix_needed {
                                assert(no_red_red(n.right));
                            }
                            if orig.color is Red {
                                assert(!is_red(orig.left) && !is_red(orig.right));
                                assert(!is_red(n.left));
                            }
                            assert(infra(Some(n)));
                        }
                    }
                    proof {
                        assert(keys(Some(n)) =~= keys(Some(orig)).insert(key));
                    }
                    n
                } else {
                    proof {
                        assert(keys(Some(orig)).contains(key));
                        assert(keys(Some(orig)).insert(key) =~= keys(Some(orig)));
                        assert(infra(Some(n)));
                    }
                    n
                }
            },
        }
    }

    /// Insert `key` into the tree.  Inserting a key already present
    /// leaves the tree exactly as it was, so the key set and the node
    /// count never see a duplicate.
    pub fn insert(&mut self, key: u64)
        requires
            old(self).wf(),
        ensures
            final(self).wf(),
            final(self)@ == old(self)@.insert(key),
            final(self).size() == old(self).size() + (if old(self)@.contains(key) {
                0int
            } else {
                1int
            }),
            old(self)@.contains(key) ==> *final(self) == *old(self),
    {
        let ghost r0 = self.root;
        let root = self.root.take();
        let mut r = Self::insert_recursive(root, key);
        r.color = NodeColor::Black;
        self.root = Some(r);
        proof {
            assert(no_red_red(Some(r)));
            assert(bh_ok(Some(r)));
            assert(rbs(self.root));
            if keys(r0).contains(key) {
                let n0 = r0.unwrap();
                assert(n0.color is Black);
                assert(r == n0);
            }
        }
    }
}

impl RedBlackTreeSet {
    /// Unlink a removed node of the given color: its place is taken by
    /// its at most one child.  A black node with no child leaves a
    /// black-height deficit behind, reported in the second component;
    /// a black node's single child is always a red leaf, which turns
    /// black to fill the gap.
    fn transplant(color: NodeColor, child: Option<Box<TreeNode>>) -> (res: (
        Option<Box<TreeNode>>,
        bool,
    ))
        requires
            rbs(child),
            bh(child) == 0,
            color is Red ==> !is_red(child),
        ensures
            rbs(res.0),
            keys(res.0) == keys(child),
            size_of(res.0) == size_of(child),
            !is_red(res.0),
            !res.1 ==> bh(res.0) == (if color is Black {
                1nat
            } else {
                0nat
            }),
            res.1 ==> bh(res.0) + 1 == (if color is Black {
                1nat
            } else {
                0nat
            }) && res.0 is None,
    {
        match child {
            None => {
                match color {
                    NodeColor::Red => (None, false),
                    NodeColor::Black => (None, true),
                }
            },
            Some(mut c) => {
                let ghost c0 = c;
                proof {
                    // a black root would contribute to the black-height
                    assert(bh(Some(c0)) == bh(c0.left) + (if c0.color is Black {
                        1nat
                    } else {
                        0nat
                    }));
                    assert(c0.color is Red);
                    assert(color is Black);
                    // red node: its children are black, and a black child
                    // would contribute to the zero black-height
                    if c0.left is Some {
                        let d = c0.left.unwrap();
                        assert(!is_red(c0.left));
                        assert(bh(c0.left) == bh(d.left) + 1);
                    }
                    assert(c0.left is None);
                    if c0.right is Some {
                        let d = c0.right.unwrap();
                        assert(!is_red(c0.right));
                        assert(bh(c0.right) == bh(d.left) + 1);
                        assert(bh(c0.left) == bh(c0.right));
                    }
                    assert(c0.right is None);
                }
                c.color = NodeColor::Black;
                proof {
                    assert(keys(Some(c)) =~= keys(Some(c0)));
                    assert(bst(Some(c)));
                }
                (Some(c), false)
            },
        }
    }

    /// Cases two to four of the deletion fixup, where the sibling of
    /// the deficient side is black: either the sibling turns red and
    /// the deficit moves up, or one or two rotations around the
    /// sibling end the repair on the spot.
    fn fix_delete_black(n: Box<TreeNode>, deficit_left: bool) -> (res: (Box<TreeNode>, bool))
        requires
            bst(Some(n)),
            no_red_red(n.left),
            no_red_red(n.right),
            bh_ok(n.left),
            bh_ok(n.right),
            n.color is Red ==> !is_red(n.left) && !is_red(n.right),
            deficit_left ==> bh(n.left) + 1 == bh(n.right) && !is_red(n.left) && !is_red(
                n.right),
            !deficit_left ==> bh(n.right) + 1 == bh(n.left) && !is_red(n.right) && !is_red(
                n.left),
        ensures
            bst(Some(res.0)),
            no_red_red(Some(res.0)),
            bh_ok(Some(res.0)),
            keys(Some(res.0)) == keys(Some(n)),
            size_of(Some(res.0)) == size_of(Some(n)),
            is_red(Some(res.0)) ==> n.color is Red,
            !res.1 ==> bh(Some(res.0)) == (if deficit_left {
                bh(n.right)
            } else {
                bh(n.left)
            }) + (if n.color is Black {
                1nat
            } else {
                0nat
            }),
            res.1 ==> bh(Some(res.0)) + 1 == (if deficit_left {
                bh(n.right)
            } else {
                bh(n.left)
            }) + (if n.color is Black {
                1nat
            } else {
                0nat
            }) && !is_red(Some(res.0)),
            n.color is Red ==> !res.1,
    {
        let ghost orig = n;
        let mut n = n;
        if deficit_left {
            let ghost b = bh(orig.left);
            let mut w = n.right.take().unwrap();
            let ghost w0 = w;
            proof {
                assert(orig.right == Some(w0));
                assert(w0.color is Black);
                assert(bh(Some(w0)) == bh(w0.left) + 1);
                assert(bh(w0.left) == b && bh(w0.right) == b);
                assert(no_red_red(w0.left) && no_red_red(w0.right));
                assert(bh_ok(w0.left) && bh_ok(w0.right));
                assert(bst(Some(orig)) && bst(orig.left) && bst(Some(w0)));
            }
            let wl_red = node_is_red(&w.left);
            let wr_red = node_is_red(&w.right);
            if !wl_red && !wr_red {
                // case two: the sibling turns red, the deficit moves up
                w.color = NodeColor::Red;
                proof {
                    lemma_bst_recolor(Some(w0), Some(w));
                }
                n.right = Some(w);
                proof {
                    assert(keys(Some(n)) =~= keys(Some(orig)));
                    assert(bst(Some(n)));
                    assert(no_red_red(Some(w)));
                    assert(bh(Some(w)) == b);
                    assert(bh_ok(Some(w)));
                    assert(size_of(Some(n)) == size_of(Some(orig)));
                }
                match n.color {
                    NodeColor::Red => {
                        // a red parent absorbs the missing black node
                        n.color = NodeColor::Black;
                        proof {
                            assert(keys(Some(n)) =~= keys(Some(orig)));
                            assert(bst(Some(n)));
                            assert(no_red_red(Some(n)));
                            assert(bh_ok(Some(n)));
                            assert(bh(Some(n)) == b + 1);
                        }
                        (n, false)
                    },
                    NodeColor::Black => {
                        proof {
                            assert(no_red_red(Some(n)));
                            assert(bh_ok(Some(n)));
                            assert(bh(Some(n)) == b + 1);
                        }
                        (n, true)
                    },
                }
            } else {
                if !wr_red {
                    // case three: red near child; rotate the sibling so
                    // its far child becomes red
                    let ghost wl0 = w0.left.unwrap();
                    proof {
                        assert(is_red(w0.left));
                        assert(bh(Some(wl0)) == b);
                        assert(bh(wl0.left) == b && bh(wl0.right) == b);
                        assert(!is_red(wl0.left) && !is_red(wl0.right));
                        assert(no_red_red(wl0.left) && no_red_red(wl0.right));
                        assert(bh_ok(wl0.left) && bh_ok(wl0.right));
                    }
                    w.color = NodeColor::Red;
                    let mut wl = w.left.take().unwrap();
                    wl.color = NodeColor::Black;
                    w.left = Some(wl);
                    proof {
                        lemma_bst_recolor(Some(wl0), w.left);
                        lemma_bst_rebuild(Some(w0), Some(w));
                    }
                    let w2 = Self::rotate_right(w);
                    n.right = Some(w2);
                    proof {
                        let ww = w2.right.unwrap();
                        assert(ww.color is Red);
                        assert(ww.left == wl0.right && ww.right == w0.right);
                        assert(w2.color is Black);
                        assert(w2.left == wl0.left);
                        assert(bh(Some(ww)) == b);
                        assert(no_red_red(Some(ww)));
                        assert(bh_ok(Some(ww)));
                        assert(bh(Some(w2)) == b + 1);
                        assert(no_red_red(Some(w2)));
                        assert(bh_ok(Some(w2)));
                        assert(keys(Some(w2)) == keys(Some(w0)));
                        assert(size_of(Some(w2)) == size_of(Some(w0)));
                        assert forall|k: u64| keys(n.right).contains(k) implies k > n.key by {
                            assert(keys(Some(w0)).contains(k));
                        }
                        assert(bst(Some(n)));
                    }
                } else {
                    n.right = Some(w);
                }
                // case four: red far child; one rotation ends the repair
                proof {
                    let wx = n.right.unwrap();
                    assert(wx.color is Black);
                    assert(is_red(wx.right));
                    assert(bh(Some(wx)) == b + 1);
                    assert(bh(wx.left) == b);
                    assert(bh_ok(wx.left) && bh_ok(wx.right) && no_red_red(wx.left)
                        && no_red_red(wx.right));
                    assert(bh(wx.left) == bh(wx.right));
                    assert(keys(Some(wx)) == keys(Some(w0)));
                    assert(size_of(Some(wx)) == size_of(Some(w0)));
                    assert(bst(Some(n)));
                }
                let mut w = n.right.take().unwrap();
                let ghost w4 = w;
                let ncol = n.color;
                w.color = ncol;
                n.color = NodeColor::Black;
                let mut wr = w.right.take().unwrap();
                let ghost wr0 = w4.right.unwrap();
                proof {
                    assert(wr0.color is Red);
                    assert(bh(Some(wr0)) == b);
                    assert(bh(wr0.left) == b && bh(wr0.right) == b);
                    assert(!is_red(wr0.left) && !is_red(wr0.right));
                }
                wr.color = NodeColor::Black;
                w.right = Some(wr);
                proof {
                    assert(bst(Some(w4)));
                    lemma_bst_recolor(Some(wr0), w.right);
                    lemma_bst_rebuild(Some(w4), Some(w));
                }
                n.right = Some(w);
                proof {
                    assert forall|k: u64| keys(n.right).contains(k) implies k > n.key by {
                        assert(keys(Some(w0)).contains(k));
                    }
                    assert(bst(Some(n)));
                }
                let ghost n4 = n;
                let r = Self::rotate_left(n);
                proof {
                    let x = r.left.unwrap();
                    assert(x.color is Black);
                    assert(x.left == orig.left && x.right == w4.left);
                    assert(r.color == orig.color);
                    assert(r.right == w.right);
                    assert(bh(Some(x)) == b + 1);
                    assert(bh(x.left) == bh(x.right));
                    assert(bh_ok(Some(x)));
                    assert(no_red_red(Some(x)));
                    assert(bh(r.right) == b + 1);
                    assert(no_red_red(Some(wr0)) && no_red_red(wr0.left) && no_red_red(
                        wr0.right));
                    assert(no_red_red(r.right));
                    assert(bh_ok(r.right));
                    assert(no_red_red(Some(r)));
                    assert(bh_ok(Some(r)));
                    assert(bh(Some(r)) == b + 1 + (if orig.color is Black {
                        1nat
                    } else {
                        0nat
                    }));
                    assert(keys(Some(r)) == keys(Some(n4)));
                    assert(keys(Some(n4)) =~= keys(Some(orig)));
                    assert(size_of(Some(n4)) == size_of(Some(orig)));
                }
                (r, false)
            }
        } else {
            let ghost b = bh(orig.right);
            let mut w = n.left.take().unwrap();
            let ghost w0 = w;
            proof {
                assert(orig.left == Some(w0));
                assert(w0.color is Black);
                assert(bh(Some(w0)) == bh(w0.left) + 1);
                assert(bh(w0.left) == b && bh(w0.right) == b);
                assert(no_red_red(w0.left) && no_red_red(w0.right));
                assert(bh_ok(w0.left) && bh_ok(w0.right));
                assert(bst(Some(orig)) && bst(orig.right) && bst(Some(w0)));
            }
            let wl_red = node_is_red(&w.left);
            let wr_red = node_is_red(&w.right);
            if !wl_red && !wr_red {
                // case two: the sibling turns red, the deficit moves up
                w.color = NodeColor::Red;
                proof {
                    lemma_bst_recolor(Some(w0), Some(w));
                }
                n.left = Some(w);
                proof {
                    assert(keys(Some(n)) =~= keys(Some(orig)));
                    assert(bst(Some(n)));
                    assert(no_red_red(Some(w)));
                    assert(bh(Some(w)) == b);
                    assert(bh_ok(Some(w)));
                    assert(size_of(Some(n)) == size_of(Some(orig)));
                }
                match n.color {
                    NodeColor::Red => {
                        // a red parent absorbs the missing black node
                        n.color = NodeColor::Black;
                        proof {
                            assert(keys(Some(n)) =~= keys(Some(orig)));
                            assert(bst(Some(n)));
                            assert(no_red_red(Some(n)));
                            assert(bh_ok(Some(n)));
                            assert(bh(Some(n)) == b + 1);
                        }
                        (n, false)
                    },
                    NodeColor::Black => {
                        proof {
                            assert(no_red_red(Some(n)));
                            assert(bh_ok(Some(n)));
                            assert(bh(Some(n)) == b + 1);
                        }
                        (n, true)
                    },
                }
            } else {
                if !wl_red {
                    // case three: red near child; rotate the sibling so
                    // its far child becomes red
                    let ghost wr0g = w0.right.unwrap();
                    proof {
                        assert(is_red(w0.right));
                        assert(bh(Some(wr0g)) == b);
                        assert(bh(wr0g.left) == b && bh(wr0g.right) == b);
                        assert(!is_red(wr0g.left) && !is_red(wr0g.right));
                        assert(no_red_red(wr0g.left) && no_red_red(wr0g.right));
                        assert(bh_ok(wr0g.left) && bh_ok(wr0g.right));
                    }
                    w.color = NodeColor::Red;
                    let mut wrn = w.right.take().unwrap();
                    wrn.color = NodeColor::Black;
                    w.right = Some(wrn);
                    proof {
                        lemma_bst_recolor(Some(wr0g), w.right);
                        lemma_bst_rebuild(Some(w0), Some(w));
                    }
                    let w2 = Self::rotate_left(w);
                    n.left = Some(w2);
                    proof {
                        let ww = w2.left.unwrap();
                        assert(ww.color is Red);
                        assert(ww.right == wr0g.left && ww.left == w0.left);
                        assert(w2.color is Black);
                        assert(w2.right == wr0g.right);
                        assert(bh(Some(ww)) == b);
                        assert(no_red_red(Some(ww)));
                        assert(bh_ok(Some(ww)));
                        assert(bh(Some(w2)) == b + 1);
                        assert(no_red_red(Some(w2)));
                        assert(bh_ok(Some(w2)));
                        assert(keys(Some(w2)) == keys(Some(w0)));
                        assert(size_of(Some(w2)) == size_of(Some(w0)));
                        assert forall|k: u64| keys(n.left).contains(k) implies k < n.key by {
                            assert(keys(Some(w0)).contains(k));
                        }
                        assert(bst(Some(n)));
                    }
                } else {
                    n.left = Some(w);
                }
                // case four: red far child; one rotation ends the repair
                proof {
                    let wx = n.left.unwrap();
                    assert(wx.color is Black);
                    assert(is_red(wx.left));
                    assert(bh(Some(wx)) == b + 1);
                    assert(bh(wx.left) == b);
                    assert(bh_ok(wx.left) && bh_ok(wx.right) && no_red_red(wx.left)
                        && no_red_red(wx.right));
                    assert(bh(wx.left) == bh(wx.right));
                    assert(keys(Some(wx)) == keys(Some(w0)));
                    assert(size_of(Some(wx)) == size_of(Some(w0)));
                    assert(bst(Some(n)));
                }
                let mut w = n.left.take().unwrap();
                let ghost w4 = w;
                let ncol = n.color;
                w.color = ncol;
                n.color = NodeColor::Black;
                let mut wl = w.left.take().unwrap();
                let ghost wl0 = w4.left.unwrap();
                proof {
                    assert(wl0.color is Red);
                    assert(bh(Some(wl0)) == b);
                    assert(bh(wl0.left) == b && bh(wl0.right) == b);
                    assert(!is_red(wl0.left) && !is_red(wl0.right));
                }
                wl.color = NodeColor::Black;
                w.left = Some(wl);
                proof {
                    assert(bst(Some(w4)));
                    lemma_bst_recolor(Some(wl0), w.left);
                    lemma_bst_rebuild(Some(w4), Some(w));
                }
                n.left = Some(w);
                proof {
                    assert forall|k: u64| keys(n.left).contains(k) implies k < n.key by {
                        assert(keys(Some(w0)).contains(k));
                    }
                    assert(bst(Some(n)));
                }
                let ghost n4 = n;
                let r = Self::rotate_right(n);
                proof {
                    let x = r.right.unwrap();
                    assert(x.color is Black);
                    assert(x.right == orig.right && x.left == w4.right);
                    assert(r.color == orig.color);
                    assert(r.left == w.left);
                    assert(bh(Some(x)) == b + 1);
                    assert(bh(x.left) == bh(x.right));
                    assert(bh_ok(Some(x)));
                    assert(no_red_red(Some(x)));
                    assert(bh(r.left) == b + 1);
                    assert(no_red_red(Some(wl0)) && no_red_red(wl0.left) && no_red_red(
                        wl0.right));
                    assert(no_red_red(r.left));
                    assert(bh_ok(r.left));
                    assert(no_red_red(Some(r)));
                    assert(bh_ok(Some(r)));
                    assert(bh(Some(r)) == b + 1 + (if orig.color is Black {
                        1nat
                    } else {
                        0nat
                    }));
                    assert(keys(Some(r)) == keys(Some(n4)));
                    assert(keys(Some(n4)) =~= keys(Some(orig)));
                    assert(size_of(Some(n4)) == size_of(Some(orig)));
                }
                (r, false)
            }
        }
    }
}

impl RedBlackTreeSet {
    /// The deletion fixup at `n`, whose subtree on the given side is
    /// one black node short.  A red sibling is first rotated away
    /// (case one); the remaining cases are handled by the black-sibling
    /// repair.  The second component reports whether the deficit moved
    /// up to `n`'s parent.
    fn fix_delete(n: Box<TreeNode>, deficit_left: bool) -> (res: (Box<TreeNode>, bool))
        requires
            bst(Some(n)),
            no_red_red(n.left),
            no_red_red(n.right),
            bh_ok(n.left),
            bh_ok(n.right),
            n.color is Red ==> !is_red(n.left) && !is_red(n.right),
            deficit_left ==> bh(n.left) + 1 == bh(n.right) && !is_red(n.left),
            !deficit_left ==> bh(n.right) + 1 == bh(n.left) && !is_red(n.right),
        ensures
            bst(Some(res.0)),
            no_red_red(Some(res.0)),
            bh_ok(Some(res.0)),
            keys(Some(res.0)) == keys(Some(n)),
            size_of(Some(res.0)) == size_of(Some(n)),
            is_red(Some(res.0)) ==> n.color is Red,
            !res.1 ==> bh(Some(res.0)) == (if deficit_left {
                bh(n.right)
            } else {
                bh(n.left)
            }) + (if n.color is Black {
                1nat
            } else {
                0nat
            }),
            res.1 ==> bh(Some(res.0)) + 1 == (if deficit_left {
                bh(n.right)
            } else {
                bh(n.left)
            }) + (if n.color is Black {
                1nat
            } else {
                0nat
            }) && !is_red(Some(res.0)),
    {
        let ghost orig = n;
        let mut n = n;
        if deficit_left {
            let w_red = node_is_red(&n.right);
            if !w_red {
                Self::fix_delete_black(n, true)
            } else {
                // case one: red sibling; after this rotation the
                // deficient side has a black sibling and a red parent
                let ghost b = bh(orig.left);
                let ghost w0 = orig.right.unwrap();
                proof {
                    assert(orig.color is Black);
                    assert(bh(Some(w0)) == b + 1);
                    assert(bh(w0.left) == b + 1 && bh(w0.right) == b + 1);
                    assert(!is_red(w0.left) && !is_red(w0.right));
                    assert(no_red_red(w0.left) && no_red_red(w0.right));
                    assert(bh_ok(w0.left) && bh_ok(w0.right));
                    assert(bst(Some(w0)));
                }
                n.color = NodeColor::Red;
                proof {
                    lemma_bst_recolor(Some(orig), Some(n));
                }
                let mut r = Self::rotate_left(n);
                r.color = NodeColor::Black;
                let ghost rg = r;
                let inner = r.left.take().unwrap();
                proof {
                    assert(inner.color is Red);
                    assert(inner.key == orig.key);
                    assert(inner.left == orig.left && inner.right == w0.left);
                    assert(bst(Some(rg)));
                    assert(bst(Some(inner)));
                    assert(bh(inner.left) + 1 == bh(inner.right));
                }
                let (fixed, d2) = Self::fix_delete_black(inner, true);
                proof {
                    assert(!d2);
                    assert(bh(Some(fixed)) == b + 1);
                }
                r.left = Some(fixed);
                proof {
                    lemma_bst_rebuild(Some(rg), Some(r));
                    assert(keys(Some(rg)) == keys(Some(orig)));
                    assert(size_of(Some(rg)) == size_of(Some(orig)));
                    assert(no_red_red(Some(fixed)) && no_red_red(w0.right));
                    assert(!(r.color is Red));
                    assert(no_red_red(Some(r)));
                    assert(bh(r.right) == b + 1);
                    assert(bh_ok(Some(fixed)) && bh_ok(w0.right));
                    assert(bh_ok(Some(r)));
                    assert(bh(Some(r)) == b + 2);
                }
                (r, false)
            }
        } else {
            let w_red = node_is_red(&n.left);
            if !w_red {
                Self::fix_delete_black(n, false)
            } else {
                // case one: red sibling; after this rotation the
                // deficient side has a black sibling and a red parent
                let ghost b = bh(orig.right);
                let ghost w0 = orig.left.unwrap();
                proof {
                    assert(orig.color is Black);
                    assert(bh(Some(w0)) == b + 1);
                    assert(bh(w0.left) == b + 1 && bh(w0.right) == b + 1);
                    assert(!is_red(w0.left) && !is_red(w0.right));
                    assert(no_red_red(w0.left) && no_red_red(w0.right));
                    assert(bh_ok(w0.left) && bh_ok(w0.right));
                    assert(bst(Some(w0)));
                }
                n.color = NodeColor::Red;
                proof {
                    lemma_bst_recolor(Some(orig), Some(n));
                }
                let mut r = Self::rotate_right(n);
                r.color = NodeColor::Black;
                let ghost rg = r;
                let inner = r.right.take().unwrap();
                proof {
                    assert(inner.color is Red);
                    assert(inner.key == orig.key);
                    assert(inner.right == orig.right && inner.left == w0.right);
                    assert(bst(Some(rg)));
                    assert(bst(Some(inner)));
                    assert(bh(inner.right) + 1 == bh(inner.left));
                }
                let (fixed, d2) = Self::fix_delete_black(inner, false);
                proof {
                    assert(!d2);
                    assert(bh(Some(fixed)) == b + 1);
                }
                r.right = Some(fixed);
                proof {
                    lemma_bst_rebuild(Some(rg), Some(r));
                    assert(keys(Some(rg)) == keys(Some(orig)));
                    assert(size_of(Some(rg)) == size_of(Some(orig)));
                    assert(no_red_red(Some(fixed)) && no_red_red(w0.left));
                    assert(!(r.color is Red));
                    assert(no_red_red(Some(r)));
                    assert(bh(r.left) == b + 1);
                    assert(bh_ok(Some(fixed)) && bh_ok(w0.left));
                    assert(bh_ok(Some(r)));
                    assert(bh(Some(r)) == b + 2);
                }
                (r, false)
            }
        }
    }
}

impl RedBlackTreeSet {
    /// Remove and return the smallest key of the subtree under `node`,
    /// repairing the black-height on the way back up.  The last
    /// component reports a remaining deficit.
    fn remove_min(node: Box<TreeNode>) -> (res: (u64, Option<Box<TreeNode>>, bool))
        requires
            rbs(Some(node)),
        ensures
            keys(Some(node)).contains(res.0),
            forall|k: u64| keys(Some(node)).contains(k) ==> res.0 <= k,
            keys(res.1) == keys(Some(node)).remove(res.0),
            size_of(res.1) + 1 == size_of(Some(node)),
            rbs(res.1),
            !res.2 ==> bh(res.1) == bh(Some(node)),
            res.2 ==> bh(res.1) + 1 == bh(Some(node)) && !is_red(res.1),
            is_red(res.1) ==> is_red(Some(node)),
        decreases node,
    {
        let ghost orig = node;
        let mut n = node;
        match n.left.take() {
            None => {
                // this node is the minimum: splice in its only child
                let m = n.key;
                let col = n.color;
                let c = n.right.take();
                proof {
                    assert(keys(orig.left) =~= Set::<u64>::empty());
                    assert(bh(orig.left) == 0 && bh(orig.right) == 0);
                    if keys(orig.right).contains(m) {
                        assert(m > orig.key);
                    }
                    assert(keys(orig.right) =~= keys(Some(orig)).remove(m));
                    assert(keys(Some(orig)).contains(m));
                    assert(size_of(orig.left) == 0);
                    assert(size_of(Some(orig)) == 1 + size_of(orig.right));
                    assert forall|k: u64| keys(Some(orig)).contains(k) implies m <= k by {
                        if keys(orig.right).contains(k) {
                            assert(k > orig.key);
                        }
                    }
                }
                let (r, d) = Self::transplant(col, c);
                proof {
                    assert(bh(Some(orig)) == (if orig.color is Black {
                        1nat
                    } else {
                        0nat
                    }));
                }
                (m, r, d)
            },
            Some(l) => {
                let (m, l2, d) = Self::remove_min(l);
                n.left = l2;
                proof {
                    assert(keys(orig.left).contains(m));
                    assert(m < orig.key);
                    assert forall|k: u64| keys(Some(orig)).contains(k) implies m <= k by {
                        if keys(orig.left).contains(k) {
                        } else if keys(orig.right).contains(k) {
                            assert(k > orig.key);
                        } else {
                            assert(k == orig.key);
                        }
                    }
                    assert(keys(n.left) == keys(orig.left).remove(m));
                    assert forall|k: u64| keys(n.left).contains(k) implies k < n.key by {
                        assert(keys(orig.left).contains(k));
                    }
                    assert(bst(Some(orig)) && bst(orig.right));
                    assert(bst(Some(n)));
                    if keys(orig.right).contains(m) {
                        assert(m > orig.key);
                    }
                    assert(keys(Some(n)) =~= keys(Some(orig)).remove(m));
                    assert(size_of(Some(n)) + 1 == size_of(Some(orig)));
                }
                if d {
                    proof {
                        assert(bh(n.left) + 1 == bh(orig.left));
                        assert(bh(orig.left) == bh(orig.right));
                        if orig.color is Red {
                            assert(!is_red(orig.left) && !is_red(orig.right));
                        }
                    }
                    let ghost nd = n;
                    let (r, d2) = Self::fix_delete(n, true);
                    proof {
                        assert(keys(Some(r)) == keys(Some(nd)));
                        assert(bh(Some(orig)) == bh(orig.left) + (if orig.color is Black {
                            1nat
                        } else {
                            0nat
                        }));
                    }
                    (m, Some(r), d2)
                } else {
                    (m, Some(n), false)
                }
            },
        }
    }

    /// Remove `key` from the subtree under `node`.  A node with two
    /// children takes over its in-order successor's key, and the
    /// successor's position is the one unlinked; the black-height is
    /// repaired bottom-up from the point of removal.  A key not
    /// present leaves the subtree untouched.
    fn delete_node(node: Option<Box<TreeNode>>, key: u64) -> (res: (Option<Box<TreeNode>>, bool))
        requires
            rbs(node),
        ensures
            rbs(res.0),
            keys(res.0) == keys(node).remove(key),
            size_of(res.0) == size_of(node) - (if keys(node).contains(key) {
                1int
            } else {
                0int
            }),
            !res.1 ==> bh(res.0) == bh(node),
            res.1 ==> bh(res.0) + 1 == bh(node) && !is_red(res.0),
            is_red(res.0) ==> is_red(node),
            !keys(node).contains(key) ==> res.0 == node && !res.1,
        decreases node,
    {
        match node {
            None => {
                proof {
                    assert(keys(node).remove(key) =~= keys(node));
                }
                (None, false)
            },
            Some(n) => {
                let ghost orig = n;
                let mut n = n;
                if key < n.key {
                    proof {
                        if keys(Some(orig)).contains(key) {
                            if keys(orig.right).contains(key) {
                                assert(key > orig.key);
                            }
                            assert(keys(orig.left).contains(key));
                        }
                        if keys(orig.left).contains(key) {
                            assert(keys(Some(orig)).contains(key));
                        }
                    }
                    let c = n.left.take();
                    let (c2, d) = Self::delete_node(c, key);
                    n.left = c2;
                    proof {
                        assert(keys(n.left) == keys(orig.left).remove(key));
                        assert forall|k: u64| keys(n.left).contains(k) implies k < n.key by {
                            assert(keys(orig.left).contains(k));
                        }
                        assert(bst(Some(orig)) && bst(orig.right));
                        assert(bst(Some(n)));
                        assert(keys(Some(n)) =~= keys(Some(orig)).remove(key));
                    }
                    if d {
                        proof {
                            assert(bh(n.left) + 1 == bh(orig.left));
                            assert(bh(orig.left) == bh(orig.right));
                            if orig.color is Red {
                                assert(!is_red(orig.left) && !is_red(orig.right));
                            }
                        }
                        let ghost nd = n;
                        let (r, d2) = Self::fix_delete(n, true);
                        proof {
                            assert(keys(Some(r)) == keys(Some(nd)));
                            assert(bh(Some(orig)) == bh(orig.left) + (if orig.color
                                is Black {
                                1nat
                            } else {
                                0nat
                            }));
                        }
                        (Some(r), d2)
                    } else {
                        proof {
                            if !keys(Some(orig)).contains(key) {
                                assert(keys(orig.left).remove(key) =~= keys(orig.left));
                                assert(n.left == orig.left);
                                assert(n == orig);
                            }
                        }
                        (Some(n), false)
                    }
                } else if key > n.key {
                    proof {
                        if keys(Some(orig)).contains(key) {
                            if keys(orig.left).contains(key) {
                                assert(key < orig.key);
                            }
                            assert(keys(orig.right).contains(key));
                        }
                        if keys(orig.right).contains(key) {
                            assert(keys(Some(orig)).contains(key));
                        }
                    }
                    let c = n.right.take();
                    let (c2, d) = Self::delete_node(c, key);
                    n.right = c2;
                    proof {
                        assert(keys(n.right) == keys(orig.right).remove(key));
                        assert forall|k: u64| keys(n.right).contains(k) implies k > n.key by {
                            assert(keys(orig.right).contains(k));
                        }
                        assert(bst(Some(orig)) && bst(orig.left));
                        assert(bst(Some(n)));
                        assert(keys(Some(n)) =~= keys(Some(orig)).remove(key));
                    }
                    if d {
                        proof {
                            assert(bh(n.right) + 1 == bh(orig.right));
                            assert(bh(orig.left) == bh(orig.right));
                            if orig.color is Red {
                                assert(!is_red(orig.left) && !is_red(orig.right));
                            }
                        }
                        let ghost nd = n;
                        let (r, d2) = Self::fix_delete(n, false);
                        proof {
                            assert(keys(Some(r)) == keys(Some(nd)));
                            assert(bh(Some(orig)) == bh(orig.left) + (if orig.color
                                is Black {
                                1nat
                            } else {
                                0nat
                            }));
                        }
                        (Some(r), d2)
                    } else {
                        proof {
                            if !keys(Some(orig)).contains(key) {
                                assert(keys(orig.right).remove(key) =~= keys(orig.right));
                                assert(n.right == orig.right);
                                assert(n == orig);
                            }
                        }
                        (Some(n), false)
                    }
                } else {
                    // this is the node to remove
                    proof {
                        assert(keys(Some(orig)).contains(key));
                        if keys(orig.left).contains(key) {
                            assert(key < orig.key);
                        }
                        if keys(orig.right).contains(key) {
                            assert(key > orig.key);
                        }
                    }
                    if n.left.is_none() {
                        let col = n.color;
                        let c = n.right.take();
                        proof {
                            assert(keys(orig.left) =~= Set::<u64>::empty());
                            assert(bh(orig.left) == 0 && bh(orig.right) == 0);
                            assert(keys(orig.right) =~= keys(Some(orig)).remove(key));
                            assert(size_of(orig.left) == 0);
                            assert(size_of(Some(orig)) == 1 + size_of(orig.right));
                            if orig.color is Red {
                                assert(!is_red(orig.right));
                            }
                        }
                        let (r, d) = Self::transplant(col, c);
                        proof {
                            assert(bh(Some(orig)) == (if orig.color is Black {
                                1nat
                            } else {
                                0nat
                            }));
                        }
                        (r, d)
                    } else if n.right.is_none() {
                        let col = n.color;
                        let c = n.left.take();
                        proof {
                            assert(keys(orig.right) =~= Set::<u64>::empty());
                            assert(bh(orig.right) == 0 && bh(orig.left) == 0);
                            assert(keys(orig.left) =~= keys(Some(orig)).remove(key));
                            assert(size_of(orig.right) == 0);
                            assert(size_of(Some(orig)) == 1 + size_of(orig.left));
                            if orig.color is Red {
                                assert(!is_red(orig.left));
                            }
                        }
                        let (r, d) = Self::transplant(col, c);
                        proof {
                            assert(bh(Some(orig)) == (if orig.color is Black {
                                1nat
                            } else {
                                0nat
                            }));
                        }
                        (r, d)
                    } else {
                        // two children: take over the in-order successor
                        let rt = n.right.take().unwrap();
                        let (m, r2, d) = Self::remove_min(rt);
                        n.key = m;
                        n.right = r2;
                        proof {
                            assert(keys(orig.right).contains(m));
                            assert(m > orig.key);
                            assert(keys(n.right) == keys(orig.right).remove(m));
                            assert forall|k: u64| keys(n.left).contains(k) implies k
                                < n.key by {
                                assert(keys(orig.left).contains(k));
                                assert(k < orig.key);
                            }
                            assert forall|k: u64| keys(n.right).contains(k) implies k
                                > n.key by {
                                assert(keys(orig.right).contains(k) && k != m);
                            }
                            assert(bst(Some(orig)) && bst(orig.left));
                            assert(bst(Some(n)));
                            assert(keys(Some(n)) =~= keys(Some(orig)).remove(key));
                            assert(size_of(Some(n)) == size_of(Some(orig)) - 1);
                        }
                        if d {
                            proof {
                                assert(bh(n.right) + 1 == bh(orig.right));
                                assert(bh(orig.left) == bh(orig.right));
                                if orig.color is Red {
                                    assert(!is_red(orig.left) && !is_red(orig.right));
                                }
                            }
                            let ghost nd = n;
                            let (r, d2) = Self::fix_delete(n, false);
                            proof {
                                assert(keys(Some(r)) == keys(Some(nd)));
                                assert(bh(Some(orig)) == bh(orig.left) + (if orig.color
                                    is Black {
                                    1nat
                                } else {
                                    0nat
                                }));
                            }
                            (Some(r), d2)
                        } else {
                            (Some(n), false)
                        }
                    }
                }
            },
        }
    }

    /// Remove `key` from the tree.  When the key is absent the tree is
    /// left exactly as it was and `KeyNotFound` is reported.
    pub fn delete(&mut self, key: u64) -> (r: Result<(), TreeError>)
        requires
            old(self).wf(),
        ensures
            final(self).wf(),
            final(self)@ == old(self)@.remove(key),
            final(self).size() == old(self).size() - (if old(self)@.contains(key) {
                1int
            } else {
                0int
            }),
            r == (if old(self)@.contains(key) {
                Result::<(), TreeError>::Ok(())
            } else {
                Result::<(), TreeError>::Err(TreeError::KeyNotFound)
            }),
            !old(self)@.contains(key) ==> *final(self) == *old(self),
    {
        let found = self.find(key);
        if !found {
            proof {
                assert(old(self)@.remove(key) =~= old(self)@);
            }
            return Err(TreeError::KeyNotFound);
        }
        let root = self.root.take();
        let (r, _deficit) = Self::delete_node(root, key);
        self.root = r;
        Ok(())
    }
}

/// Keys are unique: an ordered subtree holds exactly one node per
/// key, so the node count equals the cardinality of the key set.
pub proof fn lemma_keys_unique(t: Option<Box<TreeNode>>)
    requires
        bst(t),
    ensures
        keys(t).finite(),
        keys(t).len() == size_of(t),
    decreases t,
{
    match t {
        None => {
            assert(keys(t) =~= Set::<u64>::empty());
        },
        Some(n) => {
            lemma_keys_unique(n.left);
            lemma_keys_unique(n.right);
            let l = keys(n.left);
            let r = keys(n.right);
            assert(l.disjoint(r)) by {
                assert forall|k: u64| l.contains(k) implies !r.contains(k) by {
                    if r.contains(k) {
                        assert(k < n.key && k > n.key);
                    }
                }
            }
            vstd::set_lib::lemma_set_disjoint_lens(l, r);
            assert(l.union(r) == l + r);
            assert(l.union(r).len() == l.len() + r.len());
            assert(!l.union(r).contains(n.key));
            vstd::set::axiom_set_insert_len(l.union(r), n.key);
        },
    }
}

/// The in-order sequence lists one key per node.
pub proof fn lemma_inorder_len(t: Option<Box<TreeNode>>)
    ensures
        inorder(t).len() == size_of(t),
    decreases t,
{
    match t {
        None => {},
        Some(n) => {
            lemma_inorder_len(n.left);
            lemma_inorder_len(n.right);
        },
    }
}

/// Every entry of the in-order sequence is a key of the subtree.
pub proof fn lemma_inorder_members(t: Option<Box<TreeNode>>)
    ensures
        forall|i: int| 0 <= i < inorder(t).len() ==> keys(t).contains(#[trigger] inorder(t)[i]),
    decreases t,
{
    match t {
        None => {},
        Some(n) => {
            lemma_inorder_members(n.left);
            lemma_inorder_members(n.right);
            let s = inorder(t);
            let ls = inorder(n.left);
            let rs = inorder(n.right);
            assert(s == ls + seq![n.key] + rs);
            assert forall|i: int| 0 <= i < s.len() implies keys(t).contains(#[trigger] s[i]) by {
                if i < ls.len() {
                    assert(s[i] == ls[i]);
                    assert(keys(n.left).contains(ls[i]));
                } else if i == ls.len() {
                    assert(s[i] == n.key);
                } else {
                    assert(s[i] == rs[i - ls.len() - 1]);
                    assert(keys(n.right).contains(rs[i - ls.len() - 1]));
                }
            }
        },
    }
}

/// The search-tree order makes the in-order key sequence strictly
/// ascending: every traversal lists the keys in increasing order with
/// no repetitions.
pub proof fn lemma_inorder_sorted(t: Option<Box<TreeNode>>)
    requires
        bst(t),
    ensures
        forall|i: int, j: int| 0 <= i < j < inorder(t).len() ==> #[trigger] inorder(t)[i]
            < #[trigger] inorder(t)[j],
    decreases t,
{
    match t {
        None => {},
        Some(n) => {
            lemma_inorder_sorted(n.left);
            lemma_inorder_sorted(n.right);
            lemma_inorder_members(n.left);
            lemma_inorder_members(n.right);
            let s = inorder(t);
            let ls = inorder(n.left);
            let rs = inorder(n.right);
            assert(s == ls + seq![n.key] + rs);
            assert forall|i: int, j: int| 0 <= i < j < s.len() implies #[trigger] s[i]
                < #[trigger] s[j] by {
                if j < ls.len() {
                    assert(s[i] == ls[i] && s[j] == ls[j]);
                } else if i > ls.len() {
                    assert(s[i] == rs[i - ls.len() - 1] && s[j] == rs[j - ls.len() - 1]);
                } else if i == ls.len() {
                    assert(s[j] == rs[j - ls.len() - 1]);
                    assert(keys(n.right).contains(rs[j - ls.len() - 1]));
                } else if j == ls.len() {
                    assert(s[i] == ls[i]);
                    assert(keys(n.left).contains(ls[i]));
                } else {
                    assert(s[i] == ls[i]);
                    assert(s[j] == rs[j - ls.len() - 1]);
                    assert(keys(n.left).contains(ls[i]));
                    assert(keys(n.right).contains(rs[j - ls.len() - 1]));
                }
            }
        },
    }
}

/// A red-black subtree holds at least 2^bh - 1 nodes.
proof fn lemma_rb_size(t: Option<Box<TreeNode>>)
    requires
        no_red_red(t),
        bh_ok(t),
    ensures
        size_of(t) + 1 >= pow2(bh(t)),
    decreases t,
{
    vstd::arithmetic::power2::lemma2_to64();
    match t {
        None => {},
        Some(n) => {
            lemma_rb_size(n.left);
            lemma_rb_size(n.right);
            if n.color is Black {
                vstd::arithmetic::power2::lemma_pow2_unfold(bh(t));
            }
        },
    }
}

/// A red-black subtree is at most twice as tall as its black-height,
/// plus one when its root is red.
proof fn lemma_rb_height(t: Option<Box<TreeNode>>)
    requires
        no_red_red(t),
        bh_ok(t),
    ensures
        height_of(t) <= 2 * bh(t) + (if is_red(t) {
            1nat
        } else {
            0nat
        }),
    decreases t,
{
    match t {
        None => {},
        Some(n) => {
            lemma_rb_height(n.left);
            lemma_rb_height(n.right);
        },
    }
}

/// The balance bound: a well-formed red-black tree's height is at most
/// logarithmic in its node count, stated in integers as
/// 2^height <= (size + 1)^2.
pub proof fn lemma_balance_bound(t: RedBlackTreeSet)
    requires
        t.wf(),
    ensures
        pow2(t.height()) <= (t.size() + 1) * (t.size() + 1),
{
    lemma_rb_size(t.root);
    lemma_rb_height(t.root);
    let b = bh(t.root);
    let h = t.height();
    let s = t.size();
    assert(h <= 2 * b);
    vstd::arithmetic::power2::lemma_pow2_adds(b, b);
    assert(pow2(2 * b) == pow2(b) * pow2(b));
    if h < 2 * b {
        vstd::arithmetic::power2::lemma_pow2_strictly_increases(h, 2 * b);
    }
    assert(pow2(b) * pow2(b) <= (s + 1) * (s + 1)) by (nonlinear_arith)
        requires
            pow2(b) <= s + 1,
            pow2(b) >= 0,
    ;
}

impl RedBlackTreeSet {
    /// Append the keys under `node` to `out`, in ascending order.
    fn in_order_rec(node: &Box<TreeNode>, out: &mut Vec<u64>)
        ensures
            final(out)@ == old(out)@ + inorder(Some(*node)),
        decreases *node,
    {
        if let Some(l) = &node.left {
            Self::in_order_rec(l, out);
        }
        out.push(node.key);
        if let Some(rn) = &node.right {
            Self::in_order_rec(rn, out);
        }
        proof {
            if node.left is None {
                assert(inorder(node.left) =~= Seq::<u64>::empty());
            }
            if node.right is None {
                assert(inorder(node.right) =~= Seq::<u64>::empty());
            }
            assert(final(out)@ =~= old(out)@ + inorder(Some(*node)));
        }
    }

    /// The keys of the tree in ascending order, smallest first: the
    /// in-order traversal.
    pub fn in_order_traversal(&self) -> (r: Vec<u64>)
        requires
            self.wf(),
        ensures
            r@ == inorder(self.root),
            r@.len() == self.size(),
            forall|i: int, j: int| 0 <= i < j < r@.len() ==> r@[i] < r@[j],
    {
        let mut out: Vec<u64> = Vec::new();
        match &self.root {
            None => {},
            Some(root) => Self::in_order_rec(root, &mut out),
        }
        proof {
            lemma_inorder_sorted(self.root);
            lemma_inorder_len(self.root);
            assert(out@ =~= inorder(self.root));
        }
        out
    }
}

/// Whether the optional node is red.
fn node_is_red(t: &Option<Box<TreeNode>>) -> (r: bool)
    ensures
        r == is_red(*t),
{
    match t {
        None => false,
        Some(n) => match n.color {
            NodeColor::Red => true,
            NodeColor::Black => false,
        },
    }
}

} // verus!
