//! The height-balanced (AVL) search tree.

use vstd::prelude::*;

use crate::node::{balanced, bst, height_of, heights_ok, inorder, keys, leaf_count,
    lemma_stored_height, size_of, wf, Node};
use crate::TreeError;

verus! {

/// A height-balanced search tree: empty, or rooted at a node.
pub enum Tree {
    Empty,
    Root(Box<Node>),
}

impl Tree {
    /// The root of the tree as an optional node.
    pub open spec fn root_opt(self) -> Option<Box<Node>> {
        match self {
            Tree::Empty => None,
            Tree::Root(n) => Some(n),
        }
    }

    /// Well-formedness: search-tree order, correct cached heights, and
    /// height balance, at every node.
    pub open spec fn wf(self) -> bool {
        wf(self.root_opt())
    }

    /// The height of the tree: 0 when empty, 1 for a single node.
    pub open spec fn height(self) -> nat {
        height_of(self.root_opt())
    }

    /// The number of nodes in the tree.
    pub open spec fn size(self) -> nat {
        size_of(self.root_opt())
    }

    /// The empty tree.
    pub fn new() -> (r: Tree)
        ensures
            r.wf(),
            r@ == Set::<u64>::empty(),
            r matches Tree::Empty,
    {
        Tree::Empty
    }

    /// Whether the tree holds no keys.
    pub fn is_empty(&self) -> (r: bool)
        ensures
            r == (self@ == Set::<u64>::empty()),
            r == (self matches Tree::Empty),
    {
        match self {
            Tree::Empty => true,
            Tree::Root(root) => {
                proof {
                    assert(self@.contains(root.data));
                }
                false
            },
        }
    }
}

impl Tree {
    /// Left rotation: the right child becomes the local root and the
    /// old root becomes its left child, keeping the in-order sequence.
    fn rotate_left(node: Box<Node>) -> (r: Box<Node>)
        requires
            node.right is Some,
            bst(Some(node)),
            heights_ok(Some(node)),
            height_of(Some(node)) < i32::MAX,
        ensures
            r.data == node.right.unwrap().data,
            r.right == node.right.unwrap().right,
            r.left matches Some(x) && x.data == node.data && x.left == node.left && x.right
                == node.right.unwrap().left,
            heights_ok(Some(r)),
            bst(Some(r)),
            keys(Some(r)) == keys(Some(node)),
            size_of(Some(r)) == size_of(Some(node)),
    {
        let ghost orig = node;
        let mut x = node;
        let mut y = x.right.take().unwrap();
        let ghost y0 = y;
        x.right = y.left.take();
        proof {
            assert(orig.right == Some(y0));
            assert(heights_ok(Some(y0)));
            assert(heights_ok(orig.left) && heights_ok(y0.left) && heights_ok(y0.right));
            assert(height_of(orig.left) <= height_of(Some(orig)) - 1);
            assert(height_of(Some(y0)) <= height_of(Some(orig)) - 1);
            assert(height_of(y0.left) <= height_of(Some(y0)) - 1);
            lemma_stored_height(orig.left);
            lemma_stored_height(y0.left);
        }
        Node::update_height(&mut x);
        y.left = Some(x);
        proof {
            assert(x.height as int == height_of(Some(x)));
            assert(heights_ok(Some(x)));
            assert(height_of(Some(x)) <= height_of(Some(orig)));
            lemma_stored_height(y.left);
            lemma_stored_height(y0.right);
        }
        Node::update_height(&mut y);
        proof {
            let xn = y.left.unwrap();
            // heights are cached correctly again
            assert(heights_ok(Some(xn)));
            assert(heights_ok(Some(y)));
            // the key set is rearranged, not changed
            assert(keys(Some(y)) == keys(Some(xn)).union(keys(y0.right)).insert(y0.data));
            assert(keys(Some(xn)) == keys(orig.left).union(keys(y0.left)).insert(orig.data));
            assert(keys(Some(orig)) == keys(orig.left).union(keys(Some(y0))).insert(orig.data));
            assert(keys(Some(y0)) == keys(y0.left).union(keys(y0.right)).insert(y0.data));
            assert(keys(Some(y)) =~= keys(Some(orig)));
            // ordering: everything under the new left child is below y's key,
            // everything to the right is above it
            assert(bst(Some(y0)));
            assert(keys(orig.right).contains(y0.data));
            assert(y0.data > orig.data);
            assert forall|k: u64| keys(Some(xn)).contains(k) implies k < y.data by {
                if keys(orig.left).contains(k) {
                    assert(k < orig.data);
                } else if keys(y0.left).contains(k) {
                    assert(k < y0.data);
                } else {
                    assert(k == orig.data);
                }
            }
            assert forall|k: u64| keys(xn.right).contains(k) implies k > xn.data by {
                assert(keys(Some(y0)).contains(k));
            }
            assert(bst(Some(xn)));
            assert(bst(Some(y)));
            assert(size_of(Some(y)) == 1 + size_of(Some(xn)) + size_of(y0.right));
            assert(size_of(Some(xn)) == 1 + size_of(orig.left) + size_of(y0.left));
            assert(size_of(Some(orig)) == 1 + size_of(orig.left) + size_of(Some(y0)));
            assert(size_of(Some(y0)) == 1 + size_of(y0.left) + size_of(y0.right));
        }
        y
    }

    /// Right rotation, the mirror image of `rotate_left`.
    fn rotate_right(node: Box<Node>) -> (r: Box<Node>)
        requires
            node.left is Some,
            bst(Some(node)),
            heights_ok(Some(node)),
            height_of(Some(node)) < i32::MAX,
        ensures
            r.data == node.left.unwrap().data,
            r.left == node.left.unwrap().left,
            r.right matches Some(x) && x.data == node.data && x.right == node.right && x.left
                == node.left.unwrap().right,
            heights_ok(Some(r)),
            bst(Some(r)),
            keys(Some(r)) == keys(Some(node)),
            size_of(Some(r)) == size_of(Some(node)),
    {
        let ghost orig = node;
        let mut x = node;
        let mut y = x.left.take().unwrap();
        let ghost y0 = y;
        x.left = y.right.take();
        proof {
            assert(orig.left == Some(y0));
            assert(heights_ok(Some(y0)));
            assert(heights_ok(orig.right) && heights_ok(y0.left) && heights_ok(y0.right));
            assert(height_of(orig.right) <= height_of(Some(orig)) - 1);
            assert(height_of(Some(y0)) <= height_of(Some(orig)) - 1);
            assert(height_of(y0.right) <= height_of(Some(y0)) - 1);
            lemma_stored_height(orig.right);
            lemma_stored_height(y0.right);
        }
        Node::update_height(&mut x);
        y.right = Some(x);
        proof {
            assert(x.height as int == height_of(Some(x)));
            assert(heights_ok(Some(x)));
            assert(height_of(Some(x)) <= height_of(Some(orig)));
            lemma_stored_height(y.right);
            lemma_stored_height(y0.left);
        }
        Node::update_height(&mut y);
        proof {
            let xn = y.right.unwrap();
            assert(heights_ok(Some(xn)));
            assert(heights_ok(Some(y)));
            assert(keys(Some(y)) == keys(y0.left).union(keys(Some(xn))).insert(y0.data));
            assert(keys(Some(xn)) == keys(y0.right).union(keys(orig.right)).insert(orig.data));
            assert(keys(Some(orig)) == keys(Some(y0)).union(keys(orig.right)).insert(orig.data));
            assert(keys(Some(y0)) == keys(y0.left).union(keys(y0.right)).insert(y0.data));
            assert(keys(Some(y)) =~= keys(Some(orig)));
            assert(bst(Some(y0)));
            assert(keys(orig.left).contains(y0.data));
            assert(y0.data < orig.data);
            assert forall|k: u64| keys(Some(xn)).contains(k) implies k > y.data by {
                if keys(orig.right).contains(k) {
                    assert(k > orig.data);
                } else if keys(y0.right).contains(k) {
                    assert(k > y0.data);
                } else {
                    assert(k == orig.data);
                }
            }
            assert forall|k: u64| keys(xn.left).contains(k) implies k < xn.data by {
                assert(keys(Some(y0)).contains(k));
            }
            assert(bst(Some(xn)));
            assert(bst(Some(y)));
            assert(size_of(Some(y)) == 1 + size_of(y0.left) + size_of(Some(xn)));
            assert(size_of(Some(xn)) == 1 + size_of(y0.right) + size_of(orig.right));
            assert(size_of(Some(orig)) == 1 + size_of(Some(y0)) + size_of(orig.right));
            assert(size_of(Some(y0)) == 1 + size_of(y0.left) + size_of(y0.right));
        }
        y
    }
}

impl Tree {
    /// Restore the height-balance discipline at `node` after one of
    /// its subtrees has grown or shrunk by at most one level, using the
    /// four standard rotation cases.
    fn rebalance(node: Box<Node>) -> (r: Box<Node>)
        requires
            bst(Some(node)),
            heights_ok(Some(node)),
            balanced(node.left),
            balanced(node.right),
            -2 <= height_of(node.left) as int - height_of(node.right) as int <= 2,
            height_of(Some(node)) < i32::MAX,
        ensures
            wf(Some(r)),
            keys(Some(r)) == keys(Some(node)),
            size_of(Some(r)) == size_of(Some(node)),
            height_of(Some(node)) - 1 <= height_of(Some(r)) as int <= height_of(Some(node)),
            (-1 <= height_of(node.left) as int - height_of(node.right) as int <= 1) ==> r == node
                && height_of(Some(r)) == height_of(Some(node)),
    {
        let ghost orig = node;
        let ghost hl = height_of(orig.left);
        let ghost hr = height_of(orig.right);
        proof {
            lemma_stored_height(orig.left);
            lemma_stored_height(orig.right);
        }
        let mut node = node;
        let balance = Node::balance_factor(&node);
        if balance > 1 {
            proof {
                assert(hl == hr + 2);
                assert(height_of(orig.left) >= 2);
                assert(orig.left is Some);
            }
            let ghost l = orig.left.unwrap();
            proof {
                assert(heights_ok(Some(l)) && balanced(Some(l)) && bst(Some(l)));
                lemma_stored_height(l.left);
                lemma_stored_height(l.right);
                // the taller subtree's own children reach to hl - 1
                assert(height_of(Some(l)) == hl);
            }
            let left_balance = Node::balance_factor(node.left.as_ref().unwrap());
            if left_balance < 0 {
                // left-right shape: first rotate the left child left
                proof {
                    assert(height_of(l.right) > height_of(l.left));
                    assert(height_of(l.right) == hr + 1 && height_of(l.left) == hr);
                    assert(l.right is Some);
                }
                let lt = node.left.take().unwrap();
                let l2 = Self::rotate_left(lt);
                proof {
                    let ghost li = l2.left.unwrap();
                    let ghost lr = l.right.unwrap();
                    assert(balanced(Some(l)) && balanced(l.left) && balanced(l.right));
                    assert(balanced(Some(lr)) && balanced(lr.left) && balanced(lr.right));
                    assert(height_of(Some(lr)) == hr + 1);
                    assert(-1 <= height_of(lr.left) as int - height_of(lr.right) as int <= 1);
                    assert(height_of(lr.left) <= hr && height_of(lr.right) <= hr);
                    assert(height_of(lr.left) >= hr - 1 && height_of(lr.right) >= hr - 1);
                    assert(height_of(Some(li)) == hr + 1);
                    assert(balanced(li.left) && balanced(li.right));
                    assert(balanced(Some(li)));
                    assert(height_of(Some(l2)) == hr + 2);
                }
                node.left = Some(l2);
                proof {
                    // the subtree was rearranged, not changed: the node is
                    // still ordered and its cached height still correct
                    assert(keys(Some(l2)) == keys(Some(l)));
                    assert forall|k: u64| keys(node.left).contains(k) implies k < node.data by {
                        assert(keys(Some(l)).contains(k));
                    }
                    assert(bst(Some(node)));
                    assert(height_of(node.left) == hl);
                    assert(heights_ok(Some(node)));
                }
            }
            let ghost mid = node;
            let ghost l2 = mid.left.unwrap();
            let res = Self::rotate_right(node);
            proof {
                let ghost x = res.right.unwrap();
                assert(x.left == l2.right && x.right == orig.right);
                assert(res.left == l2.left);
                if left_balance < 0 {
                    assert(height_of(l2.left) == hr + 1);
                    assert(height_of(l2.right) <= hr && height_of(l2.right) >= hr - 1);
                    assert(height_of(Some(x)) == hr + 1);
                    assert(balanced(l2.left) && balanced(l2.right));
                    assert(balanced(Some(x)));
                    assert(balanced(Some(res)));
                    assert(height_of(Some(res)) == hr + 2);
                    assert(height_of(Some(orig)) == hr + 3);
                } else {
                    // left-left shape: a single right rotation
                    assert(height_of(l.left) >= height_of(l.right));
                    assert(height_of(l.left) == hr + 1);
                    assert(height_of(l.right) >= hr);
                    assert(l2 == l);
                    assert(height_of(Some(x)) == height_of(l.right) + 1);
                    assert(balanced(Some(x)));
                    assert(balanced(l.left));
                    assert(balanced(Some(res)));
                    assert(height_of(Some(res)) == height_of(l.right) + 2);
                    assert(height_of(Some(orig)) == hr + 3);
                }
            }
            res
        } else if balance < -1 {
            proof {
                assert(hr == hl + 2);
                assert(orig.right is Some);
            }
            let ghost rn = orig.right.unwrap();
            proof {
                assert(heights_ok(Some(rn)) && balanced(Some(rn)) && bst(Some(rn)));
                lemma_stored_height(rn.left);
                lemma_stored_height(rn.right);
                assert(height_of(Some(rn)) == hr);
            }
            let right_balance = Node::balance_factor(node.right.as_ref().unwrap());
            if right_balance > 0 {
                // right-left shape: first rotate the right child right
                proof {
                    assert(height_of(rn.left) > height_of(rn.right));
                    assert(height_of(rn.left) == hl + 1 && height_of(rn.right) == hl);
                    assert(rn.left is Some);
                }
                let rt = node.right.take().unwrap();
                let r2 = Self::rotate_right(rt);
                proof {
                    let ghost ri = r2.right.unwrap();
                    let ghost rl = rn.left.unwrap();
                    assert(balanced(Some(rn)) && balanced(rn.left) && balanced(rn.right));
                    assert(balanced(Some(rl)) && balanced(rl.left) && balanced(rl.right));
                    assert(height_of(Some(rl)) == hl + 1);
                    assert(-1 <= height_of(rl.left) as int - height_of(rl.right) as int <= 1);
                    assert(height_of(rl.left) <= hl && height_of(rl.right) <= hl);
                    assert(height_of(rl.left) >= hl - 1 && height_of(rl.right) >= hl - 1);
                    assert(height_of(Some(ri)) == hl + 1);
                    assert(balanced(ri.left) && balanced(ri.right));
                    assert(balanced(Some(ri)));
                    assert(height_of(Some(r2)) == hl + 2);
                }
                node.right = Some(r2);
                proof {
                    assert(keys(Some(r2)) == keys(Some(rn)));
                    assert forall|k: u64| keys(node.right).contains(k) implies k > node.data by {
                        assert(keys(Some(rn)).contains(k));
                    }
                    assert(bst(Some(node)));
                    assert(height_of(node.right) == hr);
                    assert(heights_ok(Some(node)));
                }
            }
            let ghost mid = node;
            let ghost r2 = mid.right.unwrap();
            let res = Self::rotate_left(node);
            proof {
                let ghost x = res.left.unwrap();
                assert(x.right == r2.left && x.left == orig.left);
                assert(res.right == r2.right);
                if right_balance > 0 {
                    let rl = rn.left.unwrap();
                    assert(height_of(r2.right) == hl + 1);
                    assert(height_of(r2.left) <= hl && height_of(r2.left) >= hl - 1);
                    assert(height_of(Some(x)) == hl + 1);
                    assert(balanced(r2.left) && balanced(r2.right));
                    assert(balanced(Some(x)));
                    assert(balanced(Some(res)));
                    assert(height_of(Some(res)) == hl + 2);
                    assert(height_of(Some(orig)) == hl + 3);
                } else {
                    // right-right shape: a single left rotation
                    assert(height_of(rn.right) >= height_of(rn.left));
                    assert(height_of(rn.right) == hl + 1);
                    assert(height_of(rn.left) >= hl);
                    assert(r2 == rn);
                    assert(height_of(Some(x)) == height_of(rn.left) + 1);
                    assert(balanced(Some(x)));
                    assert(balanced(rn.right));
                    assert(balanced(Some(res)));
                    assert(height_of(Some(res)) == height_of(rn.left) + 2);
                    assert(height_of(Some(orig)) == hl + 3);
                }
            }
            res
        } else {
            node
        }
    }
}

impl Tree {
    /// Insert `data` below `node`, rebalancing on the way back up.
    /// A key already present leaves the subtree untouched.
    fn insert_rec(node: Box<Node>, data: u64) -> (r: Box<Node>)
        requires
            wf(Some(node)),
            height_of(Some(node)) + 2 < i32::MAX,
        ensures
            wf(Some(r)),
            keys(Some(r)) == keys(Some(node)).insert(data),
            height_of(Some(node)) <= height_of(Some(r)) <= height_of(Some(node)) + 1,
            size_of(Some(r)) == size_of(Some(node)) + (if keys(Some(node)).contains(data) {
                0int
            } else {
                1int
            }),
            keys(Some(node)).contains(data) ==> r == node,
        decreases node,
    {
        let ghost orig = node;
        let ghost hl = height_of(orig.left);
        let ghost hr = height_of(orig.right);
        let mut node = node;
        if data < node.data {
            proof {
                if keys(Some(orig)).contains(data) {
                    if keys(orig.right).contains(data) {
                        assert(data > orig.data);
                    }
                    assert(keys(orig.left).contains(data));
                }
            }
            match node.left.take() {
                Some(l) => {
                    let l2 = Self::insert_rec(l, data);
                    node.left = Some(l2);
                },
                None => {
                    node.left = Some(Box::new(Node::new(data)));
                    proof {
                        assert(keys(node.left) =~= keys(orig.left).insert(data));
                    }
                },
            }
            proof {
                assert(keys(node.left) == keys(orig.left).insert(data));
                assert forall|k: u64| keys(node.left).contains(k) implies k < node.data by {
                    if keys(orig.left).contains(k) {
                    } else {
                        assert(k == data);
                    }
                }
                assert(hl <= height_of(node.left) <= hl + 1);
                lemma_stored_height(node.left);
                lemma_stored_height(node.right);
            }
        } else if data > node.data {
            proof {
                if keys(Some(orig)).contains(data) {
                    if keys(orig.left).contains(data) {
                        assert(data < orig.data);
                    }
                    assert(keys(orig.right).contains(data));
                }
            }
            match node.right.take() {
                Some(rn) => {
                    let r2 = Self::insert_rec(rn, data);
                    node.right = Some(r2);
                },
                None => {
                    node.right = Some(Box::new(Node::new(data)));
                    proof {
                        assert(keys(node.right) =~= keys(orig.right).insert(data));
                    }
                },
            }
            proof {
                assert(keys(node.right) == keys(orig.right).insert(data));
                assert forall|k: u64| keys(node.right).contains(k) implies k > node.data by {
                    if keys(orig.right).contains(k) {
                    } else {
                        assert(k == data);
                    }
                }
                assert(hr <= height_of(node.right) <= hr + 1);
                lemma_stored_height(node.left);
                lemma_stored_height(node.right);
            }
        } else {
            proof {
                assert(keys(Some(orig)).contains(data));
                assert(keys(Some(orig)).insert(data) =~= keys(Some(orig)));
                lemma_stored_height(node.left);
                lemma_stored_height(node.right);
            }
        }
        Node::update_height(&mut node);
        proof {
            assert(bst(Some(orig)));
            assert(bst(orig.left) && bst(orig.right));
            assert(heights_ok(node.left) && heights_ok(node.right));
            assert(node.height as int == height_of(Some(node)));
            assert(heights_ok(Some(node)));
            assert(bst(node.left));
            assert(bst(node.right));
            assert forall|k: u64| keys(node.left).contains(k) implies k < node.data by {
                if keys(orig.left).contains(k) {
                }
            }
            assert forall|k: u64| keys(node.right).contains(k) implies k > node.data by {
                if keys(orig.right).contains(k) {
                }
            }
            assert(bst(Some(node)));
            assert(keys(Some(node)) =~= keys(Some(orig)).insert(data));
            assert(height_of(Some(orig)) <= height_of(Some(node)) <= height_of(Some(orig)) + 1);
            // the node count grows exactly when the key is new
            assert(size_of(Some(node)) == 1 + size_of(node.left) + size_of(node.right));
            assert(size_of(Some(orig)) == 1 + size_of(orig.left) + size_of(orig.right));
            if data < orig.data {
                if keys(orig.left).contains(data) {
                    assert(keys(Some(orig)).contains(data));
                }
                assert(keys(Some(orig)).contains(data) == keys(orig.left).contains(data));
                if orig.left is None {
                    assert(keys(orig.left) =~= Set::<u64>::empty());
                    assert(size_of(orig.left) == 0);
                    assert(size_of(node.left) == 1);
                }
            } else if data > orig.data {
                if keys(orig.right).contains(data) {
                    assert(keys(Some(orig)).contains(data));
                }
                assert(keys(Some(orig)).contains(data) == keys(orig.right).contains(data));
                if orig.right is None {
                    assert(keys(orig.right) =~= Set::<u64>::empty());
                    assert(size_of(orig.right) == 0);
                    assert(size_of(node.right) == 1);
                }
            } else {
                assert(keys(Some(orig)).contains(data));
            }
            assert(size_of(Some(node)) == size_of(Some(orig)) + (if keys(Some(orig)).contains(
                data) {
                0int
            } else {
                1int
            }));
        }
        let ghost mid = node;
        let res = Self::rebalance(node);
        proof {
            if -1 <= height_of(mid.left) as int - height_of(mid.right) as int <= 1 {
                assert(height_of(Some(res)) == height_of(Some(mid)));
                assert(height_of(Some(res)) >= height_of(Some(orig)));
            } else {
                // a rotation happened, so one subtree grew: the height
                // went up by one and the rotation takes it back down
                assert(height_of(Some(mid)) == height_of(Some(orig)) + 1);
                assert(height_of(Some(res)) >= height_of(Some(orig)));
            }
            if keys(Some(orig)).contains(data) {
                assert(mid == orig);
                assert(res == orig);
            }
        }
        res
    }

    /// Insert `data` into the tree.  Inserting a key already present
    /// leaves the tree exactly as it was, so the key set and the node
    /// count never see a duplicate.  The node count must not have
    /// reached the machine's address-space limit, which keeps every
    /// cached height within its integer type.
    pub fn insert(&mut self, data: u64)
        requires
            old(self).wf(),
            old(self).size() < 0xffff_ffff_ffff_ffff,
        ensures
            final(self).wf(),
            final(self)@ == old(self)@.insert(data),
            final(self).size() == old(self).size() + (if old(self)@.contains(data) {
                0int
            } else {
                1int
            }),
            old(self)@.contains(data) ==> *final(self) == *old(self),
    {
        let mut t = Tree::Empty;
        core::mem::swap(self, &mut t);
        match t {
            Tree::Empty => {
                *self = Tree::Root(Box::new(Node::new(data)));
                proof {
                    let b = self.root_opt().unwrap();
                    assert(height_of(b.left) == 0 && height_of(b.right) == 0);
                    assert(heights_ok(Some(b)) && balanced(Some(b)) && bst(Some(b)));
                    assert(self@ =~= old(self)@.insert(data));
                }
            },
            Tree::Root(root) => {
                proof {
                    crate::node::lemma_height_small(Some(root));
                }
                let new_root = Self::insert_rec(root, data);
                *self = Tree::Root(new_root);
            },
        }
    }

    /// Whether `data` is a key of the subtree under `node`.
    fn search_rec(node: &Box<Node>, data: u64) -> (r: bool)
        requires
            bst(Some(*node)),
        ensures
            r == keys(Some(*node)).contains(data),
        decreases *node,
    {
        if data < node.data {
            proof {
                if keys(node.right).contains(data) {
                    assert(data > node.data);
                }
            }
            match &node.left {
                Some(l) => {
                    let r = Self::search_rec(l, data);
                    proof {
                        assert(keys(Some(*node)).contains(data) == keys(node.left).contains(
                            data));
                    }
                    r
                },
                None => {
                    proof {
                        assert(keys(node.left) =~= Set::<u64>::empty());
                    }
                    false
                },
            }
        } else if data > node.data {
            proof {
                if keys(node.left).contains(data) {
                    assert(data < node.data);
                }
            }
            match &node.right {
                Some(rn) => {
                    let r = Self::search_rec(rn, data);
                    proof {
                        assert(keys(Some(*node)).contains(data) == keys(node.right).contains(
                            data));
                    }
                    r
                },
                None => {
                    proof {
                        assert(keys(node.right) =~= Set::<u64>::empty());
                    }
                    false
                },
            }
        } else {
            proof {
                assert(keys(Some(*node)).contains(data));
            }
            true
        }
    }

    /// Whether `data` is a key of the tree.
    pub fn search(&mut self, data: u64) -> (r: bool)
        requires
            old(self).wf(),
        ensures
            r == old(self)@.contains(data),
            *final(self) == *old(self),
    {
        match &*self {
            Tree::Empty => false,
            Tree::Root(root) => Self::search_rec(root, data),
        }
    }
}

impl Tree {
    /// The smallest key in the subtree under `node`.
    fn min_value_node(node: &Box<Node>) -> (r: u64)
        requires
            bst(Some(*node)),
        ensures
            keys(Some(*node)).contains(r),
            forall|k: u64| keys(Some(*node)).contains(k) ==> r <= k,
        decreases *node,
    {
        match &node.left {
            Some(l) => {
                let m = Self::min_value_node(l);
                proof {
                    assert(keys(node.left).contains(m));
                    assert(m < node.data);
                    assert forall|k: u64| keys(Some(*node)).contains(k) implies m <= k by {
                        if keys(node.left).contains(k) {
                        } else if keys(node.right).contains(k) {
                            assert(k > node.data);
                        } else {
                            assert(k == node.data);
                        }
                    }
                }
                m
            },
            None => {
                proof {
                    assert(keys(node.left) =~= Set::<u64>::empty());
                    assert forall|k: u64| keys(Some(*node)).contains(k) implies node.data
                        <= k by {
                        if keys(node.right).contains(k) {
                            assert(k > node.data);
                        }
                    }
                }
                node.data
            },
        }
    }

    /// Remove `data` from the subtree under `node`, substituting the
    /// in-order successor when both children are present, and
    /// rebalancing on the way back up.  A key not present leaves the
    /// subtree untouched.
    fn delete_rec(node: Box<Node>, data: u64) -> (r: Option<Box<Node>>)
        requires
            wf(Some(node)),
            height_of(Some(node)) < i32::MAX,
        ensures
            wf(r),
            keys(r) == keys(Some(node)).remove(data),
            size_of(r) == size_of(Some(node)) - (if keys(Some(node)).contains(data) {
                1int
            } else {
                0int
            }),
            height_of(Some(node)) - 1 <= height_of(r) as int <= height_of(Some(node)),
            !keys(Some(node)).contains(data) ==> r == Some(node),
        decreases node,
    {
        let ghost orig = node;
        let ghost hl = height_of(orig.left);
        let ghost hr = height_of(orig.right);
        let mut node = node;
        if data < node.data {
            proof {
                if keys(Some(orig)).contains(data) {
                    if keys(orig.right).contains(data) {
                        assert(data > orig.data);
                    }
                    assert(keys(orig.left).contains(data));
                }
                if keys(orig.left).contains(data) {
                    assert(keys(Some(orig)).contains(data));
                }
            }
            match node.left.take() {
                Some(l) => {
                    node.left = Self::delete_rec(l, data);
                },
                None => {
                    proof {
                        assert(keys(orig.left) =~= Set::<u64>::empty());
                        assert(keys(orig.left).remove(data) =~= keys(orig.left));
                    }
                },
            }
            proof {
                assert(keys(node.left) == keys(orig.left).remove(data));
                assert forall|k: u64| keys(node.left).contains(k) implies k < node.data by {
                    assert(keys(orig.left).contains(k));
                }
            }
        } else if data > node.data {
            proof {
                if keys(Some(orig)).contains(data) {
                    if keys(orig.left).contains(data) {
                        assert(data < orig.data);
                    }
                    assert(keys(orig.right).contains(data));
                }
                if keys(orig.right).contains(data) {
                    assert(keys(Some(orig)).contains(data));
                }
            }
            match node.right.take() {
                Some(rn) => {
                    node.right = Self::delete_rec(rn, data);
                },
                None => {
                    proof {
                        assert(keys(orig.right) =~= Set::<u64>::empty());
                        assert(keys(orig.right).remove(data) =~= keys(orig.right));
                    }
                },
            }
            proof {
                assert(keys(node.right) == keys(orig.right).remove(data));
                assert forall|k: u64| keys(node.right).contains(k) implies k > node.data by {
                    assert(keys(orig.right).contains(k));
                }
            }
        } else {
            // this is the node to remove
            proof {
                assert(keys(Some(orig)).contains(data));
                if keys(orig.left).contains(data) {
                    assert(data < orig.data);
                }
                if keys(orig.right).contains(data) {
                    assert(data > orig.data);
                }
            }
            if node.left.is_none() && node.right.is_none() {
                proof {
                    assert(keys(orig.left) =~= Set::<u64>::empty());
                    assert(keys(orig.right) =~= Set::<u64>::empty());
                    assert(keys(None::<Box<Node>>) =~= keys(Some(orig)).remove(data));
                }
                return None;
            } else if node.left.is_none() {
                let rn = node.right.take();
                proof {
                    assert(keys(orig.left) =~= Set::<u64>::empty());
                    assert(keys(rn) =~= keys(Some(orig)).remove(data));
                    assert(size_of(orig.left) == 0);
                    assert(hl == 0 && hr >= 1);
                }
                return rn;
            } else if node.right.is_none() {
                let l = node.left.take();
                proof {
                    assert(keys(orig.right) =~= Set::<u64>::empty());
                    assert(keys(l) =~= keys(Some(orig)).remove(data));
                    assert(size_of(orig.right) == 0);
                    assert(hr == 0 && hl >= 1);
                }
                return l;
            } else {
                // two children: replace by the in-order successor and
                // remove the successor from the right subtree
                let succ = Self::min_value_node(node.right.as_ref().unwrap());
                let rt = node.right.take().unwrap();
                proof {
                    assert(wf(Some(rt)));
                    assert(height_of(Some(rt)) == hr);
                    assert(keys(Some(rt)).contains(succ));
                }
                let r2 = Self::delete_rec(rt, succ);
                node.right = r2;
                node.data = succ;
                proof {
                    assert(keys(node.right) == keys(Some(rt)).remove(succ));
                    assert(succ > orig.data);
                    assert forall|k: u64| keys(node.left).contains(k) implies k < node.data by {
                        assert(keys(orig.left).contains(k));
                        assert(k < orig.data);
                    }
                    assert forall|k: u64| keys(node.right).contains(k) implies k
                        > node.data by {
                        assert(keys(Some(rt)).contains(k) && k != succ);
                    }
                    assert(keys(Some(node)) =~= keys(Some(orig)).remove(data));
                    assert(size_of(Some(node)) == size_of(Some(orig)) - 1);
                }
            }
        }
        proof {
            assert(bst(Some(orig)));
            assert(bst(orig.left) && bst(orig.right));
            lemma_stored_height(node.left);
            lemma_stored_height(node.right);
        }
        Node::update_height(&mut node);
        let ghost mid = node;
        proof {
            assert(heights_ok(node.left) && heights_ok(node.right));
            assert(node.height as int == height_of(Some(node)));
            assert(heights_ok(Some(node)));
            assert(bst(node.left));
            assert(bst(node.right));
            assert(bst(Some(node)));
            assert(height_of(Some(orig)) - 1 <= height_of(Some(node)) <= height_of(Some(orig)));
            if height_of(Some(mid)) == height_of(Some(orig)) - 1 {
                // the taller side cannot have shrunk below the other:
                // when the height dropped, the node is still balanced
                assert(-1 <= height_of(mid.left) as int - height_of(mid.right) as int <= 1);
            }
        }
        let res = Self::rebalance(node);
        proof {
            if !(-1 <= height_of(mid.left) as int - height_of(mid.right) as int <= 1) {
                assert(height_of(Some(mid)) == height_of(Some(orig)));
            }
            assert(height_of(Some(orig)) - 1 <= height_of(Some(res)) as int <= height_of(
                Some(orig)));
            if !keys(Some(orig)).contains(data) {
                assert(mid == orig);
                assert(res == orig);
            }
            assert(keys(Some(res)) =~= keys(Some(orig)).remove(data));
        }
        Some(res)
    }

    /// Remove `data` from the tree.  When the key is absent the tree
    /// is left exactly as it was and `KeyNotFound` is reported.  As
    /// for `insert`, the node count is assumed below the machine's
    /// address-space limit.
    pub fn delete(&mut self, data: u64) -> (r: Result<(), TreeError>)
        requires
            old(self).wf(),
            old(self).size() < 0xffff_ffff_ffff_ffff,
        ensures
            final(self).wf(),
            final(self)@ == old(self)@.remove(data),
            final(self).size() == old(self).size() - (if old(self)@.contains(data) {
                1int
            } else {
                0int
            }),
            r == (if old(self)@.contains(data) {
                Result::<(), TreeError>::Ok(())
            } else {
                Result::<(), TreeError>::Err(TreeError::KeyNotFound)
            }),
            !old(self)@.contains(data) ==> *final(self) == *old(self),
    {
        let found = self.search(data);
        if !found {
            proof {
                assert(old(self)@.remove(data) =~= old(self)@);
            }
            return Err(TreeError::KeyNotFound);
        }
        let mut t = Tree::Empty;
        core::mem::swap(self, &mut t);
        match t {
            Tree::Empty => {
                // a found key means the tree cannot be empty
                proof {
                    assert(false);
                }
                Err(TreeError::KeyNotFound)
            },
            Tree::Root(root) => {
                proof {
                    crate::node::lemma_height_small(Some(root));
                }
                match Self::delete_rec(root, data) {
                    Some(n) => {
                        *self = Tree::Root(n);
                    },
                    None => {
                        *self = Tree::Empty;
                    },
                }
                Ok(())
            },
        }
    }
}

impl Tree {
    /// The number of leaves under `node`.
    fn leaves_rec(node: &Box<Node>) -> (r: usize)
        requires
            size_of(Some(*node)) <= usize::MAX,
        ensures
            r as nat == leaf_count(Some(*node)),
        decreases *node,
    {
        proof {
            crate::node::lemma_leaf_le_size(node.left);
            crate::node::lemma_leaf_le_size(node.right);
        }
        match (&node.left, &node.right) {
            (None, None) => 1,
            (Some(l), None) => Self::leaves_rec(l),
            (None, Some(rn)) => Self::leaves_rec(rn),
            (Some(l), Some(rn)) => Self::leaves_rec(l) + Self::leaves_rec(rn),
        }
    }

    /// The number of leaves (nodes with no children) in the tree.
    /// The count is returned as a machine word, so the node count must
    /// fit in one.
    pub fn leaves(&self) -> (r: usize)
        requires
            self.size() <= usize::MAX,
        ensures
            r as nat == leaf_count(self.root_opt()),
    {
        match self {
            Tree::Empty => 0,
            Tree::Root(root) => Self::leaves_rec(root),
        }
    }

    /// The height of the subtree under `node`, recomputed by descent.
    fn height_rec(node: &Box<Node>) -> (r: usize)
        requires
            heights_ok(Some(*node)),
        ensures
            r as nat == height_of(Some(*node)),
        decreases *node,
    {
        proof {
            lemma_stored_height(Some(*node));
            assert(height_of(Some(*node)) <= i32::MAX);
        }
        let left_height: usize = match &node.left {
            Some(l) => Self::height_rec(l),
            None => 0,
        };
        let right_height: usize = match &node.right {
            Some(rn) => Self::height_rec(rn),
            None => 0,
        };
        proof {
            if node.left is None {
                assert(height_of(node.left) == 0);
            }
            if node.right is None {
                assert(height_of(node.right) == 0);
            }
            assert(left_height as nat == height_of(node.left));
            assert(right_height as nat == height_of(node.right));
        }
        if left_height >= right_height {
            left_height + 1
        } else {
            right_height + 1
        }
    }

    /// The height of the tree: 0 when empty, 1 for a single node.
    /// The `count` argument is an accumulator kept for callers that
    /// thread a running depth; it does not affect the result.
    pub fn get_height(&self, count: usize) -> (r: usize)
        requires
            self.wf(),
        ensures
            r as nat == self.height(),
    {
        let _ = count;
        match self {
            Tree::Empty => 0,
            Tree::Root(root) => Self::height_rec(root),
        }
    }

    /// Append the keys under `node` to `out`, in ascending order.
    fn in_order_rec(node: &Box<Node>, out: &mut Vec<u64>)
        ensures
            final(out)@ == old(out)@ + inorder(Some(*node)),
        decreases *node,
    {
        if let Some(l) = &node.left {
            Self::in_order_rec(l, out);
        }
        out.push(node.data);
        if let Some(rn) = &node.right {
            Self::in_order_rec(rn, out);
        }
        proof {
            if node.left is None {
                assert(inorder(node.left) =~= Seq::<u64>::empty());
            }
            if node.right is None {
                assert(inorder(node.right) =~= Seq::<u64>::empty());
            }
            assert(final(out)@ =~= old(out)@ + inorder(Some(*node)));
        }
    }

    /// The keys of the tree in ascending order, smallest first: the
    /// in-order traversal.
    pub fn in_order_traversal(&self) -> (r: Vec<u64>)
        requires
            self.wf(),
        ensures
            r@ == inorder(self.root_opt()),
            r@.len() == self.size(),
            forall|i: int, j: int| 0 <= i < j < r@.len() ==> r@[i] < r@[j],
    {
        let mut out: Vec<u64> = Vec::new();
        match self {
            Tree::Empty => {},
            Tree::Root(root) => Self::in_order_rec(root, &mut out),
        }
        proof {
            crate::node::lemma_inorder_sorted(self.root_opt());
            crate::node::lemma_inorder_len(self.root_opt());
            assert(out@ =~= inorder(self.root_opt()));
        }
        out
    }
}

/// The balance bound: a well-formed tree's height is at most
/// logarithmic in its node count, stated in integers as
/// 2^height <= (size + 1)^2.
pub proof fn lemma_balance_bound(t: Tree)
    requires
        t.wf(),
    ensures
        vstd::arithmetic::power2::pow2(t.height()) <= (t.size() + 1) * (t.size() + 1),
{
    crate::node::lemma_height_bound(t.root_opt());
}

impl View for Tree {
    type V = Set<u64>;

    /// A tree is viewed as its set of keys.
    open spec fn view(&self) -> Set<u64> {
        keys(self.root_opt())
    }
}

} // verus!
