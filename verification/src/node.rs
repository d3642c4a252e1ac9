//! Nodes of the height-balanced tree, with the spec-level model of a
//! subtree: its key set, in-order key sequence, height and node count,
//! and the ordering and balance invariants.

use vstd::prelude::*;

verus! {

use vstd::arithmetic::power2::pow2;

/// One node of the height-balanced search tree: a key, a cached height
/// (1 for a node with no children), and the two owned children.
pub struct Node {
    pub data: u64,
    pub height: i32,
    pub left: Option<Box<Node>>,
    pub right: Option<Box<Node>>,
}

/// The set of keys stored in a subtree.
pub open spec fn keys(t: Option<Box<Node>>) -> Set<u64>
    decreases t,
{
    match t {
        None => Set::empty(),
        Some(n) => keys(n.left).union(keys(n.right)).insert(n.data),
    }
}

/// The keys of a subtree, in order of an in-order traversal.
pub open spec fn inorder(t: Option<Box<Node>>) -> Seq<u64>
    decreases t,
{
    match t {
        None => Seq::empty(),
        Some(n) => inorder(n.left) + seq![n.data] + inorder(n.right),
    }
}

/// The height of a subtree: 0 when empty, 1 for a single node.
pub open spec fn height_of(t: Option<Box<Node>>) -> nat
    decreases t,
{
    match t {
        None => 0,
        Some(n) => 1 + if height_of(n.left) >= height_of(n.right) {
            height_of(n.left)
        } else {
            height_of(n.right)
        },
    }
}

/// The number of nodes in a subtree.
pub open spec fn size_of(t: Option<Box<Node>>) -> nat
    decreases t,
{
    match t {
        None => 0,
        Some(n) => 1 + size_of(n.left) + size_of(n.right),
    }
}

/// The number of leaves (nodes with no children) in a subtree.
pub open spec fn leaf_count(t: Option<Box<Node>>) -> nat
    decreases t,
{
    match t {
        None => 0,
        Some(n) => if n.left is None && n.right is None {
            1
        } else {
            leaf_count(n.left) + leaf_count(n.right)
        },
    }
}

/// The search-tree ordering: at every node, all keys of the left
/// subtree are below the node's key and all keys of the right subtree
/// are above it.
pub open spec fn bst(t: Option<Box<Node>>) -> bool
    decreases t,
{
    match t {
        None => true,
        Some(n) => {
            &&& bst(n.left)
            &&& bst(n.right)
            &&& forall|k: u64| keys(n.left).contains(k) ==> k < n.data
            &&& forall|k: u64| keys(n.right).contains(k) ==> k > n.data
        },
    }
}

/// Every cached height equals the true height of its subtree.
pub open spec fn heights_ok(t: Option<Box<Node>>) -> bool
    decreases t,
{
    match t {
        None => true,
        Some(n) => {
            &&& heights_ok(n.left)
            &&& heights_ok(n.right)
            &&& n.height as int == height_of(t) as int
        },
    }
}

/// The height-balance discipline: at every node the heights of the two
/// subtrees differ by at most one.
pub open spec fn balanced(t: Option<Box<Node>>) -> bool
    decreases t,
{
    match t {
        None => true,
        Some(n) => {
            &&& balanced(n.left)
            &&& balanced(n.right)
            &&& -1 <= height_of(n.left) as int - height_of(n.right) as int <= 1
        },
    }
}

/// Well-formedness of a subtree: ordered, heights cached correctly,
/// and height-balanced.
pub open spec fn wf(t: Option<Box<Node>>) -> bool {
    bst(t) && heights_ok(t) && balanced(t)
}

/// The cached height of an optional child, as the exec code reads it.
pub open spec fn stored_height(t: Option<Box<Node>>) -> int {
    match t {
        None => 0,
        Some(n) => n.height as int,
    }
}

/// The smallest node count a balanced subtree of height `h` can have.
pub open spec fn minsize(h: nat) -> nat
    decreases h,
{
    if h == 0 {
        0
    } else if h == 1 {
        1
    } else {
        1 + minsize((h - 1) as nat) + minsize((h - 2) as nat)
    }
}

proof fn lemma_minsize_mono(h1: nat, h2: nat)
    requires
        h1 <= h2,
    ensures
        minsize(h1) <= minsize(h2),
    decreases h2,
{
    if h1 < h2 {
        lemma_minsize_mono(h1, (h2 - 1) as nat);
        if h2 >= 2 {
            assert(minsize(h2) == 1 + minsize((h2 - 1) as nat) + minsize((h2 - 2) as nat));
        }
    }
}

proof fn lemma_minsize_pow2(h: nat)
    ensures
        pow2(h) <= (minsize(h) + 1) * (minsize(h) + 1),
    decreases h,
{
    vstd::arithmetic::power2::lemma2_to64();
    if h == 0 {
        assert(pow2(0) == 1);
        assert((minsize(h) + 1) * (minsize(h) + 1) == 1) by (nonlinear_arith)
            requires
                minsize(h) == 0,
        ;
    } else if h == 1 {
        assert(pow2(1) == 2);
        assert((minsize(h) + 1) * (minsize(h) + 1) == 4) by (nonlinear_arith)
            requires
                minsize(h) == 1,
        ;
    } else {
        lemma_minsize_pow2((h - 1) as nat);
        lemma_minsize_pow2((h - 2) as nat);
        lemma_minsize_mono((h - 2) as nat, (h - 1) as nat);
        vstd::arithmetic::power2::lemma_pow2_unfold(h);
        vstd::arithmetic::power2::lemma_pow2_unfold((h - 1) as nat);
        let a = minsize((h - 1) as nat) + 1;
        let b = minsize((h - 2) as nat) + 1;
        assert(pow2(h) == 2 * pow2((h - 1) as nat));
        assert(pow2((h - 1) as nat) == 2 * pow2((h - 2) as nat));
        assert(minsize(h) + 1 == a + b);
        assert(a * a + 2 * (b * b) <= (a + b) * (a + b)) by (nonlinear_arith)
            requires
                b <= a,
                0 <= b,
        ;
        assert(pow2((h - 1) as nat) <= a * a);
        assert(pow2((h - 2) as nat) <= b * b);
        assert(2 * pow2((h - 1) as nat) <= a * a + 2 * (b * b));
        assert(pow2(h) <= (a + b) * (a + b));
        assert((minsize(h) + 1) * (minsize(h) + 1) == (a + b) * (a + b));
    }
}

/// A balanced subtree of height `h` has at least `minsize(h)` nodes.
proof fn lemma_balanced_size(t: Option<Box<Node>>)
    requires
        balanced(t),
    ensures
        size_of(t) >= minsize(height_of(t)),
    decreases t,
{
    match t {
        None => {},
        Some(n) => {
            lemma_balanced_size(n.left);
            lemma_balanced_size(n.right);
            let h = height_of(t);
            let hl = height_of(n.left);
            let hr = height_of(n.right);
            if h >= 2 {
                if hl >= hr {
                    assert(hl == h - 1 && hr >= h - 2);
                    lemma_minsize_mono((h - 2) as nat, hr);
                } else {
                    assert(hr == h - 1 && hl >= h - 2);
                    lemma_minsize_mono((h - 2) as nat, hl);
                }
                assert(minsize(h) == 1 + minsize((h - 1) as nat) + minsize((h - 2) as nat));
            }
        },
    }
}

/// The balance bound: a balanced subtree's height is at most
/// logarithmic in its node count, stated in integers as
/// 2^height <= (size + 1)^2.
pub proof fn lemma_height_bound(t: Option<Box<Node>>)
    requires
        balanced(t),
    ensures
        pow2(height_of(t)) <= (size_of(t) + 1) * (size_of(t) + 1),
{
    lemma_balanced_size(t);
    lemma_minsize_pow2(height_of(t));
    let m = minsize(height_of(t));
    let s = size_of(t);
    assert((m + 1) * (m + 1) <= (s + 1) * (s + 1)) by (nonlinear_arith)
        requires
            m <= s,
            0 <= m,
    ;
}

/// A balanced subtree that fits in memory has height at most 127.
pub proof fn lemma_height_small(t: Option<Box<Node>>)
    requires
        balanced(t),
        size_of(t) < 0xffff_ffff_ffff_ffff,
    ensures
        height_of(t) <= 127,
{
    lemma_height_bound(t);
    vstd::arithmetic::power2::lemma2_to64();
    assert(pow2(128) == pow2(64) * pow2(64)) by {
        vstd::arithmetic::power2::lemma_pow2_adds(64, 64);
    }
    let s = size_of(t);
    assert((s + 1) * (s + 1) < pow2(64) * pow2(64)) by (nonlinear_arith)
        requires
            0 <= s,
            s + 1 < pow2(64),
    ;
    if height_of(t) > 128 {
        vstd::arithmetic::power2::lemma_pow2_strictly_increases(128, height_of(t));
    }
    assert(height_of(t) <= 127) by {
        if height_of(t) >= 128 {
            assert(pow2(height_of(t)) >= pow2(128));
        }
    }
}

/// Keys are unique: an ordered subtree holds exactly one node per
/// key, so the node count equals the cardinality of the key set.
pub proof fn lemma_keys_unique(t: Option<Box<Node>>)
    requires
        bst(t),
    ensures
        keys(t).finite(),
        keys(t).len() == size_of(t),
    decreases t,
{
    match t {
        None => {
            assert(keys(t) =~= Set::<u64>::empty());
        },
        Some(n) => {
            lemma_keys_unique(n.left);
            lemma_keys_unique(n.right);
            let l = keys(n.left);
            let r = keys(n.right);
            assert(l.disjoint(r)) by {
                assert forall|k: u64| l.contains(k) implies !r.contains(k) by {
                    if r.contains(k) {
                        assert(k < n.data && k > n.data);
                    }
                }
            }
            vstd::set_lib::lemma_set_disjoint_lens(l, r);
            assert(l.union(r) == l + r);
            assert(l.union(r).len() == l.len() + r.len());
            assert(!l.union(r).contains(n.data));
            vstd::set::axiom_set_insert_len(l.union(r), n.data);
        },
    }
}

/// A subtree has no more leaves than nodes.
pub proof fn lemma_leaf_le_size(t: Option<Box<Node>>)
    ensures
        leaf_count(t) <= size_of(t),
    decreases t,
{
    match t {
        None => {},
        Some(n) => {
            lemma_leaf_le_size(n.left);
            lemma_leaf_le_size(n.right);
        },
    }
}

/// The in-order sequence lists one key per node.
pub proof fn lemma_inorder_len(t: Option<Box<Node>>)
    ensures
        inorder(t).len() == size_of(t),
    decreases t,
{
    match t {
        None => {},
        Some(n) => {
            lemma_inorder_len(n.left);
            lemma_inorder_len(n.right);
        },
    }
}

/// Every entry of the in-order sequence is a key of the subtree.
pub proof fn lemma_inorder_members(t: Option<Box<Node>>)
    ensures
        forall|i: int| 0 <= i < inorder(t).len() ==> keys(t).contains(#[trigger] inorder(t)[i]),
    decreases t,
{
    match t {
        None => {},
        Some(n) => {
            lemma_inorder_members(n.left);
            lemma_inorder_members(n.right);
            let s = inorder(t);
            let ls = inorder(n.left);
            let rs = inorder(n.right);
            assert(s == ls + seq![n.data] + rs);
            assert forall|i: int| 0 <= i < s.len() implies keys(t).contains(#[trigger] s[i]) by {
                if i < ls.len() {
                    assert(s[i] == ls[i]);
                    assert(keys(n.left).contains(ls[i]));
                } else if i == ls.len() {
                    assert(s[i] == n.data);
                } else {
                    assert(s[i] == rs[i - ls.len() - 1]);
                    assert(keys(n.right).contains(rs[i - ls.len() - 1]));
                }
            }
        },
    }
}

/// The search-tree order makes the in-order key sequence strictly
/// ascending: every traversal lists the keys in increasing order with
/// no repetitions.
pub proof fn lemma_inorder_sorted(t: Option<Box<Node>>)
    requires
        bst(t),
    ensures
        forall|i: int, j: int| 0 <= i < j < inorder(t).len() ==> #[trigger] inorder(t)[i]
            < #[trigger] inorder(t)[j],
    decreases t,
{
    match t {
        None => {},
        Some(n) => {
            lemma_inorder_sorted(n.left);
            lemma_inorder_sorted(n.right);
            lemma_inorder_members(n.left);
            lemma_inorder_members(n.right);
            let s = inorder(t);
            let ls = inorder(n.left);
            let rs = inorder(n.right);
            assert(s == ls + seq![n.data] + rs);
            assert forall|i: int, j: int| 0 <= i < j < s.len() implies #[trigger] s[i]
                < #[trigger] s[j] by {
                if j < ls.len() {
                    assert(s[i] == ls[i] && s[j] == ls[j]);
                } else if i > ls.len() {
                    assert(s[i] == rs[i - ls.len() - 1] && s[j] == rs[j - ls.len() - 1]);
                } else if i == ls.len() {
                    // i is the root, j lies in the right subtree
                    assert(s[j] == rs[j - ls.len() - 1]);
                    assert(keys(n.right).contains(rs[j - ls.len() - 1]));
                } else if j == ls.len() {
                    // j is the root, i lies in the left subtree
                    assert(s[i] == ls[i]);
                    assert(keys(n.left).contains(ls[i]));
                } else {
                    // i lies left of the root, j right of it
                    assert(s[i] == ls[i]);
                    assert(s[j] == rs[j - ls.len() - 1]);
                    assert(keys(n.left).contains(ls[i]));
                    assert(keys(n.right).contains(rs[j - ls.len() - 1]));
                }
            }
        },
    }
}

/// With correct caches, the stored height of a subtree is its height.
pub proof fn lemma_stored_height(t: Option<Box<Node>>)
    requires
        heights_ok(t),
    ensures
        stored_height(t) == height_of(t) as int,
{
}

impl Node {
    /// A fresh node holding `data`, with no children and height 1.
    pub fn new(data: u64) -> (r: Node)
        ensures
            r.data == data,
            r.height == 1,
            r.left is None,
            r.right is None,
    {
        Node { data, height: 1, left: None, right: None }
    }

    /// Recompute the cached height of `node` from the cached heights of
    /// its children.
    pub fn update_height(node: &mut Node)
        requires
            0 <= stored_height(old(node).left),
            0 <= stored_height(old(node).right),
            stored_height(old(node).left) < i32::MAX,
            stored_height(old(node).right) < i32::MAX,
        ensures
            final(node).height as int == 1 + if stored_height(old(node).left)
                >= stored_height(old(node).right) {
                stored_height(old(node).left)
            } else {
                stored_height(old(node).right)
            },
            final(node).data == old(node).data,
            final(node).left == old(node).left,
            final(node).right == old(node).right,
    {
        let left_height: i32 = match &node.left {
            Some(n) => n.height,
            None => 0,
        };
        let right_height: i32 = match &node.right {
            Some(n) => n.height,
            None => 0,
        };
        node.height = 1 + if left_height >= right_height {
            left_height
        } else {
            right_height
        };
    }

    /// The balance factor of `node`: cached left height minus cached
    /// right height.
    pub fn balance_factor(node: &Node) -> (r: i32)
        requires
            0 <= stored_height(node.left),
            0 <= stored_height(node.right),
        ensures
            r as int == stored_height(node.left) - stored_height(node.right),
    {
        let left_height: i32 = match &node.left {
            Some(n) => n.height,
            None => 0,
        };
        let right_height: i32 = match &node.right {
            Some(n) => n.height,
            None => 0,
        };
        left_height - right_height
    }
}

} // verus!
