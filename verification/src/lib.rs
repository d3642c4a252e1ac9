//! Self-balancing ordered binary search trees over `u64` keys.
//!
//! Two balancing disciplines are provided over the same kind of owned
//! node structure: a height-balanced (AVL) tree in [`tree`] and a
//! red-black tree in [`rbt`].  Every public operation carries a contract
//! relating the tree to its abstract key set, and the balance and
//! ordering invariants are proved to hold after every operation.

use vstd::prelude::*;

pub mod node;
pub mod rbt;
pub mod tree;

verus! {

/// Errors reported by the tree operations.
///
/// Removing a key that is not present is the one recoverable failure:
/// the tree is left untouched and `KeyNotFound` is returned.
#[derive(Clone, Copy, Debug, PartialEq, Eq, Structural)]
pub enum TreeError {
    KeyNotFound,
}

/// The key set after inserting, in order, every key of `ks` into `s`.
pub open spec fn insert_all(s: Set<u64>, ks: Seq<u64>) -> Set<u64>
    decreases ks.len(),
{
    if ks.len() == 0 {
        s
    } else {
        insert_all(s.insert(ks[0]), ks.skip(1))
    }
}

/// The key set after deleting, in order, every key of `ks` from `s`.
pub open spec fn delete_all(s: Set<u64>, ks: Seq<u64>) -> Set<u64>
    decreases ks.len(),
{
    if ks.len() == 0 {
        s
    } else {
        delete_all(s.remove(ks[0]), ks.skip(1))
    }
}

proof fn lemma_insert_all(s: Set<u64>, ks: Seq<u64>)
    ensures
        insert_all(s, ks) == s.union(ks.to_set()),
    decreases ks.len(),
{
    if ks.len() == 0 {
        assert(ks.to_set() =~= Set::<u64>::empty());
        assert(insert_all(s, ks) =~= s.union(ks.to_set()));
    } else {
        lemma_insert_all(s.insert(ks[0]), ks.skip(1));
        assert(ks.to_set() =~= ks.skip(1).to_set().insert(ks[0])) by {
            assert forall|k: u64| ks.to_set().contains(k)
                implies ks.skip(1).to_set().insert(ks[0]).contains(k) by {
                let i = choose|i: int| 0 <= i < ks.len() && ks[i] == k;
                if i > 0 {
                    assert(ks.skip(1)[i - 1] == k);
                }
            }
            assert forall|k: u64| ks.skip(1).to_set().insert(ks[0]).contains(k)
                implies ks.to_set().contains(k) by {
                if ks.skip(1).to_set().contains(k) {
                    let i = choose|i: int| 0 <= i < ks.skip(1).len() && ks.skip(1)[i] == k;
                    assert(ks[i + 1] == k);
                }
            }
        }
        assert(insert_all(s, ks) =~= s.union(ks.to_set()));
    }
}

proof fn lemma_delete_all(s: Set<u64>, ks: Seq<u64>)
    ensures
        delete_all(s, ks) == s.difference(ks.to_set()),
    decreases ks.len(),
{
    if ks.len() == 0 {
        assert(delete_all(s, ks) =~= s.difference(ks.to_set()));
    } else {
        lemma_delete_all(s.remove(ks[0]), ks.skip(1));
        assert(ks.to_set() =~= ks.skip(1).to_set().insert(ks[0])) by {
            assert forall|k: u64| ks.to_set().contains(k)
                implies ks.skip(1).to_set().insert(ks[0]).contains(k) by {
                let i = choose|i: int| 0 <= i < ks.len() && ks[i] == k;
                if i > 0 {
                    assert(ks.skip(1)[i - 1] == k);
                }
            }
            assert forall|k: u64| ks.skip(1).to_set().insert(ks[0]).contains(k)
                implies ks.to_set().contains(k) by {
                if ks.skip(1).to_set().contains(k) {
                    let i = choose|i: int| 0 <= i < ks.skip(1).len() && ks.skip(1)[i] == k;
                    assert(ks[i + 1] == k);
                }
            }
        }
        assert(delete_all(s, ks) =~= s.difference(ks.to_set()));
    }
}

/// Round trip: starting from the empty key set, inserting the keys `ks`
/// and then deleting the keys `ds` — in any order and with any
/// repetitions, as long as every inserted key is eventually deleted —
/// leaves the empty key set.  Both trees relate their concrete state to
/// exactly these set operations in the contracts of `insert` and
/// `delete`, so a tree built this way is empty again.
pub proof fn lemma_round_trip(ks: Seq<u64>, ds: Seq<u64>)
    requires
        ks.to_set().subset_of(ds.to_set()),
    ensures
        delete_all(insert_all(Set::empty(), ks), ds) == Set::<u64>::empty(),
{
    lemma_insert_all(Set::empty(), ks);
    lemma_delete_all(Set::empty().union(ks.to_set()), ds);
    assert(Set::empty().union(ks.to_set()).difference(ds.to_set()) =~= Set::<u64>::empty());
}

} // verus!
