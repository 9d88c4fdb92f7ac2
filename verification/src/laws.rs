//! Laws that relate several tree operations, stated over the abstract set
//! the tree's contracts speak of.
//!
//! The other guarantees of the tree live where their subjects live:
//! duplicate rejection and untouched-on-error are the `ensures` of
//! [`crate::AvlTree::insert`], idempotent removal of an absent value is the
//! `ensures` of [`crate::AvlTree::remove`], and the in-order, balance and
//! height guarantees are the public proof functions on
//! [`crate::AvlTree`].

use vstd::prelude::*;

verus! {

/// Round trip: inserting an absent value and then removing that value
/// restores the abstract set exactly — hence, composed with the contracts of
/// `insert` and `remove`, the tree's `len()` returns to its prior value and
/// `contains()` on the value is false again.
pub proof fn lemma_insert_remove_round_trip(s: Set<u64>, v: u64)
    requires
        !s.contains(v),
    ensures
        s.insert(v).remove(v) == s,
        s.finite() ==> s.insert(v).remove(v).len() == s.len(),
        !s.insert(v).remove(v).contains(v),
{
    assert(s.insert(v).remove(v) =~= s);
}

} // verus!
