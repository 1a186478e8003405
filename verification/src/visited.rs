//! The set of nodes that a partial path has visited, kept in a `bit_set::BitSet`.
//!
//! Verus does not look inside a `BitSet`. What one holds is named by
//! [`members`], and the functions below state, without proof, what the methods
//! of `bit_set` do to it.

use bit_set::BitSet;
use vstd::prelude::*;

verus! {

#[verifier::external_type_specification]
#[verifier::external_body]
#[verifier::reject_recursive_types(B)]
pub struct ExBitSet<B>(BitSet<B>);

/// The integers that a bit set holds.
pub uninterp spec fn members(s: BitSet<u32>) -> Set<int>;

/// `BitSet::with_capacity`: a set with room for `nbits` bits, none of them set.
#[verifier::external_body]
pub(crate) fn bitset_with_capacity(nbits: usize) -> (s: BitSet<u32>)
    ensures
        members(s) == Set::<int>::empty(),
{
    BitSet::with_capacity(nbits)
}

/// `BitSet::contains`: whether `value` is in the set.
#[verifier::external_body]
pub(crate) fn bitset_contains(s: &BitSet<u32>, value: usize) -> (found: bool)
    ensures
        found == members(*s).contains(value as int),
{
    s.contains(value)
}

/// `BitSet::insert`: puts `value` into the set, growing it where needed, and
/// tells whether it was absent before. The bit vector underneath counts
/// `value + 1` bits afterwards, so `value` stays below `usize::MAX`.
#[verifier::external_body]
pub(crate) fn bitset_insert(s: &mut BitSet<u32>, value: usize) -> (fresh: bool)
    requires
        value < usize::MAX,
    ensures
        members(*final(s)) == members(*old(s)).insert(value as int),
        fresh == !members(*old(s)).contains(value as int),
{
    s.insert(value)
}

/// `Clone::clone` of a `BitSet`: a set with the same members.
#[verifier::external_body]
pub(crate) fn bitset_clone(s: &BitSet<u32>) -> (copy: BitSet<u32>)
    ensures
        members(copy) == members(*s),
{
    s.clone()
}

/// `BitSet::is_subset`: whether every member of `a` is a member of `b`.
#[verifier::external_body]
pub(crate) fn bitset_is_subset(a: &BitSet<u32>, b: &BitSet<u32>) -> (within: bool)
    ensures
        within == members(*a).subset_of(members(*b)),
{
    a.is_subset(b)
}

} // verus!
