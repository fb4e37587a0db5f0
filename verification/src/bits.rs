//! Sets of small ids, stored as bit sets.
//!
//! The set itself is a `bit_set::BitSet`. Its code is not verified here: every
//! function in this file states what the corresponding `BitSet` method does,
//! and the rest of the crate is proved against those statements.
use bit_set::BitSet;
use vstd::prelude::*;

verus! {

/// A set of ids held in a `bit_set::BitSet<u32>`. The verifier does not look
/// inside it; [`ids_of`] names what it holds.
#[verifier::external_body]
pub struct IdSet {
    bits: BitSet,
}

/// The ids that a set holds: `i` is among them exactly when
/// `BitSet::contains(i)` is true.
pub uninterp spec fn ids_of(s: IdSet) -> Set<usize>;

impl IdSet {
    /// `BitSet::new`: the result holds no id.
    #[verifier::external_body]
    pub(crate) fn new() -> (s: IdSet)
        ensures
            ids_of(s) == Set::<usize>::empty(),
    {
        IdSet { bits: BitSet::new() }
    }

    /// `BitSet::insert`: afterwards the set holds `id` and everything it held
    /// before. The bit vector grows to `id + 1` bits, which cannot be had for
    /// `usize::MAX`, so that value is left out.
    #[verifier::external_body]
    pub(crate) fn insert(&mut self, id: usize)
        requires
            id < usize::MAX,
        ensures
            ids_of(*final(self)) == ids_of(*old(self)).insert(id),
    {
        self.bits.insert(id);
    }

    /// `BitSet::remove`: afterwards the set holds what it held before, except
    /// `id`. Removing an id that is not in the set changes nothing.
    #[verifier::external_body]
    pub(crate) fn remove(&mut self, id: usize)
        ensures
            ids_of(*final(self)) == ids_of(*old(self)).remove(id),
    {
        self.bits.remove(id);
    }

    /// `BitSet::contains`: whether the set holds `id`.
    #[verifier::external_body]
    pub(crate) fn contains(&self, id: usize) -> (found: bool)
        ensures
            found == ids_of(*self).contains(id),
    {
        self.bits.contains(id)
    }

    /// `BitSet::is_subset`: whether every id of `self` is also in `other`.
    #[verifier::external_body]
    pub(crate) fn is_subset(&self, other: &IdSet) -> (within: bool)
        ensures
            within == ids_of(*self).subset_of(ids_of(*other)),
    {
        self.bits.is_subset(&other.bits)
    }

    /// `BitSet::iter`, collected: each id of the set once, and nothing else.
    /// The order in which the ids come is left open.
    #[verifier::external_body]
    pub(crate) fn to_vec(&self) -> (ids: Vec<usize>)
        ensures
            ids@.no_duplicates(),
            ids@.to_set() == ids_of(*self),
    {
        self.bits.iter().collect()
    }

    /// `BitSet::clone`: a set that holds the same ids.
    #[verifier::external_body]
    pub(crate) fn duplicate(&self) -> (copy: IdSet)
        ensures
            ids_of(copy) == ids_of(*self),
    {
        IdSet { bits: self.bits.clone() }
    }
}

} // verus!
