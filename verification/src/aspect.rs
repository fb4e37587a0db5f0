//! Aspects: sets of component ids.
use crate::bits::ids_of;
use crate::bits::IdSet;
use vstd::prelude::*;

verus! {

/// A set of component ids. An entity's aspect names the components it holds; a
/// system's aspect names the components it requires.
pub struct Aspect {
    bitset: IdSet,
}

impl View for Aspect {
    type V = Set<usize>;

    closed spec fn view(&self) -> Set<usize> {
        ids_of(self.bitset)
    }
}

impl Aspect {
    /// The empty aspect.
    pub fn new() -> (aspect: Aspect)
        ensures
            aspect@ == Set::<usize>::empty(),
    {
        Aspect { bitset: IdSet::new() }
    }

    /// Whether every id of `self` is also in `other`.
    pub fn is_subset(&self, other: &Aspect) -> (within: bool)
        ensures
            within == self@.subset_of(other@),
    {
        self.bitset.is_subset(&other.bitset)
    }

    /// Puts `key` into the aspect.
    pub fn add_key(&mut self, key: usize)
        requires
            key < usize::MAX,
        ensures
            final(self)@ == old(self)@.insert(key),
    {
        self.bitset.insert(key);
    }

    /// Takes `key` out of the aspect; nothing changes if it was not there.
    pub fn del_key(&mut self, key: usize)
        ensures
            final(self)@ == old(self)@.remove(key),
    {
        self.bitset.remove(key);
    }

    /// Whether `key` is in the aspect.
    pub fn contains(&self, key: usize) -> (found: bool)
        ensures
            found == self@.contains(key),
    {
        self.bitset.contains(key)
    }

    /// The ids of the aspect, each once, in no particular order.
    pub fn keys(&self) -> (keys: Vec<usize>)
        ensures
            keys@.no_duplicates(),
            keys@.to_set() == self@,
    {
        self.bitset.to_vec()
    }
}

impl Clone for Aspect {
    fn clone(&self) -> (copy: Aspect)
        ensures
            copy@ == self@,
    {
        Aspect { bitset: self.bitset.duplicate() }
    }
}

/// The subset relation on aspects is reflexive. If `a` is within `b`, putting
/// a key into `a` that `b` lacks takes `a` out of `b`, and taking that key out
/// of `a` again puts `a` back within `b`.
pub proof fn lemma_subset_add_del(a: Aspect, b: Aspect, key: usize)
    ensures
        a@.subset_of(a@),
        a@.subset_of(b@) && !b@.contains(key) ==> !a@.insert(key).subset_of(b@),
        a@.subset_of(b@) ==> a@.insert(key).remove(key).subset_of(b@),
{
    assert(a@.insert(key).contains(key));
}

} // verus!
