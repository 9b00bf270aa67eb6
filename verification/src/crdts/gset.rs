//! A set that only grows.
use vstd::prelude::*;
use vstd::laws_cmp::obeys_cmp;
use std::collections::BTreeSet;

verus! {

broadcast use vstd::std_specs::btree::group_btree_axioms;

/// A grow-only set.
pub struct GSet<T: Ord> {
    pub value: BTreeSet<T>,
}

impl<T: Ord> GSet<T> {
    /// The members.
    pub open spec fn view(&self) -> Set<T> {
        self.value@
    }

    /// The empty set.
    pub fn new() -> (s: Self)
        ensures
            s@ == Set::<T>::empty(),
    {
        GSet { value: BTreeSet::new() }
    }

    /// Adds `element`.
    pub fn insert(&mut self, element: T)
        requires
            obeys_cmp::<T>(),
        ensures
            final(self)@ == old(self)@.insert(element),
    {
        self.value.insert(element);
    }

    /// Whether `element` is a member.
    pub fn contains(&self, element: &T) -> (r: bool)
        requires
            obeys_cmp::<T>(),
        ensures
            r == self@.contains(*element),
    {
        self.value.contains(element)
    }

    /// A copy of the members.
    pub fn read(&self) -> (r: BTreeSet<T>) where T: Clone
        ensures
            r@ == self@,
    {
        self.value.clone()
    }
}

} // verus!
