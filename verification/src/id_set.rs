//! A set of ids.

use std::collections::HashSet;
use vstd::prelude::*;
use vstd::std_specs::hash::*;

verus! {

/// A set of ids.
pub struct IdSet {
    set: HashSet<u64>,
}

impl View for IdSet {
    type V = Set<u64>;

    closed spec fn view(&self) -> Set<u64> {
        self.set@
    }
}

impl IdSet {
    /// The empty set.
    pub fn new() -> (s: Self)
        ensures
            s@ == Set::<u64>::empty(),
    {
        IdSet { set: HashSet::new() }
    }

    /// Puts `id` into the set; false when it was there already.
    pub fn insert(&mut self, id: u64) -> (fresh: bool)
        ensures
            fresh == !old(self)@.contains(id),
            final(self)@ == old(self)@.insert(id),
    {
        broadcast use group_hash_axioms;

        self.set.insert(id)
    }

    /// Whether `id` is in the set.
    pub fn contains(&self, id: u64) -> (found: bool)
        ensures
            found == self@.contains(id),
    {
        broadcast use group_hash_axioms;

        self.set.contains(&id)
    }
}

} // verus!
