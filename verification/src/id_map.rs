//! A map from ids to resources.
//!
//! [`IdMap`] is a hash map keyed by ids. Its view is a mathematical map from ids
//! to the *views* of the stored values, so that contracts can speak of contents
//! without naming how a value is laid out.

use std::collections::hash_map::Entry;
use std::collections::HashMap;
use vstd::prelude::*;
use vstd::std_specs::hash::*;
use vstd::std_specs::iter::IteratorSpec;

verus! {

/// A collection of values addressed by id.
pub struct IdMap<V> {
    map: HashMap<u64, V>,
}

impl<V: View> View for IdMap<V> {
    type V = Map<u64, V::V>;

    closed spec fn view(&self) -> Map<u64, V::V> {
        self.map@.map_values(|v: V| v@)
    }
}

impl<V: View> IdMap<V> {
    /// An empty map.
    pub fn new() -> (m: Self)
        ensures
            m@ == Map::<u64, V::V>::empty(),
    {
        let m = IdMap { map: HashMap::new() };
        assert(m@ =~= Map::<u64, V::V>::empty());
        m
    }

    /// A map of this kind never holds infinitely many ids.
    pub proof fn finite(&self)
        ensures
            self@.dom().finite(),
    {
        broadcast use group_hash_axioms;

        assert(self@.dom() =~= self.map@.dom());
    }

    /// The number of stored values.
    pub fn len(&self) -> (n: usize)
        ensures
            n == self@.dom().len(),
            self@.dom().finite(),
    {
        broadcast use group_hash_axioms;

        proof {
            assert(self@.dom() =~= self.map@.dom());
        }
        self.map.len()
    }

    /// True when nothing is stored.
    pub fn is_empty(&self) -> (empty: bool)
        ensures
            empty == (self@.dom() == Set::<u64>::empty()),
    {
        proof {
            self.finite();
            if self.map@.is_empty() {
                assert(self@.dom() =~= Set::<u64>::empty());
            } else {
                assert(self@.dom() =~= self.map@.dom());
            }
        }
        self.map.is_empty()
    }

    /// True when a value is stored under `id`.
    pub fn contains(&self, id: u64) -> (found: bool)
        ensures
            found == self@.contains_key(id),
    {
        broadcast use group_hash_axioms;

        self.map.contains_key(&id)
    }

    /// The value stored under `id`.
    pub fn get(&self, id: u64) -> (found: Option<&V>)
        ensures
            match found {
                Some(v) => self@.contains_key(id) && v@ == self@[id],
                None => !self@.contains_key(id),
            },
    {
        broadcast use group_hash_axioms;

        self.map.get(&id)
    }

    /// The value stored under `id`, for modification in place.
    pub fn get_mut(&mut self, id: u64) -> (found: Option<&mut V>)
        ensures
            match found {
                Some(v) => old(self)@.contains_key(id) && (*v)@ == old(self)@[id] && final(self)@
                    == old(self)@.insert(id, (*final(v))@),
                None => !old(self)@.contains_key(id) && final(self)@ == old(self)@,
            },
    {
        broadcast use group_hash_axioms;

        match self.map.entry(id) {
            Entry::Occupied(e) => Some(e.into_mut()),
            Entry::Vacant(_) => None,
        }
    }

    /// Stores `value` under `id`, returning the value it replaces.
    pub fn insert(&mut self, id: u64, value: V) -> (replaced: Option<V>)
        ensures
            final(self)@ == old(self)@.insert(id, value@),
            match replaced {
                Some(v) => old(self)@.contains_key(id) && v@ == old(self)@[id],
                None => !old(self)@.contains_key(id),
            },
    {
        broadcast use group_hash_axioms;

        let replaced = self.map.insert(id, value);
        assert(self@ =~= old(self)@.insert(id, value@));
        replaced
    }

    /// Takes the value stored under `id` out of the map.
    pub fn remove(&mut self, id: u64) -> (removed: Option<V>)
        ensures
            final(self)@ == old(self)@.remove(id),
            match removed {
                Some(v) => old(self)@.contains_key(id) && v@ == old(self)@[id],
                None => !old(self)@.contains_key(id),
            },
    {
        broadcast use group_hash_axioms;

        let removed = self.map.remove(&id);
        assert(self@ =~= old(self)@.remove(id));
        removed
    }

    /// Empties the map.
    pub fn clear(&mut self)
        ensures
            final(self)@ == Map::<u64, V::V>::empty(),
    {
        self.map.clear();
        assert(self@ =~= Map::<u64, V::V>::empty());
    }

    /// Every id in use, each once, in no particular order.
    pub fn keys(&self) -> (ids: Vec<u64>)
        ensures
            ids@.no_duplicates(),
            ids@.to_set() == self@.dom(),
            forall|id: u64| #[trigger] ids@.contains(id) <==> self@.contains_key(id),
    {
        broadcast use group_hash_axioms;

        let mut ids: Vec<u64> = Vec::new();
        for id in iter: self.map.keys()
            invariant
                ids.len() == iter.index(),
                forall|i: int| 0 <= i < ids.len() ==> ids@[i] == *iter.seq()[i],
        {
            ids.push(*id);
        }
        proof {
            let seen = spec_keys_iter(&self.map).remaining();
            assert(ids@ =~= seen.unref());
            assert(self@.dom() =~= self.map@.dom());
            assert forall|i: int, j: int| 0 <= i < j < ids.len() implies ids@[i] != ids@[j] by {
                assert(seen[i] != seen[j]);
            }
            assert forall|id: u64| #[trigger] ids@.contains(id) <==> self@.contains_key(id) by {
                assert(ids@.to_set().contains(id) <==> ids@.contains(id));
            }
        }
        ids
    }
}

} // verus!
