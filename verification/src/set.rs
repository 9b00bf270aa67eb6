//! A hash set: a map from its members to nothing.
use vstd::prelude::*;
use core::hash::BuildHasher;
use core::hash::Hash;
use crate::iter::Keys;
use crate::map::default_hash_builder;
use crate::map::HashMap;
use crate::order::key_laws;
use crate::sizing::load_factor_spec;
use crate::sizing::requested_capacity_spec;
use crate::sizing::requested_for;
use crate::sizing::MAXIMUM_CAPACITY;

verus! {

/// A hash set.
pub struct HashSet<T, S = ahash::RandomState> {
    pub map: HashMap<T, (), S>,
}

/// What `insert` makes of the members `pre` and returns, for the hash `h`
/// of the value.
pub open spec fn set_insert_outcome<T>(
    pre: Set<(u64, T)>,
    post: Set<(u64, T)>,
    h: u64,
    value: T,
    r: bool,
) -> bool {
    post == pre.insert((h, value)) && r == !pre.contains((h, value))
}

/// What `remove` makes of the members `pre` and returns, for the hash `h`
/// of the value.
pub open spec fn set_remove_outcome<T>(
    pre: Set<(u64, T)>,
    post: Set<(u64, T)>,
    h: u64,
    value: T,
    r: bool,
) -> bool {
    post == pre.remove((h, value)) && r == pre.contains((h, value))
}

/// Whether the members `m` hold `value` under the hash `h`.
pub open spec fn holds<T>(m: Set<(u64, T)>, h: u64, value: T) -> bool {
    m.contains((h, value))
}

impl<T: Ord, S> HashSet<T, S> {
    /// The members, each with its hash.
    pub open spec fn view(&self) -> Set<(u64, T)> {
        self.map@.dom()
    }

    pub open spec fn wf(&self) -> bool {
        self.map.wf()
    }

    /// The number of bins of the table that holds the members.
    pub open spec fn capacity(&self) -> usize {
        self.map.capacity()
    }

    /// The number of members at which the table is resized.
    pub open spec fn threshold(&self) -> int {
        self.map.size_ctl as int
    }

    /// An empty set that hashes with `hash_builder`.
    pub fn with_hasher(hash_builder: S) -> (s: Self)
        requires
            key_laws::<T>(),
        ensures
            s.wf(),
            s@ == Set::<(u64, T)>::empty(),
    {
        HashSet { map: HashMap::with_hasher(hash_builder) }
    }

    /// An empty set with room for `capacity` members.
    pub fn with_capacity_and_hasher(capacity: usize, hash_builder: S) -> (s: Self)
        requires
            key_laws::<T>(),
        ensures
            s.wf(),
            s@ == Set::<(u64, T)>::empty(),
            capacity == 0 ==> s.capacity() == 0,
            capacity > 0 ==> requested_capacity_spec(capacity, s.capacity()),
            s.map.build_hasher == hash_builder,
    {
        HashSet { map: HashMap::with_capacity_and_hasher(capacity, hash_builder) }
    }

    /// The number of members.
    pub fn len(&self) -> (r: usize)
        requires
            self.wf(),
        ensures
            r == self@.len(),
    {
        self.map.len()
    }

    pub fn is_empty(&self) -> (r: bool)
        requires
            self.wf(),
        ensures
            r == (self@.len() == 0),
    {
        self.len() == 0
    }

    /// A traversal of the members.
    pub fn iter<'g>(&'g self) -> (r: Keys<'g, T, ()>)
        requires
            self.wf(),
        ensures
            r.node_iter.wf(),
            r.node_iter.remaining() == self.map.table.traversal(),
    {
        self.map.keys()
    }

    /// Removes every member.
    pub fn clear(&mut self)
        requires
            old(self).wf(),
        ensures
            final(self).wf(),
            final(self)@ == Set::<(u64, T)>::empty(),
    {
        self.map.clear()
    }

    /// Makes room for `additional` more members: the table is doubled
    /// until its load threshold is at least the capacity that the members
    /// and `additional` more ask for, or until it is of the largest size.
    /// The members stay as they are.
    pub fn reserve(&mut self, additional: usize)
        requires
            old(self).wf(),
            old(self)@.len() + additional <= usize::MAX,
        ensures
            final(self).wf(),
            final(self)@ == old(self)@,
            final(self).map.build_hasher == old(self).map.build_hasher,
            final(self).capacity() >= old(self).capacity(),
            final(self).capacity() > 0,
            final(self).threshold() > old(self)@.len() + additional || final(self).capacity()
                == MAXIMUM_CAPACITY,
            final(self).threshold() >= requested_for((old(self)@.len() + additional) as usize)
                || final(self).capacity() == MAXIMUM_CAPACITY,
            final(self).capacity() == old(self).capacity() ==> final(self).map.table == old(
                self,
            ).map.table,
            old(self).capacity() > 0 && final(self).capacity() > old(self).capacity()
                ==> load_factor_spec(final(self).capacity() as int / 2) < requested_for(
                (old(self)@.len() + additional) as usize,
            ),
    {
        self.map.reserve(additional)
    }
}

impl<T: Hash + Ord, S: BuildHasher> HashSet<T, S> {
    /// Whether `value` is a member.
    pub fn contains(&self, value: &T) -> (r: bool)
        requires
            self.wf(),
        ensures
            exists|h: u64| r == #[trigger] holds(self@, h, *value),
    {
        let h = self.map.hash(value);
        let r = self.map.get_hashed(h, value).is_some();
        proof {
            assert(r == holds(self@, h, *value));
        }
        r
    }

    /// The member that equals `value`.
    pub fn get<'g>(&'g self, value: &T) -> (r: Option<&'g T>)
        requires
            self.wf(),
        ensures
            exists|h: u64| r.is_some() == #[trigger] holds(self@, h, *value),
            r.is_some() ==> *r.unwrap() == *value,
    {
        let h = self.map.hash(value);
        let r = match self.map.get_node(h, value) {
            Some(n) => Some(&n.key),
            None => None,
        };
        proof {
            assert(r.is_some() == holds(self@, h, *value));
        }
        r
    }

    /// Adds `value`. Returns whether it is new.
    pub fn insert(&mut self, value: T) -> (r: bool)
        requires
            old(self).wf(),
            old(self).map.count < isize::MAX,
        ensures
            final(self).wf(),
            exists|h: u64| #[trigger] set_insert_outcome(old(self)@, final(self)@, h, value, r),
    {
        let h = self.map.hash(&value);
        let old_value = self.map.put(h, value, (), false).before();
        let r = old_value.is_none();
        proof {
            assert(self@ =~= old(self)@.insert((h, value)));
            assert(set_insert_outcome(old(self)@, self@, h, value, r));
        }
        r
    }

    /// Removes `value`. Returns whether it was a member.
    pub fn remove(&mut self, value: &T) -> (r: bool)
        requires
            old(self).wf(),
        ensures
            final(self).wf(),
            exists|h: u64| #[trigger] set_remove_outcome(old(self)@, final(self)@, h, *value, r),
    {
        let h = self.map.hash(value);
        let r = match self.map.replace_node(h, value, None) {
            crate::map_remove::Replaced::Removed { key: _, value: _ } => true,
            _ => false,
        };
        proof {
            assert(self@ =~= old(self)@.remove((h, *value)));
            assert(set_remove_outcome(old(self)@, self@, h, *value, r));
        }
        r
    }

    /// Removes `value` and returns the member that it was.
    pub fn take(&mut self, value: &T) -> (r: Option<T>)
        requires
            old(self).wf(),
        ensures
            final(self).wf(),
            exists|h: u64| #[trigger]
                set_remove_outcome(old(self)@, final(self)@, h, *value, r.is_some()),
            r.is_some() ==> r.unwrap() == *value,
    {
        let h = self.map.hash(value);
        let r = match self.map.replace_node(h, value, None) {
            crate::map_remove::Replaced::Removed { key, value: _ } => Some(key),
            _ => None,
        };
        proof {
            assert(self@ =~= old(self)@.remove((h, *value)));
            assert(set_remove_outcome(old(self)@, self@, h, *value, r.is_some()));
        }
        r
    }
}

/// The value `t` is a member of `m` under some hash.
pub open spec fn has_member<T>(m: Set<(u64, T)>, t: T) -> bool {
    exists|h: u64| #[trigger] holds(m, h, t)
}

/// The value `t` is missing from `m` under some hash.
pub open spec fn lacks_member<T>(m: Set<(u64, T)>, t: T) -> bool {
    exists|h: u64| !#[trigger] holds(m, h, t)
}

/// What `retain` makes of the members `pre`: those that are left are
/// members of `pre` for which `f` gave `true`, and for the others it gave
/// `false`.
pub open spec fn set_retained<T, F: Fn(&T) -> bool>(
    pre: Set<(u64, T)>,
    post: Set<(u64, T)>,
    f: F,
) -> bool {
    &&& forall|slot: (u64, T)| #[trigger]
        post.contains(slot) ==> pre.contains(slot) && f.ensures((&slot.1,), true)
    &&& forall|slot: (u64, T)|
        pre.contains(slot) && !(#[trigger] post.contains(slot)) ==> f.ensures((&slot.1,), false)
}

impl<T: Hash + Ord, S: BuildHasher> HashSet<T, S> {
    /// Whether every member of this set was found in `other`, each under
    /// the hash that the hasher of `other` gave it. The members are probed
    /// in the order of a traversal, up to the first that is not found.
    pub fn is_subset(&self, other: &HashSet<T, S>) -> (r: bool)
        requires
            self.wf(),
            other.wf(),
        ensures
            r ==> forall|slot: (u64, T)| #[trigger]
                self@.contains(slot) ==> has_member(other@, slot.1),
            !r ==> exists|slot: (u64, T)| #[trigger]
                self@.contains(slot) && lacks_member(other@, slot.1),
    {
        let ghost trav = self.map.table.traversal();
        let mut it = self.iter();
        let ghost mut idx: int = 0;
        proof {
            if self.map.capacity() > 0 {
                self.map.table.lemma_traversal();
            }
        }
        loop
            invariant
                self.wf(),
                other.wf(),
                it.node_iter.wf(),
                0 <= idx <= trav.len(),
                it.node_iter.remaining() == trav.skip(idx),
                trav == self.map.table.traversal(),
                forall|k: int| 0 <= k < idx ==> has_member(other@, (#[trigger] trav[k]).key),
            decreases trav.len() - idx,
        {
            match it.next() {
                None => {
                    proof {
                        assert(idx == trav.len());
                        assert forall|slot: (u64, T)| #[trigger]
                            self@.contains(slot) implies has_member(other@, slot.1) by {
                            self.map.table.lemma_traversal();
                            assert(crate::node::entries_map(trav).dom().contains(slot));
                            let k = crate::node::slot_index(trav, slot);
                            assert(trav[k].key == slot.1);
                        }
                    }
                    return true;
                },
                Some(value) => {
                    proof {
                        assert(trav.skip(idx)[0] == trav[idx]);
                        assert(trav.skip(idx).skip(1) =~= trav.skip(idx + 1));
                    }
                    let h = other.map.hash(value);
                    if other.map.get_hashed(h, value).is_none() {
                        proof {
                            self.map.table.lemma_traversal();
                            let slot = trav[idx].slot();
                            crate::node::lemma_entries_map_at(trav, idx);
                            assert(!holds(other@, h, slot.1));
                            assert(self@.contains(slot) && lacks_member(other@, slot.1));
                        }
                        return false;
                    }
                    proof {
                        assert(holds(other@, h, trav[idx].key));
                        idx = idx + 1;
                    }
                },
            }
        }
    }

    /// Whether every member of `other` was found in this set.
    pub fn is_superset(&self, other: &HashSet<T, S>) -> (r: bool)
        requires
            self.wf(),
            other.wf(),
        ensures
            r ==> forall|slot: (u64, T)| #[trigger]
                other@.contains(slot) ==> has_member(self@, slot.1),
            !r ==> exists|slot: (u64, T)| #[trigger]
                other@.contains(slot) && lacks_member(self@, slot.1),
    {
        other.is_subset(self)
    }

    /// Whether no member of this set was found in `other`, each probed
    /// under the hash that the hasher of `other` gave it.
    pub fn is_disjoint(&self, other: &HashSet<T, S>) -> (r: bool)
        requires
            self.wf(),
            other.wf(),
        ensures
            r ==> forall|slot: (u64, T)| #[trigger]
                self@.contains(slot) ==> lacks_member(other@, slot.1),
            !r ==> exists|slot: (u64, T)| #[trigger]
                self@.contains(slot) && has_member(other@, slot.1),
    {
        let ghost trav = self.map.table.traversal();
        let mut it = self.iter();
        let ghost mut idx: int = 0;
        proof {
            if self.map.capacity() > 0 {
                self.map.table.lemma_traversal();
            }
        }
        loop
            invariant
                self.wf(),
                other.wf(),
                it.node_iter.wf(),
                0 <= idx <= trav.len(),
                it.node_iter.remaining() == trav.skip(idx),
                trav == self.map.table.traversal(),
                forall|k: int| 0 <= k < idx ==> lacks_member(other@, (#[trigger] trav[k]).key),
            decreases trav.len() - idx,
        {
            match it.next() {
                None => {
                    proof {
                        assert(idx == trav.len());
                        assert forall|slot: (u64, T)| #[trigger]
                            self@.contains(slot) implies lacks_member(other@, slot.1) by {
                            self.map.table.lemma_traversal();
                            assert(crate::node::entries_map(trav).dom().contains(slot));
                            let k = crate::node::slot_index(trav, slot);
                            assert(trav[k].key == slot.1);
                        }
                    }
                    return true;
                },
                Some(value) => {
                    proof {
                        assert(trav.skip(idx)[0] == trav[idx]);
                        assert(trav.skip(idx).skip(1) =~= trav.skip(idx + 1));
                    }
                    let h = other.map.hash(value);
                    if other.map.get_hashed(h, value).is_some() {
                        proof {
                            self.map.table.lemma_traversal();
                            let slot = trav[idx].slot();
                            crate::node::lemma_entries_map_at(trav, idx);
                            assert(holds(other@, h, slot.1));
                            assert(self@.contains(slot) && has_member(other@, slot.1));
                        }
                        return false;
                    }
                    proof {
                        assert(!holds(other@, h, trav[idx].key));
                        idx = idx + 1;
                    }
                },
            }
        }
    }
}

impl<T: Ord, S> HashSet<T, S> {
    /// Keeps the members for which `f` gives `true` and removes the
    /// others.
    pub fn retain<F: Fn(&T) -> bool>(&mut self, f: F)
        requires
            old(self).wf(),
            forall|slot: (u64, T)| #[trigger] old(self)@.contains(slot) ==> f.requires((&slot.1,)),
        ensures
            final(self).wf(),
            set_retained(old(self)@, final(self)@, f),
    {
        let by_ref = &f;
        let keep = |value: &T, unit: &()| -> (b: bool)
            requires
                by_ref.requires((value,)),
            ensures
                by_ref.ensures((value,), b),
            { by_ref(value) };
        proof {
            assert forall|slot: (u64, T)| #[trigger]
                self.map@.dom().contains(slot) implies keep.requires(
                (&slot.1, &self.map@[slot]),
            ) by {
                assert(self@.contains(slot));
                assert(f.requires((&slot.1,)));
            }
        }
        self.map.retain(keep);
    }
}

impl<T: Ord> HashSet<T, ahash::RandomState> {
    /// An empty set with the default hasher.
    pub fn new() -> (s: Self)
        requires
            key_laws::<T>(),
        ensures
            s.wf(),
            s@ == Set::<(u64, T)>::empty(),
    {
        Self::with_hasher(default_hash_builder())
    }

    /// An empty set with the default hasher and room for `capacity`
    /// members: without bins for a capacity of zero, and else with the
    /// smallest power of two of bins above one and a half times `capacity`,
    /// capped at the largest size.
    pub fn with_capacity(capacity: usize) -> (s: Self)
        requires
            key_laws::<T>(),
        ensures
            s.wf(),
            s@ == Set::<(u64, T)>::empty(),
            capacity == 0 ==> s.capacity() == 0,
            capacity > 0 ==> requested_capacity_spec(capacity, s.capacity()),
    {
        Self::with_capacity_and_hasher(capacity, default_hash_builder())
    }
}

} // verus!
