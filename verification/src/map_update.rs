//! Recomputing a value in place, filtering the map, and emptying it.
use vstd::prelude::*;
use vstd::set_lib::lemma_set_difference_len;
use core::hash::BuildHasher;
use core::hash::Hash;
use crate::bin::find_in_chain;
use crate::bin::lemma_view_map;
use crate::bin::BinEntry;
use crate::laws::clear_outcome;
use crate::map::lookup;
use crate::map::HashMap;
use crate::node::entries_map;
use crate::node::has_slot;
use crate::node::lemma_entries_map_at;
use crate::node::lemma_entries_map_len;
use crate::node::slot_index;
use crate::node::Node;
use crate::raw::bin_index;
use crate::raw::lemma_bin_index_bound;
use crate::transfer::settled;

verus! {

/// What `compute_if_present` makes of the map `pre` and returns: where the
/// map holds a value under `(hash, key)`, the function `f` is applied to key
/// and value, and its result replaces the value or, if it is `None`,
/// removes the entry.
pub open spec fn compute_outcome<K, V, F: FnOnce(&K, &V) -> Option<V>>(
    pre: Map<(u64, K), V>,
    post: Map<(u64, K), V>,
    hash: u64,
    key: K,
    f: F,
    r: Option<V>,
) -> bool {
    if !pre.dom().contains((hash, key)) {
        post == pre && r is None
    } else {
        &&& f.ensures((&key, &pre[(hash, key)]), r)
        &&& post == match r {
            Some(x) => pre.insert((hash, key), x),
            None => pre.remove((hash, key)),
        }
    }
}

/// What `retain` makes of the map `pre`: the entries that are left are
/// entries of `pre` for which `f` gave `true`, and for the others it gave
/// `false`.
pub open spec fn retained<K, V, F: Fn(&K, &V) -> bool>(
    pre: Map<(u64, K), V>,
    post: Map<(u64, K), V>,
    f: F,
) -> bool {
    &&& forall|slot: (u64, K)| #[trigger]
        post.dom().contains(slot) ==> pre.dom().contains(slot) && post[slot] == pre[slot]
            && f.ensures((&slot.1, &pre[slot]), true)
    &&& forall|slot: (u64, K)|
        pre.dom().contains(slot) && !(#[trigger] post.dom().contains(slot)) ==> f.ensures(
            (&slot.1, &pre[slot]),
            false,
        )
}

/// The value of an optional reference.
pub open spec fn copied<V>(r: Option<&V>) -> Option<V> {
    match r {
        Some(v) => Some(*v),
        None => None,
    }
}

impl<K: Ord, V, S> HashMap<K, V, S> {
    /// The number of entries in bin `bini`.
    pub fn bin_len(&self, bini: usize) -> (r: usize)
        requires
            bini < self.capacity(),
        ensures
            r == self.table.bins[bini as int]@.len(),
    {
        match self.table.bin(bini) {
            BinEntry::Node(chain) => chain.len(),
            BinEntry::Tree(tree) => tree.len(),
            _ => 0,
        }
    }

    /// The entry at position `q` of the traversal order of bin `bini`.
    pub fn entry_at(&self, bini: usize, q: usize) -> (r: &Node<K, V>)
        requires
            bini < self.capacity(),
            q < self.table.bins[bini as int]@.len(),
        ensures
            *r == self.table.bins[bini as int]@[q as int],
    {
        match self.table.bin(bini) {
            BinEntry::Node(chain) => &chain[q],
            BinEntry::Tree(tree) => &tree.nodes[tree.nodes.len() - 1 - q],
            _ => {
                proof {
                    assert(false);
                }
                vstd::pervasive::unreached()
            },
        }
    }

    /// The position, in the traversal order of its bin, of the entry under
    /// `(hash, key)`.
    pub fn locate(&self, hash: u64, key: &K) -> (r: Option<(usize, usize)>)
        requires
            self.inv(),
        ensures
            match r {
                Some((bini, q)) => {
                    &&& bini < self.capacity()
                    &&& q < self.table.bins[bini as int]@.len()
                    &&& self.table.bins[bini as int]@[q as int].slot() == (hash, *key)
                    &&& self@.dom().contains((hash, *key))
                    &&& self@[(hash, *key)] == self.table.bins[bini as int]@[q as int].value
                },
                None => !self@.dom().contains((hash, *key)),
            },
    {
        if self.table.is_empty() {
            return None;
        }
        let bini = self.table.bini(hash);
        let ghost b0 = self.table.bins[bini as int];
        proof {
            lemma_view_map(b0);
        }
        let found: Option<usize> = match self.table.bin(bini) {
            BinEntry::Node(chain) => find_in_chain(chain, hash, key),
            BinEntry::Tree(tree) => {
                match tree.find(hash, key) {
                    Some(p) => Some(tree.nodes.len() - 1 - p),
                    None => None,
                }
            },
            _ => None,
        };
        match found {
            None => {
                proof {
                    assert(b0.stored().len() == 0 || !(b0 is Empty));
                    assert(!has_slot(b0.stored(), (hash, *key)));
                }
                None
            },
            Some(q) => {
                proof {
                    let at = if b0 is Tree { b0.stored().len() - 1 - q } else { q as int };
                    lemma_entries_map_at(b0.stored(), at);
                }
                Some((bini, q))
            },
        }
    }

    /// Applies `f` to the key and the value stored under `(hash, key)`, if
    /// there are any, and stores the value that `f` returns, or removes
    /// the entry where `f` returns none. Returns whether the map holds a
    /// value under `(hash, key)` afterwards.
    pub fn compute_step<F: FnOnce(&K, &V) -> Option<V>>(&mut self, hash: u64, key: &K, f: F) -> (r:
        bool)
        requires
            old(self).wf(),
            old(self)@.dom().contains((hash, *key)) ==> f.requires((key, &old(self)@[(hash, *key)])),
        ensures
            final(self).wf(),
            r == final(self)@.dom().contains((hash, *key)),
            compute_outcome(old(self)@, final(self)@, hash, *key, f, lookup(final(self)@, hash, *key)),
            final(self).capacity() == old(self).capacity(),
            final(self).build_hasher == old(self).build_hasher,
    {
        match self.locate(hash, key) {
            None => false,
            Some(place) => {
                let node = self.entry_at(place.0, place.1);
                let computed = f(&node.key, &node.value);
                match computed {
                    Some(value) => {
                        self.swap_value(place.0, place.1, value);
                        true
                    },
                    None => {
                        self.unlink(place.0, place.1);
                        false
                    },
                }
            },
        }
    }

    /// Applies `f` as `compute_step` does, and returns the value that is
    /// stored under `(hash, key)` afterwards.
    pub fn compute_hashed<'a, F: FnOnce(&K, &V) -> Option<V>>(
        &'a mut self,
        hash: u64,
        key: &K,
        f: F,
    ) -> (r: Option<&'a V>)
        requires
            old(self).wf(),
            old(self)@.dom().contains((hash, *key)) ==> f.requires((key, &old(self)@[(hash, *key)])),
        ensures
            final(self).wf(),
            compute_outcome(old(self)@, final(self)@, hash, *key, f, copied(r)),
            final(self).capacity() == old(self).capacity(),
    {
        if self.compute_step(hash, key, f) {
            self.get_hashed(hash, key)
        } else {
            None
        }
    }

    /// Keeps the entries for which `f` gives `true` and removes the others.
    /// The bins are visited in the order of the table, and the entries of a
    /// bin in its traversal order.
    pub fn retain<F: Fn(&K, &V) -> bool>(&mut self, f: F)
        requires
            old(self).wf(),
            forall|slot: (u64, K)| #[trigger]
                old(self)@.dom().contains(slot) ==> f.requires((&slot.1, &old(self)@[slot])),
        ensures
            final(self).wf(),
            retained(old(self)@, final(self)@, f),
            final(self).capacity() == old(self).capacity(),
            final(self).build_hasher == old(self).build_hasher,
    {
        let n = self.table.len();
        let ghost pre = self@;
        let mut i: usize = 0;
        while i < n
            invariant
                self.wf(),
                n == self.capacity(),
                i <= n,
                self.build_hasher == old(self).build_hasher,
                forall|slot: (u64, K)| #[trigger]
                    pre.dom().contains(slot) ==> f.requires((&slot.1, &pre[slot])),
                forall|slot: (u64, K)| #[trigger]
                    self@.dom().contains(slot) ==> pre.dom().contains(slot) && self@[slot]
                        == pre[slot],
                forall|slot: (u64, K)|
                    pre.dom().contains(slot) && !(#[trigger] self@.dom().contains(slot))
                        ==> f.ensures((&slot.1, &pre[slot]), false),
                forall|b: int, k: int|
                    0 <= b < i && 0 <= k < self.table.bins[b]@.len() ==> f.ensures(
                        (&(#[trigger] self.table.bins[b]@[k]).key, &self.table.bins[b]@[k].value),
                        true,
                    ),
            decreases n - i,
        {
            let mut q: usize = 0;
            loop
                invariant
                    self.wf(),
                    n == self.capacity(),
                    i < n,
                    q <= self.table.bins[i as int]@.len(),
                    self.build_hasher == old(self).build_hasher,
                    forall|slot: (u64, K)| #[trigger]
                        pre.dom().contains(slot) ==> f.requires((&slot.1, &pre[slot])),
                    forall|slot: (u64, K)| #[trigger]
                        self@.dom().contains(slot) ==> pre.dom().contains(slot) && self@[slot]
                            == pre[slot],
                    forall|slot: (u64, K)|
                        pre.dom().contains(slot) && !(#[trigger] self@.dom().contains(slot))
                            ==> f.ensures((&slot.1, &pre[slot]), false),
                    forall|b: int, k: int|
                        0 <= b < i && 0 <= k < self.table.bins[b]@.len() ==> f.ensures(
                            (
                                &(#[trigger] self.table.bins[b]@[k]).key,
                                &self.table.bins[b]@[k].value,
                            ),
                            true,
                        ),
                    forall|k: int|
                        0 <= k < q ==> f.ensures(
                            (
                                &(#[trigger] self.table.bins[i as int]@[k]).key,
                                &self.table.bins[i as int]@[k].value,
                            ),
                            true,
                        ),
                ensures
                    q == self.table.bins[i as int]@.len(),
                decreases self.table.bins[i as int]@.len() - q,
            {
                if q >= self.bin_len(i) {
                    break ;
                }
                proof {
                    let bin = self.table.bins[i as int];
                    lemma_view_map(bin);
                    lemma_entries_map_at(bin@, q as int);
                    let slot = bin@[q as int].slot();
                    lemma_bin_index_bound(slot.0, n);
                    assert(entries_map(bin@).dom().contains(slot));
                    let at = slot_index(bin.stored(), slot);
                    assert(bin_index(bin.stored()[at].hash, n) == i);
                    assert(self@.dom().contains(slot));
                    assert(self@[slot] == bin@[q as int].value);
                }
                let keep = {
                    let node = self.entry_at(i, q);
                    f(&node.key, &node.value)
                };
                if keep {
                    q = q + 1;
                } else {
                    let ghost before = self.table.bins@;
                    let ghost cur = self@;
                    let gone = self.unlink(i, q);
                    proof {
                        assert(cur.dom().contains(gone.slot()));
                        assert forall|b: int, k: int|
                            0 <= b < i && 0 <= k < self.table.bins[b]@.len() implies f.ensures(
                            (
                                &(#[trigger] self.table.bins[b]@[k]).key,
                                &self.table.bins[b]@[k].value,
                            ),
                            true,
                        ) by {
                            assert(self.table.bins[b] == before[b]);
                        }
                        assert forall|k: int| 0 <= k < q implies f.ensures(
                            (
                                &(#[trigger] self.table.bins[i as int]@[k]).key,
                                &self.table.bins[i as int]@[k].value,
                            ),
                            true,
                        ) by {
                            assert(self.table.bins[i as int]@[k] == before[i as int]@[k]);
                        }
                    }
                }
            }
            i = i + 1;
        }
        proof {
            assert forall|slot: (u64, K)| #[trigger] self@.dom().contains(slot) implies f.ensures(
                (&slot.1, &pre[slot]),
                true,
            ) by {
                lemma_bin_index_bound(slot.0, n);
                let b = bin_index(slot.0, n) as int;
                let bin = self.table.bins[b];
                lemma_view_map(bin);
                assert(entries_map(bin@).dom().contains(slot));
                let k = slot_index(bin@, slot);
                lemma_entries_map_at(bin@, k);
                assert(bin@[k].key == slot.1);
                assert(bin@[k].value == self@[slot]);
            }
        }
    }

    /// Keeps the entries for which `f` gives `true` and removes the others,
    /// whatever has become of their values since they were looked at. With
    /// one thread this is `retain`.
    pub fn retain_force<F: Fn(&K, &V) -> bool>(&mut self, f: F)
        requires
            old(self).wf(),
            forall|slot: (u64, K)| #[trigger]
                old(self)@.dom().contains(slot) ==> f.requires((&slot.1, &old(self)@[slot])),
        ensures
            final(self).wf(),
            retained(old(self)@, final(self)@, f),
            final(self).capacity() == old(self).capacity(),
    {
        self.retain(f)
    }

    /// Removes every entry. The table keeps its size.
    pub fn clear(&mut self)
        requires
            old(self).wf(),
        ensures
            final(self).wf(),
            clear_outcome(old(self).capacity(), final(self)@, final(self).capacity()),
            forall|j: int| 0 <= j < final(self).capacity() ==> #[trigger] final(self).table.bins[j] is Empty,
            final(self).size_ctl == old(self).size_ctl,
            final(self).build_hasher == old(self).build_hasher,
    {
        let mut delta: isize = 0;
        let mut idx: usize = 0;
        let n = self.table.len();
        while idx < n
            invariant
                self.inv(),
                n == self.capacity(),
                n == old(self).capacity(),
                self.size_ctl == old(self).size_ctl,
                self.build_hasher == old(self).build_hasher,
                idx <= n,
                delta <= 0,
                self.count == old(self).count,
                self.count + delta == self@.dom().len(),
                forall|j: int| 0 <= j < idx ==> #[trigger] self.table.bins[j] is Empty,
            decreases n - idx,
        {
            let ghost bins0 = self.table.bins@;
            let ghost cur = self@;
            let ghost b0 = bins0[idx as int];
            proof {
                assert forall|j: int| 0 <= j < bins0.len() implies settled(
                    #[trigger] bins0[j],
                    j,
                    n,
                ) by {}
                lemma_view_map(b0);
                lemma_entries_map_len(b0.stored());
            }
            let bin = self.table.store_bin(idx, BinEntry::Empty);
            let dropped: usize = match &bin {
                BinEntry::Node(chain) => chain.len(),
                BinEntry::Tree(tree) => tree.nodes.len(),
                _ => 0,
            };
            proof {
                let e = BinEntry::<K, V>::Empty;
                assert(e.stored().len() == 0);
                crate::map_put::lemma_bin_replaced(bins0, idx as int, e);
                let gone = b0.map().dom();
                assert forall|slot: (u64, K)| #[trigger]
                    self@.dom().contains(slot) <==> cur.dom().contains(slot) && !gone.contains(
                        slot,
                    ) by {
                    lemma_bin_index_bound(slot.0, n);
                    let j = bin_index(slot.0, n) as int;
                    if j != idx {
                        assert(self.table.bins[j] == bins0[j]);
                        if gone.contains(slot) {
                            let k = slot_index(b0.stored(), slot);
                            assert(bin_index(b0.stored()[k].hash, n) == idx);
                        }
                    } else {
                        assert(!has_slot(e.stored(), slot));
                    }
                }
                assert(self@.dom() =~= cur.dom().difference(gone));
                assert(cur.dom().intersect(gone) =~= gone) by {
                    assert forall|slot: (u64, K)| gone.contains(slot) implies cur.dom().contains(
                        slot,
                    ) by {
                        let k = slot_index(b0.stored(), slot);
                        assert(bin_index(b0.stored()[k].hash, n) == idx);
                    }
                }
                lemma_set_difference_len(cur.dom(), gone);
                assert(dropped == gone.len());
            }
            assert(dropped <= cur.dom().len());
            delta = delta - dropped as isize;
            idx = idx + 1;
        }
        proof {
            assert forall|slot: (u64, K)| !self@.dom().contains(slot) by {
                if n > 0 {
                    lemma_bin_index_bound(slot.0, n);
                    let b = self.table.bins[bin_index(slot.0, n) as int];
                    assert(b is Empty);
                    assert(!has_slot(b.stored(), slot));
                }
            }
            assert(self@ =~= Map::<(u64, K), V>::empty());
        }
        if delta != 0 {
            self.add_count(delta, None);
        }
    }
}

impl<K: Hash + Ord, V, S: BuildHasher> HashMap<K, V, S> {
    /// Applies `f` to `key` and its value, if the map holds one, and stores
    /// the value that `f` returns, or removes the entry where `f` returns
    /// none. `f` runs while the entry's bin is being worked on and must not
    /// use the map.
    pub fn compute_if_present<'a, F: FnOnce(&K, &V) -> Option<V>>(
        &'a mut self,
        key: &K,
        f: F,
    ) -> (r: Option<&'a V>)
        requires
            old(self).wf(),
            forall|h: u64| #[trigger]
                old(self)@.dom().contains((h, *key)) ==> f.requires((key, &old(self)@[(h, *key)])),
        ensures
            final(self).wf(),
            exists|h: u64| #[trigger] compute_outcome(old(self)@, final(self)@, h, *key, f, copied(r)),
            final(self).capacity() == old(self).capacity(),
    {
        let h = self.hash(key);
        let stored = self.compute_step(h, key, f);
        let r = if stored {
            self.get_hashed(h, key)
        } else {
            None
        };
        proof {
            assert(compute_outcome(old(self)@, self@, h, *key, f, copied(r)));
        }
        r
    }
}

} // verus!
