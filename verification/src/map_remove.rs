//! Removing from the map and recomputing values in place.
use vstd::prelude::*;
use core::hash::BuildHasher;
use core::hash::Hash;
use crate::bin::find_in_chain;
use crate::bin::lemma_view_map;
use crate::bin::BinEntry;
use crate::map::lookup;
use crate::map::HashMap;
use crate::map_put::lemma_bin_replaced;
use crate::node::has_slot;
use crate::node::lemma_entries_map_at;
use crate::node::lemma_entries_map_remove;
use crate::node::lemma_entries_map_reverse;
use crate::node::lemma_entries_map_update;
use crate::node::Node;
use crate::raw::bin_index;
use crate::raw::lemma_bins_map_insert;
use crate::raw::lemma_bins_map_remove;
use crate::transfer::settled;

verus! {

/// The outcome of `replace_node`.
pub enum Replaced<K, V> {
    /// The map holds nothing under the key.
    Absent,
    /// The entry was taken out of the map.
    Removed { key: K, value: V },
    /// The entry got the new value; `old` is the value that it had.
    Swapped { old: V },
}

/// What `replace_node` makes of the map `pre` and reports: without a new
/// value the entry under `(hash, key)` is removed, with one its value is
/// replaced; a map without such an entry stays as it is.
pub open spec fn replace_outcome<K, V>(
    pre: Map<(u64, K), V>,
    post: Map<(u64, K), V>,
    hash: u64,
    key: K,
    new_value: Option<V>,
    r: Replaced<K, V>,
) -> bool {
    match r {
        Replaced::Absent => !pre.dom().contains((hash, key)) && post == pre,
        Replaced::Removed { key: k, value } => new_value is None && pre.dom().contains((hash, key))
            && k == key && value == pre[(hash, key)] && post == pre.remove((hash, key)),
        Replaced::Swapped { old } => new_value is Some && pre.dom().contains((hash, key)) && old
            == pre[(hash, key)] && post == pre.insert((hash, key), new_value.unwrap()),
    }
}

/// What `remove` makes of the map `pre` and returns, for the hash `h` of
/// the key.
pub open spec fn remove_outcome<K, V>(
    pre: Map<(u64, K), V>,
    post: Map<(u64, K), V>,
    h: u64,
    key: K,
    r: Option<V>,
) -> bool {
    post == pre.remove((h, key)) && r == lookup(pre, h, key)
}

/// The value of an optional key-value pair.
pub open spec fn value_of<K, V>(r: Option<(K, V)>) -> Option<V> {
    match r {
        Some(kv) => Some(kv.1),
        None => None,
    }
}

/// Taking an entry out of a run and then reversing the run is the same as
/// reversing it and taking the entry out at the mirrored position.
pub proof fn lemma_reverse_remove<T>(s: Seq<T>, p: int)
    requires
        0 <= p < s.len(),
    ensures
        s.remove(p).reverse() == s.reverse().remove(s.len() - 1 - p),
{
    assert(s.remove(p).reverse() =~= s.reverse().remove(s.len() - 1 - p));
}

impl<K: Ord, V, S> HashMap<K, V, S> {
    /// Takes the entry at position `q` of the traversal order of bin `bini`
    /// out of the map. A chain loses the entry and closes up; a tree bin
    /// loses it from its linked ordering and its index, and becomes a chain
    /// where it has grown too small. A bin that is left without entries
    /// becomes an empty bin.
    pub fn unlink(&mut self, bini: usize, q: usize) -> (r: Node<K, V>)
        requires
            old(self).wf(),
            bini < old(self).capacity(),
            q < old(self).table.bins[bini as int]@.len(),
        ensures
            final(self).wf(),
            r == old(self).table.bins[bini as int]@[q as int],
            final(self)@ == old(self)@.remove(r.slot()),
            old(self)@.dom().contains(r.slot()),
            old(self)@[r.slot()] == r.value,
            final(self).build_hasher == old(self).build_hasher,
            final(self).capacity() == old(self).capacity(),
            final(self).table.bins[bini as int]@ == old(self).table.bins[bini as int]@.remove(
                q as int,
            ),
            forall|j: int|
                0 <= j < old(self).capacity() && j != bini ==> final(self).table.bins[j] == old(
                    self,
                ).table.bins[j],
    {
        let ghost n = self.table.bins.len();
        let ghost bins0 = self.table.bins@;
        let ghost b0 = bins0[bini as int];
        let ghost pre = self@;
        proof {
            assert forall|j: int| 0 <= j < bins0.len() implies settled(
                #[trigger] bins0[j],
                j,
                n,
            ) by {}
            lemma_view_map(b0);
        }
        let bin = self.table.store_bin(bini, BinEntry::Empty);
        let node: Node<K, V>;
        let rest: BinEntry<K, V>;
        match bin {
            BinEntry::Node(chain) => {
                let mut chain = chain;
                let ghost c0 = chain@;
                node = chain.remove(q);
                proof {
                    lemma_entries_map_remove(c0, q as int);
                    lemma_entries_map_at(c0, q as int);
                }
                if chain.len() == 0 {
                    rest = BinEntry::Empty;
                    proof {
                        assert(rest.stored() =~= chain@);
                    }
                } else {
                    rest = BinEntry::Node(chain);
                }
                proof {
                    assert forall|j: int| 0 <= j < rest.stored().len() implies bin_index(
                        #[trigger] rest.stored()[j].hash,
                        n,
                    ) == bini by {
                        let j0 = if j < q { j } else { j + 1 };
                        assert(b0.stored()[j0].hash == rest.stored()[j].hash);
                    }
                }
            },
            BinEntry::Tree(tree) => {
                let mut tree = tree;
                let ghost t0 = tree.nodes@;
                let p = tree.nodes.len() - 1 - q;
                proof {
                    lemma_entries_map_remove(t0, p as int);
                    lemma_entries_map_at(t0, p as int);
                    lemma_reverse_remove(t0, p as int);
                    lemma_entries_map_reverse(t0.remove(p as int));
                }
                let cut = tree.remove_tree_node(p);
                node = cut.1;
                if cut.0 {
                    let list = tree.untreeify();
                    if list.len() == 0 {
                        rest = BinEntry::Empty;
                        proof {
                            assert(rest.stored() =~= list@);
                        }
                    } else {
                        rest = BinEntry::Node(list);
                    }
                    proof {
                        assert forall|j: int| 0 <= j < rest.stored().len() implies bin_index(
                            #[trigger] rest.stored()[j].hash,
                            n,
                        ) == bini by {
                            let j1 = t0.len() - 2 - j;
                            let j0 = if j1 < p { j1 } else { j1 + 1 };
                            assert(rest.stored()[j] == t0.remove(p as int)[j1]);
                            assert(b0.stored()[j0].hash == rest.stored()[j].hash);
                        }
                    }
                } else {
                    rest = BinEntry::Tree(tree);
                    proof {
                        assert forall|j: int| 0 <= j < rest.stored().len() implies bin_index(
                            #[trigger] rest.stored()[j].hash,
                            n,
                        ) == bini by {
                            let j0 = if j < p { j } else { j + 1 };
                            assert(b0.stored()[j0].hash == rest.stored()[j].hash);
                        }
                    }
                }
            },
            _ => {
                proof {
                    assert(false);
                }
                node = vstd::pervasive::unreached();
                rest = BinEntry::Empty;
            },
        }
        proof {
            lemma_view_map(rest);
            assert(settled(rest, bini as int, n));
            lemma_bin_replaced(bins0, bini as int, rest);
            assert(bin_index(node.hash, n) == bini);
            lemma_bins_map_remove(bins0, bini as int, rest, node.slot());
        }
        self.table.store_bin(bini, rest);
        proof {
            assert(self.table.bins@ =~= bins0.update(bini as int, rest));
            assert(self@.dom() =~= pre.dom().remove(node.slot()));
        }
        self.add_count(-1, None);
        node
    }

    /// Looks up the entry under `(hash, key)` and, without a `new_value`,
    /// removes it; with one, stores the new value in it.
    pub fn replace_node(&mut self, hash: u64, key: &K, new_value: Option<V>) -> (r: Replaced<K, V>)
        requires
            old(self).wf(),
        ensures
            final(self).wf(),
            replace_outcome(old(self)@, final(self)@, hash, *key, new_value, r),
            final(self).build_hasher == old(self).build_hasher,
            final(self).capacity() == old(self).capacity(),
    {
        if self.table.is_empty() {
            return Replaced::Absent;
        }
        let bini = self.table.bini(hash);
        let ghost n = self.table.bins.len();
        let ghost bins0 = self.table.bins@;
        let ghost b0 = bins0[bini as int];
        let ghost slot = (hash, *key);
        proof {
            assert forall|j: int| 0 <= j < bins0.len() implies settled(
                #[trigger] bins0[j],
                j,
                n,
            ) by {}
            lemma_view_map(b0);
        }
        let found: Option<usize> = match self.table.bin(bini) {
            BinEntry::Node(chain) => find_in_chain(chain, hash, key),
            BinEntry::Tree(tree) => {
                match tree.find(hash, key) {
                    Some(p) => Some(tree.nodes.len() - 1 - p),
                    None => None,
                }
            },
            _ => None,
        };
        match found {
            None => {
                proof {
                    assert(b0.stored().len() == 0 || !(b0 is Empty));
                    assert(!has_slot(b0.stored(), slot));
                }
                Replaced::Absent
            },
            Some(q) => {
                proof {
                    let at = if b0 is Tree { b0.stored().len() - 1 - q } else { q as int };
                    lemma_entries_map_at(b0.stored(), at);
                }
                match new_value {
                    None => {
                        let node = self.unlink(bini, q);
                        Replaced::Removed { key: node.key, value: node.value }
                    },
                    Some(nv) => {
                        let old_value = self.swap_value(bini, q, nv);
                        Replaced::Swapped { old: old_value }
                    },
                }
            },
        }
    }

    /// Stores `value` in the entry at position `q` of the traversal order
    /// of bin `bini` and returns the value that it replaces.
    pub fn swap_value(&mut self, bini: usize, q: usize, value: V) -> (r: V)
        requires
            old(self).wf(),
            bini < old(self).capacity(),
            q < old(self).table.bins[bini as int]@.len(),
        ensures
            final(self).wf(),
            r == old(self).table.bins[bini as int]@[q as int].value,
            final(self)@ == old(self)@.insert(
                old(self).table.bins[bini as int]@[q as int].slot(),
                value,
            ),
            old(self)@.dom().contains(old(self).table.bins[bini as int]@[q as int].slot()),
            old(self)@[old(self).table.bins[bini as int]@[q as int].slot()] == r,
            final(self).build_hasher == old(self).build_hasher,
            final(self).capacity() == old(self).capacity(),
    {
        let ghost n = self.table.bins.len();
        let ghost bins0 = self.table.bins@;
        let ghost b0 = bins0[bini as int];
        let ghost pre = self@;
        let ghost target = b0@[q as int];
        proof {
            assert forall|j: int| 0 <= j < bins0.len() implies settled(
                #[trigger] bins0[j],
                j,
                n,
            ) by {}
            lemma_view_map(b0);
        }
        let bin = self.table.store_bin(bini, BinEntry::Empty);
        let old_value: V;
        let rest: BinEntry<K, V>;
        match bin {
            BinEntry::Node(chain) => {
                let mut chain = chain;
                let ghost c0 = chain@;
                let mut v = value;
                core::mem::swap(&mut chain[q].value, &mut v);
                old_value = v;
                proof {
                    let swapped = Node { hash: c0[q as int].hash, key: c0[q as int].key, value };
                    assert(chain@ =~= c0.update(q as int, swapped));
                    lemma_entries_map_update(c0, q as int, swapped);
                    lemma_entries_map_at(c0, q as int);
                    assert forall|j: int| 0 <= j < chain.len() implies bin_index(
                        #[trigger] chain[j].hash,
                        n,
                    ) == bini by {
                        assert(b0.stored()[j].hash == chain[j].hash);
                    }
                }
                rest = BinEntry::Node(chain);
            },
            BinEntry::Tree(tree) => {
                let mut tree = tree;
                let ghost t0 = tree.nodes@;
                let p = tree.nodes.len() - 1 - q;
                old_value = tree.replace_value(p, value);
                proof {
                    let swapped = Node { hash: t0[p as int].hash, key: t0[p as int].key, value };
                    lemma_entries_map_update(t0, p as int, swapped);
                    lemma_entries_map_at(t0, p as int);
                    assert forall|j: int| 0 <= j < tree.nodes.len() implies bin_index(
                        #[trigger] tree.nodes[j].hash,
                        n,
                    ) == bini by {
                        assert(b0.stored()[j].hash == tree.nodes[j].hash);
                    }
                }
                rest = BinEntry::Tree(tree);
            },
            _ => {
                proof {
                    assert(false);
                }
                old_value = value;
                rest = BinEntry::Empty;
            },
        }
        proof {
            assert(settled(rest, bini as int, n));
            lemma_bin_replaced(bins0, bini as int, rest);
            assert(bin_index(target.hash, n) == bini);
            lemma_bins_map_insert(bins0, bini as int, rest, target.slot(), value);
        }
        self.table.store_bin(bini, rest);
        proof {
            assert(self.table.bins@ =~= bins0.update(bini as int, rest));
            assert(self@.dom() =~= pre.dom());
        }
        old_value
    }
}

impl<K: Hash + Ord, V, S: BuildHasher> HashMap<K, V, S> {
    /// Removes the entry for `key` and returns its value.
    pub fn remove(&mut self, key: &K) -> (r: Option<V>)
        requires
            old(self).wf(),
        ensures
            final(self).wf(),
            exists|h: u64| #[trigger] remove_outcome(old(self)@, final(self)@, h, *key, r),
            final(self).capacity() == old(self).capacity(),
    {
        let h = self.hash(key);
        let r = match self.replace_node(h, key, None) {
            Replaced::Removed { key: _, value } => Some(value),
            _ => None,
        };
        proof {
            assert(old(self)@.remove((h, *key)) =~= old(self)@ || old(self)@.dom().contains(
                (h, *key),
            ));
            assert(remove_outcome(old(self)@, self@, h, *key, r));
        }
        r
    }

    /// Removes the entry for `key` and returns its key and value.
    pub fn remove_entry(&mut self, key: &K) -> (r: Option<(K, V)>)
        requires
            old(self).wf(),
        ensures
            final(self).wf(),
            exists|h: u64| #[trigger] remove_outcome(old(self)@, final(self)@, h, *key, value_of(r)),
            r.is_some() ==> r.unwrap().0 == *key,
            final(self).capacity() == old(self).capacity(),
    {
        let h = self.hash(key);
        let r = match self.replace_node(h, key, None) {
            Replaced::Removed { key: k, value } => Some((k, value)),
            _ => None,
        };
        proof {
            assert(old(self)@.remove((h, *key)) =~= old(self)@ || old(self)@.dom().contains(
                (h, *key),
            ));
            assert(remove_outcome(old(self)@, self@, h, *key, value_of(r)));
        }
        r
    }
}

} // verus!
