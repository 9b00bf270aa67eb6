//! Writing to the map.
use vstd::prelude::*;
use core::hash::BuildHasher;
use core::hash::Hash;
use crate::bin::find_in_chain;
use crate::bin::BinEntry;
use crate::map::lookup;
use crate::map::HashMap;
use crate::map::PutResult;
use crate::map::TryInsertError;
use crate::node::has_slot;
use crate::node::lemma_entries_map_at;
use crate::node::lemma_entries_map_push;
use crate::node::lemma_entries_map_update;
use crate::node::Node;
use crate::raw::bin_index;
use crate::raw::lemma_bins_map_insert;
use crate::sizing::MIN_TREEIFY_CAPACITY;
use crate::sizing::TREEIFY_THRESHOLD;
use crate::transfer::settled;

verus! {

/// What a write of `value` under `(hash, key)` makes of the map `pre`, and
/// what it reports: a new key is inserted; a key that is present has its
/// value replaced, or, with `no_replacement`, is left alone.
pub open spec fn put_outcome<K, V>(
    pre: Map<(u64, K), V>,
    post: Map<(u64, K), V>,
    hash: u64,
    key: K,
    value: V,
    no_replacement: bool,
    r: PutResult<K, V>,
) -> bool {
    match r {
        PutResult::Inserted => !pre.dom().contains((hash, key)) && post == pre.insert(
            (hash, key),
            value,
        ),
        PutResult::Replaced { old } => !no_replacement && pre.dom().contains((hash, key)) && old
            == pre[(hash, key)] && post == pre.insert((hash, key), value),
        PutResult::Exists { key: k, not_inserted } => no_replacement && pre.dom().contains(
            (hash, key),
        ) && post == pre && k == key && not_inserted == value,
    }
}

/// What `insert` makes of the map `pre` and returns, for the hash `h` of
/// the key.
pub open spec fn insert_outcome<K, V>(
    pre: Map<(u64, K), V>,
    post: Map<(u64, K), V>,
    h: u64,
    key: K,
    value: V,
    r: Option<V>,
) -> bool {
    post == pre.insert((h, key), value) && r == lookup(pre, h, key)
}

/// What `try_insert` makes of the map `pre` and returns, for the hash `h`
/// of the key.
pub open spec fn try_insert_outcome<K, V>(
    pre: Map<(u64, K), V>,
    post: Map<(u64, K), V>,
    h: u64,
    key: K,
    value: V,
    r: Result<(), TryInsertError<V>>,
) -> bool {
    match r {
        Ok(_) => !pre.dom().contains((h, key)) && post == pre.insert((h, key), value),
        Err(e) => pre.dom().contains((h, key)) && post == pre && *e.current == pre[(h, key)]
            && e.not_inserted == value,
    }
}

/// A write keeps the table that it finds where the table has room: where
/// one more entry stays under the load threshold, and the table is large
/// enough for a long bin to be turned into a tree rather than to make the
/// table grow.
pub open spec fn keeps_table_if_room(
    pre_capacity: usize,
    pre_count: int,
    pre_size_ctl: int,
    post_capacity: usize,
    post_size_ctl: int,
) -> bool {
    pre_capacity >= MIN_TREEIFY_CAPACITY && pre_count + 1 < pre_size_ctl ==> post_capacity
        == pre_capacity && post_size_ctl == pre_size_ctl
}

/// Where a new entry stands in its bin: at the end of a chain, at the head
/// of the linked ordering of a tree bin.
pub open spec fn placed<K: Ord, V>(
    before: BinEntry<K, V>,
    after: BinEntry<K, V>,
    node: Node<K, V>,
) -> bool {
    after@ == if before is Tree {
        seq![node] + before@
    } else {
        before@.push(node)
    }
}

/// What a write that found the table in place, and left it in place, has
/// made of the bins: a new entry stands in the bin of its hash, and the
/// other bins hold what they held.
pub open spec fn placed_in_table<K: Ord, V>(
    before: Seq<BinEntry<K, V>>,
    after: Seq<BinEntry<K, V>>,
    node: Node<K, V>,
) -> bool {
    &&& after.len() == before.len()
    &&& forall|j: int|
        0 <= j < before.len() ==> if j == bin_index(node.hash, before.len() as usize) {
            placed(before[j], #[trigger] after[j], node)
        } else {
            after[j]@ == before[j]@
        }
}

/// Putting a settled bin in the place of bin `i` keeps a table well formed.
pub proof fn lemma_bin_replaced<K: Ord, V>(
    bins: Seq<BinEntry<K, V>>,
    i: int,
    b: BinEntry<K, V>,
)
    requires
        0 <= i < bins.len(),
        forall|j: int|
            0 <= j < bins.len() && j != i ==> settled(#[trigger] bins[j], j, bins.len() as usize),
        settled(b, i, bins.len() as usize),
    ensures
        forall|j: int|
            0 <= j < bins.len() ==> settled(
                #[trigger] bins.update(i, b)[j],
                j,
                bins.len() as usize,
            ),
{
}

impl<K: Ord, V, S> HashMap<K, V, S> {
    /// Writes `value` under `(hash, key)`.
    ///
    /// A map without bins first gets its table. An empty bin takes the
    /// entry as its only one. In a chain the key is looked for from the
    /// head on, and a new entry is appended at the end; in a tree bin the
    /// index finds the key or the place of the new entry. A chain that has
    /// reached `TREEIFY_THRESHOLD` is then dealt with by `treeify_bin`, and
    /// a new entry is counted, which may double the table.
    pub fn put(&mut self, hash: u64, key: K, value: V, no_replacement: bool) -> (r: PutResult<K, V>)
        requires
            old(self).wf(),
            old(self).count < isize::MAX,
        ensures
            final(self).wf(),
            put_outcome(old(self)@, final(self)@, hash, key, value, no_replacement, r),
            final(self).build_hasher == old(self).build_hasher,
            final(self).capacity() >= old(self).capacity(),
            keeps_table_if_room(
                old(self).capacity(),
                old(self).count as int,
                old(self).size_ctl as int,
                final(self).capacity(),
                final(self).size_ctl as int,
            ),
            r is Inserted && old(self).capacity() > 0 && final(self).capacity() == old(
                self,
            ).capacity() ==> placed_in_table(
                old(self).table.bins@,
                final(self).table.bins@,
                Node { hash, key, value },
            ),
    {
        if self.table.is_empty() {
            self.init_table();
        }
        let bini = self.table.bini(hash);
        let ghost n = self.table.bins.len();
        let ghost bins0 = self.table.bins@;
        let ghost slot = (hash, key);
        let ghost fresh = Node { hash, key, value };
        let ghost pre = old(self)@;
        proof {
            assert(settled(bins0[bini as int], bini as int, n));
            assert forall|j: int| 0 <= j < bins0.len() implies settled(
                #[trigger] bins0[j],
                j,
                n,
            ) by {}
        }
        let vacant = match self.table.bin(bini) {
            BinEntry::Empty => true,
            _ => false,
        };
        if vacant {
            let mut chain: Vec<Node<K, V>> = Vec::new();
            chain.push(Node::new(hash, key, value));
            let ghost made = BinEntry::Node(chain);
            proof {
                lemma_entries_map_push(Seq::<Node<K, V>>::empty(), fresh);
                assert(chain@ =~= Seq::<Node<K, V>>::empty().push(fresh));
                assert(bins0[bini as int].stored() =~= Seq::<Node<K, V>>::empty());
                assert(settled(made, bini as int, n));
                lemma_bin_replaced(bins0, bini as int, made);
                lemma_bins_map_insert(bins0, bini as int, made, slot, value);
                assert(!has_slot(bins0[bini as int].stored(), slot));
            }
            let installed = self.table.cas_bin(bini, BinEntry::Node(chain));
            assert(installed.is_ok());
            proof {
                assert(self@.dom() =~= pre.dom().insert(slot));
                assert(placed(bins0[bini as int], made, fresh));
                assert(placed_in_table(bins0, self.table.bins@, fresh));
            }
            self.add_count(1, Some(0));
            return PutResult::Inserted;
        }
        let bin = self.table.store_bin(bini, BinEntry::Empty);
        let bin_count: usize;
        let result: PutResult<K, V>;
        match bin {
            BinEntry::Node(chain) => {
                let mut chain = chain;
                let ghost c0 = chain@;
                match find_in_chain(&chain, hash, &key) {
                    Some(i) => {
                        proof {
                            lemma_entries_map_at(c0, i as int);
                        }
                        if no_replacement {
                            self.table.store_bin(bini, BinEntry::Node(chain));
                            proof {
                                assert(self.table.bins@ =~= bins0);
                            }
                            return PutResult::Exists { key, not_inserted: value };
                        }
                        let mut v = value;
                        core::mem::swap(&mut chain[i].value, &mut v);
                        bin_count = i + 1;
                        let ghost made = BinEntry::Node(chain);
                        proof {
                            let swapped = Node { hash: c0[i as int].hash, key: c0[i as int].key, value };
                            assert(chain@ =~= c0.update(i as int, swapped));
                            lemma_entries_map_update(c0, i as int, swapped);
                            assert forall|j: int| 0 <= j < chain.len() implies bin_index(
                                #[trigger] chain[j].hash,
                                n,
                            ) == bini by {
                                assert(c0[j].hash == chain[j].hash);
                                assert(bins0[bini as int].stored()[j].hash == c0[j].hash);
                            }
                            assert(settled(made, bini as int, n));
                            lemma_bin_replaced(bins0, bini as int, made);
                            lemma_bins_map_insert(bins0, bini as int, made, slot, value);
                        }
                        self.table.store_bin(bini, BinEntry::Node(chain));
                        proof {
                            assert(self.table.bins@ =~= bins0.update(bini as int, made));
                            assert(self@.dom() =~= pre.dom());
                        }
                        result = PutResult::Replaced { old: v };
                    },
                    None => {
                        chain.push(Node::new(hash, key, value));
                        bin_count = chain.len();
                        let ghost made = BinEntry::Node(chain);
                        proof {
                            lemma_entries_map_push(c0, fresh);
                            assert forall|j: int| 0 <= j < chain.len() implies bin_index(
                                #[trigger] chain[j].hash,
                                n,
                            ) == bini by {
                                if j < c0.len() {
                                    assert(bins0[bini as int].stored()[j].hash == chain[j].hash);
                                }
                            }
                            assert(settled(made, bini as int, n));
                            lemma_bin_replaced(bins0, bini as int, made);
                            lemma_bins_map_insert(bins0, bini as int, made, slot, value);
                        }
                        self.table.store_bin(bini, BinEntry::Node(chain));
                        proof {
                            assert(self.table.bins@ =~= bins0.update(bini as int, made));
                            assert(self@.dom() =~= pre.dom().insert(slot));
                            assert(placed(bins0[bini as int], made, fresh));
                        }
                        result = PutResult::Inserted;
                    },
                }
            },
            BinEntry::Tree(tree) => {
                let mut tree = tree;
                let ghost t0 = tree;
                bin_count = 2;
                match tree.find_or_put_tree_val(hash, key, value) {
                    Some(found) => {
                        let i = found.0;
                        proof {
                            lemma_entries_map_at(t0.nodes@, i as int);
                        }
                        if no_replacement {
                            self.table.store_bin(bini, BinEntry::Tree(tree));
                            proof {
                                assert(self.table.bins@ =~= bins0);
                            }
                            return PutResult::Exists { key: found.1, not_inserted: found.2 };
                        }
                        let old_value = tree.replace_value(i, found.2);
                        let ghost made = BinEntry::Tree(tree);
                        proof {
                            let swapped = Node {
                                hash: t0.nodes[i as int].hash,
                                key: t0.nodes[i as int].key,
                                value,
                            };
                            lemma_entries_map_update(t0.nodes@, i as int, swapped);
                            assert forall|j: int| 0 <= j < tree.nodes.len() implies bin_index(
                                #[trigger] tree.nodes[j].hash,
                                n,
                            ) == bini by {
                                assert(t0.nodes[j].hash == tree.nodes[j].hash);
                                assert(bins0[bini as int].stored()[j].hash == t0.nodes[j].hash);
                            }
                            assert(settled(made, bini as int, n));
                            lemma_bin_replaced(bins0, bini as int, made);
                            lemma_bins_map_insert(bins0, bini as int, made, slot, value);
                        }
                        self.table.store_bin(bini, BinEntry::Tree(tree));
                        proof {
                            assert(self.table.bins@ =~= bins0.update(bini as int, made));
                            assert(self@.dom() =~= pre.dom());
                        }
                        result = PutResult::Replaced { old: old_value };
                    },
                    None => {
                        let ghost made = BinEntry::Tree(tree);
                        proof {
                            lemma_entries_map_push(t0.nodes@, fresh);
                            assert forall|j: int| 0 <= j < tree.nodes.len() implies bin_index(
                                #[trigger] tree.nodes[j].hash,
                                n,
                            ) == bini by {
                                if j < t0.nodes.len() {
                                    assert(bins0[bini as int].stored()[j].hash
                                        == tree.nodes[j].hash);
                                }
                            }
                            assert(settled(made, bini as int, n));
                            lemma_bin_replaced(bins0, bini as int, made);
                            lemma_bins_map_insert(bins0, bini as int, made, slot, value);
                        }
                        self.table.store_bin(bini, BinEntry::Tree(tree));
                        proof {
                            assert(self.table.bins@ =~= bins0.update(bini as int, made));
                            assert(self@.dom() =~= pre.dom().insert(slot));
                            assert(t0.nodes@.push(fresh).reverse() =~= seq![fresh]
                                + t0.nodes@.reverse());
                            assert(placed(bins0[bini as int], made, fresh));
                        }
                        result = PutResult::Inserted;
                    },
                }
            },
            _ => {
                proof {
                    assert(false);
                }
                bin_count = 0;
                result = PutResult::Inserted;
            },
        }
        let ghost stored = self.table.bins@;
        proof {
            if result is Inserted && old(self).capacity() > 0 {
                assert(bins0 == old(self).table.bins@);
                assert(placed_in_table(bins0, stored, fresh));
            }
        }
        if bin_count >= TREEIFY_THRESHOLD {
            self.treeify_bin(bini);
        }
        let ghost treeified = self.table.bins@;
        match result {
            PutResult::Inserted => {
                self.add_count(1, Some(bin_count));
                proof {
                    if old(self).capacity() > 0 && self.capacity() == old(self).capacity() {
                        assert(self.table.bins@ == treeified);
                        assert forall|j: int| 0 <= j < bins0.len() implies if j == bin_index(
                            fresh.hash,
                            bins0.len() as usize,
                        ) {
                            placed(bins0[j], #[trigger] treeified[j], fresh)
                        } else {
                            treeified[j]@ == bins0[j]@
                        } by {
                            assert(treeified[j]@ == stored[j]@);
                        }
                    }
                }
                PutResult::Inserted
            },
            other => other,
        }
    }
}

impl<K: Hash + Ord, V, S: BuildHasher> HashMap<K, V, S> {
    /// Stores `value` for `key` and returns the value that it replaces.
    pub fn insert(&mut self, key: K, value: V) -> (r: Option<V>)
        requires
            old(self).wf(),
            old(self).count < isize::MAX,
        ensures
            final(self).wf(),
            exists|h: u64| #[trigger] insert_outcome(old(self)@, final(self)@, h, key, value, r),
            final(self).capacity() >= old(self).capacity(),
            keeps_table_if_room(
                old(self).capacity(),
                old(self).count as int,
                old(self).size_ctl as int,
                final(self).capacity(),
                final(self).size_ctl as int,
            ),
    {
        let h = self.hash(&key);
        let r = self.put(h, key, value, false).before();
        proof {
            assert(insert_outcome(old(self)@, self@, h, key, value, r));
        }
        r
    }

    /// Stores `value` for `key` unless the map holds a value for `key`; in
    /// that case the map stays as it is, and the error holds the value
    /// that the map has and the one that was not inserted.
    pub fn try_insert<'a>(&'a mut self, key: K, value: V) -> (r: Result<(), TryInsertError<'a, V>>)
        requires
            old(self).wf(),
            old(self).count < isize::MAX,
        ensures
            final(self).wf(),
            exists|h: u64| #[trigger] try_insert_outcome(old(self)@, final(self)@, h, key, value, r),
            final(self).capacity() >= old(self).capacity(),
            keeps_table_if_room(
                old(self).capacity(),
                old(self).count as int,
                old(self).size_ctl as int,
                final(self).capacity(),
                final(self).size_ctl as int,
            ),
    {
        let h = self.hash(&key);
        match self.put(h, key, value, true) {
            PutResult::Exists { key, not_inserted } => {
                let current = self.get_hashed(h, &key);
                let r = Err(TryInsertError { current: current.unwrap(), not_inserted });
                proof {
                    assert(try_insert_outcome(old(self)@, self@, h, key, value, r));
                }
                r
            },
            _ => {
                let r = Ok(());
                proof {
                    assert(try_insert_outcome(old(self)@, self@, h, key, value, r));
                }
                r
            },
        }
    }
}

} // verus!
