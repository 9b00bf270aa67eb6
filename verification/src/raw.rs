//! The table: a fixed array of slots, indexed by the low bits of the hash.
use vstd::prelude::*;
use crate::bin::find_in_chain;
use crate::bin::BinEntry;
use crate::node::has_slot;
use crate::node::lemma_entries_map_at;
use crate::node::Node;
use crate::order::key_laws;
use crate::sizing::is_capacity;
use crate::sizing::MAXIMUM_CAPACITY;

verus! {

/// The slot that `hash` falls into in a table of `n` slots.
pub open spec fn bin_index(hash: u64, n: usize) -> usize {
    (hash & ((n - 1) as u64)) as usize
}

/// A table of slots.
pub struct Table<K, V> {
    pub bins: Vec<BinEntry<K, V>>,
}

/// The map that a run of slots shows: each pair is looked for in the slot
/// that its hash selects.
pub open spec fn bins_map<K: Ord, V>(bins: Seq<BinEntry<K, V>>) -> Map<(u64, K), V> {
    Map::new(
        |slot: (u64, K)|
            bins.len() > 0 && bins[bin_index(slot.0, bins.len() as usize) as int].map().dom().contains(
                slot,
            ),
        |slot: (u64, K)| bins[bin_index(slot.0, bins.len() as usize) as int].map()[slot],
    )
}

/// Every entry of slot `i` hashes to slot `i`.
pub open spec fn bin_in_place<K: Ord, V>(b: BinEntry<K, V>, i: int, n: usize) -> bool {
    forall|j: int| 0 <= j < b.stored().len() ==> bin_index(#[trigger] b.stored()[j].hash, n) == i
}

pub proof fn lemma_bin_index_bound(hash: u64, n: usize)
    requires
        0 < n <= MAXIMUM_CAPACITY,
    ensures
        bin_index(hash, n) < n,
{
    let m = (n - 1) as u64;
    assert(hash & m <= m) by (bit_vector);
}

impl<K: Ord, V> Table<K, V> {
    /// Every slot is well formed and in place, and none is marked as moved.
    pub open spec fn wf(&self) -> bool {
        &&& key_laws::<K>()
        &&& is_capacity(self.bins.len())
        &&& forall|i: int|
            0 <= i < self.bins.len() ==> {
                &&& (#[trigger] self.bins[i]).wf()
                &&& !(self.bins[i] is Moved)
                &&& bin_in_place(self.bins[i], i, self.bins.len())
            }
    }

    /// The table as a map from `(hash, key)` to value.
    pub open spec fn view(&self) -> Map<(u64, K), V> {
        bins_map(self.bins@)
    }

    /// A table of `bins` empty slots.
    pub fn new(bins: usize) -> (t: Self)
        requires
            bins <= MAXIMUM_CAPACITY,
        ensures
            t.bins.len() == bins,
            forall|i: int| 0 <= i < bins ==> t.bins[i] is Empty,
            t@ == Map::<(u64, K), V>::empty(),
    {
        let mut v: Vec<BinEntry<K, V>> = Vec::new();
        let mut i: usize = 0;
        while i < bins
            invariant
                i <= bins,
                v.len() == i,
                forall|j: int| 0 <= j < i ==> v[j] is Empty,
            decreases bins - i,
        {
            v.push(BinEntry::Empty);
            i = i + 1;
        }
        let t = Table { bins: v };
        proof {
            assert forall|slot: (u64, K)| !t@.dom().contains(slot) by {
                if t.bins.len() > 0 {
                    lemma_bin_index_bound(slot.0, t.bins.len());
                    let b = t.bins[bin_index(slot.0, t.bins.len()) as int];
                    assert(b is Empty);
                    assert(b.stored().len() == 0);
                    assert(!has_slot(b.stored(), slot));
                }
            }
            assert(t@ =~= Map::<(u64, K), V>::empty());
        }
        t
    }

    pub fn is_empty(&self) -> (r: bool)
        ensures
            r == (self.bins.len() == 0),
    {
        self.bins.len() == 0
    }

    pub fn len(&self) -> (r: usize)
        ensures
            r == self.bins.len(),
    {
        self.bins.len()
    }

    /// The index of the slot that `hash` falls into.
    pub fn bini(&self, hash: u64) -> (r: usize)
        requires
            0 < self.bins.len() <= MAXIMUM_CAPACITY,
        ensures
            r == bin_index(hash, self.bins.len()),
            r < self.bins.len(),
    {
        proof {
            lemma_bin_index_bound(hash, self.bins.len());
        }
        let mask = self.bins.len() as u64 - 1;
        (hash & mask) as usize
    }

    /// The slot at index `i`.
    pub fn bin(&self, i: usize) -> (r: &BinEntry<K, V>)
        requires
            i < self.bins.len(),
        ensures
            *r == self.bins[i as int],
    {
        &self.bins[i]
    }

    /// Installs `new` in slot `i` if the slot is empty. Otherwise the table
    /// stays as it is and `new` comes back.
    pub fn cas_bin(&mut self, i: usize, new: BinEntry<K, V>) -> (r: Result<(), BinEntry<K, V>>)
        requires
            i < old(self).bins.len(),
        ensures
            match r {
                Ok(_) => old(self).bins[i as int] is Empty && final(self).bins@ == old(
                    self,
                ).bins@.update(i as int, new),
                Err(back) => !(old(self).bins[i as int] is Empty) && *final(self) == *old(self)
                    && back == new,
            },
    {
        let empty = match &self.bins[i] {
            BinEntry::Empty => true,
            _ => false,
        };
        if empty {
            self.bins[i] = new;
            Ok(())
        } else {
            Err(new)
        }
    }

    /// Stores `new` in slot `i` and returns what the slot held.
    pub fn store_bin(&mut self, i: usize, new: BinEntry<K, V>) -> (r: BinEntry<K, V>)
        requires
            i < old(self).bins.len(),
        ensures
            r == old(self).bins[i as int],
            final(self).bins@ == old(self).bins@.update(i as int, new),
    {
        let mut b = new;
        core::mem::swap(&mut self.bins[i], &mut b);
        b
    }

    /// Looks `(hash, key)` up in the slot `bin`: by a walk along a chain,
    /// through the index of a tree bin, and for a slot that has been moved
    /// in the successor table `next`, where there is one.
    pub fn find<'a>(
        bin: &'a BinEntry<K, V>,
        hash: u64,
        key: &K,
        next: Option<&'a Table<K, V>>,
    ) -> (r: Option<&'a Node<K, V>>)
        requires
            key_laws::<K>(),
            bin.wf(),
            bin is Moved && next.is_some() ==> next.unwrap().wf(),
        ensures
            !(bin is Moved) ==> match r {
                Some(n) => bin.map().dom().contains((hash, *key)) && n.slot() == (hash, *key)
                    && n.value == bin.map()[(hash, *key)],
                None => !bin.map().dom().contains((hash, *key)),
            },
            bin is Moved ==> match next {
                None => r.is_none(),
                Some(t) => match r {
                    Some(n) => t@.dom().contains((hash, *key)) && n.slot() == (hash, *key)
                        && n.value == t@[(hash, *key)],
                    None => !t@.dom().contains((hash, *key)),
                },
            },
        decreases (if next.is_some() { 1nat } else { 0nat }),
    {
        match bin {
            BinEntry::Empty => None,
            BinEntry::Node(chain) => {
                match find_in_chain(chain, hash, key) {
                    Some(i) => {
                        proof {
                            lemma_entries_map_at(chain@, i as int);
                        }
                        Some(&chain[i])
                    },
                    None => None,
                }
            },
            BinEntry::Tree(tree) => {
                match tree.find(hash, key) {
                    Some(i) => {
                        proof {
                            lemma_entries_map_at(tree.nodes@, i as int);
                        }
                        Some(&tree.nodes[i])
                    },
                    None => None,
                }
            },
            BinEntry::Moved => {
                match next {
                    None => None,
                    Some(table) => {
                        let i = table.bini(hash);
                        Self::find(table.bin(i), hash, key, None)
                    },
                }
            },
        }
    }
}

/// Replacing slot `i` by one whose map has gained `slot`, which hashes to
/// `i`, inserts `slot` into the map of the table.
pub proof fn lemma_bins_map_insert<K: Ord, V>(
    bins: Seq<BinEntry<K, V>>,
    i: int,
    b: BinEntry<K, V>,
    slot: (u64, K),
    v: V,
)
    requires
        0 <= i < bins.len(),
        bins.len() <= MAXIMUM_CAPACITY,
        bin_index(slot.0, bins.len() as usize) == i,
        b.map() == bins[i].map().insert(slot, v),
    ensures
        bins_map(bins.update(i, b)) == bins_map(bins).insert(slot, v),
{
    let b2 = bins.update(i, b);
    assert forall|s: (u64, K)|
        bins_map(b2).dom().contains(s) <==> bins_map(bins).insert(slot, v).dom().contains(s) by {
        lemma_bin_index_bound(s.0, bins.len() as usize);
        let j = bin_index(s.0, bins.len() as usize) as int;
        if j != i {
            assert(b2[j] == bins[j]);
        }
    }
    assert forall|s: (u64, K)| bins_map(b2).dom().contains(s) implies #[trigger] bins_map(b2)[s]
        == bins_map(bins).insert(slot, v)[s] by {
        lemma_bin_index_bound(s.0, bins.len() as usize);
        let j = bin_index(s.0, bins.len() as usize) as int;
        if j != i {
            assert(b2[j] == bins[j]);
        }
    }
    assert(bins_map(b2) =~= bins_map(bins).insert(slot, v));
}

/// Replacing slot `i` by one whose map has lost `slot`, which hashes to `i`,
/// removes `slot` from the map of the table.
pub proof fn lemma_bins_map_remove<K: Ord, V>(
    bins: Seq<BinEntry<K, V>>,
    i: int,
    b: BinEntry<K, V>,
    slot: (u64, K),
)
    requires
        0 <= i < bins.len(),
        bins.len() <= MAXIMUM_CAPACITY,
        bin_index(slot.0, bins.len() as usize) == i,
        b.map() == bins[i].map().remove(slot),
    ensures
        bins_map(bins.update(i, b)) == bins_map(bins).remove(slot),
{
    let b2 = bins.update(i, b);
    assert forall|s: (u64, K)|
        bins_map(b2).dom().contains(s) <==> bins_map(bins).remove(slot).dom().contains(s) by {
        lemma_bin_index_bound(s.0, bins.len() as usize);
        let j = bin_index(s.0, bins.len() as usize) as int;
        if j != i {
            assert(b2[j] == bins[j]);
        }
    }
    assert forall|s: (u64, K)| bins_map(b2).dom().contains(s) implies #[trigger] bins_map(b2)[s]
        == bins_map(bins).remove(slot)[s] by {
        lemma_bin_index_bound(s.0, bins.len() as usize);
        let j = bin_index(s.0, bins.len() as usize) as int;
        if j != i {
            assert(b2[j] == bins[j]);
        }
    }
    assert(bins_map(b2) =~= bins_map(bins).remove(slot));
}

/// Replacing slot `i` by one with the same map keeps the map of the table.
pub proof fn lemma_bins_map_same<K: Ord, V>(bins: Seq<BinEntry<K, V>>, i: int, b: BinEntry<K, V>)
    requires
        0 <= i < bins.len(),
        bins.len() <= MAXIMUM_CAPACITY,
        b.map() == bins[i].map(),
    ensures
        bins_map(bins.update(i, b)) == bins_map(bins),
{
    let b2 = bins.update(i, b);
    assert forall|s: (u64, K)| bins_map(b2).dom().contains(s) <==> bins_map(bins).dom().contains(
        s,
    ) by {
        lemma_bin_index_bound(s.0, bins.len() as usize);
        let j = bin_index(s.0, bins.len() as usize) as int;
        if j != i {
            assert(b2[j] == bins[j]);
        }
    }
    assert forall|s: (u64, K)| bins_map(b2).dom().contains(s) implies #[trigger] bins_map(b2)[s]
        == bins_map(bins)[s] by {
        lemma_bin_index_bound(s.0, bins.len() as usize);
        let j = bin_index(s.0, bins.len() as usize) as int;
        if j != i {
            assert(b2[j] == bins[j]);
        }
    }
    assert(bins_map(b2) =~= bins_map(bins));
}

} // verus!
