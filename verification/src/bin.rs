//! The forms a table slot can take, and lookups inside one slot.
use vstd::prelude::*;
use crate::node::distinct_slots;
use crate::node::entries_map;
use crate::node::has_slot;
use crate::node::lemma_entries_map_reverse;
use crate::node::Node;
use crate::order::key_laws;
use crate::order::slot_same;
use crate::tree_bin::TreeBin;

verus! {

/// The content of one table slot.
pub enum BinEntry<K, V> {
    /// No entries.
    Empty,
    /// A chain of entries, head first.
    Node(Vec<Node<K, V>>),
    /// Entries under a red-black index.
    Tree(TreeBin<K, V>),
    /// The slot has been migrated to the successor table.
    Moved,
}

impl<K: Ord, V> BinEntry<K, V> {
    /// The entries in the order in which the slot stores them.
    pub open spec fn stored(self) -> Seq<Node<K, V>> {
        match self {
            BinEntry::Node(chain) => chain@,
            BinEntry::Tree(bin) => bin.nodes@,
            _ => Seq::empty(),
        }
    }

    /// The entries in the order in which a traversal meets them.
    pub open spec fn view(self) -> Seq<Node<K, V>> {
        match self {
            BinEntry::Node(chain) => chain@,
            BinEntry::Tree(bin) => bin@,
            _ => Seq::empty(),
        }
    }

    /// The slot's entries as a map from `(hash, key)` to value.
    pub open spec fn map(self) -> Map<(u64, K), V> {
        entries_map(self.stored())
    }

    /// A chain is not empty and holds no pair twice; a tree bin keeps its
    /// own invariants.
    pub open spec fn wf(self) -> bool {
        match self {
            BinEntry::Node(chain) => chain.len() > 0 && distinct_slots(chain@),
            BinEntry::Tree(bin) => bin.wf(),
            _ => true,
        }
    }

    /// The chain of a list slot.
    pub fn as_node(&self) -> (r: Option<&Vec<Node<K, V>>>)
        ensures
            match *self {
                BinEntry::Node(chain) => r == Some(&chain),
                _ => r.is_none(),
            },
    {
        match self {
            BinEntry::Node(chain) => Some(chain),
            _ => None,
        }
    }

    /// The tree bin of a tree slot.
    pub fn as_tree_bin(&self) -> (r: Option<&TreeBin<K, V>>)
        ensures
            match *self {
                BinEntry::Tree(bin) => r == Some(&bin),
                _ => r.is_none(),
            },
    {
        match self {
            BinEntry::Tree(bin) => Some(bin),
            _ => None,
        }
    }
}

/// The traversal order of a slot shows the same map as its storage order.
pub proof fn lemma_view_map<K: Ord, V>(b: BinEntry<K, V>)
    requires
        b.wf(),
    ensures
        distinct_slots(b.stored()),
        distinct_slots(b@),
        entries_map(b@) == b.map(),
{
    match b {
        BinEntry::Tree(bin) => {
            lemma_entries_map_reverse(bin.nodes@);
        },
        _ => {},
    }
}

/// Walks a chain from its head and returns the position of the first entry
/// stored under `(hash, key)`.
pub fn find_in_chain<K: Ord, V>(chain: &Vec<Node<K, V>>, hash: u64, key: &K) -> (r: Option<usize>)
    requires
        key_laws::<K>(),
    ensures
        match r {
            Some(i) => i < chain.len() && chain[i as int].slot() == (hash, *key),
            None => !has_slot(chain@, (hash, *key)),
        },
{
    let mut i: usize = 0;
    while i < chain.len()
        invariant
            key_laws::<K>(),
            i <= chain.len(),
            forall|j: int| 0 <= j < i ==> #[trigger] chain[j].slot() != (hash, *key),
        decreases chain.len() - i,
    {
        if slot_same(chain[i].hash, &chain[i].key, hash, key) {
            return Some(i);
        }
        i = i + 1;
    }
    None
}

} // verus!
