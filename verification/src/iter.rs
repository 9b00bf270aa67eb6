//! Traversal of a table, bin by bin.
use vstd::prelude::*;
use crate::bin::lemma_view_map;
use crate::bin::BinEntry;
use crate::map::HashMap;
use crate::node::distinct_slots;
use crate::node::entries_map;
use crate::node::has_slot;
use crate::node::lemma_entries_map_at;
use crate::node::slot_index;
use crate::node::Node;
use crate::raw::bin_index;
use crate::raw::lemma_bin_index_bound;
use crate::raw::Table;
use crate::traverser::bins_of;
use crate::traverser::flow;
use crate::traverser::forwarded;
use crate::traverser::NodeIter;
use crate::transfer::settled;

verus! {

/// The entries of the bins from `from` on, bin after bin, each bin in its
/// traversal order.
pub open spec fn flatten<K: Ord, V>(bins: Seq<BinEntry<K, V>>, from: int) -> Seq<Node<K, V>>
    decreases bins.len() - from,
{
    if from < 0 || from >= bins.len() {
        Seq::empty()
    } else {
        bins[from]@ + flatten(bins, from + 1)
    }
}

/// The bins of a well-formed table, laid end to end from bin `from` on,
/// hold no pair twice, and hold exactly the pairs of the table's map that
/// belong to those bins, each with its value.
pub proof fn lemma_flatten<K: Ord, V>(t: Table<K, V>, from: int)
    requires
        t.wf(),
        0 <= from <= t.bins.len(),
    ensures
        distinct_slots(flatten(t.bins@, from)),
        forall|slot: (u64, K)|
            has_slot(flatten(t.bins@, from), slot) <==> bin_index(slot.0, t.bins.len()) >= from
                && t@.dom().contains(slot),
        forall|slot: (u64, K)|
            has_slot(flatten(t.bins@, from), slot) ==> #[trigger] entries_map(
                flatten(t.bins@, from),
            )[slot] == t@[slot],
        forall|k: int|
            0 <= k < flatten(t.bins@, from).len() ==> bin_index(
                #[trigger] flatten(t.bins@, from)[k].hash,
                t.bins.len(),
            ) >= from,
    decreases t.bins.len() - from,
{
    let bins = t.bins@;
    let n = t.bins.len();
    let all = flatten(bins, from);
    if from == bins.len() {
        assert forall|slot: (u64, K)| !(bin_index(slot.0, n) >= from) by {
            lemma_bin_index_bound(slot.0, n);
        }
    } else {
        let head = bins[from]@;
        let tail = flatten(bins, from + 1);
        lemma_flatten(t, from + 1);
        lemma_view_map(bins[from]);
        assert(all =~= head + tail);
        let b = bins[from];
        assert forall|k: int| 0 <= k < head.len() implies bin_index(#[trigger] head[k].hash, n)
            == from by {
            if b is Tree {
                assert(head[k] == b.stored()[b.stored().len() - 1 - k]);
            } else {
                assert(head[k] == b.stored()[k]);
            }
        }
        assert forall|k: int| 0 <= k < all.len() implies bin_index(#[trigger] all[k].hash, n)
            >= from by {
            if k >= head.len() {
                assert(all[k] == tail[k - head.len()]);
            } else {
                assert(all[k] == head[k]);
            }
        }
        assert forall|i: int, j: int|
            0 <= i < all.len() && 0 <= j < all.len() && i != j implies #[trigger] all[i].slot()
            != #[trigger] all[j].slot() by {
            if i < head.len() && j < head.len() {
                assert(head[i].slot() != head[j].slot());
            } else if i >= head.len() && j >= head.len() {
                assert(tail[i - head.len()].slot() != tail[j - head.len()].slot());
            } else if i < head.len() {
                assert(all[i] == head[i]);
                assert(all[j] == tail[j - head.len()]);
            } else {
                assert(all[j] == head[j]);
                assert(all[i] == tail[i - head.len()]);
            }
        }
        assert forall|slot: (u64, K)|
            has_slot(all, slot) <==> bin_index(slot.0, n) >= from && t@.dom().contains(slot) by {
            lemma_bin_index_bound(slot.0, n);
            if has_slot(all, slot) {
                let k = slot_index(all, slot);
                if k < head.len() {
                    assert(head[k].slot() == slot);
                    assert(has_slot(head, slot));
                    assert(entries_map(head).dom().contains(slot));
                } else {
                    assert(tail[k - head.len()].slot() == slot);
                    assert(has_slot(tail, slot));
                }
            }
            if bin_index(slot.0, n) >= from && t@.dom().contains(slot) {
                if bin_index(slot.0, n) == from {
                    assert(entries_map(head).dom().contains(slot));
                    let k = slot_index(head, slot);
                    assert(all[k].slot() == slot);
                } else {
                    assert(has_slot(tail, slot));
                    let k = slot_index(tail, slot);
                    assert(all[head.len() + k].slot() == slot);
                }
            }
        }
        assert forall|slot: (u64, K)| has_slot(all, slot) implies #[trigger] entries_map(all)[slot]
            == t@[slot] by {
            let k = slot_index(all, slot);
            lemma_entries_map_at(all, k);
            if k < head.len() {
                assert(head[k].slot() == slot);
                lemma_entries_map_at(head, k);
            } else {
                assert(tail[k - head.len()].slot() == slot);
                lemma_entries_map_at(tail, k - head.len());
            }
        }
    }
}

/// In a table without moved bins a cursor meets the bins of the table
/// itself, one after the other.
pub proof fn lemma_flow_is_flatten<K: Ord, V>(
    base: Seq<BinEntry<K, V>>,
    next: Seq<BinEntry<K, V>>,
    from: int,
)
    requires
        forall|i: int| 0 <= i < base.len() ==> !((#[trigger] base[i]) is Moved),
    ensures
        flow(base, next, from) == flatten(base, from),
    decreases base.len() - from,
{
    if 0 <= from < base.len() {
        lemma_flow_is_flatten(base, next, from + 1);
        assert(!(base[from] is Moved));
    }
}

impl<K: Ord, V> Table<K, V> {
    /// The entries in the order in which a traversal meets them.
    pub open spec fn traversal(&self) -> Seq<Node<K, V>> {
        flatten(self.bins@, 0)
    }

    /// A traversal of a well-formed table meets every entry of its map
    /// once, and nothing else.
    pub proof fn lemma_traversal(self)
        requires
            self.wf(),
        ensures
            distinct_slots(self.traversal()),
            entries_map(self.traversal()) == self@,
    {
        lemma_flatten(self, 0);
        assert forall|slot: (u64, K)| has_slot(self.traversal(), slot) <==> self@.dom().contains(
            slot,
        ) by {
            lemma_bin_index_bound(slot.0, self.bins.len());
        }
        assert(entries_map(self.traversal()) =~= self@);
    }
}

/// A traversal that yields keys with their values.
pub struct Iter<'g, K, V> {
    pub node_iter: NodeIter<'g, K, V>,
}

/// A traversal that yields keys.
pub struct Keys<'g, K, V> {
    pub node_iter: NodeIter<'g, K, V>,
}

/// A traversal that yields values.
pub struct Values<'g, K, V> {
    pub node_iter: NodeIter<'g, K, V>,
}

impl<'g, K: Ord, V> Iter<'g, K, V> {
    /// The key and the value of the next entry.
    pub fn next(&mut self) -> (r: Option<(&'g K, &'g V)>)
        requires
            old(self).node_iter.wf(),
        ensures
            final(self).node_iter.wf(),
            final(self).node_iter.base() == old(self).node_iter.base(),
            match r {
                Some(kv) => old(self).node_iter.remaining().len() > 0 && *kv.0 == old(self).node_iter.remaining()[0].key && *kv.1 == old(self).node_iter.remaining()[0].value
                    && final(self).node_iter.remaining() == old(self).node_iter.remaining().skip(1),
                None => old(self).node_iter.remaining().len() == 0 && final(self).node_iter.remaining().len() == 0,
            },
    {
        match self.node_iter.next() {
            Some(node) => Some((&node.key, &node.value)),
            None => None,
        }
    }
}

impl<'g, K: Ord, V> Keys<'g, K, V> {
    /// The key of the next entry.
    pub fn next(&mut self) -> (r: Option<&'g K>)
        requires
            old(self).node_iter.wf(),
        ensures
            final(self).node_iter.wf(),
            final(self).node_iter.base() == old(self).node_iter.base(),
            match r {
                Some(k) => old(self).node_iter.remaining().len() > 0 && *k == old(self).node_iter.remaining()[0].key && final(self).node_iter.remaining() == old(self).node_iter.remaining().skip(1),
                None => old(self).node_iter.remaining().len() == 0 && final(self).node_iter.remaining().len() == 0,
            },
    {
        match self.node_iter.next() {
            Some(node) => Some(&node.key),
            None => None,
        }
    }
}

impl<'g, K: Ord, V> Values<'g, K, V> {
    /// The value of the next entry.
    pub fn next(&mut self) -> (r: Option<&'g V>)
        requires
            old(self).node_iter.wf(),
        ensures
            final(self).node_iter.wf(),
            final(self).node_iter.base() == old(self).node_iter.base(),
            match r {
                Some(v) => old(self).node_iter.remaining().len() > 0 && *v == old(self).node_iter.remaining()[0].value && final(self).node_iter.remaining() == old(self).node_iter.remaining().skip(1),
                None => old(self).node_iter.remaining().len() == 0 && final(self).node_iter.remaining().len() == 0,
            },
    {
        match self.node_iter.next() {
            Some(node) => Some(&node.value),
            None => None,
        }
    }
}

impl<K: Ord, V, S> HashMap<K, V, S> {
    /// A cursor at the start of the table.
    pub fn cursor<'g>(&'g self) -> (r: NodeIter<'g, K, V>)
        requires
            self.inv(),
        ensures
            r.wf(),
            r.remaining() == self.table.traversal(),
    {
        let next = match &self.next_table {
            Some(t) => Some(t),
            None => None,
        };
        proof {
            assert forall|i: int| 0 <= i < self.table.bins.len() implies settled(
                #[trigger] self.table.bins[i],
                i,
                self.table.bins.len(),
            ) by {}
            lemma_flow_is_flatten(self.table.bins@, bins_of(next), 0);
        }
        NodeIter::new(&self.table, next)
    }

    /// A traversal of the entries: it yields every entry of the map once.
    pub fn iter<'g>(&'g self) -> (r: Iter<'g, K, V>)
        requires
            self.inv(),
        ensures
            r.node_iter.wf(),
            r.node_iter.remaining() == self.table.traversal(),
            self.capacity() > 0 ==> distinct_slots(self.table.traversal()) && entries_map(
                self.table.traversal(),
            ) == self@,
    {
        proof {
            if self.capacity() > 0 {
                self.table.lemma_traversal();
            }
        }
        Iter { node_iter: self.cursor() }
    }

    /// A traversal of the keys.
    pub fn keys<'g>(&'g self) -> (r: Keys<'g, K, V>)
        requires
            self.inv(),
        ensures
            r.node_iter.wf(),
            r.node_iter.remaining() == self.table.traversal(),
    {
        Keys { node_iter: self.cursor() }
    }

    /// A traversal of the values.
    pub fn values<'g>(&'g self) -> (r: Values<'g, K, V>)
        requires
            self.inv(),
        ensures
            r.node_iter.wf(),
            r.node_iter.remaining() == self.table.traversal(),
    {
        Values { node_iter: self.cursor() }
    }
}

} // verus!
