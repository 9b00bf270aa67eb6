//! A cursor over the entries of a table, which follows the bins that have
//! moved to the successor table.
use vstd::prelude::*;
use crate::bin::lemma_view_map;
use crate::bin::BinEntry;
use crate::node::distinct_slots;
use crate::node::entries_map;
use crate::node::has_slot;
use crate::node::lemma_entries_map_at;
use crate::node::slot_index;
use crate::node::Node;
use crate::raw::bin_in_place;
use crate::raw::bin_index;
use crate::raw::lemma_bin_index_bound;
use crate::raw::Table;
use crate::sizing::is_capacity;
use crate::sizing::MAXIMUM_CAPACITY;
use crate::split::goes_high;
use crate::transfer::lemma_index_doubles;
use crate::transfer::settled;
use crate::transfer::transferring;

verus! {

/// The number of entries of a bin.
pub fn bin_length<K: Ord, V>(bin: &BinEntry<K, V>) -> (r: usize)
    ensures
        r == bin@.len(),
{
    match bin {
        BinEntry::Node(chain) => chain.len(),
        BinEntry::Tree(tree) => tree.len(),
        _ => 0,
    }
}

/// The entry at position `q` of the traversal order of a bin.
pub fn bin_entry<'a, K: Ord, V>(bin: &'a BinEntry<K, V>, q: usize) -> (r: &'a Node<K, V>)
    requires
        q < bin@.len(),
    ensures
        *r == bin@[q as int],
{
    match bin {
        BinEntry::Node(chain) => &chain[q],
        BinEntry::Tree(tree) => &tree.nodes[tree.nodes.len() - 1 - q],
        _ => {
            proof {
                assert(false);
            }
            vstd::pervasive::unreached()
        },
    }
}

/// The bins of an optional table.
pub open spec fn bins_of<K, V>(t: Option<&Table<K, V>>) -> Seq<BinEntry<K, V>> {
    match t {
        Some(t) => t.bins@,
        None => Seq::empty(),
    }
}

/// The table `base` forwards to `next`: a bin of `base` that is marked as
/// moved has its entries in place in the two bins of `next` that take its
/// place, and every other bin of `base` is in place itself.
pub open spec fn forwarded<K: Ord, V>(base: Seq<BinEntry<K, V>>, next: Seq<BinEntry<K, V>>) -> bool {
    let n = base.len();
    &&& n == 0 || is_capacity(n as usize)
    &&& forall|i: int|
        0 <= i < n ==> if (#[trigger] base[i]) is Moved {
            &&& n < MAXIMUM_CAPACITY
            &&& next.len() == 2 * n
            &&& settled(next[i], i, (2 * n) as usize)
            &&& settled(next[i + n], i + n, (2 * n) as usize)
        } else {
            settled(base[i], i, n as usize)
        }
}

/// What a traversal meets at bin `i` of `base`: the entries of the bin, or
/// of the two bins of `next` that it has moved to.
pub open spec fn bin_flow<K: Ord, V>(
    base: Seq<BinEntry<K, V>>,
    next: Seq<BinEntry<K, V>>,
    i: int,
) -> Seq<Node<K, V>> {
    if base[i] is Moved {
        next[i]@ + next[i + base.len()]@
    } else {
        base[i]@
    }
}

/// What a traversal meets from bin `from` of `base` on.
pub open spec fn flow<K: Ord, V>(
    base: Seq<BinEntry<K, V>>,
    next: Seq<BinEntry<K, V>>,
    from: int,
) -> Seq<Node<K, V>>
    decreases base.len() - from,
{
    if from < 0 || from >= base.len() {
        Seq::empty()
    } else {
        bin_flow(base, next, from) + flow(base, next, from + 1)
    }
}

/// The bin that holds the entries with this hash in a table that forwards
/// to `next`.
pub open spec fn forwarded_holder<K: Ord, V>(
    base: Seq<BinEntry<K, V>>,
    next: Seq<BinEntry<K, V>>,
    hash: u64,
) -> BinEntry<K, V> {
    let i = bin_index(hash, base.len() as usize) as int;
    if base[i] is Moved {
        next[bin_index(hash, (2 * base.len()) as usize) as int]
    } else {
        base[i]
    }
}

/// The map that a table shows together with the table that it forwards to.
pub open spec fn forwarded_map<K: Ord, V>(
    base: Seq<BinEntry<K, V>>,
    next: Seq<BinEntry<K, V>>,
) -> Map<(u64, K), V> {
    Map::new(
        |slot: (u64, K)|
            base.len() > 0 && forwarded_holder(base, next, slot.0).map().dom().contains(slot),
        |slot: (u64, K)| forwarded_holder(base, next, slot.0).map()[slot],
    )
}

/// Every entry that a traversal meets at bin `i` hashes to bin `i` of the
/// base table, no pair is met twice there, and what is met is what the
/// holders of those hashes hold.
pub proof fn lemma_bin_flow<K: Ord, V>(
    base: Seq<BinEntry<K, V>>,
    next: Seq<BinEntry<K, V>>,
    i: int,
)
    requires
        forwarded(base, next),
        0 <= i < base.len(),
    ensures
        distinct_slots(bin_flow(base, next, i)),
        forall|k: int|
            0 <= k < bin_flow(base, next, i).len() ==> bin_index(
                #[trigger] bin_flow(base, next, i)[k].hash,
                base.len() as usize,
            ) == i,
        forall|slot: (u64, K)|
            has_slot(bin_flow(base, next, i), slot) <==> bin_index(slot.0, base.len() as usize) == i
                && forwarded_map(base, next).dom().contains(slot),
        forall|slot: (u64, K)|
            has_slot(bin_flow(base, next, i), slot) ==> #[trigger] entries_map(
                bin_flow(base, next, i),
            )[slot] == forwarded_map(base, next)[slot],
{
    let n = base.len() as usize;
    let n2 = (2 * n) as usize;
    let here = bin_flow(base, next, i);
    if base[i] is Moved {
        let lo = next[i];
        let hi = next[i + n];
        lemma_view_map(lo);
        lemma_view_map(hi);
        assert(here =~= lo@ + hi@);
        assert forall|k: int| 0 <= k < lo@.len() implies bin_index(#[trigger] lo@[k].hash, n2)
            == i by {
            if lo is Tree {
                assert(lo@[k] == lo.stored()[lo.stored().len() - 1 - k]);
            } else {
                assert(lo@[k] == lo.stored()[k]);
            }
        }
        assert forall|k: int| 0 <= k < hi@.len() implies bin_index(#[trigger] hi@[k].hash, n2) == i
            + n by {
            if hi is Tree {
                assert(hi@[k] == hi.stored()[hi.stored().len() - 1 - k]);
            } else {
                assert(hi@[k] == hi.stored()[k]);
            }
        }
        assert forall|k: int| 0 <= k < here.len() implies bin_index(#[trigger] here[k].hash, n)
            == i && bin_index(here[k].hash, n2) == (if k < lo@.len() { i } else { i + n }) by {
            lemma_index_doubles(here[k].hash, n);
            lemma_bin_index_bound(here[k].hash, n);
            if k < lo@.len() {
                assert(here[k] == lo@[k]);
            } else {
                assert(here[k] == hi@[k - lo@.len()]);
            }
        }
        assert forall|a: int, b: int|
            0 <= a < here.len() && 0 <= b < here.len() && a != b implies #[trigger] here[a].slot()
            != #[trigger] here[b].slot() by {
            if a < lo@.len() && b < lo@.len() {
                assert(lo@[a].slot() != lo@[b].slot());
            } else if a >= lo@.len() && b >= lo@.len() {
                assert(hi@[a - lo@.len()].slot() != hi@[b - lo@.len()].slot());
            } else {
                assert(bin_index(here[a].hash, n2) != bin_index(here[b].hash, n2));
            }
        }
        assert forall|slot: (u64, K)|
            has_slot(here, slot) <==> bin_index(slot.0, n) == i && forwarded_map(
                base,
                next,
            ).dom().contains(slot) by {
            lemma_index_doubles(slot.0, n);
            lemma_bin_index_bound(slot.0, n);
            if has_slot(here, slot) {
                let k = slot_index(here, slot);
                if k < lo@.len() {
                    assert(lo@[k].slot() == slot);
                    assert(entries_map(lo@).dom().contains(slot));
                } else {
                    assert(hi@[k - lo@.len()].slot() == slot);
                    assert(entries_map(hi@).dom().contains(slot));
                }
            }
            if bin_index(slot.0, n) == i && forwarded_map(base, next).dom().contains(slot) {
                if goes_high(slot.0, n) {
                    assert(entries_map(hi@).dom().contains(slot));
                    let k = slot_index(hi@, slot);
                    assert(here[lo@.len() + k].slot() == slot);
                } else {
                    assert(entries_map(lo@).dom().contains(slot));
                    let k = slot_index(lo@, slot);
                    assert(here[k].slot() == slot);
                }
            }
        }
        assert forall|slot: (u64, K)| has_slot(here, slot) implies #[trigger] entries_map(
            here,
        )[slot] == forwarded_map(base, next)[slot] by {
            let k = slot_index(here, slot);
            lemma_entries_map_at(here, k);
            if k < lo@.len() {
                assert(lo@[k].slot() == slot);
                lemma_entries_map_at(lo@, k);
            } else {
                assert(hi@[k - lo@.len()].slot() == slot);
                lemma_entries_map_at(hi@, k - lo@.len());
            }
        }
    } else {
        let b = base[i];
        lemma_view_map(b);
        assert forall|k: int| 0 <= k < b@.len() implies bin_index(#[trigger] b@[k].hash, n) == i by {
            if b is Tree {
                assert(b@[k] == b.stored()[b.stored().len() - 1 - k]);
            } else {
                assert(b@[k] == b.stored()[k]);
            }
        }
        assert forall|slot: (u64, K)|
            has_slot(here, slot) <==> bin_index(slot.0, n) == i && forwarded_map(
                base,
                next,
            ).dom().contains(slot) by {
            lemma_bin_index_bound(slot.0, n);
            if has_slot(here, slot) {
                let k = slot_index(here, slot);
                assert(bin_index(here[k].hash, n) == i);
                assert(entries_map(b@).dom().contains(slot));
            }
            if bin_index(slot.0, n) == i && forwarded_map(base, next).dom().contains(slot) {
                assert(entries_map(b@).dom().contains(slot));
            }
        }
        assert forall|slot: (u64, K)| has_slot(here, slot) implies #[trigger] entries_map(
            here,
        )[slot] == forwarded_map(base, next)[slot] by {
            let k = slot_index(here, slot);
            assert(bin_index(here[k].hash, n) == i);
        }
    }
}

/// A traversal of a table that forwards to its successor meets, from bin
/// `from` on, every entry of the map that the two tables show once, and
/// nothing else.
pub proof fn lemma_flow<K: Ord, V>(
    base: Seq<BinEntry<K, V>>,
    next: Seq<BinEntry<K, V>>,
    from: int,
)
    requires
        forwarded(base, next),
        0 <= from <= base.len(),
    ensures
        distinct_slots(flow(base, next, from)),
        forall|slot: (u64, K)|
            has_slot(flow(base, next, from), slot) <==> bin_index(slot.0, base.len() as usize)
                >= from && forwarded_map(base, next).dom().contains(slot),
        forall|slot: (u64, K)|
            has_slot(flow(base, next, from), slot) ==> #[trigger] entries_map(
                flow(base, next, from),
            )[slot] == forwarded_map(base, next)[slot],
        forall|k: int|
            0 <= k < flow(base, next, from).len() ==> bin_index(
                #[trigger] flow(base, next, from)[k].hash,
                base.len() as usize,
            ) >= from,
    decreases base.len() - from,
{
    let n = base.len() as usize;
    let all = flow(base, next, from);
    if from == base.len() {
        assert forall|slot: (u64, K)|
            !(bin_index(slot.0, n) >= from && forwarded_map(base, next).dom().contains(slot)) by {
            if n > 0 {
                lemma_bin_index_bound(slot.0, n);
            }
        }
    } else {
        let head = bin_flow(base, next, from);
        let tail = flow(base, next, from + 1);
        lemma_flow(base, next, from + 1);
        lemma_bin_flow(base, next, from);
        assert(all =~= head + tail);
        assert forall|k: int| 0 <= k < all.len() implies bin_index(#[trigger] all[k].hash, n)
            >= from by {
            if k >= head.len() {
                assert(all[k] == tail[k - head.len()]);
            } else {
                assert(all[k] == head[k]);
            }
        }
        assert forall|i: int, j: int|
            0 <= i < all.len() && 0 <= j < all.len() && i != j implies #[trigger] all[i].slot()
            != #[trigger] all[j].slot() by {
            if i < head.len() && j < head.len() {
                assert(head[i].slot() != head[j].slot());
            } else if i >= head.len() && j >= head.len() {
                assert(tail[i - head.len()].slot() != tail[j - head.len()].slot());
            } else if i < head.len() {
                assert(all[i] == head[i]);
                assert(all[j] == tail[j - head.len()]);
            } else {
                assert(all[j] == head[j]);
                assert(all[i] == tail[i - head.len()]);
            }
        }
        assert forall|slot: (u64, K)|
            has_slot(all, slot) <==> bin_index(slot.0, n) >= from && forwarded_map(
                base,
                next,
            ).dom().contains(slot) by {
            lemma_bin_index_bound(slot.0, n);
            if has_slot(all, slot) {
                let k = slot_index(all, slot);
                if k < head.len() {
                    assert(head[k].slot() == slot);
                    assert(has_slot(head, slot));
                } else {
                    assert(tail[k - head.len()].slot() == slot);
                    assert(has_slot(tail, slot));
                }
            }
            if bin_index(slot.0, n) >= from && forwarded_map(base, next).dom().contains(slot) {
                if bin_index(slot.0, n) == from {
                    assert(has_slot(head, slot));
                    let k = slot_index(head, slot);
                    assert(all[k].slot() == slot);
                } else {
                    assert(has_slot(tail, slot));
                    let k = slot_index(tail, slot);
                    assert(all[head.len() + k].slot() == slot);
                }
            }
        }
        assert forall|slot: (u64, K)| has_slot(all, slot) implies #[trigger] entries_map(all)[slot]
            == forwarded_map(base, next)[slot] by {
            let k = slot_index(all, slot);
            lemma_entries_map_at(all, k);
            if k < head.len() {
                assert(head[k].slot() == slot);
                lemma_entries_map_at(head, k);
            } else {
                assert(tail[k - head.len()].slot() == slot);
                lemma_entries_map_at(tail, k - head.len());
            }
        }
    }
}

/// A traversal of a table that is being moved to its successor meets every
/// entry of the map that the two tables show together once, and nothing
/// else.
pub proof fn lemma_traversal_during_transfer<K: Ord, V>(
    old: Seq<BinEntry<K, V>>,
    new: Seq<BinEntry<K, V>>,
    n: usize,
    done: int,
    m0: Map<(u64, K), V>,
)
    requires
        transferring(old, new, n, done, m0),
    ensures
        forwarded(old, new),
        distinct_slots(flow(old, new, 0)),
        entries_map(flow(old, new, 0)) == m0,
{
    assert forall|i: int| 0 <= i < n implies if (#[trigger] old[i]) is Moved {
        &&& n < MAXIMUM_CAPACITY
        &&& new.len() == 2 * n
        &&& settled(new[i], i, (2 * n) as usize)
        &&& settled(new[i + n], i + n, (2 * n) as usize)
    } else {
        settled(old[i], i, n)
    } by {
        if i < done {
            assert(settled(old[i], i, n));
        } else {
            assert(old[i] is Moved);
        }
    }
    lemma_flow(old, new, 0);
    assert forall|slot: (u64, K)| forwarded_map(old, new).dom().contains(slot) <==> m0.dom().contains(
        slot,
    ) by {
        lemma_bin_index_bound(slot.0, n);
        let i = bin_index(slot.0, n) as int;
        if i < done {
            assert(settled(old[i], i, n));
        } else {
            assert(old[i] is Moved);
        }
    }
    assert forall|slot: (u64, K)| has_slot(flow(old, new, 0), slot) <==> m0.dom().contains(slot) by {
        lemma_bin_index_bound(slot.0, n);
    }
    assert forall|slot: (u64, K)| m0.dom().contains(slot) implies #[trigger] entries_map(
        flow(old, new, 0),
    )[slot] == m0[slot] by {
        lemma_bin_index_bound(slot.0, n);
        let i = bin_index(slot.0, n) as int;
        if i < done {
            assert(settled(old[i], i, n));
        } else {
            assert(old[i] is Moved);
        }
        assert(has_slot(flow(old, new, 0), slot));
    }
    assert(entries_map(flow(old, new, 0)) =~= m0);
}

/// A table that a cursor has left for its successor, with the place at which
/// it left.
pub struct TableStack<'g, K, V> {
    pub length: usize,
    pub index: usize,
    pub table: &'g Table<K, V>,
}

/// A cursor over the entries of a table.
///
/// The cursor visits the bins of the table that it starts on, the base
/// table, in their order. At a bin that is marked as moved it pushes the
/// table and the index on its stack and goes on in the successor table:
/// there it visits the bin at the same index and the bin one length of the
/// base table further on, and then comes back. `index` is the bin to look
/// at next, `base_index` the bin of the base table that the cursor is at,
/// and `base_limit` and `base_size` are the length of the base table.
/// `prev` is the place of the entry that was returned last: its bin and
/// its position in the bin's traversal order.
pub struct NodeIter<'g, K, V> {
    pub table: Option<&'g Table<K, V>>,
    pub next_table: Option<&'g Table<K, V>>,
    pub stack: Vec<TableStack<'g, K, V>>,
    pub prev: Option<(&'g BinEntry<K, V>, usize)>,
    pub index: usize,
    pub base_index: usize,
    pub base_limit: usize,
    pub base_size: usize,
}

impl<'g, K: Ord, V> NodeIter<'g, K, V> {
    /// The bins of the table that the cursor started on.
    pub open spec fn base(&self) -> Seq<BinEntry<K, V>> {
        if self.stack@.len() > 0 {
            self.stack@[0].table.bins@
        } else {
            bins_of(self.table)
        }
    }

    /// The counters agree with the place that the cursor is at: in the
    /// base table, or in the successor table at one of the two bins that a
    /// moved bin of the base table has gone to.
    pub open spec fn placed(&self) -> bool {
        let n = self.base().len();
        &&& forwarded(self.base(), bins_of(self.next_table))
        &&& self.base_size == n
        &&& self.base_limit == n
        &&& self.base_index <= n
        &&& self.stack@.len() <= 1
        &&& if self.stack@.len() == 0 {
            self.index == self.base_index && (self.table is None ==> n == 0)
        } else {
            &&& self.table == self.next_table
            &&& self.table is Some
            &&& self.stack@[0].length == n
            &&& self.stack@[0].index == self.base_index
            &&& self.base_index < n
            &&& self.base()[self.base_index as int] is Moved
            &&& (self.index == self.base_index || self.index == self.base_index + n)
        }
    }

    /// The cursor is at a place of its table, and the entry that it
    /// returned last is an entry of its bin.
    pub open spec fn wf(&self) -> bool {
        &&& self.placed()
        &&& match self.prev {
            None => true,
            Some(p) => p.1 < p.0@.len(),
        }
    }

    /// The entries of the bins that the cursor has yet to visit.
    pub open spec fn ahead(&self) -> Seq<Node<K, V>> {
        let next = bins_of(self.next_table);
        if self.stack@.len() == 0 || self.index == self.base_index {
            flow(self.base(), next, self.base_index as int)
        } else {
            next[self.index as int]@ + flow(self.base(), next, self.base_index + 1)
        }
    }

    /// The entries that the cursor has yet to return, in order.
    pub open spec fn remaining(&self) -> Seq<Node<K, V>> {
        match self.prev {
            None => self.ahead(),
            Some(p) => p.0@.skip(p.1 + 1) + self.ahead(),
        }
    }

    /// A cursor at the start of `table`, which forwards to `next_table`.
    pub fn new(table: &'g Table<K, V>, next_table: Option<&'g Table<K, V>>) -> (r: Self)
        requires
            forwarded(table.bins@, bins_of(next_table)),
        ensures
            r.wf(),
            r.base() == table.bins@,
            r.next_table == next_table,
            r.remaining() == flow(table.bins@, bins_of(next_table), 0),
    {
        let len = table.len();
        NodeIter {
            table: Some(table),
            next_table,
            stack: Vec::new(),
            prev: None,
            index: 0,
            base_index: 0,
            base_limit: len,
            base_size: len,
        }
    }

    /// Remembers the table `t` and the index `i` at which the cursor leaves
    /// it.
    pub fn push_state(&mut self, t: &'g Table<K, V>, i: usize, n: usize)
        ensures
            final(self).stack@ == old(self).stack@.push(TableStack { length: n, index: i, table: t }),
            final(self).table == old(self).table,
            final(self).next_table == old(self).next_table,
            final(self).prev == old(self).prev,
            final(self).index == old(self).index,
            final(self).base_index == old(self).base_index,
            final(self).base_limit == old(self).base_limit,
            final(self).base_size == old(self).base_size,
    {
        self.stack.push(TableStack { length: n, index: i, table: t });
    }

    /// Moves the cursor on from a bin of the successor table, of `n` bins:
    /// to the bin one length of the left table further on, or, where that
    /// is beyond the successor table, back to the table that it left and
    /// on to its next bin.
    pub fn recover_state(&mut self, n: usize)
        requires
            old(self).placed(),
            old(self).stack@.len() == 1,
            n == 2 * old(self).base_size,
        ensures
            final(self).placed(),
            final(self).base() == old(self).base(),
            final(self).next_table == old(self).next_table,
            final(self).prev == old(self).prev,
            final(self).base_limit == old(self).base_limit,
            final(self).base_size == old(self).base_size,
            if old(self).index == old(self).base_index {
                &&& final(self).stack@ == old(self).stack@
                &&& final(self).base_index == old(self).base_index
                &&& final(self).index == old(self).base_index + old(self).base_size
            } else {
                &&& final(self).stack@.len() == 0
                &&& final(self).base_index == old(self).base_index + 1
            },
    {
        let mut n = n;
        let ghost base0 = self.base();
        loop
            invariant_except_break
                if self.stack@.len() == 1 {
                    &&& self.stack@ == old(self).stack@
                    &&& self.table == old(self).table
                    &&& self.index == old(self).index
                    &&& n == 2 * self.base_size
                } else {
                    &&& self.table == Some(old(self).stack@[0].table)
                    &&& self.index == old(self).base_index
                    &&& n == self.base_size
                    &&& old(self).index != old(self).base_index
                },
            invariant
                self.stack@.len() <= 1,
                self.next_table == old(self).next_table,
                self.prev == old(self).prev,
                self.base_limit == old(self).base_limit,
                self.base_size == old(self).base_size,
                self.base_index == old(self).base_index,
                base0 == old(self).base(),
                old(self).placed(),
                old(self).stack@.len() == 1,
            ensures
                self.stack@.len() <= 1,
                self.next_table == old(self).next_table,
                self.prev == old(self).prev,
                self.base_limit == old(self).base_limit,
                self.base_size == old(self).base_size,
                self.base_index == old(self).base_index,
                if self.stack@.len() == 1 {
                    &&& self.stack@ == old(self).stack@
                    &&& self.table == old(self).table
                    &&& old(self).index == old(self).base_index
                    &&& self.index == old(self).base_index + self.base_size
                } else {
                    &&& self.table == Some(old(self).stack@[0].table)
                    &&& self.index == old(self).base_index
                    &&& n == self.base_size
                    &&& old(self).index != old(self).base_index
                },
            decreases self.stack@.len(),
        {
            if self.stack.len() == 0 {
                break ;
            }
            let length = self.stack[self.stack.len() - 1].length;
            if self.index + length < n {
                self.index = self.index + length;
                break ;
            }
            let s = self.stack.pop().unwrap();
            n = s.length;
            self.index = s.index;
            self.table = Some(s.table);
        }
        if self.stack.len() == 0 {
            self.index = self.index + self.base_size;
            if self.index >= n {
                self.base_index = self.base_index + 1;
                self.index = self.base_index;
            }
        }
    }

    /// Returns the next entry and moves on: to the next entry of the bin
    /// that the last one came from, or else to the first entry of the next
    /// bin that has any, in the base table or, for a bin that has moved,
    /// in the successor table.
    pub fn next(&mut self) -> (r: Option<&'g Node<K, V>>)
        requires
            old(self).wf(),
        ensures
            final(self).wf(),
            final(self).base() == old(self).base(),
            final(self).next_table == old(self).next_table,
            match r {
                Some(node) => old(self).remaining().len() > 0 && *node == old(self).remaining()[0]
                    && final(self).remaining() == old(self).remaining().skip(1),
                None => old(self).remaining().len() == 0 && final(self).remaining().len() == 0,
            },
    {
        let ghost goal = self.remaining();
        let ghost base0 = self.base();
        let ghost next0 = bins_of(self.next_table);
        let mut e: Option<(&'g BinEntry<K, V>, usize)> = None;
        if let Some(p) = self.prev {
            let len = bin_length(p.0);
            if p.1 + 1 < len {
                e = Some((p.0, p.1 + 1));
            } else {
                proof {
                    assert(p.0@.skip(p.1 + 1) =~= Seq::<Node<K, V>>::empty());
                }
            }
        }
        self.prev = None;
        loop
            invariant
                self.placed(),
                self.prev is None,
                self.base() == base0,
                base0 == old(self).base(),
                self.next_table == old(self).next_table,
                next0 == bins_of(self.next_table),
                match e {
                    Some(p) => p.1 < p.0@.len() && p.0@.skip(p.1 as int) + self.ahead() =~= goal,
                    None => self.ahead() =~= goal,
                },
                goal == old(self).remaining(),
            decreases
                    5 * (base0.len() - self.base_index) + (if e is Some { 1int } else { 0int }) - (
                    if self.stack@.len() == 0 {
                        0int
                    } else if self.index == self.base_index {
                        1int
                    } else {
                        3int
                    }),
        {
            if let Some(found) = e {
                self.prev = e;
                proof {
                    let rest = found.0@.skip(found.1 as int);
                    assert(rest[0] == found.0@[found.1 as int]);
                    assert(rest.skip(1) =~= found.0@.skip(found.1 + 1));
                    assert((rest + self.ahead()).skip(1) =~= rest.skip(1) + self.ahead());
                }
                return Some(bin_entry(found.0, found.1));
            }
            let t = match self.table {
                None => {
                    return None;
                },
                Some(t) => t,
            };
            if self.base_index >= self.base_limit || t.len() <= self.index {
                self.prev = None;
                return None;
            }
            let i = self.index;
            let n = t.len();
            let bin = t.bin(i);
            let moved = match bin {
                BinEntry::Moved => true,
                _ => false,
            };
            if moved {
                match self.next_table {
                    Some(successor) => {
                        proof {
                            assert(self.stack@.len() == 0);
                            assert(base0[i as int] is Moved);
                        }
                        self.table = Some(successor);
                        self.prev = None;
                        self.push_state(t, i, n);
                        continue ;
                    },
                    None => {
                        proof {
                            assert(self.stack@.len() == 0);
                            assert(base0[i as int] is Moved);
                            assert(false);
                        }
                        return None;
                    },
                }
            }
            let ghost at_base = self.stack@.len() == 0;
            let ghost at_first = self.index == self.base_index;
            let ghost b = self.base_index as int;
            proof {
                if at_base {
                    assert(bin_flow(base0, next0, b) == bin@);
                    assert(flow(base0, next0, b) =~= bin@ + flow(base0, next0, b + 1));
                } else if at_first {
                    assert(flow(base0, next0, b) =~= (next0[b]@ + next0[b + base0.len()]@) + flow(
                        base0,
                        next0,
                        b + 1,
                    ));
                }
            }
            if bin_length(bin) > 0 {
                e = Some((bin, 0));
                proof {
                    assert(bin@.skip(0) =~= bin@);
                }
            } else {
                proof {
                    assert(bin@ =~= Seq::<Node<K, V>>::empty());
                }
            }
            if self.stack.len() > 0 {
                self.recover_state(n);
            } else {
                self.index = i + self.base_size;
                if self.index >= n {
                    self.base_index = self.base_index + 1;
                    self.index = self.base_index;
                }
            }
        }
    }
}

} // verus!
