//! The state of a table while its bins move to a table of twice the size.
use vstd::prelude::*;
use crate::bin::lemma_view_map;
use crate::bin::BinEntry;
use crate::node::distinct_slots;
use crate::node::entries_map;
use crate::node::has_slot;
use crate::node::lemma_entries_map_reverse;
use crate::node::slot_index;
use crate::node::Node;
use crate::order::key_laws;
use crate::raw::bin_in_place;
use crate::raw::bin_index;
use crate::raw::bins_map;
use crate::raw::lemma_bin_index_bound;
use crate::sizing::is_capacity;
use crate::sizing::lemma_capacity_doubles;
use crate::sizing::MAXIMUM_CAPACITY;
use crate::sizing::UNTREEIFY_THRESHOLD;
use crate::split::chain_split;
use crate::split::goes_high;
use crate::split::lemma_picked_all;
use crate::split::ordering_split;
use crate::split::run_bit;
use crate::split::split_chain;
use crate::split::split_of;
use crate::split::split_tree_nodes;
use crate::tree_bin::TreeBin;

verus! {

/// In a table of twice the size an entry stays at its index or moves up by
/// `n`, as the bit of its hash at `n` decides.
pub proof fn lemma_index_doubles(hash: u64, n: usize)
    requires
        is_capacity(n),
        n < MAXIMUM_CAPACITY,
    ensures
        bin_index(hash, (2 * n) as usize) == bin_index(hash, n) + if goes_high(hash, n) {
            n as int
        } else {
            0
        },
{
    let a = n as u64;
    let h = hash;
    assert(a & ((a - 1) as u64) == 0 && 0 < a < 1073741824 ==> (h & ((2 * a - 1) as u64)) == ((h
        & ((a - 1) as u64)) + (if h & a != 0 { a } else { 0 })) as u64 && (h & ((a - 1) as u64))
        < a) by (bit_vector);
}

/// The bin `b` is well formed, is not marked as moved, and belongs at index
/// `i` of a table of `n` bins.
pub open spec fn settled<K: Ord, V>(b: BinEntry<K, V>, i: int, n: usize) -> bool {
    b.wf() && !(b is Moved) && bin_in_place(b, i, n)
}

/// `low` and `high` are well-formed bins that hold the entries of `b`
/// between them, split by the bit of the hash at `n`.
pub open spec fn halves<K: Ord, V>(
    b: BinEntry<K, V>,
    n: usize,
    low: BinEntry<K, V>,
    high: BinEntry<K, V>,
) -> bool {
    &&& low.wf()
    &&& high.wf()
    &&& !(low is Moved)
    &&& !(high is Moved)
    &&& split_of(b.stored(), n, low.stored(), high.stored())
}

/// The bin that holds the entries with this hash while the bins from `done`
/// on have moved from `old` to `new`.
pub open spec fn holder<K: Ord, V>(
    old: Seq<BinEntry<K, V>>,
    new: Seq<BinEntry<K, V>>,
    n: usize,
    done: int,
    hash: u64,
) -> BinEntry<K, V> {
    if bin_index(hash, n) < done {
        old[bin_index(hash, n) as int]
    } else {
        new[bin_index(hash, (2 * n) as usize) as int]
    }
}

/// The state of a transfer out of `old`, of `n` bins, into `new`: the bins
/// below `done` are still in `old`, and their places in `new` are empty; the
/// bins from `done` on are marked as moved, and their entries are in place
/// in `new`. Together the two tables show the map `m0`.
pub open spec fn transferring<K: Ord, V>(
    old: Seq<BinEntry<K, V>>,
    new: Seq<BinEntry<K, V>>,
    n: usize,
    done: int,
    m0: Map<(u64, K), V>,
) -> bool {
    &&& is_capacity(n)
    &&& n < MAXIMUM_CAPACITY
    &&& old.len() == n
    &&& new.len() == 2 * n
    &&& 0 <= done <= n
    &&& forall|i: int|
        0 <= i < done ==> settled(#[trigger] old[i], i, n) && new[i] is Empty && new[i + n] is Empty
    &&& forall|i: int|
        done <= i < n ==> (#[trigger] old[i]) is Moved && settled(new[i], i, (2 * n) as usize)
            && settled(new[i + n], i + n, (2 * n) as usize)
    &&& forall|slot: (u64, K)| #[trigger]
        m0.dom().contains(slot) <==> holder(old, new, n, done, slot.0).map().dom().contains(slot)
    &&& forall|slot: (u64, K)| #[trigger]
        m0.dom().contains(slot) ==> m0[slot] == holder(old, new, n, done, slot.0).map()[slot]
}

/// A well-formed table and an empty table of twice its size are the start
/// of a transfer.
pub proof fn lemma_transfer_start<K: Ord, V>(old: Seq<BinEntry<K, V>>, new: Seq<BinEntry<K, V>>)
    requires
        is_capacity(old.len() as usize),
        old.len() < MAXIMUM_CAPACITY,
        new.len() == 2 * old.len(),
        forall|i: int| 0 <= i < old.len() ==> settled(#[trigger] old[i], i, old.len() as usize),
        forall|i: int| 0 <= i < new.len() ==> #[trigger] new[i] is Empty,
    ensures
        transferring(old, new, old.len() as usize, old.len() as int, bins_map(old)),
{
    let n = old.len() as usize;
    assert forall|slot: (u64, K)|
        bin_index(slot.0, n) < n by {
        lemma_bin_index_bound(slot.0, n);
    }
    assert forall|i: int| 0 <= i < n implies (#[trigger] new[i]) is Empty && new[i + n] is Empty by {}
}

/// Once every bin has moved, the new table is well formed and shows the
/// map that the old one showed.
pub proof fn lemma_transfer_end<K: Ord, V>(
    old: Seq<BinEntry<K, V>>,
    new: Seq<BinEntry<K, V>>,
    n: usize,
    m0: Map<(u64, K), V>,
)
    requires
        transferring(old, new, n, 0, m0),
    ensures
        is_capacity(new.len() as usize),
        forall|j: int| 0 <= j < new.len() ==> settled(#[trigger] new[j], j, new.len() as usize),
        bins_map(new) == m0,
{
    lemma_capacity_doubles(n);
    assert forall|j: int| 0 <= j < new.len() implies settled(
        #[trigger] new[j],
        j,
        new.len() as usize,
    ) by {
        if j < n {
            assert(old[j] is Moved);
        } else {
            assert(old[j - n] is Moved);
        }
    }
    assert forall|slot: (u64, K)| bins_map(new).dom().contains(slot) <==> m0.dom().contains(
        slot,
    ) by {
        assert(holder(old, new, n, 0, slot.0) == new[bin_index(slot.0, (2 * n) as usize) as int]);
    }
    assert forall|slot: (u64, K)| bins_map(new).dom().contains(slot) implies #[trigger] bins_map(
        new,
    )[slot] == m0[slot] by {
        assert(holder(old, new, n, 0, slot.0) == new[bin_index(slot.0, (2 * n) as usize) as int]);
        assert(m0.dom().contains(slot));
    }
    assert(bins_map(new) =~= m0);
}

/// Moving the bin below `done` is one step of a transfer.
pub proof fn lemma_transfer_step<K: Ord, V>(
    old: Seq<BinEntry<K, V>>,
    new: Seq<BinEntry<K, V>>,
    n: usize,
    done: int,
    m0: Map<(u64, K), V>,
    low: BinEntry<K, V>,
    high: BinEntry<K, V>,
)
    requires
        transferring(old, new, n, done, m0),
        done > 0,
        halves(old[done - 1], n, low, high),
    ensures
        transferring(
            old.update(done - 1, BinEntry::Moved),
            new.update(done - 1, low).update(done - 1 + n, high),
            n,
            done - 1,
            m0,
        ),
{
    let i = done - 1;
    let b = old[i];
    let old2 = old.update(i, BinEntry::Moved);
    let new2 = new.update(i, low).update(i + n, high);
    let n2 = (2 * n) as usize;
    assert(settled(b, i, n));
    lemma_view_map(low);
    lemma_view_map(high);
    lemma_view_map(b);
    // the two halves are in place in the new table
    assert forall|j: int| 0 <= j < low.stored().len() implies bin_index(
        #[trigger] low.stored()[j].hash,
        n2,
    ) == i by {
        let node = low.stored()[j];
        assert(low.stored()[j].slot() == node.slot());
        assert(has_slot(low.stored(), node.slot()));
        assert(has_slot(b.stored(), node.slot()));
        let k = slot_index(b.stored(), node.slot());
        assert(b.stored()[k].hash == node.hash);
        lemma_index_doubles(node.hash, n);
    }
    assert forall|j: int| 0 <= j < high.stored().len() implies bin_index(
        #[trigger] high.stored()[j].hash,
        n2,
    ) == i + n by {
        let node = high.stored()[j];
        assert(high.stored()[j].slot() == node.slot());
        assert(has_slot(high.stored(), node.slot()));
        assert(has_slot(b.stored(), node.slot()));
        let k = slot_index(b.stored(), node.slot());
        assert(b.stored()[k].hash == node.hash);
        lemma_index_doubles(node.hash, n);
    }
    assert forall|j: int| 0 <= j < i implies settled(#[trigger] old2[j], j, n) && new2[j] is Empty
        && new2[j + n] is Empty by {
        assert(settled(old[j], j, n));
    }
    assert forall|j: int| i <= j < n implies (#[trigger] old2[j]) is Moved && settled(
        new2[j],
        j,
        n2,
    ) && settled(new2[j + n], j + n, n2) by {
        if j > i {
            assert(old[j] is Moved);
        }
    }
    assert forall|slot: (u64, K)|
        holder(old2, new2, n, i, slot.0).map().dom().contains(slot) == holder(
            old,
            new,
            n,
            done,
            slot.0,
        ).map().dom().contains(slot) && (holder(old, new, n, done, slot.0).map().dom().contains(
            slot,
        ) ==> holder(old2, new2, n, i, slot.0).map()[slot] == holder(
            old,
            new,
            n,
            done,
            slot.0,
        ).map()[slot]) by {
        lemma_bin_index_bound(slot.0, n);
        lemma_index_doubles(slot.0, n);
        let idx = bin_index(slot.0, n) as int;
        let idx2 = bin_index(slot.0, n2) as int;
        if idx == i {
            if goes_high(slot.0, n) {
                assert(holder(old2, new2, n, i, slot.0) == high);
                if has_slot(low.stored(), slot) {
                    let k = slot_index(low.stored(), slot);
                    assert(!goes_high(low.stored()[k].hash, n));
                }
            } else {
                assert(holder(old2, new2, n, i, slot.0) == low);
                if has_slot(high.stored(), slot) {
                    let k = slot_index(high.stored(), slot);
                    assert(goes_high(high.stored()[k].hash, n));
                }
            }
        } else if idx < i {
            assert(old2[idx] == old[idx]);
        } else {
            assert(new2[idx2] == new[idx2]);
        }
    }
    assert forall|slot: (u64, K)| #[trigger]
        m0.dom().contains(slot) <==> holder(old2, new2, n, i, slot.0).map().dom().contains(
            slot,
        ) by {}
    assert forall|slot: (u64, K)| #[trigger] m0.dom().contains(slot) implies m0[slot] == holder(
        old2,
        new2,
        n,
        i,
        slot.0,
    ).map()[slot] by {}
}

/// `x` is one of the entries of `s`.
pub open spec fn occurs_in<K, V>(x: Node<K, V>, s: Seq<Node<K, V>>) -> bool {
    exists|j: int| 0 <= j < s.len() && s[j] == x
}

/// Counts the entries of `nodes` that go to the upper bin.
pub fn count_high<K, V>(nodes: &Vec<Node<K, V>>, n: usize) -> (r: usize)
    ensures
        r <= nodes.len(),
        r == 0 ==> forall|k: int| 0 <= k < nodes.len() ==> !goes_high(#[trigger] nodes[k].hash, n),
        r == nodes.len() ==> forall|k: int|
            0 <= k < nodes.len() ==> goes_high(#[trigger] nodes[k].hash, n),
{
    let mut c: usize = 0;
    let mut p: usize = 0;
    while p < nodes.len()
        invariant
            c <= p <= nodes.len(),
            c == 0 ==> forall|k: int| 0 <= k < p ==> !goes_high(#[trigger] nodes[k].hash, n),
            c == p ==> forall|k: int| 0 <= k < p ==> goes_high(#[trigger] nodes[k].hash, n),
        decreases nodes.len() - p,
    {
        if run_bit(nodes[p].hash, n) {
            c = c + 1;
        }
        p = p + 1;
    }
    c
}

/// A bin whose entries all go the same way is one half as it stands; the
/// other half is empty.
pub proof fn lemma_one_sided<K: Ord, V>(b: BinEntry<K, V>, n: usize, high: bool)
    requires
        b.wf(),
        !(b is Moved),
        forall|k: int|
            0 <= k < b.stored().len() ==> goes_high(#[trigger] b.stored()[k].hash, n) == high,
    ensures
        high ==> halves(b, n, BinEntry::Empty, b),
        !high ==> halves(b, n, b, BinEntry::Empty),
{
    lemma_view_map(b);
    let e = BinEntry::<K, V>::Empty;
    assert(e.stored().len() == 0);
    assert forall|slot: (u64, K)| !has_slot(e.stored(), slot) by {}
}

/// How the halves of a split bin are ordered: the halves of a chain as
/// `chain_split` says, the halves of a tree bin in its linked ordering.
pub open spec fn halves_in_order<K: Ord, V>(
    b: BinEntry<K, V>,
    n: usize,
    low: BinEntry<K, V>,
    high: BinEntry<K, V>,
) -> bool {
    match b {
        BinEntry::Node(chain) => chain.len() > 0 ==> chain_split(chain@, n, low@, high@),
        BinEntry::Tree(tree) => ordering_split(tree.nodes@, n, low@, high@),
        _ => low@.len() == 0 && high@.len() == 0,
    }
}

/// Wraps a list of entries as a bin: no bin for no entries, a chain for a
/// few, a tree bin for more than `UNTREEIFY_THRESHOLD`.
fn bin_of_list<K: Ord, V>(list: Vec<Node<K, V>>) -> (r: BinEntry<K, V>)
    requires
        key_laws::<K>(),
        distinct_slots(list@),
    ensures
        r.wf(),
        !(r is Moved),
        r.map() == entries_map(list@),
        r@ == list@,
        distinct_slots(r.stored()),
        r.stored().len() == list.len(),
        forall|k: int| 0 <= k < r.stored().len() ==> occurs_in(#[trigger] r.stored()[k], list@),
{
    if list.len() == 0 {
        let r = BinEntry::Empty;
        proof {
            assert(r.stored() =~= list@);
        }
        r
    } else if list.len() <= UNTREEIFY_THRESHOLD {
        proof {
            assert forall|k: int| 0 <= k < list.len() implies occurs_in(#[trigger] list[k], list@) by {
                assert(list@[k] == list[k]);
            }
        }
        BinEntry::Node(list)
    } else {
        let ghost l = list@;
        let tree = TreeBin::new(list);
        proof {
            lemma_entries_map_reverse(tree.nodes@);
            assert forall|k: int| 0 <= k < tree.nodes.len() implies occurs_in(
                #[trigger] tree.nodes[k],
                l,
            ) by {
                assert(l[l.len() - 1 - k] == tree.nodes[k]);
            }
        }
        BinEntry::Tree(tree)
    }
}

/// Splits one bin between the lower and the upper bin of a table of twice
/// the size.
///
/// A chain is split as `split_chain` says. The entries of a tree bin are
/// split in their linked ordering; a half of more than `UNTREEIFY_THRESHOLD`
/// entries becomes a tree bin again, a smaller one a chain, and a tree bin
/// whose entries all go the same way is kept as it is.
pub fn split_bin<K: Ord, V>(bin: BinEntry<K, V>, n: usize) -> (r: (BinEntry<K, V>, BinEntry<K, V>))
    requires
        key_laws::<K>(),
        bin.wf(),
        !(bin is Moved),
    ensures
        halves(bin, n, r.0, r.1),
        halves_in_order(bin, n, r.0, r.1),
{
    match bin {
        BinEntry::Empty => {
            proof {
                lemma_one_sided(bin, n, false);
            }
            (BinEntry::Empty, BinEntry::Empty)
        },
        BinEntry::Moved => (BinEntry::Empty, BinEntry::Empty),
        BinEntry::Node(chain) => {
            let ghost whole = chain@;
            let parts = split_chain(chain, n);
            let low = if parts.0.len() == 0 {
                BinEntry::Empty
            } else {
                BinEntry::Node(parts.0)
            };
            let high = if parts.1.len() == 0 {
                BinEntry::Empty
            } else {
                BinEntry::Node(parts.1)
            };
            proof {
                assert(low.stored() =~= parts.0@);
                assert(high.stored() =~= parts.1@);
                assert(low@ =~= parts.0@);
                assert(high@ =~= parts.1@);
            }
            (low, high)
        },
        BinEntry::Tree(tree) => {
            let total = tree.nodes.len();
            let up = count_high(&tree.nodes, n);
            if up == 0 && total > UNTREEIFY_THRESHOLD {
                proof {
                    lemma_one_sided(bin, n, false);
                    lemma_picked_all(tree.nodes@, n, false);
                }
                (BinEntry::Tree(tree), BinEntry::Empty)
            } else if up == total && total > UNTREEIFY_THRESHOLD {
                proof {
                    lemma_one_sided(bin, n, true);
                    lemma_picked_all(tree.nodes@, n, true);
                }
                (BinEntry::Empty, BinEntry::Tree(tree))
            } else {
                let ghost whole = tree.nodes@;
                let parts = split_tree_nodes(tree.nodes, n);
                let ghost lo = parts.0@;
                let ghost hi = parts.1@;
                let low = bin_of_list(parts.0);
                let high = bin_of_list(parts.1);
                proof {
                    lemma_rewrapped(whole, n, lo, hi, low.stored(), high.stored());
                }
                (low, high)
            }
        },
    }
}

/// A split stays a split when each half is stored in another order.
pub proof fn lemma_rewrapped<K, V>(
    whole: Seq<Node<K, V>>,
    n: usize,
    low: Seq<Node<K, V>>,
    high: Seq<Node<K, V>>,
    low2: Seq<Node<K, V>>,
    high2: Seq<Node<K, V>>,
)
    requires
        split_of(whole, n, low, high),
        distinct_slots(low2),
        distinct_slots(high2),
        low2.len() == low.len(),
        high2.len() == high.len(),
        entries_map(low2) == entries_map(low),
        entries_map(high2) == entries_map(high),
        forall|k: int| 0 <= k < low2.len() ==> occurs_in(#[trigger] low2[k], low),
        forall|k: int| 0 <= k < high2.len() ==> occurs_in(#[trigger] high2[k], high),
    ensures
        split_of(whole, n, low2, high2),
{
    assert forall|slot: (u64, K)| has_slot(low2, slot) == has_slot(low, slot) by {
        assert(entries_map(low2).dom().contains(slot) == has_slot(low2, slot));
        assert(entries_map(low).dom().contains(slot) == has_slot(low, slot));
    }
    assert forall|slot: (u64, K)| has_slot(high2, slot) == has_slot(high, slot) by {
        assert(entries_map(high2).dom().contains(slot) == has_slot(high2, slot));
        assert(entries_map(high).dom().contains(slot) == has_slot(high, slot));
    }
    assert forall|k: int| 0 <= k < low2.len() implies !goes_high(#[trigger] low2[k].hash, n) by {
        let j = choose|j: int| 0 <= j < low.len() && low[j] == low2[k];
        assert(!goes_high(low[j].hash, n));
    }
    assert forall|k: int| 0 <= k < high2.len() implies goes_high(#[trigger] high2[k].hash, n) by {
        let j = choose|j: int| 0 <= j < high.len() && high[j] == high2[k];
        assert(goes_high(high[j].hash, n));
    }
}

} // verus!
