//! Splitting the entries of one bin between the two bins that take its
//! place in a table of twice the size.
use vstd::prelude::*;
use crate::node::distinct_slots;
use crate::node::entries_map;
use crate::node::has_slot;
use crate::node::lemma_entries_map_at;
use crate::node::slot_index;
use crate::node::Node;

verus! {

/// Whether an entry with this hash goes to the upper of the two bins when a
/// table of `n` bins doubles: the bit of the hash at `n` decides.
pub open spec fn goes_high(hash: u64, n: usize) -> bool {
    hash & (n as u64) != 0
}

/// Reads the bit of `hash` that decides between the two bins.
pub fn run_bit(hash: u64, n: usize) -> (r: bool)
    ensures
        r == goes_high(hash, n),
{
    hash & (n as u64) != 0
}

/// `part` is made of entries of `whole`, each taken from a position of its
/// own: `src` names the positions.
pub open spec fn embeds<K, V>(part: Seq<Node<K, V>>, src: Seq<int>, whole: Seq<Node<K, V>>) -> bool {
    &&& part.len() == src.len()
    &&& forall|k: int|
        0 <= k < part.len() ==> 0 <= #[trigger] src[k] < whole.len() && part[k] == whole[src[k]]
    &&& forall|k1: int, k2: int|
        0 <= k1 < src.len() && 0 <= k2 < src.len() && k1 != k2 ==> #[trigger] src[k1]
            != #[trigger] src[k2]
}

/// `low` and `high` hold the entries of `whole` between them, each entry
/// once: in `low` those whose hash has the bit at `n` clear, in `high` the
/// others.
pub open spec fn split_of<K, V>(
    whole: Seq<Node<K, V>>,
    n: usize,
    low: Seq<Node<K, V>>,
    high: Seq<Node<K, V>>,
) -> bool {
    &&& distinct_slots(low)
    &&& distinct_slots(high)
    &&& low.len() + high.len() == whole.len()
    &&& forall|k: int| 0 <= k < low.len() ==> !goes_high(#[trigger] low[k].hash, n)
    &&& forall|k: int| 0 <= k < high.len() ==> goes_high(#[trigger] high[k].hash, n)
    &&& forall|slot: (u64, K)|
        has_slot(whole, slot) <==> has_slot(low, slot) || has_slot(high, slot)
    &&& forall|slot: (u64, K)|
        has_slot(low, slot) ==> #[trigger] entries_map(low)[slot] == entries_map(whole)[slot]
    &&& forall|slot: (u64, K)|
        has_slot(high, slot) ==> #[trigger] entries_map(high)[slot] == entries_map(whole)[slot]
}

/// Two runs that embed into `whole`, sorted by the deciding bit and
/// covering every position of `whole`, are a split of `whole`.
pub proof fn lemma_split_of<K, V>(
    whole: Seq<Node<K, V>>,
    n: usize,
    low: Seq<Node<K, V>>,
    high: Seq<Node<K, V>>,
    src_low: Seq<int>,
    src_high: Seq<int>,
    place: Seq<int>,
)
    requires
        distinct_slots(whole),
        embeds(low, src_low, whole),
        embeds(high, src_high, whole),
        low.len() + high.len() == whole.len(),
        place.len() == whole.len(),
        forall|k: int| 0 <= k < low.len() ==> !goes_high(#[trigger] low[k].hash, n),
        forall|k: int| 0 <= k < high.len() ==> goes_high(#[trigger] high[k].hash, n),
        forall|j: int|
            0 <= j < whole.len() ==> if goes_high(whole[j].hash, n) {
                0 <= #[trigger] place[j] < high.len() && src_high[place[j]] == j
            } else {
                0 <= place[j] < low.len() && src_low[place[j]] == j
            },
    ensures
        split_of(whole, n, low, high),
{
    assert forall|a: int, b: int|
        0 <= a < low.len() && 0 <= b < low.len() && a != b implies #[trigger] low[a].slot()
        != #[trigger] low[b].slot() by {
        assert(src_low[a] != src_low[b]);
        assert(whole[src_low[a]].slot() != whole[src_low[b]].slot());
    }
    assert forall|a: int, b: int|
        0 <= a < high.len() && 0 <= b < high.len() && a != b implies #[trigger] high[a].slot()
        != #[trigger] high[b].slot() by {
        assert(src_high[a] != src_high[b]);
        assert(whole[src_high[a]].slot() != whole[src_high[b]].slot());
    }
    assert forall|slot: (u64, K)|
        has_slot(whole, slot) <==> has_slot(low, slot) || has_slot(high, slot) by {
        if has_slot(whole, slot) {
            let j = slot_index(whole, slot);
            let k = place[j];
            if goes_high(whole[j].hash, n) {
                assert(high[k].slot() == slot);
            } else {
                assert(low[k].slot() == slot);
            }
        }
        if has_slot(low, slot) {
            let k = slot_index(low, slot);
            assert(whole[src_low[k]].slot() == slot);
        }
        if has_slot(high, slot) {
            let k = slot_index(high, slot);
            assert(whole[src_high[k]].slot() == slot);
        }
    }
    assert forall|slot: (u64, K)| has_slot(low, slot) implies #[trigger] entries_map(low)[slot]
        == entries_map(whole)[slot] by {
        let k = slot_index(low, slot);
        lemma_entries_map_at(low, k);
        lemma_entries_map_at(whole, src_low[k]);
    }
    assert forall|slot: (u64, K)| has_slot(high, slot) implies #[trigger] entries_map(high)[slot]
        == entries_map(whole)[slot] by {
        let k = slot_index(high, slot);
        lemma_entries_map_at(high, k);
        lemma_entries_map_at(whole, src_high[k]);
    }
}

/// The entries of `s` that go the way `high`, the last of them first.
pub open spec fn picked_reversed<K, V>(s: Seq<Node<K, V>>, n: usize, high: bool) -> Seq<Node<K, V>>
    decreases s.len(),
{
    if s.len() == 0 {
        Seq::empty()
    } else {
        let rest = picked_reversed(s.drop_last(), n, high);
        if goes_high(s.last().hash, n) == high {
            seq![s.last()] + rest
        } else {
            rest
        }
    }
}

/// Putting an entry in front of a run puts it behind the picked entries of
/// the run, if it is picked itself.
pub proof fn lemma_picked_front<K, V>(x: Node<K, V>, s: Seq<Node<K, V>>, n: usize, high: bool)
    ensures
        picked_reversed(seq![x] + s, n, high) == picked_reversed(s, n, high) + if goes_high(
            x.hash,
            n,
        ) == high {
            seq![x]
        } else {
            Seq::empty()
        },
    decreases s.len(),
{
    let whole = seq![x] + s;
    let tail = if goes_high(x.hash, n) == high {
        seq![x]
    } else {
        Seq::<Node<K, V>>::empty()
    };
    if s.len() == 0 {
        assert(whole.drop_last() =~= Seq::<Node<K, V>>::empty());
        assert(picked_reversed(whole.drop_last(), n, high) =~= Seq::<Node<K, V>>::empty());
        assert(picked_reversed(s, n, high) =~= Seq::<Node<K, V>>::empty());
        assert(whole.last() == x);
        assert(picked_reversed(whole, n, high) =~= picked_reversed(s, n, high) + tail);
    } else {
        assert(whole.drop_last() =~= seq![x] + s.drop_last());
        assert(whole.last() == s.last());
        lemma_picked_front(x, s.drop_last(), n, high);
        assert(picked_reversed(whole, n, high) =~= picked_reversed(s, n, high) + tail);
    }
}

/// A run whose entries all go one way is picked whole, reversed, for that
/// way, and not at all for the other.
pub proof fn lemma_picked_all<K, V>(s: Seq<Node<K, V>>, n: usize, high: bool)
    requires
        forall|j: int| 0 <= j < s.len() ==> goes_high(#[trigger] s[j].hash, n) == high,
    ensures
        picked_reversed(s, n, high) == s.reverse(),
        picked_reversed(s, n, !high) == Seq::<Node<K, V>>::empty(),
    decreases s.len(),
{
    if s.len() == 0 {
        assert(s.reverse() =~= Seq::<Node<K, V>>::empty());
    } else {
        lemma_picked_all(s.drop_last(), n, high);
        assert(goes_high(s[s.len() - 1].hash, n) == high);
        assert(s.reverse() =~= seq![s.last()] + s.drop_last().reverse());
    }
}

/// The position at which the run that holds position `p` starts: the run
/// of neighbours that go the same way as the entry at `p`.
pub open spec fn run_start<K, V>(s: Seq<Node<K, V>>, n: usize, p: int) -> int
    decreases p,
{
    if p <= 0 || goes_high(s[p - 1].hash, n) != goes_high(s[p].hash, n) {
        p
    } else {
        run_start(s, n, p - 1)
    }
}

/// How a chain is split. The run at its end is kept in order and ends the
/// half that it goes to; the entries before the run go in front of it, or
/// make up the other half, the last of them first.
pub open spec fn chain_split<K, V>(
    chain: Seq<Node<K, V>>,
    n: usize,
    low: Seq<Node<K, V>>,
    high: Seq<Node<K, V>>,
) -> bool {
    let start = run_start(chain, n, chain.len() - 1);
    let front = chain.subrange(0, start);
    let run = chain.subrange(start, chain.len() as int);
    if goes_high(chain.last().hash, n) {
        low == picked_reversed(front, n, false) && high == picked_reversed(front, n, true) + run
    } else {
        low == picked_reversed(front, n, false) + run && high == picked_reversed(front, n, true)
    }
}

/// How the entries of a tree bin are split: each half holds its entries in
/// the linked ordering, which is the stored order reversed.
pub open spec fn ordering_split<K, V>(
    nodes: Seq<Node<K, V>>,
    n: usize,
    low: Seq<Node<K, V>>,
    high: Seq<Node<K, V>>,
) -> bool {
    low == picked_reversed(nodes, n, false) && high == picked_reversed(nodes, n, true)
}

/// Splits a chain between the lower and the upper bin.
///
/// The longest run at the end of the chain whose entries all go the same
/// way is kept as it stands and ends the bin that it goes to; the entries
/// before it are put in front, one by one from the head of the chain on.
pub fn split_chain<K, V>(chain: Vec<Node<K, V>>, n: usize) -> (r: (Vec<Node<K, V>>, Vec<Node<K, V>>))
    requires
        distinct_slots(chain@),
        chain.len() > 0,
    ensures
        split_of(chain@, n, r.0@, r.1@),
        chain_split(chain@, n, r.0@, r.1@),
{
    let mut chain = chain;
    let ghost whole = chain@;
    let len = chain.len();
    let mut bit = run_bit(chain[0].hash, n);
    let mut last_run: usize = 0;
    let mut p: usize = 1;
    while p < len
        invariant
            1 <= p <= len,
            len == chain.len(),
            chain@ == whole,
            last_run < p,
            forall|j: int| last_run <= j < p ==> goes_high(#[trigger] whole[j].hash, n) == bit,
            last_run == run_start(whole, n, p - 1),
        decreases len - p,
    {
        let b = run_bit(chain[p].hash, n);
        if b != bit {
            bit = b;
            last_run = p;
        }
        p = p + 1;
    }
    let mut run = chain.split_off(last_run);
    let mut low: Vec<Node<K, V>> = Vec::new();
    let mut high: Vec<Node<K, V>> = Vec::new();
    let ghost mut src_low: Seq<int> = Seq::empty();
    let ghost mut src_high: Seq<int> = Seq::empty();
    let ghost mut place: Seq<int> = Seq::new(whole.len(), |j: int| 0int);
    let ghost front = whole.subrange(0, last_run as int);
    proof {
        assert(front.subrange(last_run as int, last_run as int) =~= Seq::<Node<K, V>>::empty());
    }
    while chain.len() > 0
        invariant
            chain.len() <= last_run < whole.len(),
            chain@ == whole.subrange(0, chain.len() as int),
            front == whole.subrange(0, last_run as int),
            low@ == picked_reversed(front.subrange(chain.len() as int, last_run as int), n, false),
            high@ == picked_reversed(front.subrange(chain.len() as int, last_run as int), n, true),
            place.len() == whole.len(),
            embeds(low@, src_low, whole),
            embeds(high@, src_high, whole),
            low.len() + high.len() + chain.len() == last_run,
            forall|k: int| 0 <= k < src_low.len() ==> chain.len() <= #[trigger] src_low[k] < last_run,
            forall|k: int|
                0 <= k < src_high.len() ==> chain.len() <= #[trigger] src_high[k] < last_run,
            forall|k: int| 0 <= k < low.len() ==> !goes_high(#[trigger] low[k].hash, n),
            forall|k: int| 0 <= k < high.len() ==> goes_high(#[trigger] high[k].hash, n),
            forall|j: int|
                chain.len() <= j < last_run ==> if goes_high(whole[j].hash, n) {
                    0 <= #[trigger] place[j] < high.len() && src_high[place[j]] == j
                } else {
                    0 <= place[j] < low.len() && src_low[place[j]] == j
                },
        decreases chain.len(),
    {
        let ghost j = chain.len() - 1;
        let node = chain.pop().unwrap();
        assert(node == whole[j]);
        proof {
            let behind = front.subrange(j + 1, last_run as int);
            assert(front.subrange(j, last_run as int) =~= seq![node] + behind);
            lemma_picked_front(node, behind, n, false);
            lemma_picked_front(node, behind, n, true);
        }
        if run_bit(node.hash, n) {
            proof {
                place = place.update(j, high.len() as int);
                src_high = src_high.push(j);
            }
            high.push(node);
        } else {
            proof {
                place = place.update(j, low.len() as int);
                src_low = src_low.push(j);
            }
            low.push(node);
        }
    }
    proof {
        assert(front.subrange(0, last_run as int) =~= front);
    }
    let ghost low0 = low@.len();
    let ghost high0 = high@.len();
    assert(run@ == whole.subrange(last_run as int, whole.len() as int));
    if bit {
        high.append(&mut run);
        proof {
            let extra = Seq::new((whole.len() - last_run) as nat, |k: int| last_run + k);
            src_high = src_high + extra;
            place = Seq::new(
                whole.len(),
                |j: int| if j >= last_run { high0 + (j - last_run) } else { place[j] },
            );
        }
    } else {
        low.append(&mut run);
        proof {
            let extra = Seq::new((whole.len() - last_run) as nat, |k: int| last_run + k);
            src_low = src_low + extra;
            place = Seq::new(
                whole.len(),
                |j: int| if j >= last_run { low0 + (j - last_run) } else { place[j] },
            );
        }
    }
    proof {
        lemma_split_of(whole, n, low@, high@, src_low, src_high, place);
    }
    (low, high)
}

/// Splits the entries of a tree bin, taken in their linked ordering,
/// between the lower and the upper bin; each part keeps that ordering.
pub fn split_tree_nodes<K, V>(nodes: Vec<Node<K, V>>, n: usize) -> (r: (
    Vec<Node<K, V>>,
    Vec<Node<K, V>>,
))
    requires
        distinct_slots(nodes@),
    ensures
        split_of(nodes@, n, r.0@, r.1@),
        ordering_split(nodes@, n, r.0@, r.1@),
{
    let mut nodes = nodes;
    let ghost whole = nodes@;
    let mut low: Vec<Node<K, V>> = Vec::new();
    let mut high: Vec<Node<K, V>> = Vec::new();
    let ghost mut src_low: Seq<int> = Seq::empty();
    let ghost mut src_high: Seq<int> = Seq::empty();
    let ghost mut place: Seq<int> = Seq::new(whole.len(), |j: int| 0int);
    proof {
        assert(whole.subrange(whole.len() as int, whole.len() as int) =~= Seq::<
            Node<K, V>,
        >::empty());
    }
    while nodes.len() > 0
        invariant
            nodes.len() <= whole.len(),
            nodes@ == whole.subrange(0, nodes.len() as int),
            low@ == picked_reversed(whole.subrange(nodes.len() as int, whole.len() as int), n, false),
            high@ == picked_reversed(whole.subrange(nodes.len() as int, whole.len() as int), n, true),
            place.len() == whole.len(),
            embeds(low@, src_low, whole),
            embeds(high@, src_high, whole),
            low.len() + high.len() + nodes.len() == whole.len(),
            forall|k: int| 0 <= k < src_low.len() ==> nodes.len() <= #[trigger] src_low[k],
            forall|k: int| 0 <= k < src_high.len() ==> nodes.len() <= #[trigger] src_high[k],
            forall|k: int| 0 <= k < low.len() ==> !goes_high(#[trigger] low[k].hash, n),
            forall|k: int| 0 <= k < high.len() ==> goes_high(#[trigger] high[k].hash, n),
            forall|j: int|
                nodes.len() <= j < whole.len() ==> if goes_high(whole[j].hash, n) {
                    0 <= #[trigger] place[j] < high.len() && src_high[place[j]] == j
                } else {
                    0 <= place[j] < low.len() && src_low[place[j]] == j
                },
        decreases nodes.len(),
    {
        let ghost j = nodes.len() - 1;
        let node = nodes.pop().unwrap();
        assert(node == whole[j]);
        proof {
            let behind = whole.subrange(j + 1, whole.len() as int);
            assert(whole.subrange(j, whole.len() as int) =~= seq![node] + behind);
            lemma_picked_front(node, behind, n, false);
            lemma_picked_front(node, behind, n, true);
        }
        if run_bit(node.hash, n) {
            proof {
                place = place.update(j, high.len() as int);
                src_high = src_high.push(j);
            }
            high.push(node);
        } else {
            proof {
                place = place.update(j, low.len() as int);
                src_low = src_low.push(j);
            }
            low.push(node);
        }
    }
    proof {
        assert(whole.subrange(0, whole.len() as int) =~= whole);
        lemma_split_of(whole, n, low@, high@, src_low, src_high, place);
    }
    (low, high)
}

} // verus!
