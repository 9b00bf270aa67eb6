//! The cells that bins are made of.
use vstd::prelude::*;

verus! {

/// One entry of a bin: a key with its cached hash and its value.
pub struct Node<K, V> {
    pub hash: u64,
    pub key: K,
    pub value: V,
}

impl<K, V> Node<K, V> {
    /// The `(hash, key)` pair under which this entry is found.
    pub open spec fn slot(self) -> (u64, K) {
        (self.hash, self.key)
    }

    pub fn new(hash: u64, key: K, value: V) -> (n: Self)
        ensures
            n.hash == hash,
            n.key == key,
            n.value == value,
    {
        Node { hash, key, value }
    }
}

/// The `(hash, key)` pairs of a run of entries, in the same order.
pub open spec fn slots<K, V>(s: Seq<Node<K, V>>) -> Seq<(u64, K)> {
    Seq::new(s.len(), |i: int| s[i].slot())
}

/// No `(hash, key)` pair occurs twice in `s`.
pub open spec fn distinct_slots<K, V>(s: Seq<Node<K, V>>) -> bool {
    forall|i: int, j: int|
        0 <= i < s.len() && 0 <= j < s.len() && i != j ==> #[trigger] s[i].slot()
            != #[trigger] s[j].slot()
}

/// `s` holds an entry stored under `slot`.
pub open spec fn has_slot<K, V>(s: Seq<Node<K, V>>, slot: (u64, K)) -> bool {
    exists|i: int| 0 <= i < s.len() && #[trigger] s[i].slot() == slot
}

/// The position in `s` of the entry stored under `slot`.
pub open spec fn slot_index<K, V>(s: Seq<Node<K, V>>, slot: (u64, K)) -> int {
    choose|i: int| 0 <= i < s.len() && #[trigger] s[i].slot() == slot
}

/// The entries of `s` as a finite map from `(hash, key)` to value.
pub open spec fn entries_map<K, V>(s: Seq<Node<K, V>>) -> Map<(u64, K), V> {
    Map::new(|slot: (u64, K)| has_slot(s, slot), |slot: (u64, K)| s[slot_index(s, slot)].value)
}

/// In a run without repeated pairs, the entry at position `i` is the one that
/// the map view shows under its pair.
pub proof fn lemma_entries_map_at<K, V>(s: Seq<Node<K, V>>, i: int)
    requires
        distinct_slots(s),
        0 <= i < s.len(),
    ensures
        has_slot(s, s[i].slot()),
        slot_index(s, s[i].slot()) == i,
        entries_map(s).dom().contains(s[i].slot()),
        entries_map(s)[s[i].slot()] == s[i].value,
{
    let slot = s[i].slot();
    assert(s[i].slot() == slot);
    let j = slot_index(s, slot);
    assert(s[j].slot() == slot);
}

/// Appending an entry under a new pair inserts it into the map view.
pub proof fn lemma_entries_map_push<K, V>(s: Seq<Node<K, V>>, n: Node<K, V>)
    requires
        distinct_slots(s),
        !has_slot(s, n.slot()),
    ensures
        distinct_slots(s.push(n)),
        entries_map(s.push(n)) == entries_map(s).insert(n.slot(), n.value),
{
    let s2 = s.push(n);
    assert forall|i: int, j: int| 0 <= i < s2.len() && 0 <= j < s2.len() && i != j implies #[trigger] s2[i].slot() != #[trigger] s2[j].slot() by {
        if i < s.len() && j < s.len() {
            assert(s[i].slot() != s[j].slot());
        } else if i < s.len() {
            assert(s[i].slot() == s2[i].slot());
        } else {
            assert(s[j].slot() == s2[j].slot());
        }
    }
    assert forall|slot: (u64, K)| has_slot(s2, slot) <==> (has_slot(s, slot) || slot == n.slot()) by {
        if has_slot(s2, slot) {
            let i = slot_index(s2, slot);
            if i < s.len() {
                assert(s[i].slot() == slot);
            }
        }
        if has_slot(s, slot) {
            let i = slot_index(s, slot);
            assert(s2[i].slot() == slot);
        }
        if slot == n.slot() {
            assert(s2[s.len() as int].slot() == slot);
        }
    }
    assert forall|slot: (u64, K)| has_slot(s2, slot) implies #[trigger] entries_map(s2)[slot] == entries_map(s).insert(n.slot(), n.value)[slot] by {
        let i = slot_index(s2, slot);
        lemma_entries_map_at(s2, i);
        if i < s.len() {
            assert(s[i].slot() == slot);
            lemma_entries_map_at(s, i);
        }
    }
    assert(entries_map(s2) =~= entries_map(s).insert(n.slot(), n.value));
}

/// Taking the entry at position `i` out removes its pair from the map view.
pub proof fn lemma_entries_map_remove<K, V>(s: Seq<Node<K, V>>, i: int)
    requires
        distinct_slots(s),
        0 <= i < s.len(),
    ensures
        distinct_slots(s.remove(i)),
        entries_map(s.remove(i)) == entries_map(s).remove(s[i].slot()),
{
    let s2 = s.remove(i);
    assert forall|a: int, b: int| 0 <= a < s2.len() && 0 <= b < s2.len() && a != b implies #[trigger] s2[a].slot() != #[trigger] s2[b].slot() by {
        let a1 = if a < i { a } else { a + 1 };
        let b1 = if b < i { b } else { b + 1 };
        assert(s[a1].slot() != s[b1].slot());
    }
    assert forall|slot: (u64, K)| has_slot(s2, slot) <==> (has_slot(s, slot) && slot != s[i].slot()) by {
        if has_slot(s2, slot) {
            let a = slot_index(s2, slot);
            let a1 = if a < i { a } else { a + 1 };
            assert(s[a1].slot() == slot);
            assert(s[a1].slot() != s[i].slot());
        }
        if has_slot(s, slot) && slot != s[i].slot() {
            let a1 = slot_index(s, slot);
            let a = if a1 < i { a1 } else { a1 - 1 };
            assert(s2[a].slot() == slot);
        }
    }
    assert forall|slot: (u64, K)| has_slot(s2, slot) implies #[trigger] entries_map(s2)[slot] == entries_map(s)[slot] by {
        let a = slot_index(s2, slot);
        lemma_entries_map_at(s2, a);
        let a1 = if a < i { a } else { a + 1 };
        assert(s[a1].slot() == slot);
        lemma_entries_map_at(s, a1);
    }
    assert(entries_map(s2) =~= entries_map(s).remove(s[i].slot()));
}

/// Replacing the value of the entry at position `i` overwrites its pair in
/// the map view.
pub proof fn lemma_entries_map_update<K, V>(s: Seq<Node<K, V>>, i: int, n: Node<K, V>)
    requires
        distinct_slots(s),
        0 <= i < s.len(),
        n.slot() == s[i].slot(),
    ensures
        distinct_slots(s.update(i, n)),
        slots(s.update(i, n)) == slots(s),
        entries_map(s.update(i, n)) == entries_map(s).insert(n.slot(), n.value),
{
    let s2 = s.update(i, n);
    assert forall|a: int| 0 <= a < s.len() implies #[trigger] s2[a].slot() == s[a].slot() by {}
    assert forall|a: int, b: int| 0 <= a < s2.len() && 0 <= b < s2.len() && a != b implies #[trigger] s2[a].slot() != #[trigger] s2[b].slot() by {
        assert(s[a].slot() != s[b].slot());
    }
    assert(slots(s2) =~= slots(s));
    assert forall|slot: (u64, K)| has_slot(s2, slot) <==> has_slot(s, slot) by {
        if has_slot(s2, slot) {
            let a = slot_index(s2, slot);
            assert(s[a].slot() == slot);
        }
        if has_slot(s, slot) {
            let a = slot_index(s, slot);
            assert(s2[a].slot() == slot);
        }
    }
    assert(s[i].slot() == n.slot());
    assert forall|slot: (u64, K)| has_slot(s2, slot) implies #[trigger] entries_map(s2)[slot] == entries_map(s).insert(n.slot(), n.value)[slot] by {
        let a = slot_index(s2, slot);
        lemma_entries_map_at(s2, a);
        assert(s[a].slot() == slot);
        lemma_entries_map_at(s, a);
    }
    assert(entries_map(s2) =~= entries_map(s).insert(n.slot(), n.value));
}

/// The map view does not depend on the order of the entries.
pub proof fn lemma_entries_map_reverse<K, V>(s: Seq<Node<K, V>>)
    requires
        distinct_slots(s),
    ensures
        distinct_slots(s.reverse()),
        entries_map(s.reverse()) == entries_map(s),
{
    let s2 = s.reverse();
    assert forall|a: int, b: int| 0 <= a < s2.len() && 0 <= b < s2.len() && a != b implies #[trigger] s2[a].slot() != #[trigger] s2[b].slot() by {
        assert(s[s.len() - 1 - a].slot() != s[s.len() - 1 - b].slot());
    }
    assert forall|slot: (u64, K)| has_slot(s2, slot) <==> has_slot(s, slot) by {
        if has_slot(s2, slot) {
            let a = slot_index(s2, slot);
            assert(s[s.len() - 1 - a].slot() == slot);
        }
        if has_slot(s, slot) {
            let a = slot_index(s, slot);
            assert(s2[s.len() - 1 - a].slot() == slot);
        }
    }
    assert forall|slot: (u64, K)| has_slot(s2, slot) implies #[trigger] entries_map(s2)[slot] == entries_map(s)[slot] by {
        let a = slot_index(s2, slot);
        lemma_entries_map_at(s2, a);
        assert(s[s.len() - 1 - a].slot() == slot);
        lemma_entries_map_at(s, s.len() - 1 - a);
    }
    assert(entries_map(s2) =~= entries_map(s));
}

/// The entries of `v` in the opposite order.
pub fn reversed<K, V>(v: Vec<Node<K, V>>) -> (r: Vec<Node<K, V>>)
    ensures
        r@ == v@.reverse(),
{
    let mut v = v;
    let ghost v0 = v@;
    let mut r: Vec<Node<K, V>> = Vec::new();
    while v.len() > 0
        invariant
            v.len() + r.len() == v0.len(),
            forall|i: int| 0 <= i < v.len() ==> v@[i] == v0[i],
            forall|i: int| 0 <= i < r.len() ==> r@[i] == v0[v0.len() - 1 - i],
        decreases v.len(),
    {
        let n = v.pop().unwrap();
        r.push(n);
    }
    assert(r@ =~= v0.reverse());
    r
}

/// A run without repeated pairs shows as many pairs as it has entries.
pub proof fn lemma_entries_map_len<K, V>(s: Seq<Node<K, V>>)
    requires
        distinct_slots(s),
    ensures
        entries_map(s).dom().finite(),
        entries_map(s).dom().len() == s.len(),
    decreases s.len(),
{
    if s.len() == 0 {
        assert(entries_map(s).dom() =~= Set::<(u64, K)>::empty());
    } else {
        let front = s.drop_last();
        let x = s.last();
        assert(s =~= front.push(x));
        assert forall|i: int, j: int|
            0 <= i < front.len() && 0 <= j < front.len() && i != j implies #[trigger] front[i].slot()
            != #[trigger] front[j].slot() by {
            assert(s[i].slot() != s[j].slot());
        }
        if has_slot(front, x.slot()) {
            let i = slot_index(front, x.slot());
            assert(s[i].slot() == s[s.len() - 1].slot());
        }
        lemma_entries_map_len(front);
        lemma_entries_map_push(front, x);
        assert(entries_map(s).dom() =~= entries_map(front).dom().insert(x.slot()));
    }
}

} // verus!
