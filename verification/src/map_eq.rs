//! Comparing two maps.
use vstd::prelude::*;
use vstd::std_specs::cmp::PartialEqSpec;
use core::hash::BuildHasher;
use core::hash::Hash;
use crate::map::HashMap;
use crate::node::entries_map;
use crate::node::lemma_entries_map_at;
use crate::node::slot_index;

verus! {

/// The map `theirs` holds, under the hash `h`, a value for `key` that
/// equals `value`.
pub open spec fn matched<K, V: PartialEq>(theirs: Map<(u64, K), V>, h: u64, key: K, value: V) -> bool {
    theirs.dom().contains((h, key)) && value.eq_spec(&theirs[(h, key)])
}

/// For some hash, `theirs` holds a value for `key` that equals `value`.
pub open spec fn has_match<K, V: PartialEq>(theirs: Map<(u64, K), V>, key: K, value: V) -> bool {
    exists|h: u64| #[trigger] matched(theirs, h, key, value)
}

/// For some hash, `theirs` holds no value for `key` that equals `value`.
pub open spec fn lacks_match<K, V: PartialEq>(theirs: Map<(u64, K), V>, key: K, value: V) -> bool {
    exists|h: u64| !#[trigger] matched(theirs, h, key, value)
}

impl<K: Hash + Ord, V: PartialEq, S: BuildHasher> HashMap<K, V, S> {
    /// Whether the two maps have as many entries, and every entry of this
    /// map was found in `other` with an equal value, each key under the
    /// hash that the hasher of `other` gave it. The entries are probed in
    /// the order of a traversal, up to the first that is not matched.
    pub fn guarded_eq(&self, other: &Self) -> (r: bool)
        requires
            self.wf(),
            other.wf(),
            V::obeys_eq_spec(),
        ensures
            r ==> self@.len() == other@.len() && forall|slot: (u64, K)| #[trigger]
                self@.dom().contains(slot) ==> has_match(other@, slot.1, self@[slot]),
            !r ==> self@.len() != other@.len() || exists|slot: (u64, K)| #[trigger]
                self@.dom().contains(slot) && lacks_match(other@, slot.1, self@[slot]),
    {
        if self.len() != other.len() {
            return false;
        }
        let ghost trav = self.table.traversal();
        let mut it = self.iter();
        let ghost mut idx: int = 0;
        loop
            invariant
                self.wf(),
                other.wf(),
                V::obeys_eq_spec(),
                self@.len() == other@.len(),
                it.node_iter.wf(),
                0 <= idx <= trav.len(),
                it.node_iter.remaining() == trav.skip(idx),
                trav == self.table.traversal(),
                forall|k: int|
                    0 <= k < idx ==> has_match(other@, (#[trigger] trav[k]).key, trav[k].value),
            decreases trav.len() - idx,
        {
            match it.next() {
                None => {
                    proof {
                        assert(idx == trav.len());
                        assert forall|slot: (u64, K)| #[trigger]
                            self@.dom().contains(slot) implies has_match(
                            other@,
                            slot.1,
                            self@[slot],
                        ) by {
                            self.table.lemma_traversal();
                            assert(entries_map(trav).dom().contains(slot));
                            let k = slot_index(trav, slot);
                            lemma_entries_map_at(trav, k);
                            assert(trav[k].key == slot.1);
                        }
                    }
                    return true;
                },
                Some(kv) => {
                    proof {
                        assert(trav.skip(idx)[0] == trav[idx]);
                        assert(trav.skip(idx).skip(1) =~= trav.skip(idx + 1));
                    }
                    let h = other.hash(kv.0);
                    let same = match other.get_hashed(h, kv.0) {
                        Some(v) => *kv.1 == *v,
                        None => false,
                    };
                    if !same {
                        proof {
                            self.table.lemma_traversal();
                            let slot = trav[idx].slot();
                            lemma_entries_map_at(trav, idx);
                            assert(!matched(other@, h, slot.1, self@[slot]));
                            assert(self@.dom().contains(slot) && lacks_match(
                                other@,
                                slot.1,
                                self@[slot],
                            ));
                        }
                        return false;
                    }
                    proof {
                        assert(matched(other@, h, trav[idx].key, trav[idx].value));
                        idx = idx + 1;
                    }
                },
            }
        }
    }
}

} // verus!
