//! Writing many entries at once.
use vstd::prelude::*;
use core::hash::BuildHasher;
use core::hash::Hash;
use crate::map::HashMap;
use crate::order::key_laws;

verus! {

/// The map `pre` after the first `n` of `pairs` have been inserted one by
/// one, each key under the hash at its position in `hashes`.
pub open spec fn inserted_all<K, V>(
    pre: Map<(u64, K), V>,
    pairs: Seq<(K, V)>,
    hashes: Seq<u64>,
    n: int,
) -> Map<(u64, K), V>
    decreases n,
{
    if n <= 0 {
        pre
    } else {
        inserted_all(pre, pairs, hashes, n - 1).insert(
            (hashes[n - 1], pairs[n - 1].0),
            pairs[n - 1].1,
        )
    }
}

/// What `put_all` makes of the map `pre`, for the hashes that the keys
/// got.
pub open spec fn put_all_outcome<K, V>(
    pre: Map<(u64, K), V>,
    post: Map<(u64, K), V>,
    pairs: Seq<(K, V)>,
    hashes: Seq<u64>,
) -> bool {
    hashes.len() == pairs.len() && post == inserted_all(pre, pairs, hashes, pairs.len() as int)
}

/// The insertions of `inserted_all` do not look at the hashes behind them.
pub proof fn lemma_inserted_all_prefix<K, V>(
    pre: Map<(u64, K), V>,
    pairs: Seq<(K, V)>,
    hashes: Seq<u64>,
    longer: Seq<u64>,
    n: int,
)
    requires
        0 <= n <= hashes.len(),
        hashes.len() <= longer.len(),
        forall|i: int| 0 <= i < n ==> hashes[i] == longer[i],
    ensures
        inserted_all(pre, pairs, hashes, n) == inserted_all(pre, pairs, longer, n),
    decreases n,
{
    if n > 0 {
        lemma_inserted_all_prefix(pre, pairs, hashes, longer, n - 1);
    }
}

impl<K: Hash + Ord, V, S: BuildHasher> HashMap<K, V, S> {
    /// Inserts the pairs one by one, in their order; a later pair replaces
    /// an earlier one with the same key.
    pub fn put_all(&mut self, pairs: Vec<(K, V)>)
        requires
            old(self).wf(),
            old(self).count + pairs.len() < isize::MAX,
        ensures
            final(self).wf(),
            exists|hashes: Seq<u64>| #[trigger]
                put_all_outcome(old(self)@, final(self)@, pairs@, hashes),
            final(self).capacity() >= old(self).capacity(),
    {
        let ghost mut hashes: Seq<u64> = Seq::empty();
        let ghost all = pairs@;
        for kv in it: pairs
            invariant
                self.wf(),
                it.seq() == all,
                hashes.len() == it.index(),
                self.count <= old(self).count + it.index(),
                old(self).count + all.len() < isize::MAX,
                self@ == inserted_all(old(self)@, all, hashes, it.index() as int),
                self.capacity() >= old(self).capacity(),
        {
            let ghost idx = it.index() as int;
            let h = self.hash(&kv.0);
            let ghost grown = hashes.push(h);
            proof {
                lemma_inserted_all_prefix(old(self)@, all, hashes, grown, idx);
            }
            self.put(h, kv.0, kv.1, false);
            proof {
                hashes = grown;
            }
        }
        proof {
            assert(put_all_outcome(old(self)@, self@, all, hashes));
        }
    }

    /// Makes room for the pairs and inserts them: room for all of them in
    /// an empty map, for half of them otherwise.
    pub fn extend(&mut self, pairs: Vec<(K, V)>)
        requires
            old(self).wf(),
            old(self).count + pairs.len() < isize::MAX,
        ensures
            final(self).wf(),
            exists|hashes: Seq<u64>| #[trigger]
                put_all_outcome(old(self)@, final(self)@, pairs@, hashes),
            final(self).capacity() >= old(self).capacity(),
    {
        let reserve = if self.is_empty() {
            pairs.len()
        } else {
            (pairs.len() + 1) / 2
        };
        self.reserve(reserve);
        self.put_all(pairs);
    }

    /// A map that hashes with `hash_builder` and holds the pairs, inserted
    /// one by one.
    pub fn from_pairs(pairs: Vec<(K, V)>, hash_builder: S) -> (m: Self)
        requires
            key_laws::<K>(),
            pairs.len() < isize::MAX,
        ensures
            m.wf(),
            exists|hashes: Seq<u64>| #[trigger]
                put_all_outcome(Map::<(u64, K), V>::empty(), m@, pairs@, hashes),
    {
        if pairs.len() == 0 {
            let m = Self::with_hasher(hash_builder);
            proof {
                assert(put_all_outcome(
                    Map::<(u64, K), V>::empty(),
                    m@,
                    pairs@,
                    Seq::<u64>::empty(),
                ));
            }
            return m;
        }
        let mut m = Self::with_capacity_and_hasher(pairs.len(), hash_builder);
        m.put_all(pairs);
        m
    }
}

} // verus!
