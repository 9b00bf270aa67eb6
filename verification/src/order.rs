//! The total order that tree bins are sorted by: first the hash, then the key.
use vstd::prelude::*;
use vstd::laws_cmp::obeys_cmp;
use vstd::laws_eq::obeys_concrete_eq;
use vstd::std_specs::cmp::PartialOrdSpec;
use core::cmp::Ordering;

verus! {

/// `a` sorts strictly before `b` in the key type's own order.
pub open spec fn key_lt<K: Ord>(a: K, b: K) -> bool {
    a.partial_cmp_spec(&b) == Some(Ordering::Less)
}

/// What the map asks of its key type: `<` is a strict total order, and `==`
/// holds exactly of identical keys.
pub open spec fn key_laws<K: Ord>() -> bool {
    obeys_cmp::<K>() && obeys_concrete_eq::<K>()
}

/// Hash-then-key order on `(hash, key)` pairs.
pub open spec fn slot_lt<K: Ord>(a: (u64, K), b: (u64, K)) -> bool {
    a.0 < b.0 || (a.0 == b.0 && key_lt(a.1, b.1))
}

/// `s` lies strictly above the optional lower bound `lo`.
pub open spec fn above<K: Ord>(lo: Option<(u64, K)>, s: (u64, K)) -> bool {
    match lo {
        None => true,
        Some(b) => slot_lt(b, s),
    }
}

/// `s` lies strictly below the optional upper bound `hi`.
pub open spec fn below<K: Ord>(s: (u64, K), hi: Option<(u64, K)>) -> bool {
    match hi {
        None => true,
        Some(b) => slot_lt(s, b),
    }
}

pub proof fn lemma_key_lt_transitive<K: Ord>(a: K, b: K, c: K)
    requires
        key_laws::<K>(),
        key_lt(a, b),
        key_lt(b, c),
    ensures
        key_lt(a, c),
{
    reveal(vstd::laws_cmp::obeys_partial_cmp_spec_properties);
}

pub proof fn lemma_key_lt_total<K: Ord>(a: K, b: K)
    requires
        key_laws::<K>(),
    ensures
        key_lt(a, b) || a == b || key_lt(b, a),
        !(key_lt(a, b) && key_lt(b, a)),
        !(key_lt(a, b) && a == b),
{
    reveal(vstd::laws_cmp::obeys_partial_cmp_spec_properties);
    reveal(vstd::laws_cmp::obeys_cmp_partial_ord);
    reveal(vstd::laws_cmp::obeys_cmp_ord);
    reveal(vstd::laws_eq::obeys_concrete_eq);
}

/// Hash-then-key order is transitive.
pub proof fn lemma_slot_lt_transitive<K: Ord>(a: (u64, K), b: (u64, K), c: (u64, K))
    requires
        key_laws::<K>(),
        slot_lt(a, b),
        slot_lt(b, c),
    ensures
        slot_lt(a, c),
{
    if a.0 == b.0 && b.0 == c.0 {
        lemma_key_lt_transitive(a.1, b.1, c.1);
    }
}

/// Of two pairs exactly one holds: the first is smaller, they are identical,
/// or the second is smaller.
pub proof fn lemma_slot_lt_total<K: Ord>(a: (u64, K), b: (u64, K))
    requires
        key_laws::<K>(),
    ensures
        slot_lt(a, b) || a == b || slot_lt(b, a),
        !(slot_lt(a, b) && slot_lt(b, a)),
        !(slot_lt(a, b) && a == b),
{
    lemma_key_lt_total(a.1, b.1);
}

/// Decides hash-then-key order between two `(hash, key)` pairs.
pub fn slot_less<K: Ord>(h1: u64, k1: &K, h2: u64, k2: &K) -> (r: bool)
    requires
        key_laws::<K>(),
    ensures
        r == slot_lt((h1, *k1), (h2, *k2)),
{
    proof {
        reveal(vstd::laws_cmp::obeys_cmp_partial_ord);
    }
    h1 < h2 || (h1 == h2 && *k1 < *k2)
}

/// Decides whether two `(hash, key)` pairs are the same pair.
pub fn slot_same<K: Ord>(h1: u64, k1: &K, h2: u64, k2: &K) -> (r: bool)
    requires
        key_laws::<K>(),
    ensures
        r == ((h1, *k1) == (h2, *k2)),
{
    proof {
        reveal(vstd::laws_eq::obeys_concrete_eq);
    }
    h1 == h2 && *k1 == *k2
}

} // verus!
