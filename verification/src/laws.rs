//! What holds of the map's operations taken together.
use vstd::prelude::*;
use crate::map::lookup;
use crate::map::PutResult;
use crate::map_put::insert_outcome;
use crate::map_put::keeps_table_if_room;
use crate::map_put::put_outcome;
use crate::map_remove::remove_outcome;
use crate::map_remove::replace_outcome;
use crate::map_remove::Replaced;
use crate::sizing::MIN_TREEIFY_CAPACITY;

verus! {

/// After a write that may replace, a lookup of the written key finds the
/// written value.
pub proof fn law_get_after_put<K, V>(
    pre: Map<(u64, K), V>,
    post: Map<(u64, K), V>,
    hash: u64,
    key: K,
    value: V,
    r: PutResult<K, V>,
)
    requires
        put_outcome(pre, post, hash, key, value, false, r),
    ensures
        lookup(post, hash, key) == Some(value),
{
}

/// A write leaves what the map holds under every other key as it is.
pub proof fn law_put_keeps_other_keys<K, V>(
    pre: Map<(u64, K), V>,
    post: Map<(u64, K), V>,
    hash: u64,
    key: K,
    value: V,
    no_replacement: bool,
    r: PutResult<K, V>,
    other_hash: u64,
    other_key: K,
)
    requires
        put_outcome(pre, post, hash, key, value, no_replacement, r),
        (other_hash, other_key) != (hash, key),
    ensures
        lookup(post, other_hash, other_key) == lookup(pre, other_hash, other_key),
{
}

/// A removal or replacement leaves what the map holds under every other
/// key as it is.
pub proof fn law_replace_keeps_other_keys<K, V>(
    pre: Map<(u64, K), V>,
    post: Map<(u64, K), V>,
    hash: u64,
    key: K,
    new_value: Option<V>,
    r: Replaced<K, V>,
    other_hash: u64,
    other_key: K,
)
    requires
        replace_outcome(pre, post, hash, key, new_value, r),
        (other_hash, other_key) != (hash, key),
    ensures
        lookup(post, other_hash, other_key) == lookup(pre, other_hash, other_key),
{
}

/// An insert, a removal and another insert of one key return what a
/// reference map returns: the value that was there before, the first
/// value, and nothing; and the map ends up holding the second value.
pub proof fn law_insert_remove_insert<K, V>(
    m0: Map<(u64, K), V>,
    m1: Map<(u64, K), V>,
    m2: Map<(u64, K), V>,
    m3: Map<(u64, K), V>,
    hash: u64,
    key: K,
    first: V,
    second: V,
    r1: Option<V>,
    r2: Option<V>,
    r3: Option<V>,
)
    requires
        insert_outcome(m0, m1, hash, key, first, r1),
        remove_outcome(m1, m2, hash, key, r2),
        insert_outcome(m2, m3, hash, key, second, r3),
    ensures
        r1 == lookup(m0, hash, key),
        r2 == Some(first),
        r3 is None,
        lookup(m3, hash, key) == Some(second),
        m3 == m0.insert((hash, key), second),
{
    assert(m3 =~= m0.insert((hash, key), second));
}

/// Inserting a key that the map does not hold and then removing it gives
/// the map back as it was.
pub proof fn law_insert_then_remove_restores<K, V>(
    m0: Map<(u64, K), V>,
    m1: Map<(u64, K), V>,
    m2: Map<(u64, K), V>,
    hash: u64,
    key: K,
    value: V,
    r1: Option<V>,
    r2: Option<V>,
)
    requires
        !m0.dom().contains((hash, key)),
        insert_outcome(m0, m1, hash, key, value, r1),
        remove_outcome(m1, m2, hash, key, r2),
    ensures
        m2 == m0,
        r1 is None,
        r2 == Some(value),
{
    assert(m2 =~= m0);
}

/// What `clear` makes of a map: no entries, in a table of the same size.
pub open spec fn clear_outcome<K, V>(
    pre_capacity: usize,
    post: Map<(u64, K), V>,
    post_capacity: usize,
) -> bool {
    post == Map::<(u64, K), V>::empty() && post_capacity == pre_capacity
}

/// Clearing a map twice is clearing it once.
pub proof fn law_clear_idempotent<K, V>(
    capacity: usize,
    once: Map<(u64, K), V>,
    capacity_once: usize,
    twice: Map<(u64, K), V>,
    capacity_twice: usize,
)
    requires
        clear_outcome(capacity, once, capacity_once),
        clear_outcome(capacity_once, twice, capacity_twice),
    ensures
        twice == once,
        capacity_twice == capacity_once,
{
}

/// After room has been reserved for `additional` more entries in a table
/// of at least `MIN_TREEIFY_CAPACITY` bins, a write that is one of the
/// first `additional` inserts keeps the table and its load threshold.
pub proof fn law_reserved_inserts_keep_table(
    reserved_len: int,
    additional: int,
    capacity: usize,
    size_ctl: int,
    count: int,
    post_capacity: usize,
    post_size_ctl: int,
)
    requires
        size_ctl > reserved_len + additional,
        capacity >= MIN_TREEIFY_CAPACITY,
        reserved_len <= count < reserved_len + additional,
        keeps_table_if_room(capacity, count, size_ctl, post_capacity, post_size_ctl),
    ensures
        post_capacity == capacity,
        post_size_ctl == size_ctl,
{
}

} // verus!
