//! What a cache stores, samples and reports.
use vstd::prelude::*;
use core::marker::PhantomData;

verus! {

/// `std::time::SystemTime`, a point in time as the system clock gives it.
/// The type is opaque here: nothing is known of a value of it.
#[verifier::external_type_specification]
#[verifier::external_body]
pub struct ExSystemTime(std::time::SystemTime);

/// Number of entries that are sampled to find a victim.
pub const SAMPLES_NUM: usize = 5;

/// Largest window of an admission filter.
pub const MAX_WINDOW_SIZE: usize = 10000;

/// A sampled key with the estimate of how often it is used.
#[derive(Clone, Debug)]
pub struct SampleItem {
    pub key: u64,
    pub estimate: i64,
}

impl SampleItem {
    pub fn new(key: u64, estimate: i64) -> (s: Self)
        ensures
            s.key == key,
            s.estimate == estimate,
    {
        SampleItem { key, estimate }
    }

    /// Whether this item is the better victim: the one that is used less,
    /// and among equals the one with the smaller key.
    pub fn before(&self, other: &SampleItem) -> (r: bool)
        ensures
            r == (self.estimate < other.estimate || (self.estimate == other.estimate && self.key
                < other.key)),
    {
        self.estimate < other.estimate || (self.estimate == other.estimate && self.key < other.key)
    }
}

/// A stored key and value, with the time at which they expire.
pub struct Item<K, V> {
    pub expiration_time: Option<std::time::SystemTime>,
    pub k: K,
    pub v: V,
}

impl<K, V> Item<K, V> {
    /// An item that does not expire.
    pub fn new(k: K, v: V) -> (i: Self)
        ensures
            i.expiration_time is None,
            i.k == k,
            i.v == v,
    {
        Item { expiration_time: None, k, v }
    }
}

/// What is told of an entry that leaves the cache.
pub trait OnEvict<K, V> {
    fn evict(&self, k: &K, v: &V);
}

/// An `OnEvict` that does nothing.
pub struct VoidEvict<K, V> {
    pub _k: PhantomData<K>,
    pub _v: PhantomData<V>,
}

impl<K, V> OnEvict<K, V> for VoidEvict<K, V> {
    fn evict(&self, _k: &K, _v: &V) {
    }
}

/// An admission filter that estimates how often keys are used.
pub trait TinyLFU {
    /// The estimate for `k`.
    fn estimate(&self, k: &u64) -> i64;

    /// Counts one use of `k`.
    fn increment(&mut self, k: &u64);

    /// Ages the counts.
    fn reset(&mut self);

    /// Forgets every count.
    fn clear(&mut self);
}

/// A member of a sorted set, with the score that it is sorted by.
#[derive(Debug, Clone, PartialEq, Eq)]
pub struct SortedSetMember {
    pub score: i64,
    pub member: String,
}

/// The operations on the stacks of a store, each with the key of its stack.
#[derive(Debug, Clone)]
pub enum StackOps {
    STPush(Vec<u8>, Vec<u8>),
    STPop(Vec<u8>),
    STPeek(Vec<u8>),
    STSize(Vec<u8>),
}

/// The operations of a store.
#[derive(Debug, Clone)]
pub enum Ops {
    Stacks(StackOps),
}

} // verus!
