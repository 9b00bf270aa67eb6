//! The map: a table of bins with a size counter and a size control word.
use vstd::prelude::*;
use core::hash::BuildHasher;
use core::hash::Hash;
use crate::node::Node;
use crate::order::key_laws;
use crate::raw::Table;
use crate::sizing::is_capacity;
use crate::sizing::load_factor_spec;
use crate::sizing::MAXIMUM_CAPACITY;

verus! {

/// `ahash::RandomState`, the hasher that a map uses where none is given.
/// The type is opaque here: nothing is known of a value of it.
#[verifier::external_type_specification]
#[verifier::external_body]
pub struct ExRandomState(ahash::RandomState);

/// A hash map from `K` to `V`.
///
/// The map finds an entry by its key together with the key's hash, and its
/// view is the map from `(hash, key)` to value. Between operations no resize
/// is under way: there is no successor table, and no claim on the bins of
/// the table is outstanding.
pub struct HashMap<K, V, S = ahash::RandomState> {
    /// The bins; no bins until the first write.
    pub table: Table<K, V>,
    /// The table that a resize fills.
    pub next_table: Option<Table<K, V>>,
    /// The lower end of the bins that a resize has claimed so far.
    pub transfer_index: i64,
    /// The number of entries.
    pub count: isize,
    /// Without bins: the capacity to start with, or zero for the default.
    /// With bins: the number of entries at which the table is resized.
    /// During a resize: its stamp and the number of threads at work.
    pub size_ctl: i64,
    pub build_hasher: S,
}

/// The outcome of a write.
pub enum PutResult<K, V> {
    /// The key was new.
    Inserted,
    /// The key was present; `old` is the value that was replaced.
    Replaced { old: V },
    /// The key was present and was left alone; key and value come back.
    Exists { key: K, not_inserted: V },
}

impl<K, V> PutResult<K, V> {
    /// The value that the write replaced.
    pub fn before(self) -> (r: Option<V>)
        ensures
            r == match self {
                PutResult::Replaced { old } => Some(old),
                _ => None,
            },
    {
        match self {
            PutResult::Replaced { old } => Some(old),
            _ => None,
        }
    }

    /// Whether the write stored its value.
    pub fn after(&self) -> (r: bool)
        ensures
            r == !(self is Exists),
    {
        match self {
            PutResult::Exists { .. } => false,
            _ => true,
        }
    }
}

/// What the map `m` holds under `(h, key)`.
pub open spec fn lookup<K, V>(m: Map<(u64, K), V>, h: u64, key: K) -> Option<V> {
    if m.dom().contains((h, key)) {
        Some(m[(h, key)])
    } else {
        None
    }
}

/// The error of `try_insert`: the key was present.
pub struct TryInsertError<'a, V> {
    /// The value that the map holds for the key.
    pub current: &'a V,
    /// The value that was not inserted.
    pub not_inserted: V,
}

impl<K: Ord, V, S> HashMap<K, V, S> {
    /// The map from `(hash, key)` to value.
    pub open spec fn view(&self) -> Map<(u64, K), V> {
        self.table@
    }

    /// The number of bins.
    pub open spec fn capacity(&self) -> usize {
        self.table.bins.len()
    }

    /// What holds between operations, but for the size counter.
    pub open spec fn inv(&self) -> bool {
        &&& key_laws::<K>()
        &&& self.next_table is None
        &&& self.transfer_index == 0
        &&& self@.dom().finite()
        &&& if self.table.bins.len() == 0 {
            self.size_ctl == 0 || (0 < self.size_ctl <= MAXIMUM_CAPACITY && is_capacity(
                self.size_ctl as usize,
            ))
        } else {
            self.table.wf() && self.size_ctl == load_factor_spec(self.table.bins.len() as int)
        }
    }

    /// The table is not loaded beyond its threshold, unless it is of the
    /// largest size.
    pub open spec fn within_load(&self) -> bool {
        self.table.bins.len() > 0 ==> self.count < self.size_ctl || self.table.bins.len()
            >= MAXIMUM_CAPACITY
    }

    /// What holds between operations: the table is well formed, no resize
    /// is under way, the size counter is the number of entries, and the
    /// table is not loaded beyond its threshold.
    pub open spec fn wf(&self) -> bool {
        self.inv() && self.count == self@.dom().len() && self.within_load()
    }

    /// A map without bins, which hashes with `hash_builder`.
    pub fn with_hasher(hash_builder: S) -> (m: Self)
        requires
            key_laws::<K>(),
        ensures
            m.wf(),
            m@ == Map::<(u64, K), V>::empty(),
            m.capacity() == 0,
            m.size_ctl == 0,
            m.build_hasher == hash_builder,
    {
        let m = HashMap {
            table: Table::new(0),
            next_table: None,
            transfer_index: 0,
            count: 0,
            size_ctl: 0,
            build_hasher: hash_builder,
        };
        m
    }

    /// The number of entries.
    pub fn len(&self) -> (r: usize)
        requires
            self.wf(),
        ensures
            r == self@.len(),
    {
        let n = self.count;
        if n < 0 {
            0
        } else {
            n as usize
        }
    }

    pub fn is_empty(&self) -> (r: bool)
        requires
            self.wf(),
        ensures
            r == (self@.len() == 0),
    {
        self.len() == 0
    }

    /// Looks up the entry stored under `(hash, key)`.
    pub fn get_node<'a>(&'a self, hash: u64, key: &K) -> (r: Option<&'a Node<K, V>>)
        requires
            self.inv(),
        ensures
            match r {
                Some(n) => self@.dom().contains((hash, *key)) && n.slot() == (hash, *key)
                    && n.value == self@[(hash, *key)],
                None => !self@.dom().contains((hash, *key)),
            },
    {
        if self.table.is_empty() {
            return None;
        }
        let bini = self.table.bini(hash);
        let bin = self.table.bin(bini);
        let next = match &self.next_table {
            Some(t) => Some(t),
            None => None,
        };
        Table::find(bin, hash, key, next)
    }

    /// The value stored under `(hash, key)`.
    pub fn get_hashed<'a>(&'a self, hash: u64, key: &K) -> (r: Option<&'a V>)
        requires
            self.inv(),
        ensures
            match r {
                Some(v) => self@.dom().contains((hash, *key)) && *v == self@[(hash, *key)],
                None => !self@.dom().contains((hash, *key)),
            },
    {
        match self.get_node(hash, key) {
            Some(n) => Some(&n.value),
            None => None,
        }
    }
}

/// Hashes `key` with the hasher that `build_hasher` makes. Calls
/// `BuildHasher::hash_one`. Nothing is stated of the result: what it is
/// depends on the seed that the hasher was built with.
#[verifier::external_body]
pub(crate) fn hash_with<K: Hash, S: BuildHasher>(build_hasher: &S, key: &K) -> (h: u64) {
    build_hasher.hash_one(key)
}

/// Makes the default hasher. Calls `ahash::RandomState::new`, which draws
/// its seeds at random: nothing is stated of the result.
#[verifier::external_body]
pub(crate) fn default_hash_builder() -> (s: ahash::RandomState) {
    ahash::RandomState::new()
}

impl<K: Hash + Ord, V, S: BuildHasher> HashMap<K, V, S> {
    /// The hash under which the map files `key`: what the map's hasher
    /// makes of it. Nothing is stated of the result, which depends on the
    /// seed of the hasher; the operations that take a hash say what they do
    /// for every value of it.
    pub fn hash(&self, key: &K) -> (h: u64) {
        hash_with(&self.build_hasher, key)
    }

    /// The value stored for `key`, under the hash that the map's hasher
    /// gives it.
    pub fn get<'a>(&'a self, key: &K) -> (r: Option<&'a V>)
        requires
            self.inv(),
        ensures
            exists|h: u64|
                #[trigger] lookup(self@, h, *key) == match r {
                    Some(v) => Some(*v),
                    None => None,
                },
    {
        let h = self.hash(key);
        let r = self.get_hashed(h, key);
        proof {
            assert(lookup(self@, h, *key) == match r {
                Some(v) => Some(*v),
                None => None,
            });
        }
        r
    }

    /// The stored key and value for `key`.
    pub fn get_key_value<'a>(&'a self, key: &K) -> (r: Option<(&'a K, &'a V)>)
        requires
            self.inv(),
        ensures
            exists|h: u64|
                #[trigger] lookup(self@, h, *key) == match r {
                    Some(kv) => Some(*kv.1),
                    None => None,
                },
            r.is_some() ==> *r.unwrap().0 == *key,
    {
        let h = self.hash(key);
        let r = match self.get_node(h, key) {
            Some(n) => Some((&n.key, &n.value)),
            None => None,
        };
        proof {
            assert(lookup(self@, h, *key) == match r {
                Some(kv) => Some(*kv.1),
                None => None,
            });
        }
        r
    }

    /// Whether the map holds a value for `key`.
    pub fn contains_key(&self, key: &K) -> (r: bool)
        requires
            self.inv(),
        ensures
            exists|h: u64| r == #[trigger] lookup(self@, h, *key).is_some(),
    {
        let h = self.hash(key);
        let r = self.get_hashed(h, key).is_some();
        proof {
            assert(r == lookup(self@, h, *key).is_some());
        }
        r
    }
}

impl<K: Ord, V> HashMap<K, V, ahash::RandomState> {
    /// A map without bins, with the default hasher.
    pub fn new() -> (m: Self)
        requires
            key_laws::<K>(),
        ensures
            m.wf(),
            m@ == Map::<(u64, K), V>::empty(),
            m.capacity() == 0,
    {
        Self::with_hasher(default_hash_builder())
    }
}

} // verus!
