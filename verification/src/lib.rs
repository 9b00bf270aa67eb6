//! A hash map of bins that are chains or red-black trees, with the table
//! sizing, transfer and traversal that go with it, and a few replicated
//! data types and cache helpers beside it.

pub mod bin;
pub mod crdts;
pub mod iter;
pub mod laws;
pub mod lock_state;
pub mod map;
pub mod map_eq;
pub mod map_extend;
pub mod map_put;
pub mod map_remove;
pub mod map_resize;
pub mod map_update;
pub mod message;
pub mod metrics;
pub mod murmur;
pub mod node;
pub mod order;
pub mod raw;
pub mod set;
pub mod sizing;
pub mod split;
pub mod stack;
pub mod store;
pub mod transfer;
pub mod traverser;
pub mod tree;
pub mod tree_bin;
pub mod tree_check;
pub mod tree_insert;
pub mod tree_remove;

pub use crate::iter::Iter;
pub use crate::iter::Keys;
pub use crate::iter::Values;
pub use crate::map::HashMap;
pub use crate::map::TryInsertError;
pub use crate::set::HashSet;
