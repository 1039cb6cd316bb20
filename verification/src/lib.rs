//! A hash map and a hash set built on Robin Hood linear probing with
//! backward-shift deletion, together with a raw allocator whose
//! size/alignment contract is machine-checked.  The abstract state of a
//! table is a finite map from keys to values; every operation is verified
//! against that map.

pub mod hash;
pub mod hash_map;
pub mod hash_set;
pub mod raw_alloc;
pub mod table;

pub use crate::hash_map::HashMap;
pub use crate::hash_set::HashSet;

