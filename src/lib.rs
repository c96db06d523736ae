//! A hash set of fixed capacity, with open addressing and linear probing.

pub mod fixed_size_hash_set;
pub mod slots;

pub use fixed_size_hash_set::{FixedSizeHashSet, InsertResult};
