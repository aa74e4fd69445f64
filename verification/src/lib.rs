//! Immutable maps and sets whose lookup goes through a minimal perfect hash
//! function: a seed, a table of per-bucket displacement pairs, and the entries
//! themselves.  A table is built once, ahead of query time, and thereafter
//! only read; every key present at construction is found in one hash, one
//! displacement, and one equality check, with no collision chains.

pub mod builder;
pub mod error;
pub mod hashing;
pub mod keys;
pub mod laws;
pub mod map;
pub mod ordered_map;
pub mod ordered_set;
pub mod set;
