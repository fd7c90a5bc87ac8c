//! Locality-sensitive hashing for approximate nearest-neighbor search.
//!
//! The crate provides the indexing engine: bucketed hash-table storage,
//! a multi-table coordinator with insert/query/delete, step-wise
//! multi-probe expansion, and a byte codec for persistence. Hash values
//! are short vectors of small signed integers; data points are carried
//! as vectors of 32-bit component bit patterns, so that the index logic
//! is independent of the floating-point hash families that feed it.

pub mod errors;
pub mod hash;
pub mod multi_probe;
pub mod table;
pub mod lsh;
pub mod sqlite_mem;
pub mod codec;
pub mod bench;

use vstd::prelude::*;

verus! {

} // verus!
