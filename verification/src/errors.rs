//! Error kinds surfaced by the index.

use vstd::prelude::*;

verus! {

/// Everything that can go wrong when building or using an index.
#[derive(Clone, Copy, Debug, PartialEq, Eq, Structural)]
pub enum LshError {
    /// A vector's length differs from the index dimension.
    Dim,
    /// A bucket key is absent from a hash table.
    NotFound,
    /// A MIPS hasher was used before fitting.
    NotFitted,
    /// Vectors were requested from an index-only store.
    IndexOnly,
    /// A persistence or backend failure.
    BackendIO,
    /// A serialized blob did not decode.
    SerdeFormat,
    /// A construction parameter was out of range.
    InvalidParam,
}

} // verus!
