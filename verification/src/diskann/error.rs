//! What can go wrong.
use vstd::prelude::*;

verus! {

/// Errors of the index.
#[derive(Debug)]
pub enum DiskAnnError {
    /// A vector has the wrong number of dimensions.
    DimensionMismatch {
        /// Dimensions of the index.
        expected: usize,
        /// Dimensions given.
        actual: usize,
    },
    /// There are no vectors.
    Empty,
    /// The index was not built since the last insertion.
    NotBuilt,
    /// A request that cannot be met.
    InvalidConfig(String),
    /// Data that cannot be written or read.
    Serialization(String),
}

} // verus!
