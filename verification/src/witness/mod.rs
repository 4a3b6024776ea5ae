//! Tamper-evident witness log: a keyed chain of records, and Merkle-sealed segments of it.
pub mod digest;
pub mod log;
pub mod record;
pub mod seal;
