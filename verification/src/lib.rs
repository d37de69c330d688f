//! A verified message compiler and executor for deferred batches of
//! operations.
//!
//! A batch of operations (each naming a program, an ordered set of accounts,
//! and an opaque payload) is compiled once into a compact, deduplicated
//! message, optionally moving eligible addresses into address-table lookups.
//! The message is stored in a transaction record and later validated and
//! drained exactly once against the addresses the caller supplies at
//! execution time.

pub mod address;
pub mod compiled_keys;
pub mod compiler;
pub mod errors;
pub mod executable;
pub mod laws;
pub mod message;
pub mod transaction;
