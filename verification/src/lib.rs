//! A typed, Merkle-aware key/value storage model for a blockchain full node:
//! table schemas, Merkle commitment metadata, and an owner-indexed off-chain
//! index with cursor-based range iteration and a snapshot view provider.

pub mod bytes;
pub mod kv;
pub mod types;
pub mod merkle;
pub mod database;
pub mod tables;
pub mod laws;

use vstd::prelude::*;

verus! {

/// Distinguishes which kind of required entity a `NotFound` error refers to.
#[derive(Clone, Copy, Debug, PartialEq, Eq, Structural)]
pub enum EntityKind {
    TransactionId,
}

/// Errors surfaced by the storage layer.
#[derive(Clone, Copy, Debug, PartialEq, Eq, Structural)]
pub enum Error {
    /// A required single-row lookup found no entry.
    NotFound(EntityKind),
    /// An operation outside this layer's guaranteed capability was requested.
    Unsupported,
}

} // verus!
