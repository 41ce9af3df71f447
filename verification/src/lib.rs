//! A verifiable key-value storage stack: a capability contract for
//! get/set/delete plus cryptographic membership proofs, a write-buffering
//! cache middleware in front of a content-addressed store, and the
//! prove/commit/verify protocol tying reads, writes and attestations
//! together.

pub mod error;
pub mod middleware;
pub mod order;
pub mod state;
pub mod tree;
pub mod trie;
