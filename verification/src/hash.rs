//! Hasher selection for the trie.
//!
//! The engine consumes 64-bit hashes a few bits per level, so every
//! operation starts by asking the container's hash builder for the hash of
//! the key.  A builder must be deterministic: equal keys hash equal.  That
//! requirement is captured by tying the executable `hash_key` to the pure
//! specification function `spec_hash`.

use vstd::prelude::*;

verus! {

/// A factory of 64-bit hashes for keys, deterministic by construction:
/// `hash_key` must return exactly `spec_hash` of the key.
pub trait BuildHash {
    /// The mathematical hash function this builder computes.
    spec fn spec_hash(&self, key: u64) -> u64;

    /// Compute the hash of `key`.
    fn hash_key(&self, key: u64) -> (h: u64)
        ensures
            h == self.spec_hash(key),
    ;
}

/// A pathological hasher mapping every key to the constant 0, forcing all
/// keys onto a single trie path.  Useful for exercising collision handling.
pub struct NoHasher;

impl BuildHash for NoHasher {
    open spec fn spec_hash(&self, key: u64) -> u64 {
        0
    }

    fn hash_key(&self, key: u64) -> (h: u64) {
        0
    }
}

/// A hasher that uses the key itself as its hash.  Deterministic and
/// collision-free, so distinct keys spread over the trie by their bits.
pub struct IdentityHasher;

impl BuildHash for IdentityHasher {
    open spec fn spec_hash(&self, key: u64) -> u64 {
        key
    }

    fn hash_key(&self, key: u64) -> (h: u64) {
        key
    }
}

} // verus!
