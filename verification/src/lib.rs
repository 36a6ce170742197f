//! A hash-array-mapped trie: an associative container mapping keys to
//! payloads, indexed by a 64-bit hash of the key that is consumed a fixed
//! number of bits per level.
//!
//! The container is a tree of inner nodes with a fixed fan-out; each leaf
//! is a small bucket of payloads whose hashes agree on the bits consumed on
//! the way down.  Buckets are rewritten by copy-on-write; a bucket that is
//! emptied by a removal is pruned away together with any inner nodes left
//! without children, so an empty container is always just a null root.

pub mod bucket;
pub mod hash;
pub mod laws;
pub mod node;
pub mod raw;
