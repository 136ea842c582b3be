//! Verification of Merkle-Patricia trie proofs.
//!
//! A proof is a flat buffer of trie-node encodings. The crate decodes each
//! encoding, indexes the nodes by merkle value, checks that the nodes form
//! exactly the sub-tries hanging below the expected root hashes, and answers
//! lookups from the verified nodes.

pub mod bytes;
pub mod codec;
pub mod graph;
pub mod hash;
pub mod laws;
pub mod log;
pub mod network;
pub mod node;
pub mod traversal;
pub mod trie;
pub mod view;
