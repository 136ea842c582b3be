//! The hash function that links a trie node to its parent.

use vstd::prelude::*;

verus! {

/// Length in bytes of the hash that identifies a trie node.
pub const HASH_LEN: usize = 32;

/// The unkeyed BLAKE2b digest of `data`, `out_len` bytes long.
pub uninterp spec fn blake2b_digest(out_len: nat, data: Seq<u8>) -> Seq<u8>;

/// Calls `blake2_rfc::blake2b::blake2b` with an empty key.
///
/// Trusted: the digest depends on `out_len` and `data` alone and is `out_len`
/// bytes long. The outside function panics for an output length outside
/// `1..=64`, which the precondition leaves out.
#[verifier::external_body]
pub(crate) fn blake2b(out_len: usize, data: &[u8]) -> (digest: Vec<u8>)
    requires
        1 <= out_len <= 64,
    ensures
        digest@ == blake2b_digest(out_len as nat, data@),
        digest@.len() == out_len,
{
    blake2_rfc::blake2b::blake2b(out_len, &[], data).as_bytes().to_vec()
}

/// The hash of a node encoding: its 32-byte unkeyed BLAKE2b digest.
pub open spec fn node_hash(data: Seq<u8>) -> Seq<u8> {
    blake2b_digest(32, data)
}

/// Hashes a node encoding.
pub fn hash_node(data: &[u8]) -> (digest: Vec<u8>)
    ensures
        digest@ == node_hash(data@),
        digest@.len() == 32,
{
    blake2b(HASH_LEN, data)
}

} // verus!
