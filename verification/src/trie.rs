//! A trie as a mathematical tree, and what it means for the entries of a
//! proof to be a proof of it.

use vstd::prelude::*;
use crate::codec::spec_decode;
use crate::graph::{find, EntrySpec};
use crate::node::{MerkleValueSpec, NodeSpec, StorageValueSpec};
use crate::view::{spec_get, spec_locate, LookupSpec, PlaceSpec};

verus! {

/// A trie: a node with its partial key, its value and, under each nibble,
/// the sub-trie that hangs there.
pub struct TrieSpec {
    /// Nibbles shared by the node and all its descendants below the parent.
    pub partial_key: Seq<u8>,
    /// The value stored at the node's key, if any.
    pub value: Option<StorageValueSpec>,
    /// One sub-trie per nibble value.
    pub children: Seq<Option<TrieSpec>>,
}

/// What the trie stores under the nibbles `key`.
pub open spec fn trie_value(trie: TrieSpec, key: Seq<u8>) -> Option<StorageValueSpec>
    decreases key.len(),
{
    let shared = trie.partial_key.len() as int;
    if key.len() < shared || key.subrange(0, shared) != trie.partial_key {
        None
    } else if key.len() == shared {
        trie.value
    } else {
        let nibble = key[shared];
        if nibble >= 16 || trie.children.len() != 16 {
            None
        } else {
            match trie.children[nibble as int] {
                None => None,
                Some(child) => trie_value(child, key.subrange(shared + 1, key.len() as int)),
            }
        }
    }
}

/// The answer that a lookup owes for a stored value.
pub open spec fn answer(stored: Option<StorageValueSpec>) -> LookupSpec {
    match stored {
        Some(StorageValueSpec::Plain(v)) => LookupSpec::Found(v),
        Some(StorageValueSpec::HashOnly(h)) => LookupSpec::FoundHashOnly(h),
        None => LookupSpec::NotFound,
    }
}

/// `node` is the root node of `trie`, and the entries hold the rest of it:
/// partial key and value are those of the trie, and under each nibble the
/// node has a child exactly where the trie has a sub-trie, which the node
/// that the child's merkle value stands for represents in its turn.
pub open spec fn represents(entries: Seq<EntrySpec>, node: NodeSpec, trie: TrieSpec) -> bool
    decreases trie,
{
    &&& node.partial_key == trie.partial_key
    &&& node.storage_value == trie.value
    &&& node.children.len() == 16
    &&& trie.children.len() == 16
    &&& forall|s: int|
        0 <= s < 16 ==> match (#[trigger] node.children[s], trie.children[s]) {
            (None, None) => true,
            (Some(MerkleValueSpec::Hashed(h)), Some(child)) => find(
                entries,
                MerkleValueSpec::Hashed(h),
            ) matches Some(j) && represents(entries, entries[j].node, child),
            (Some(MerkleValueSpec::Inline(b)), Some(child)) => spec_decode(b) matches Ok(
                (inner, n),
            ) && n == b.len() && represents(entries, inner, child),
            _ => false,
        }
}

/// The answer of a walk that ended at `place`.
pub open spec fn answer_at(place: PlaceSpec) -> LookupSpec {
    match place {
        PlaceSpec::At(node) => answer(node.storage_value),
        PlaceSpec::Absent => LookupSpec::NotFound,
        PlaceSpec::Unknown => LookupSpec::NotInProof,
    }
}

/// A walk through the entries from a node that represents a trie ends where
/// the trie says.
pub proof fn lemma_walk_agrees(
    entries: Seq<EntrySpec>,
    node: NodeSpec,
    trie: TrieSpec,
    key: Seq<u8>,
)
    requires
        represents(entries, node, trie),
    ensures
        answer_at(spec_locate(entries, node, key)) == answer(trie_value(trie, key)),
    decreases key.len(),
{
    let shared = node.partial_key.len() as int;
    if key.len() > shared && key.subrange(0, shared) == node.partial_key && key[shared] < 16 {
        let nibble = key[shared] as int;
        let rest = key.subrange(shared + 1, key.len() as int);
        match (node.children[nibble], trie.children[nibble]) {
            (Some(MerkleValueSpec::Hashed(h)), Some(child)) => {
                let j = find(entries, MerkleValueSpec::Hashed(h))->Some_0;
                lemma_walk_agrees(entries, entries[j].node, child, rest);
            },
            (Some(MerkleValueSpec::Inline(b)), Some(child)) => {
                let inner = spec_decode(b)->Ok_0.0;
                lemma_walk_agrees(entries, inner, child, rest);
            },
            _ => {},
        }
    }
}

/// Where the entries of a proof hold a trie under the root hash `root`, a
/// lookup below that root answers as the trie does: with the value of every
/// key that the trie holds, and with `NotFound` for every other key.
pub proof fn law_lookup_answers_as_the_trie(
    entries: Seq<EntrySpec>,
    root: Seq<u8>,
    trie: TrieSpec,
    key: Seq<u8>,
)
    requires
        find(entries, MerkleValueSpec::Hashed(root)) matches Some(i) && represents(
            entries,
            entries[i].node,
            trie,
        ),
    ensures
        spec_get(entries, root, key) == answer(trie_value(trie, key)),
{
    let i = find(entries, MerkleValueSpec::Hashed(root))->Some_0;
    lemma_walk_agrees(entries, entries[i].node, trie, key);
}

} // verus!
