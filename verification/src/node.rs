//! Decoded trie nodes and their mathematical models.

use vstd::prelude::*;

verus! {

/// Model of a merkle value: what a parent holds to refer to a child.
pub enum MerkleValueSpec {
    /// The hash of the child's encoding.
    Hashed(Seq<u8>),
    /// The child's encoding itself, for an encoding shorter than a hash.
    Inline(Seq<u8>),
}

/// Model of a storage value.
pub enum StorageValueSpec {
    /// The value's bytes.
    Plain(Seq<u8>),
    /// Only the hash of the value: the bytes are not part of the node.
    HashOnly(Seq<u8>),
}

/// Model of a decoded trie node.
pub struct NodeSpec {
    /// Nibbles shared by the node and all its descendants below the parent.
    pub partial_key: Seq<u8>,
    /// One slot per nibble value.
    pub children: Seq<Option<MerkleValueSpec>>,
    /// The value stored at the node's key, if any.
    pub storage_value: Option<StorageValueSpec>,
}

/// Number of occupied slots among `children`.
pub open spec fn count_present(children: Seq<Option<MerkleValueSpec>>) -> nat
    decreases children.len(),
{
    if children.len() == 0 {
        0
    } else {
        count_present(children.drop_last()) + if children.last() is Some {
            1nat
        } else {
            0nat
        }
    }
}

impl MerkleValueSpec {
    /// A hash is 32 bytes long, an inline encoding between 1 and 31.
    pub open spec fn well_formed(self) -> bool {
        match self {
            MerkleValueSpec::Hashed(h) => h.len() == 32,
            MerkleValueSpec::Inline(b) => 1 <= b.len() < 32,
        }
    }
}

impl NodeSpec {
    /// The invariant of a decoded node: at most 64 nibbles of partial key,
    /// 16 child slots with well-formed merkle values, a 32-byte value hash,
    /// and not the node that should have been merged with its only child
    /// (empty partial key, no value, exactly one child).
    pub open spec fn well_formed(self) -> bool {
        &&& self.partial_key.len() <= 64
        &&& forall|i: int| 0 <= i < self.partial_key.len() ==> #[trigger] self.partial_key[i] < 16
        &&& self.children.len() == 16
        &&& forall|i: int|
            0 <= i < 16 ==> (#[trigger] self.children[i] matches Some(c) ==> c.well_formed())
        &&& (self.storage_value matches Some(StorageValueSpec::HashOnly(h)) ==> h.len() == 32)
        &&& !self.is_mergeable()
    }

    /// Empty partial key, no value and exactly one child.
    pub open spec fn is_mergeable(self) -> bool {
        self.partial_key.len() == 0 && self.storage_value is None && count_present(self.children)
            == 1
    }
}

/// What a parent holds to refer to a child, and what identifies a proof entry.
#[derive(Debug, PartialEq, Eq)]
pub enum MerkleValue {
    /// The hash of the node's encoding.
    Hashed(Vec<u8>),
    /// The node's encoding itself, for an encoding shorter than a hash.
    Inline(Vec<u8>),
}

impl View for MerkleValue {
    type V = MerkleValueSpec;

    open spec fn view(&self) -> MerkleValueSpec {
        match self {
            MerkleValue::Hashed(h) => MerkleValueSpec::Hashed(h@),
            MerkleValue::Inline(b) => MerkleValueSpec::Inline(b@),
        }
    }
}

impl MerkleValue {
    /// The bytes behind the value, whichever its kind.
    pub fn as_bytes(&self) -> (bytes: &Vec<u8>)
        ensures
            bytes@ == match self@ {
                MerkleValueSpec::Hashed(h) => h,
                MerkleValueSpec::Inline(b) => b,
            },
    {
        match self {
            MerkleValue::Hashed(h) => h,
            MerkleValue::Inline(b) => b,
        }
    }

    /// Tells whether two merkle values are the same.
    pub fn same_as(&self, other: &MerkleValue) -> (same: bool)
        ensures
            same == (self@ == other@),
    {
        match (self, other) {
            (MerkleValue::Hashed(a), MerkleValue::Hashed(b)) => crate::bytes::bytes_eq(
                a.as_slice(),
                b.as_slice(),
            ),
            (MerkleValue::Inline(a), MerkleValue::Inline(b)) => crate::bytes::bytes_eq(
                a.as_slice(),
                b.as_slice(),
            ),
            _ => false,
        }
    }

    /// A copy of the value.
    pub fn duplicate(&self) -> (copy: MerkleValue)
        ensures
            copy@ == self@,
    {
        match self {
            MerkleValue::Hashed(h) => MerkleValue::Hashed(crate::bytes::copy_bytes(h.as_slice())),
            MerkleValue::Inline(b) => MerkleValue::Inline(crate::bytes::copy_bytes(b.as_slice())),
        }
    }
}

/// The value stored at a key.
#[derive(Debug, PartialEq, Eq)]
pub enum StorageValue {
    /// The value's bytes.
    Plain(Vec<u8>),
    /// Only the 32-byte hash of the value: the bytes are not part of the proof.
    HashOnly(Vec<u8>),
}

impl View for StorageValue {
    type V = StorageValueSpec;

    open spec fn view(&self) -> StorageValueSpec {
        match self {
            StorageValue::Plain(v) => StorageValueSpec::Plain(v@),
            StorageValue::HashOnly(h) => StorageValueSpec::HashOnly(h@),
        }
    }
}

/// Model of an optional merkle value.
pub open spec fn slot_view(slot: Option<MerkleValue>) -> Option<MerkleValueSpec> {
    match slot {
        Some(c) => Some(c@),
        None => None,
    }
}

/// Model of the child slots of a node.
pub open spec fn slots_view(slots: Seq<Option<MerkleValue>>) -> Seq<Option<MerkleValueSpec>> {
    Seq::new(slots.len(), |i: int| slot_view(slots[i]))
}

/// Model of an optional storage value.
pub open spec fn value_view(value: Option<StorageValue>) -> Option<StorageValueSpec> {
    match value {
        Some(v) => Some(v@),
        None => None,
    }
}

/// A decoded trie node.
#[derive(Debug, PartialEq, Eq)]
pub struct TrieNode {
    /// Nibbles shared by the node and all its descendants below the parent.
    pub partial_key: Vec<u8>,
    /// One slot per nibble value.
    pub children: Vec<Option<MerkleValue>>,
    /// The value stored at the node's key, if any.
    pub storage_value: Option<StorageValue>,
}

impl View for TrieNode {
    type V = NodeSpec;

    open spec fn view(&self) -> NodeSpec {
        NodeSpec {
            partial_key: self.partial_key@,
            children: slots_view(self.children@),
            storage_value: value_view(self.storage_value),
        }
    }
}

impl StorageValue {
    /// A copy of the value.
    pub fn duplicate(&self) -> (copy: StorageValue)
        ensures
            copy@ == self@,
    {
        match self {
            StorageValue::Plain(v) => StorageValue::Plain(crate::bytes::copy_bytes(v.as_slice())),
            StorageValue::HashOnly(h) => StorageValue::HashOnly(
                crate::bytes::copy_bytes(h.as_slice()),
            ),
        }
    }
}

impl TrieNode {
    /// A copy of the node.
    pub fn duplicate(&self) -> (copy: TrieNode)
        ensures
            copy@ == self@,
    {
        let mut children: Vec<Option<MerkleValue>> = Vec::new();
        let mut i: usize = 0;
        while i < self.children.len()
            invariant
                i <= self.children@.len(),
                children@.len() == i,
                forall|k: int| 0 <= k < i ==> slot_view(children@[k]) == slot_view(self.children@[k]),
            decreases self.children@.len() - i,
        {
            let slot = match &self.children[i] {
                Some(c) => Some(c.duplicate()),
                None => None,
            };
            children.push(slot);
            i = i + 1;
        }
        let storage_value = match &self.storage_value {
            Some(v) => Some(v.duplicate()),
            None => None,
        };
        assert(slots_view(children@) =~= slots_view(self.children@));
        TrieNode {
            partial_key: crate::bytes::copy_bytes(self.partial_key.as_slice()),
            children,
            storage_value,
        }
    }
}

} // verus!
