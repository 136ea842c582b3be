//! The table of proof entries, built from the flat proof buffer.

use vstd::prelude::*;
use vstd::slice::slice_subrange;
use crate::bytes::copy_range;
use crate::codec::{decode_node, lemma_node_prefix, spec_node, CodecError};
use crate::hash::{hash_node, node_hash};
use crate::node::{MerkleValue, MerkleValueSpec, NodeSpec, TrieNode};

verus! {

/// Why a proof is worthless.
#[derive(Debug, Clone, Copy, PartialEq, Eq, Structural)]
pub enum ProofError {
    /// An entry is malformed.
    Codec(CodecError),
    /// The last entry does not end at the end of the buffer.
    TrailingGarbage,
    /// Two entries have the same merkle value.
    DuplicateEntry,
    /// The buffer holds no entry although a root was asked for.
    Empty,
    /// No entry has the hash of a requested root.
    RootNotFound,
    /// A node below a root refers by hash to a node that is not an entry.
    MissingChild,
    /// An entry is not below any requested root.
    UnusedEntry,
}

/// The merkle value of a node encoding: the encoding itself where it is
/// shorter than 32 bytes, its hash otherwise.
pub open spec fn merkle_value_of(bytes: Seq<u8>) -> MerkleValueSpec {
    if bytes.len() < 32 {
        MerkleValueSpec::Inline(bytes)
    } else {
        MerkleValueSpec::Hashed(node_hash(bytes))
    }
}

/// Computes the merkle value of a node encoding.
pub fn merkle_value(bytes: &[u8]) -> (value: MerkleValue)
    ensures
        value@ == merkle_value_of(bytes@),
{
    if bytes.len() < 32 {
        MerkleValue::Inline(crate::bytes::copy_bytes(bytes))
    } else {
        MerkleValue::Hashed(hash_node(bytes))
    }
}

/// Model of a proof entry.
pub struct EntrySpec {
    /// The node's encoding.
    pub bytes: Seq<u8>,
    /// The merkle value of the encoding.
    pub merkle_value: MerkleValueSpec,
    /// The decoded node.
    pub node: NodeSpec,
}

impl EntrySpec {
    /// The entry's parts belong together.
    pub open spec fn well_formed(self) -> bool {
        &&& self.merkle_value == merkle_value_of(self.bytes)
        &&& spec_node(self.bytes) == Ok::<(NodeSpec, int), CodecError>(
            (self.node, self.bytes.len() as int),
        )
        &&& self.node.well_formed()
    }
}

/// The entry whose encoding is `bytes` and whose node is `node`.
pub open spec fn entry_of(bytes: Seq<u8>, node: NodeSpec) -> EntrySpec {
    EntrySpec { bytes, merkle_value: merkle_value_of(bytes), node }
}

/// One entry of a proof: a node encoding, its merkle value and the node.
#[derive(Debug)]
pub struct ProofEntry {
    /// The node's encoding.
    pub bytes: Vec<u8>,
    /// The merkle value of the encoding.
    pub merkle_value: MerkleValue,
    /// The decoded node.
    pub node: TrieNode,
}

impl View for ProofEntry {
    type V = EntrySpec;

    open spec fn view(&self) -> EntrySpec {
        EntrySpec { bytes: self.bytes@, merkle_value: self.merkle_value@, node: self.node@ }
    }
}

/// Model of a sequence of entries.
pub open spec fn entries_view(entries: Seq<ProofEntry>) -> Seq<EntrySpec> {
    Seq::new(entries.len(), |i: int| entries[i]@)
}

/// The error with which the builder answers a malformed entry: an entry that
/// reaches beyond the end of the buffer is trailing garbage.
pub open spec fn entry_error(e: CodecError) -> ProofError {
    if e == CodecError::Truncated {
        ProofError::TrailingGarbage
    } else {
        ProofError::Codec(e)
    }
}

/// Puts `front` before the entries of `rest`.
pub open spec fn prepend(front: Seq<EntrySpec>, rest: Result<Seq<EntrySpec>, ProofError>) -> Result<
    Seq<EntrySpec>,
    ProofError,
> {
    match rest {
        Ok(entries) => Ok(front + entries),
        Err(e) => Err(e),
    }
}

/// The entries that `buffer` holds from `pos` on: the node encodings one
/// behind the other, up to the end of the buffer. An encoding that decodes is
/// never empty and never reaches beyond the buffer, so that the second branch
/// of the definition only serves to show that it is well founded.
pub open spec fn spec_entries(buffer: Seq<u8>, pos: int) -> Result<Seq<EntrySpec>, ProofError>
    decreases buffer.len() - pos,
{
    if pos < 0 || pos >= buffer.len() {
        Ok(Seq::empty())
    } else {
        match spec_node(buffer.subrange(pos, buffer.len() as int)) {
            Err(e) => Err(entry_error(e)),
            Ok((node, n)) => if n <= 0 || pos + n > buffer.len() {
                Err(ProofError::TrailingGarbage)
            } else {
                prepend(
                    seq![entry_of(buffer.subrange(pos, pos + n), node)],
                    spec_entries(buffer, pos + n),
                )
            },
        }
    }
}

/// Two of the entries have the same merkle value.
pub open spec fn has_duplicate(entries: Seq<EntrySpec>) -> bool {
    exists|i: int, j: int|
        0 <= i < j < entries.len() && (#[trigger] entries[i]).merkle_value == (
        #[trigger] entries[j]).merkle_value
}

/// What [`ProofGraph::build`] makes of a buffer when `roots_requested` roots are
/// to be looked up in it.
pub open spec fn spec_build(buffer: Seq<u8>, roots_requested: nat) -> Result<
    Seq<EntrySpec>,
    ProofError,
> {
    match spec_entries(buffer, 0) {
        Err(e) => Err(e),
        Ok(entries) => if has_duplicate(entries) {
            Err(ProofError::DuplicateEntry)
        } else if entries.len() == 0 && roots_requested >= 1 {
            Err(ProofError::Empty)
        } else {
            Ok(entries)
        },
    }
}

/// The decoded entries of a proof, indexed by their position in the buffer
/// and found by merkle value.
///
/// A graph only ever holds well-formed entries with distinct merkle values.
#[derive(Debug)]
pub struct ProofGraph {
    entries: Vec<ProofEntry>,
}

impl View for ProofGraph {
    type V = Seq<EntrySpec>;

    closed spec fn view(&self) -> Seq<EntrySpec> {
        entries_view(self.entries@)
    }
}

/// The position of the first entry from `from` on whose merkle value is `value`.
pub open spec fn find_from(entries: Seq<EntrySpec>, value: MerkleValueSpec, from: int) -> Option<int>
    decreases entries.len() - from,
{
    if from < 0 || from >= entries.len() {
        None
    } else if entries[from].merkle_value == value {
        Some(from)
    } else {
        find_from(entries, value, from + 1)
    }
}

/// The position of the entry whose merkle value is `value`.
pub open spec fn find(entries: Seq<EntrySpec>, value: MerkleValueSpec) -> Option<int> {
    find_from(entries, value, 0)
}

/// The graph's invariant: every entry is well formed and no two entries have
/// the same merkle value.
pub open spec fn graph_well_formed(entries: Seq<EntrySpec>) -> bool {
    &&& forall|i: int| 0 <= i < entries.len() ==> (#[trigger] entries[i]).well_formed()
    &&& !has_duplicate(entries)
}

/// What `find_from` returns is the position of a matching entry, and it
/// returns one whenever an entry matches.
pub proof fn lemma_find_from(entries: Seq<EntrySpec>, value: MerkleValueSpec, from: int)
    requires
        0 <= from,
    ensures
        match find_from(entries, value, from) {
            Some(i) => from <= i < entries.len() && entries[i].merkle_value == value,
            None => forall|i: int|
                from <= i < entries.len() ==> (#[trigger] entries[i]).merkle_value != value,
        },
    decreases entries.len() - from,
{
    if from < entries.len() && entries[from].merkle_value != value {
        lemma_find_from(entries, value, from + 1);
    }
}

impl ProofGraph {
    #[verifier::type_invariant]
    spec fn holds(self) -> bool {
        graph_well_formed(entries_view(self.entries@))
    }

    /// The graph's invariant holds.
    pub open spec fn well_formed(&self) -> bool {
        graph_well_formed(self@)
    }

    /// Number of entries.
    pub fn len(&self) -> (n: usize)
        ensures
            n == self@.len(),
            self.well_formed(),
    {
        proof {
            use_type_invariant(self);
        }
        self.entries.len()
    }

    /// The entry at position `i`, if there is one.
    pub fn entry(&self, i: usize) -> (found: Option<&ProofEntry>)
        ensures
            match found {
                Some(entry) => i < self@.len() && entry@ == self@[i as int],
                None => i >= self@.len(),
            },
    {
        if i < self.entries.len() {
            Some(&self.entries[i])
        } else {
            None
        }
    }

    /// Looks up the entry with the given merkle value.
    pub fn position(&self, value: &MerkleValue) -> (found: Option<usize>)
        ensures
            match found {
                Some(i) => find(self@, value@) == Some(i as int) && i < self@.len(),
                None => find(self@, value@) is None,
            },
    {
        let mut i: usize = 0;
        while i < self.entries.len()
            invariant
                i <= self.entries@.len(),
                find(self@, value@) == find_from(self@, value@, i as int),
            decreases self.entries@.len() - i,
        {
            if self.entries[i].merkle_value.same_as(value) {
                return Some(i);
            }
            i = i + 1;
        }
        None
    }

    /// Tells whether two of the entries have the same merkle value.
    fn any_duplicate(entries: &Vec<ProofEntry>) -> (found: bool)
        ensures
            found == has_duplicate(entries_view(entries@)),
    {
        let ghost all = entries_view(entries@);
        let mut j: usize = 0;
        while j < entries.len()
            invariant
                j <= entries@.len(),
                all == entries_view(entries@),
                forall|a: int, b: int|
                    0 <= a < b < j ==> (#[trigger] all[a]).merkle_value != (
                    #[trigger] all[b]).merkle_value,
            decreases entries@.len() - j,
        {
            let mut i: usize = 0;
            while i < j
                invariant
                    i <= j < entries@.len(),
                    all == entries_view(entries@),
                    forall|a: int| 0 <= a < i ==> (#[trigger] all[a]).merkle_value != all[j as int].merkle_value,
                decreases j - i,
            {
                if entries[i].merkle_value.same_as(&entries[j].merkle_value) {
                    assert(all[i as int].merkle_value == all[j as int].merkle_value);
                    return true;
                }
                i = i + 1;
            }
            j = j + 1;
        }
        false
    }

    /// Builds the graph from a proof buffer.
    ///
    /// The buffer is a concatenation of node encodings without any framing:
    /// each entry starts where the one before it ended. `roots_requested` is
    /// the number of roots that will be looked up in the graph.
    pub fn build(buffer: &[u8], roots_requested: usize) -> (r: Result<ProofGraph, ProofError>)
        ensures
            match r {
                Ok(graph) => spec_build(buffer@, roots_requested as nat) == Ok::<
                    Seq<EntrySpec>,
                    ProofError,
                >(graph@) && graph.well_formed(),
                Err(e) => spec_build(buffer@, roots_requested as nat) == Err::<
                    Seq<EntrySpec>,
                    ProofError,
                >(e),
            },
    {
        let mut entries: Vec<ProofEntry> = Vec::new();
        let mut pos: usize = 0;
        let total: usize = buffer.len();
        proof {
            assert(entries_view(entries@) =~= Seq::<EntrySpec>::empty());
            assert(Seq::<EntrySpec>::empty() + spec_entries(buffer@, 0)->Ok_0 =~= spec_entries(
                buffer@,
                0,
            )->Ok_0);
        }
        while pos < total
            invariant
                total == buffer@.len(),
                pos <= total,
                spec_entries(buffer@, 0) == prepend(
                    entries_view(entries@),
                    spec_entries(buffer@, pos as int),
                ),
                forall|i: int|
                    0 <= i < entries@.len() ==> (#[trigger] entries_view(entries@)[i]).well_formed(),
            decreases total - pos,
        {
            let rest = slice_subrange(buffer, pos, total);
            match decode_node(rest) {
                Err(e) => {
                    return Err(
                        match e {
                            CodecError::Truncated => ProofError::TrailingGarbage,
                            other => ProofError::Codec(other),
                        },
                    );
                },
                Ok((node, n)) => {
                    let bytes = copy_range(rest, 0, n);
                    let merkle_value = merkle_value(bytes.as_slice());
                    let ghost before = entries_view(entries@);
                    let ghost tail = spec_entries(buffer@, pos + n);
                    let entry = ProofEntry { bytes, merkle_value, node };
                    proof {
                        assert(rest@.subrange(0, n as int) =~= buffer@.subrange(
                            pos as int,
                            pos + n,
                        ));
                        assert(entry@ == entry_of(buffer@.subrange(pos as int, pos + n), node@));
                        lemma_node_prefix(rest@, entry@.bytes);
                    }
                    entries.push(entry);
                    pos = pos + n;
                    proof {
                        let one = seq![entry_of(buffer@.subrange(pos - n, pos as int), node@)];
                        assert(entries_view(entries@) =~= before + one);
                        if tail is Ok {
                            assert(before + (one + tail->Ok_0) =~= (before + one) + tail->Ok_0);
                        }
                    }
                },
            }
        }
        proof {
            assert(entries_view(entries@) + Seq::<EntrySpec>::empty() =~= entries_view(entries@));
        }
        if Self::any_duplicate(&entries) {
            return Err(ProofError::DuplicateEntry);
        }
        if entries.len() == 0 && roots_requested >= 1 {
            return Err(ProofError::Empty);
        }
        Ok(ProofGraph { entries })
    }
}

} // verus!
