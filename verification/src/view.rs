//! Lookups in a verified proof.

use vstd::prelude::*;
use crate::bytes::{bytes_to_nibbles, copy_bytes, nibbles_of};
use crate::codec::{decode_flat, spec_decode};
use crate::graph::{find, graph_well_formed, spec_build, EntrySpec, ProofError, ProofGraph};
use crate::node::{
    MerkleValue, MerkleValueSpec, NodeSpec, StorageValue, StorageValueSpec, TrieNode,
};
use crate::traversal::{root_missing, roots_view, spec_verify, verify};

verus! {

/// Model of the answer to a lookup.
pub enum LookupSpec {
    /// The key has this value.
    Found(Seq<u8>),
    /// The key has a value with this hash; the proof does not hold its bytes.
    FoundHashOnly(Seq<u8>),
    /// The proof shows that the key has no value.
    NotFound,
    /// The proof does not hold the nodes that would tell.
    NotInProof,
}

/// The answer to a lookup.
#[derive(Debug, PartialEq, Eq)]
pub enum Lookup {
    /// The key has this value.
    Found(Vec<u8>),
    /// The key has a value with this hash; the proof does not hold its bytes.
    FoundHashOnly(Vec<u8>),
    /// The proof shows that the key has no value.
    NotFound,
    /// The proof does not hold the nodes that would tell: the root is not the
    /// hash of an entry, or the walk meets a hash that no entry has. Below a
    /// root that the proof was verified against this is never the answer.
    NotInProof,
}

impl View for Lookup {
    type V = LookupSpec;

    open spec fn view(&self) -> LookupSpec {
        match self {
            Lookup::Found(v) => LookupSpec::Found(v@),
            Lookup::FoundHashOnly(h) => LookupSpec::FoundHashOnly(h@),
            Lookup::NotFound => LookupSpec::NotFound,
            Lookup::NotInProof => LookupSpec::NotInProof,
        }
    }
}

/// Where a walk along a key ends.
pub enum PlaceSpec {
    /// At this node, whose key is the whole of the walked key.
    At(NodeSpec),
    /// Nowhere: the trie has no node with that key.
    Absent,
    /// Outside the proof.
    Unknown,
}

/// Where the walk along the nibbles `key` ends that starts above `node`.
pub open spec fn spec_locate(entries: Seq<EntrySpec>, node: NodeSpec, key: Seq<u8>) -> PlaceSpec
    decreases key.len(),
{
    let shared = node.partial_key.len() as int;
    if key.len() < shared || key.subrange(0, shared) != node.partial_key {
        PlaceSpec::Absent
    } else if key.len() == shared {
        PlaceSpec::At(node)
    } else {
        let nibble = key[shared];
        let rest = key.subrange(shared + 1, key.len() as int);
        if nibble >= 16 || node.children.len() != 16 {
            PlaceSpec::Absent
        } else {
            match node.children[nibble as int] {
                None => PlaceSpec::Absent,
                Some(MerkleValueSpec::Hashed(h)) => match find(
                    entries,
                    MerkleValueSpec::Hashed(h),
                ) {
                    None => PlaceSpec::Unknown,
                    Some(j) => spec_locate(entries, entries[j].node, rest),
                },
                Some(MerkleValueSpec::Inline(b)) => match spec_decode(b) {
                    Ok((child, n)) => if n == b.len() {
                        spec_locate(entries, child, rest)
                    } else {
                        PlaceSpec::Unknown
                    },
                    Err(_) => PlaceSpec::Unknown,
                },
            }
        }
    }
}

/// Where the walk along the nibbles `key` ends that starts at the node with
/// the hash `root`.
pub open spec fn spec_locate_from(entries: Seq<EntrySpec>, root: Seq<u8>, key: Seq<u8>) -> PlaceSpec {
    match find(entries, MerkleValueSpec::Hashed(root)) {
        None => PlaceSpec::Unknown,
        Some(i) => spec_locate(entries, entries[i].node, key),
    }
}

/// The value of the key whose nibbles are `key` in the trie with the hash `root`.
pub open spec fn spec_get(entries: Seq<EntrySpec>, root: Seq<u8>, key: Seq<u8>) -> LookupSpec {
    match spec_locate_from(entries, root, key) {
        PlaceSpec::At(node) => match node.storage_value {
            Some(StorageValueSpec::Plain(v)) => LookupSpec::Found(v),
            Some(StorageValueSpec::HashOnly(h)) => LookupSpec::FoundHashOnly(h),
            None => LookupSpec::NotFound,
        },
        PlaceSpec::Absent => LookupSpec::NotFound,
        PlaceSpec::Unknown => LookupSpec::NotInProof,
    }
}

/// The occupied slots among the first `upto`, each with its nibble, in
/// ascending order.
pub open spec fn present_children(children: Seq<Option<MerkleValueSpec>>, upto: int) -> Seq<
    (u8, MerkleValueSpec),
>
    decreases upto,
{
    if upto <= 0 {
        Seq::empty()
    } else {
        let before = present_children(children, upto - 1);
        match children[upto - 1] {
            Some(c) => before.push(((upto - 1) as u8, c)),
            None => before,
        }
    }
}

/// The children of the node whose key is `prefix` in the trie with the hash
/// `root`; none where the proof holds no such node.
pub open spec fn spec_children_of(entries: Seq<EntrySpec>, root: Seq<u8>, prefix: Seq<u8>) -> Seq<
    (u8, MerkleValueSpec),
> {
    match spec_locate_from(entries, root, prefix) {
        PlaceSpec::At(node) => present_children(node.children, 16),
        _ => Seq::empty(),
    }
}

/// Model of a list of children.
pub open spec fn children_view(children: Seq<(u8, MerkleValue)>) -> Seq<(u8, MerkleValueSpec)> {
    Seq::new(children.len(), |i: int| (children[i].0, children[i].1@))
}

/// Where a walk along a key ends.
#[derive(Debug, PartialEq, Eq)]
pub enum Place {
    /// At this node, whose key is the whole of the walked key.
    At(TrieNode),
    /// Nowhere: the trie has no node with that key.
    Absent,
    /// Outside the proof.
    Unknown,
}

impl View for Place {
    type V = PlaceSpec;

    open spec fn view(&self) -> PlaceSpec {
        match self {
            Place::At(node) => PlaceSpec::At(node@),
            Place::Absent => PlaceSpec::Absent,
            Place::Unknown => PlaceSpec::Unknown,
        }
    }
}

/// Tells whether `key` continues from `pos` on with the nibbles of `shared`.
fn continues_with(key: &[u8], pos: usize, shared: &[u8]) -> (yes: bool)
    requires
        pos <= key@.len(),
    ensures
        yes == (key@.len() - pos >= shared@.len() && key@.subrange(
            pos as int,
            pos + shared@.len(),
        ) == shared@),
{
    let total: usize = key.len();
    if total - pos < shared.len() {
        return false;
    }
    let mut i: usize = 0;
    while i < shared.len()
        invariant
            total == key@.len(),
            pos + shared@.len() <= key@.len(),
            i <= shared@.len(),
            forall|k: int| 0 <= k < i ==> key@[pos + k] == shared@[k],
        decreases shared@.len() - i,
    {
        if key[pos + i] != shared[i] {
            assert(key@.subrange(pos as int, pos + shared@.len())[i as int] != shared@[i as int]);
            return false;
        }
        i = i + 1;
    }
    assert(key@.subrange(pos as int, pos + shared@.len()) =~= shared@);
    true
}

/// The configuration of a proof verification.
pub struct Config<'a> {
    /// The proof as received: node encodings one behind the other.
    pub proof: &'a [u8],
}

/// What [`decode_and_verify_proof`] makes of a buffer and the expected roots:
/// the entries of the verified graph, or the first failure.
pub open spec fn spec_decode_and_verify(buffer: Seq<u8>, roots: Seq<Seq<u8>>) -> Result<
    Seq<EntrySpec>,
    ProofError,
> {
    match spec_build(buffer, roots.len()) {
        Err(e) => Err(e),
        Ok(entries) => match spec_verify(entries, roots) {
            Err(e) => Err(e),
            Ok(_) => Ok(entries),
        },
    }
}

/// One of the root hashes that a proof was verified against, with the place
/// of its node among the entries of the proof.
#[derive(Debug, PartialEq, Eq)]
pub struct VerifiedRoot {
    /// The root hash.
    pub hash: Vec<u8>,
    /// The position of the entry whose hash it is.
    pub position: usize,
}

/// A verified proof: the graph of its entries and the roots that it was
/// verified against. A view only ever holds a graph that verifies against
/// its roots.
#[derive(Debug)]
pub struct QueryView {
    graph: ProofGraph,
    roots: Vec<Vec<u8>>,
}

impl QueryView {
    #[verifier::type_invariant]
    spec fn holds(self) -> bool {
        spec_verify(self.graph@, roots_view(self.roots@)) is Ok
    }

    /// The entries of the verified proof.
    pub closed spec fn entries(&self) -> Seq<EntrySpec> {
        self.graph@
    }

    /// The root hashes that the proof was verified against.
    pub closed spec fn roots(&self) -> Seq<Seq<u8>> {
        roots_view(self.roots@)
    }

    /// The view's invariant: its graph is well formed and verifies against its
    /// roots.
    pub open spec fn well_formed(&self) -> bool {
        &&& graph_well_formed(self.entries())
        &&& spec_verify(self.entries(), self.roots()) is Ok
    }

    /// Verifies a graph against the expected root hashes and keeps both.
    pub fn new(graph: ProofGraph, roots: Vec<Vec<u8>>) -> (r: Result<QueryView, ProofError>)
        ensures
            match r {
                Ok(view) => spec_verify(graph@, roots_view(roots@)) is Ok && view.entries()
                    == graph@ && view.roots() == roots_view(roots@) && view.well_formed(),
                Err(e) => spec_verify(graph@, roots_view(roots@)) == Err::<
                    Seq<MerkleValueSpec>,
                    ProofError,
                >(e),
            },
    {
        let _ = graph.len();
        match verify(&graph, &roots) {
            Err(e) => Err(e),
            Ok(_) => Ok(QueryView { graph, roots }),
        }
    }

    /// The graph of the proof's entries.
    pub fn graph(&self) -> (graph: &ProofGraph)
        ensures
            graph@ == self.entries(),
            self.well_formed(),
    {
        proof {
            use_type_invariant(self);
        }
        let _ = self.graph.len();
        &self.graph
    }

    /// The root hashes that the proof was verified against.
    pub fn root_hashes(&self) -> (roots: &Vec<Vec<u8>>)
        ensures
            roots_view(roots@) == self.roots(),
    {
        &self.roots
    }

    /// The root with the number `r` among those that the proof was verified
    /// against.
    pub fn verified_root(&self, r: usize) -> (root: Option<VerifiedRoot>)
        ensures
            match root {
                Some(found) => r < self.roots().len() && found.hash@ == self.roots()[r as int]
                    && find(self.entries(), MerkleValueSpec::Hashed(found.hash@)) == Some(
                    found.position as int,
                ),
                None => r >= self.roots().len(),
            },
    {
        proof {
            use_type_invariant(self);
        }
        if r >= self.roots.len() {
            return None;
        }
        let hash = copy_bytes(self.roots[r].as_slice());
        assert(hash@ == roots_view(self.roots@)[r as int]);
        let value = MerkleValue::Hashed(copy_bytes(hash.as_slice()));
        match self.graph.position(&value) {
            Some(position) => Some(VerifiedRoot { hash, position }),
            None => {
                // A verified graph holds the node of every root.
                assert(root_missing(self.graph@, roots_view(self.roots@)));
                None
            },
        }
    }

    /// Walks along `key` from `pos` on, starting above `node`.
    fn locate(&self, node: &TrieNode, key: &[u8], pos: usize) -> (place: Place)
        requires
            self.graph.well_formed(),
            node@.well_formed(),
            pos <= key@.len(),
        ensures
            place@ == spec_locate(self.graph@, node@, key@.subrange(pos as int, key@.len() as int)),
            place@ matches PlaceSpec::At(found) ==> found.well_formed(),
        decreases key@.len() - pos,
    {
        let ghost entries = self.graph@;
        let ghost tail = key@.subrange(pos as int, key@.len() as int);
        let shared: usize = node.partial_key.len();
        if !continues_with(key, pos, node.partial_key.as_slice()) {
            assert(tail.len() >= shared ==> tail.subrange(0, shared as int) =~= key@.subrange(
                pos as int,
                pos + shared,
            ));
            return Place::Absent;
        }
        assert(tail.subrange(0, shared as int) =~= key@.subrange(pos as int, pos + shared));
        if key.len() - pos == shared {
            return Place::At(node.duplicate());
        }
        let nibble: u8 = key[pos + shared];
        let after: usize = pos + shared + 1;
        assert(tail[shared as int] == nibble);
        assert(tail.subrange(shared + 1, tail.len() as int) =~= key@.subrange(
            after as int,
            key@.len() as int,
        ));
        if nibble >= 16 {
            return Place::Absent;
        }
        assert(node@.children[nibble as int] == crate::node::slot_view(
            node.children@[nibble as int],
        ));
        match &node.children[nibble as usize] {
            None => Place::Absent,
            Some(child) => match child {
                MerkleValue::Hashed(_) => match self.graph.position(child) {
                    None => Place::Unknown,
                    Some(j) => {
                        assert(entries[j as int].well_formed());
                        match self.graph.entry(j) {
                            Some(entry) => self.locate(&entry.node, key, after),
                            None => Place::Unknown,
                        }
                    },
                },
                MerkleValue::Inline(b) => match decode_flat(b.as_slice()) {
                    Err(_) => Place::Unknown,
                    Ok((inner, n)) => if n == b.len() {
                        self.locate(&inner, key, after)
                    } else {
                        Place::Unknown
                    },
                },
            },
        }
    }

    /// Walks along `key`, starting at the node with the hash `root`.
    fn locate_from(&self, root: &[u8], key: &[u8]) -> (place: Place)
        ensures
            place@ == spec_locate_from(self.graph@, root@, key@),
            place@ matches PlaceSpec::At(found) ==> found.well_formed(),
    {
        let value = MerkleValue::Hashed(copy_bytes(root));
        let _ = self.graph.len();
        match self.graph.position(&value) {
            None => Place::Unknown,
            Some(i) => {
                assert(self.graph@[i as int].well_formed());
                assert(key@.subrange(0, key@.len() as int) =~= key@);
                match self.graph.entry(i) {
                    Some(entry) => self.locate(&entry.node, key, 0),
                    None => Place::Unknown,
                }
            },
        }
    }

    /// Looks up the key whose nibbles are `key` in the trie with the hash `root`.
    pub fn get_nibbles(&self, root: &[u8], key: &[u8]) -> (found: Lookup)
        ensures
            found@ == spec_get(self.entries(), root@, key@),
    {
        match self.locate_from(root, key) {
            Place::At(node) => match node.storage_value {
                Some(StorageValue::Plain(v)) => Lookup::Found(v),
                Some(StorageValue::HashOnly(h)) => Lookup::FoundHashOnly(h),
                None => Lookup::NotFound,
            },
            Place::Absent => Lookup::NotFound,
            Place::Unknown => Lookup::NotInProof,
        }
    }

    /// Looks up `key` in the trie with the hash `root`.
    ///
    /// The answer rests on the nodes of the proof alone: a value that the proof
    /// gives only by its hash is answered by that hash, and a walk that leaves
    /// the proof is answered by `NotInProof`.
    pub fn get(&self, root: &[u8], key: &[u8]) -> (found: Lookup)
        ensures
            found@ == spec_get(self.entries(), root@, nibbles_of(key@)),
    {
        let nibbles = bytes_to_nibbles(key);
        self.get_nibbles(root, nibbles.as_slice())
    }

    /// Lists the children of the node whose key is the nibbles `prefix` in the
    /// trie with the hash `root`: each with its nibble, in ascending order, at
    /// most 16. The list is empty where the proof holds no such node.
    pub fn children_of(&self, root: &[u8], prefix: &[u8]) -> (children: Vec<(u8, MerkleValue)>)
        ensures
            children_view(children@) == spec_children_of(self.entries(), root@, prefix@),
            children@.len() <= 16,
    {
        let mut children: Vec<(u8, MerkleValue)> = Vec::new();
        match self.locate_from(root, prefix) {
            Place::At(node) => {
                let mut s: usize = 0;
                while s < 16
                    invariant
                        s <= 16,
                        node.children@.len() == 16,
                        children@.len() <= s,
                        children_view(children@) == present_children(node@.children, s as int),
                    decreases 16 - s,
                {
                    let ghost before = children_view(children@);
                    assert(node@.children[s as int] == crate::node::slot_view(
                        node.children@[s as int],
                    ));
                    match &node.children[s] {
                        Some(c) => {
                            let copy = c.duplicate();
                            children.push((s as u8, copy));
                            assert(children_view(children@) =~= before.push((s as u8, copy@)));
                        },
                        None => {},
                    }
                    s = s + 1;
                }
            },
            _ => {},
        }
        children
    }
}

/// Decodes a proof and verifies it against the expected root hashes.
///
/// Succeeds where the buffer is a sequence of well-formed node encodings
/// without duplicates, every root is the hash of one of them, every hash held
/// by a node below a root is the hash of one of them, and every one of them
/// lies below a root.
pub fn decode_and_verify_proof(config: Config<'_>, roots: Vec<Vec<u8>>) -> (r: Result<
    QueryView,
    ProofError,
>)
    ensures
        match r {
            Ok(view) => spec_decode_and_verify(config.proof@, roots_view(roots@)) == Ok::<
                Seq<EntrySpec>,
                ProofError,
            >(view.entries()) && view.roots() == roots_view(roots@) && view.well_formed(),
            Err(e) => spec_decode_and_verify(config.proof@, roots_view(roots@)) == Err::<
                Seq<EntrySpec>,
                ProofError,
            >(e),
        },
{
    let graph = match ProofGraph::build(config.proof, roots.len()) {
        Err(e) => {
            return Err(e);
        },
        Ok(graph) => graph,
    };
    QueryView::new(graph, roots)
}

} // verus!
