//! Laws of proof verification, stated over the models of the functions.

use vstd::prelude::*;
use crate::codec::{
    agree, children_ok, inline_ok, lemma_decode_shape, lemma_node_agrees, lemma_node_bounds,
    lemma_node_prefix, spec_decode, spec_node, CodecError,
};
use crate::graph::{
    entry_of, find, find_from, graph_well_formed, has_duplicate, lemma_find_from, prepend,
    spec_build, spec_entries, EntrySpec, ProofError,
};
use crate::node::{MerkleValueSpec, NodeSpec};
use crate::traversal::{
    child_missing, dangling, entry_unused, is_path, is_root, lemma_reach_root, lemma_reach_step,
    reachable, refers_by, refers_to, root_missing, spec_verify,
};
use crate::view::{spec_decode_and_verify, spec_get, spec_locate};

verus! {

/// A graph without the node of one of the roots fails with `RootNotFound`,
/// whatever else is wrong with it.
pub proof fn law_absent_root(entries: Seq<EntrySpec>, roots: Seq<Seq<u8>>, r: int)
    requires
        0 <= r < roots.len(),
        find(entries, MerkleValueSpec::Hashed(roots[r])) is None,
    ensures
        spec_verify(entries, roots) == Err::<Seq<MerkleValueSpec>, ProofError>(
            ProofError::RootNotFound,
        ),
{
    assert(root_missing(entries, roots));
}

/// A graph that holds the node of every root, but not a node whose hash a
/// node below a root holds, fails with `MissingChild`.
pub proof fn law_absent_child(entries: Seq<EntrySpec>, roots: Seq<Seq<u8>>, i: int, s: int)
    requires
        !root_missing(entries, roots),
        0 <= i < entries.len(),
        0 <= s < 16,
        reachable(entries, roots, i),
        dangling(entries, i, s),
    ensures
        spec_verify(entries, roots) == Err::<Seq<MerkleValueSpec>, ProofError>(
            ProofError::MissingChild,
        ),
{
    assert(child_missing(entries, roots));
}

/// The entries of `b`, read from its position `q` on, are the entries of
/// `a + b` read from the same place.
pub proof fn lemma_entries_shift(a: Seq<u8>, b: Seq<u8>, q: int)
    requires
        0 <= q <= b.len(),
    ensures
        spec_entries(a + b, a.len() + q) == spec_entries(b, q),
    decreases b.len() - q,
{
    let whole = a + b;
    if q < b.len() {
        assert(whole.subrange(a.len() + q, whole.len() as int) =~= b.subrange(q, b.len() as int));
        match spec_node(b.subrange(q, b.len() as int)) {
            Err(_) => {},
            Ok((node, n)) => {
                if n > 0 && q + n <= b.len() {
                    assert(whole.subrange(a.len() + q, a.len() + q + n) =~= b.subrange(q, q + n));
                    lemma_entries_shift(a, b, q + n);
                }
            },
        }
    }
}

/// Where `a` is a sequence of entries from `pos` on, `a + b` holds these
/// entries and then those of `b`.
pub proof fn lemma_entries_concat(a: Seq<u8>, b: Seq<u8>, pos: int)
    requires
        0 <= pos <= a.len(),
        spec_entries(a, pos) is Ok,
    ensures
        spec_entries(a + b, pos) == prepend(spec_entries(a, pos)->Ok_0, spec_entries(b, 0)),
    decreases a.len() - pos,
{
    let whole = a + b;
    if pos == a.len() {
        lemma_entries_shift(a, b, 0);
        if spec_entries(b, 0) is Ok {
            assert(Seq::<EntrySpec>::empty() + spec_entries(b, 0)->Ok_0 =~= spec_entries(
                b,
                0,
            )->Ok_0);
        }
        if b.len() == 0 {
            assert(whole =~= a);
        }
    } else {
        let here = a.subrange(pos, a.len() as int);
        let there = whole.subrange(pos, whole.len() as int);
        let (node, n) = spec_node(here)->Ok_0;
        assert(agree(here, there, n));
        lemma_node_agrees(here, there);
        assert(whole.subrange(pos, pos + n) =~= a.subrange(pos, pos + n));
        lemma_entries_concat(a, b, pos + n);
        let one = seq![entry_of(a.subrange(pos, pos + n), node)];
        let rest = spec_entries(a, pos + n)->Ok_0;
        if spec_entries(b, 0) is Ok {
            let tail = spec_entries(b, 0)->Ok_0;
            assert(one + (rest + tail) =~= (one + rest) + tail);
        }
    }
}

/// A buffer that is one node encoding holds one entry.
pub proof fn lemma_single_entry(e: Seq<u8>, node: NodeSpec)
    requires
        spec_node(e) == Ok::<(NodeSpec, int), CodecError>((node, e.len() as int)),
    ensures
        spec_entries(e, 0) == Ok::<Seq<EntrySpec>, ProofError>(seq![entry_of(e, node)]),
{
    lemma_node_bounds(e);
    assert(e.subrange(0, e.len() as int) =~= e);
    assert(spec_entries(e, e.len() as int) == Ok::<Seq<EntrySpec>, ProofError>(Seq::empty()));
    assert(seq![entry_of(e, node)] + Seq::<EntrySpec>::empty() =~= seq![entry_of(e, node)]);
}

/// A buffer that holds one node encoding twice is rejected with
/// `DuplicateEntry`: `e` is an encoding that decodes alone, and `front`,
/// `middle` and `back` are sequences of entries, each of which may be empty.
pub proof fn law_repeated_entry(
    front: Seq<u8>,
    e: Seq<u8>,
    middle: Seq<u8>,
    back: Seq<u8>,
    node: NodeSpec,
    roots_requested: nat,
)
    requires
        spec_entries(front, 0) is Ok,
        spec_entries(middle, 0) is Ok,
        spec_entries(back, 0) is Ok,
        spec_node(e) == Ok::<(NodeSpec, int), CodecError>((node, e.len() as int)),
    ensures
        spec_build(front + e + middle + e + back, roots_requested) == Err::<
            Seq<EntrySpec>,
            ProofError,
        >(ProofError::DuplicateEntry),
{
    let one = seq![entry_of(e, node)];
    let ef = spec_entries(front, 0)->Ok_0;
    let em = spec_entries(middle, 0)->Ok_0;
    let eb = spec_entries(back, 0)->Ok_0;
    lemma_single_entry(e, node);
    lemma_entries_concat(front, e, 0);
    lemma_entries_concat(front + e, middle, 0);
    lemma_entries_concat(front + e + middle, e, 0);
    lemma_entries_concat(front + e + middle + e, back, 0);
    let all = spec_entries(front + e + middle + e + back, 0)->Ok_0;
    assert(all == ef + one + em + one + eb);
    let i = ef.len() as int;
    let j = (ef.len() + 1 + em.len()) as int;
    assert(all[i] == entry_of(e, node));
    assert(all[j] == entry_of(e, node));
    assert(has_duplicate(all));
}

/// An entry that is found among some entries is found at the same place
/// when one more entry follows them.
pub proof fn lemma_find_extended(
    entries: Seq<EntrySpec>,
    extra: EntrySpec,
    value: MerkleValueSpec,
    from: int,
)
    requires
        0 <= from,
    ensures
        find_from(entries, value, from) is Some ==> find_from(entries.push(extra), value, from)
            == find_from(entries, value, from),
        find_from(entries.push(extra), value, from) is None ==> find_from(entries, value, from)
            is None,
    decreases entries.len() - from,
{
    let longer = entries.push(extra);
    if from < entries.len() {
        assert(longer[from] == entries[from]);
        if entries[from].merkle_value != value {
            lemma_find_extended(entries, extra, value, from + 1);
        }
    }
}

/// In a verified graph followed by one more entry with a merkle value of its
/// own, a path from a root never leaves the verified graph.
proof fn lemma_path_stays(
    entries: Seq<EntrySpec>,
    extra: EntrySpec,
    roots: Seq<Seq<u8>>,
    path: Seq<int>,
    k: int,
)
    requires
        spec_verify(entries, roots) is Ok,
        forall|i: int| 0 <= i < entries.len() ==> (#[trigger] entries[i]).merkle_value != extra.merkle_value,
        is_path(entries.push(extra), roots, path),
        0 <= k < path.len(),
    ensures
        0 <= path[k] < entries.len(),
    decreases k,
{
    let longer = entries.push(extra);
    let n = entries.len() as int;
    if k == 0 {
        if path[0] == n {
            let r = choose|r: int|
                0 <= r < roots.len() && longer[path[0]].merkle_value == MerkleValueSpec::Hashed(
                    #[trigger] roots[r],
                );
            lemma_find_from(entries, MerkleValueSpec::Hashed(roots[r]), 0);
        }
    } else {
        lemma_path_stays(entries, extra, roots, path, k - 1);
        let i = path[k - 1];
        if path[k] == n {
            assert(refers_to(longer, i, path[k]));
            let s = choose|s: int| #[trigger] refers_by(longer, i, s, n);
            assert(longer[i] == entries[i]);
            assert(reachable(entries, roots, i));
            let h = extra.merkle_value->Hashed_0;
            if find(entries, MerkleValueSpec::Hashed(h)) is None {
                assert(dangling(entries, i, s));
            } else {
                lemma_find_from(entries, MerkleValueSpec::Hashed(h), 0);
            }
        }
    }
}

/// A path through a graph is a path through the graph followed by one more
/// entry, and back where it stays among the first entries.
proof fn lemma_path_shared(
    entries: Seq<EntrySpec>,
    extra: EntrySpec,
    roots: Seq<Seq<u8>>,
    path: Seq<int>,
)
    requires
        is_path(entries.push(extra), roots, path),
        forall|k: int| 0 <= k < path.len() ==> 0 <= #[trigger] path[k] < entries.len(),
    ensures
        is_path(entries, roots, path),
{
    let longer = entries.push(extra);
    assert(longer[path[0]] == entries[path[0]]);
    let r = choose|r: int|
        0 <= r < roots.len() && longer[path[0]].merkle_value == MerkleValueSpec::Hashed(
            #[trigger] roots[r],
        );
    assert(is_root(entries, roots, path[0]));
    assert forall|k: int| 0 <= k < path.len() - 1 implies refers_to(
        entries,
        #[trigger] path[k],
        path[k + 1],
    ) by {
        assert(refers_to(longer, path[k], path[k + 1]));
        let s = choose|s: int| #[trigger] refers_by(longer, path[k], s, path[k + 1]);
        assert(longer[path[k]] == entries[path[k]]);
        assert(longer[path[k + 1]] == entries[path[k + 1]]);
        assert(refers_by(entries, path[k], s, path[k + 1]));
    }
}

/// Reachability-equals-entries: a verified proof followed by one more node
/// encoding, well formed and not the encoding of an entry, is rejected with
/// `UnusedEntry`. No node of a verified proof can refer to the new entry, since
/// all that they refer to by hash are entries already.
pub proof fn law_appended_entry_unused(
    buffer: Seq<u8>,
    e: Seq<u8>,
    node: NodeSpec,
    roots: Seq<Seq<u8>>,
)
    requires
        spec_decode_and_verify(buffer, roots) is Ok,
        spec_node(e) == Ok::<(NodeSpec, int), CodecError>((node, e.len() as int)),
        forall|i: int|
            0 <= i < spec_decode_and_verify(buffer, roots)->Ok_0.len() ==> (
            #[trigger] spec_decode_and_verify(buffer, roots)->Ok_0[i]).merkle_value != entry_of(
                e,
                node,
            ).merkle_value,
    ensures
        spec_decode_and_verify(buffer + e, roots) == Err::<Seq<EntrySpec>, ProofError>(
            ProofError::UnusedEntry,
        ),
{
    let entries = spec_decode_and_verify(buffer, roots)->Ok_0;
    let extra = entry_of(e, node);
    let longer = entries.push(extra);
    let n = entries.len() as int;
    assert(spec_entries(buffer, 0) == Ok::<Seq<EntrySpec>, ProofError>(entries));
    lemma_single_entry(e, node);
    lemma_entries_concat(buffer, e, 0);
    assert(entries + seq![extra] =~= longer);
    assert(spec_entries(buffer + e, 0) == Ok::<Seq<EntrySpec>, ProofError>(longer));
    assert(!has_duplicate(longer)) by {
        if has_duplicate(longer) {
            let (i, j) = choose|i: int, j: int|
                0 <= i < j < longer.len() && (#[trigger] longer[i]).merkle_value == (
                #[trigger] longer[j]).merkle_value;
            if j < n {
                assert(entries[i].merkle_value == entries[j].merkle_value);
            } else {
                assert(entries[i].merkle_value == extra.merkle_value);
            }
        }
    }
    assert(spec_build(buffer + e, roots.len()) == Ok::<Seq<EntrySpec>, ProofError>(longer));
    assert(!root_missing(longer, roots)) by {
        if root_missing(longer, roots) {
            let r = choose|r: int|
                0 <= r < roots.len() && find(
                    longer,
                    MerkleValueSpec::Hashed(#[trigger] roots[r]),
                ) is None;
            lemma_find_extended(entries, extra, MerkleValueSpec::Hashed(roots[r]), 0);
        }
    }
    assert forall|i: int| reachable(longer, roots, i) implies 0 <= i < n && reachable(
        entries,
        roots,
        i,
    ) by {
        let path = choose|path: Seq<int>| #[trigger]
            is_path(longer, roots, path) && path.last() == i;
        assert forall|k: int| 0 <= k < path.len() implies 0 <= #[trigger] path[k] < n by {
            lemma_path_stays(entries, extra, roots, path, k);
        }
        lemma_path_shared(entries, extra, roots, path);
    }
    assert(!child_missing(longer, roots)) by {
        if child_missing(longer, roots) {
            let (i, s) = choose|i: int, s: int|
                0 <= i < longer.len() && 0 <= s < 16 && reachable(longer, roots, i)
                    && #[trigger] dangling(longer, i, s);
            assert(longer[i] == entries[i]);
            let h = entries[i].node.children[s]->Some_0->Hashed_0;
            lemma_find_extended(entries, extra, MerkleValueSpec::Hashed(h), 0);
            assert(dangling(entries, i, s));
        }
    }
    assert(!reachable(longer, roots, n));
    assert(entry_unused(longer, roots));
}

/// `front` holds the first entries of `entries`, and not all of them.
pub open spec fn strictly_shorter(front: Seq<EntrySpec>, entries: Seq<EntrySpec>) -> bool {
    &&& front.len() < entries.len()
    &&& forall|i: int| 0 <= i < front.len() ==> front[i] == entries[i]
}

/// The entries of a buffer cut off at `cut`, read from `pos` on: either they
/// fail to decode, or they are the first of the entries of the whole buffer,
/// and not all of them where something was cut off.
proof fn lemma_entries_truncated(buffer: Seq<u8>, cut: int, pos: int)
    requires
        0 <= pos <= cut <= buffer.len(),
        spec_entries(buffer, pos) is Ok,
    ensures
        spec_entries(buffer.subrange(0, cut), pos) matches Ok(front) ==> {
            let entries = spec_entries(buffer, pos)->Ok_0;
            &&& front.len() <= entries.len()
            &&& forall|i: int| 0 <= i < front.len() ==> front[i] == entries[i]
            &&& cut < buffer.len() ==> front.len() < entries.len()
        },
    decreases cut - pos,
{
    let short = buffer.subrange(0, cut);
    if pos < cut {
        let here = buffer.subrange(pos, buffer.len() as int);
        let there = short.subrange(pos, short.len() as int);
        let (node, n) = spec_node(here)->Ok_0;
        if spec_node(there) is Ok {
            lemma_node_bounds(there);
            let m = spec_node(there)->Ok_0.1;
            assert(agree(there, here, m));
            lemma_node_agrees(there, here);
            assert(m == n);
            assert(short.subrange(pos, pos + n) =~= buffer.subrange(pos, pos + n));
            lemma_entries_truncated(buffer, cut, pos + n);
        }
    }
}

/// In a graph that holds the first entries of a verified graph, the node of
/// every root and every node that a node below a root refers to, the entries
/// of a path through the verified graph are all among these first entries.
proof fn lemma_path_in_front(
    front: Seq<EntrySpec>,
    entries: Seq<EntrySpec>,
    roots: Seq<Seq<u8>>,
    path: Seq<int>,
    k: int,
)
    requires
        strictly_shorter(front, entries),
        !has_duplicate(entries),
        !root_missing(front, roots),
        !child_missing(front, roots),
        is_path(entries, roots, path),
        0 <= k < path.len(),
    ensures
        0 <= path[k] < front.len(),
        reachable(front, roots, path[k]),
    decreases k,
{
    if k == 0 {
        let r = choose|r: int|
            0 <= r < roots.len() && entries[path[0]].merkle_value == MerkleValueSpec::Hashed(
                #[trigger] roots[r],
            );
        lemma_find_from(front, MerkleValueSpec::Hashed(roots[r]), 0);
        let j = find(front, MerkleValueSpec::Hashed(roots[r]))->Some_0;
        assert(front[j] == entries[j]);
        if j < path[0] {
            assert(entries[j].merkle_value == entries[path[0]].merkle_value);
        } else if path[0] < j {
            assert(entries[path[0]].merkle_value == entries[j].merkle_value);
        }
        lemma_reach_root(front, roots, r, j);
    } else {
        lemma_path_in_front(front, entries, roots, path, k - 1);
        let i = path[k - 1];
        let t = path[k];
        assert(refers_to(entries, i, t));
        let s = choose|s: int| #[trigger] refers_by(entries, i, s, t);
        assert(front[i] == entries[i]);
        let h = entries[t].merkle_value->Hashed_0;
        assert(!dangling(front, i, s));
        lemma_find_from(front, MerkleValueSpec::Hashed(h), 0);
        let j = find(front, MerkleValueSpec::Hashed(h))->Some_0;
        assert(front[j] == entries[j]);
        if j < t {
            assert(entries[j].merkle_value == entries[t].merkle_value);
        } else if t < j {
            assert(entries[t].merkle_value == entries[j].merkle_value);
        }
        assert(refers_by(front, i, s, t));
        lemma_reach_step(front, roots, i, s, t);
    }
}

/// Truncation safety: a verified proof cut off at any place before its end
/// is rejected.
pub proof fn law_truncated_proof_fails(buffer: Seq<u8>, roots: Seq<Seq<u8>>, cut: int)
    requires
        spec_decode_and_verify(buffer, roots) is Ok,
        0 <= cut < buffer.len(),
    ensures
        spec_decode_and_verify(buffer.subrange(0, cut), roots) is Err,
{
    let entries = spec_decode_and_verify(buffer, roots)->Ok_0;
    let short = buffer.subrange(0, cut);
    lemma_entries_truncated(buffer, cut, 0);
    if spec_entries(short, 0) is Ok {
        let front = spec_entries(short, 0)->Ok_0;
        assert(strictly_shorter(front, entries));
        let last = entries.len() - 1;
        assert(reachable(entries, roots, last));
        let path = choose|path: Seq<int>| #[trigger]
            is_path(entries, roots, path) && path.last() == last;
        assert(is_root(entries, roots, path[0]));
        assert(roots.len() >= 1);
        if spec_build(short, roots.len()) is Ok && !root_missing(front, roots) && !child_missing(
            front,
            roots,
        ) {
            lemma_path_in_front(front, entries, roots, path, path.len() - 1);
        }
    }
}

/// The entries of a buffer are well formed.
pub proof fn lemma_entries_well_formed(buffer: Seq<u8>, pos: int)
    requires
        0 <= pos,
        spec_entries(buffer, pos) is Ok,
    ensures
        forall|i: int|
            0 <= i < spec_entries(buffer, pos)->Ok_0.len() ==> (#[trigger] spec_entries(
                buffer,
                pos,
            )->Ok_0[i]).well_formed(),
    decreases buffer.len() - pos,
{
    if pos < buffer.len() {
        let here = buffer.subrange(pos, buffer.len() as int);
        let (node, n) = spec_node(here)->Ok_0;
        let bytes = buffer.subrange(pos, pos + n);
        assert(bytes =~= here.subrange(0, n));
        lemma_node_prefix(here, bytes);
        lemma_decode_shape(here);
        lemma_entries_well_formed(buffer, pos + n);
        let one = seq![entry_of(bytes, node)];
        let rest = spec_entries(buffer, pos + n)->Ok_0;
        assert(one[0].well_formed());
        assert forall|i: int| 0 <= i < (one + rest).len() implies (#[trigger] (one + rest)[i]).well_formed() by {
            if i > 0 {
                assert((one + rest)[i] == rest[i - 1]);
            }
        }
    }
}

/// A walk that starts above an inline node stays inside the proof.
proof fn lemma_locate_inline(entries: Seq<EntrySpec>, bytes: Seq<u8>, key: Seq<u8>)
    requires
        inline_ok(bytes),
        bytes.len() < 33,
    ensures
        !(spec_locate(entries, spec_decode(bytes)->Ok_0.0, key) is Unknown),
    decreases key.len(),
{
    let node = spec_decode(bytes)->Ok_0.0;
    lemma_decode_shape(bytes);
    let shared = node.partial_key.len() as int;
    if key.len() > shared && key.subrange(0, shared) == node.partial_key && key[shared] < 16 {
        let nibble = key[shared] as int;
        let rest = key.subrange(shared + 1, key.len() as int);
        match node.children[nibble] {
            Some(MerkleValueSpec::Inline(c)) => {
                lemma_locate_inline(entries, c, rest);
            },
            _ => {},
        }
    }
}

/// A walk that starts above an entry below a root of a verified graph stays
/// inside the proof.
proof fn lemma_locate_entry(
    entries: Seq<EntrySpec>,
    roots: Seq<Seq<u8>>,
    i: int,
    key: Seq<u8>,
)
    requires
        graph_well_formed(entries),
        spec_verify(entries, roots) is Ok,
        0 <= i < entries.len(),
        reachable(entries, roots, i),
    ensures
        !(spec_locate(entries, entries[i].node, key) is Unknown),
    decreases key.len(),
{
    let node = entries[i].node;
    assert(entries[i].well_formed());
    assert(children_ok(node.children, 32));
    let shared = node.partial_key.len() as int;
    if key.len() > shared && key.subrange(0, shared) == node.partial_key && key[shared] < 16 {
        let nibble = key[shared] as int;
        let rest = key.subrange(shared + 1, key.len() as int);
        match node.children[nibble] {
            Some(MerkleValueSpec::Inline(c)) => {
                lemma_locate_inline(entries, c, rest);
            },
            Some(MerkleValueSpec::Hashed(h)) => {
                assert(!dangling(entries, i, nibble));
                lemma_find_from(entries, MerkleValueSpec::Hashed(h), 0);
                let j = find(entries, MerkleValueSpec::Hashed(h))->Some_0;
                assert(refers_by(entries, i, nibble, j));
                lemma_reach_step(entries, roots, i, nibble, j);
                lemma_locate_entry(entries, roots, j, rest);
            },
            None => {},
        }
    }
}

/// Every lookup below a root of a verified proof is answered from the proof:
/// with the value, with its hash, or with the fact that the key has none.
pub proof fn law_verified_lookup_is_answered(
    buffer: Seq<u8>,
    roots: Seq<Seq<u8>>,
    r: int,
    key: Seq<u8>,
)
    requires
        spec_decode_and_verify(buffer, roots) is Ok,
        0 <= r < roots.len(),
    ensures
        !(spec_get(spec_decode_and_verify(buffer, roots)->Ok_0, roots[r], key) is NotInProof),
{
    let entries = spec_decode_and_verify(buffer, roots)->Ok_0;
    lemma_entries_well_formed(buffer, 0);
    assert(graph_well_formed(entries));
    let value = MerkleValueSpec::Hashed(roots[r]);
    lemma_find_from(entries, value, 0);
    let i = find(entries, value)->Some_0;
    lemma_reach_root(entries, roots, r, i);
    lemma_locate_entry(entries, roots, i, key);
}

/// The links of a verified proof are hashes of its entries: every root is the
/// hash of the encoding of an entry, and so is every hash that a node of the
/// proof holds for a child.
pub proof fn law_verified_proof_is_hash_linked(buffer: Seq<u8>, roots: Seq<Seq<u8>>)
    requires
        spec_decode_and_verify(buffer, roots) is Ok,
    ensures
        ({
            let entries = spec_decode_and_verify(buffer, roots)->Ok_0;
            &&& forall|r: int|
                0 <= r < roots.len() ==> exists|i: int|
                    0 <= i < entries.len() && crate::hash::node_hash((#[trigger] entries[i]).bytes)
                        == #[trigger] roots[r]
            &&& forall|i: int, s: int|
                0 <= i < entries.len() && 0 <= s < 16 ==> (
                #[trigger] entries[i].node.children[s] matches Some(MerkleValueSpec::Hashed(h))
                    ==> exists|j: int|
                    0 <= j < entries.len() && crate::hash::node_hash((#[trigger] entries[j]).bytes)
                        == h)
        }),
{
    let entries = spec_decode_and_verify(buffer, roots)->Ok_0;
    lemma_entries_well_formed(buffer, 0);
    assert forall|r: int| 0 <= r < roots.len() implies exists|i: int|
        0 <= i < entries.len() && crate::hash::node_hash((#[trigger] entries[i]).bytes)
            == #[trigger] roots[r] by {
        lemma_find_from(entries, MerkleValueSpec::Hashed(roots[r]), 0);
        let i = find(entries, MerkleValueSpec::Hashed(roots[r]))->Some_0;
        assert(entries[i].well_formed());
        assert(crate::hash::node_hash(entries[i].bytes) == roots[r]);
    }
    assert forall|i: int, s: int|
        0 <= i < entries.len() && 0 <= s < 16 implies (
        #[trigger] entries[i].node.children[s] matches Some(MerkleValueSpec::Hashed(h))
            ==> exists|j: int|
            0 <= j < entries.len() && crate::hash::node_hash((#[trigger] entries[j]).bytes)
                == h) by {
        if entries[i].node.children[s] matches Some(MerkleValueSpec::Hashed(_)) {
            let h = entries[i].node.children[s]->Some_0->Hashed_0;
            assert(reachable(entries, roots, i));
            assert(!dangling(entries, i, s));
            lemma_find_from(entries, MerkleValueSpec::Hashed(h), 0);
            let j = find(entries, MerkleValueSpec::Hashed(h))->Some_0;
            assert(entries[j].well_formed());
            assert(crate::hash::node_hash(entries[j].bytes) == h);
        }
    }
}

} // verus!
