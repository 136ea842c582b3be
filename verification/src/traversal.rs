//! Verification of a graph against the expected root hashes.
//!
//! Every entry must hang below one of the roots, and every node below a root
//! must find the nodes that it refers to by hash among the entries.

use vstd::prelude::*;
use crate::bytes::copy_bytes;
use crate::graph::{find, graph_well_formed, lemma_find_from, EntrySpec, ProofError, ProofGraph};
use crate::node::{slot_view, MerkleValue, MerkleValueSpec};

verus! {

/// Model of a list of root hashes.
pub open spec fn roots_view(roots: Seq<Vec<u8>>) -> Seq<Seq<u8>> {
    Seq::new(roots.len(), |r: int| roots[r]@)
}

/// Entry `i` is the node of one of the roots.
pub open spec fn is_root(entries: Seq<EntrySpec>, roots: Seq<Seq<u8>>, i: int) -> bool {
    exists|r: int|
        0 <= r < roots.len() && entries[i].merkle_value == MerkleValueSpec::Hashed(
            #[trigger] roots[r],
        )
}

/// Slot `s` of entry `i` holds the hash of entry `j`.
pub open spec fn refers_by(entries: Seq<EntrySpec>, i: int, s: int, j: int) -> bool {
    &&& 0 <= s < 16
    &&& entries[i].node.children[s] == Some(entries[j].merkle_value)
    &&& entries[j].merkle_value is Hashed
}

/// Entry `i` refers to entry `j` by hash.
pub open spec fn refers_to(entries: Seq<EntrySpec>, i: int, j: int) -> bool {
    exists|s: int| #[trigger] refers_by(entries, i, s, j)
}

/// `path` leads from the node of a root down through the entries, each one
/// referred to by hash by the one before it.
pub open spec fn is_path(entries: Seq<EntrySpec>, roots: Seq<Seq<u8>>, path: Seq<int>) -> bool {
    &&& path.len() > 0
    &&& forall|k: int| 0 <= k < path.len() ==> 0 <= #[trigger] path[k] < entries.len()
    &&& is_root(entries, roots, path[0])
    &&& forall|k: int|
        0 <= k < path.len() - 1 ==> refers_to(entries, #[trigger] path[k], path[k + 1])
}

/// Entry `i` hangs below one of the roots.
pub open spec fn reachable(entries: Seq<EntrySpec>, roots: Seq<Seq<u8>>, i: int) -> bool {
    exists|path: Seq<int>| #[trigger] is_path(entries, roots, path) && path.last() == i
}

/// No entry has the hash of one of the roots.
pub open spec fn root_missing(entries: Seq<EntrySpec>, roots: Seq<Seq<u8>>) -> bool {
    exists|r: int|
        0 <= r < roots.len() && find(entries, MerkleValueSpec::Hashed(#[trigger] roots[r])) is None
}

/// Slot `s` of entry `i` holds a hash that no entry has.
pub open spec fn dangling(entries: Seq<EntrySpec>, i: int, s: int) -> bool {
    entries[i].node.children[s] matches Some(MerkleValueSpec::Hashed(h)) && find(
        entries,
        MerkleValueSpec::Hashed(h),
    ) is None
}

/// A node below a root refers by hash to a node that is not an entry.
pub open spec fn child_missing(entries: Seq<EntrySpec>, roots: Seq<Seq<u8>>) -> bool {
    exists|i: int, s: int|
        0 <= i < entries.len() && 0 <= s < 16 && reachable(entries, roots, i) && #[trigger] dangling(
            entries,
            i,
            s,
        )
}

/// An entry hangs below none of the roots.
pub open spec fn entry_unused(entries: Seq<EntrySpec>, roots: Seq<Seq<u8>>) -> bool {
    exists|i: int| 0 <= i < entries.len() && !#[trigger] reachable(entries, roots, i)
}

/// The merkle values of all entries, in the order of the entries.
pub open spec fn merkle_values(entries: Seq<EntrySpec>) -> Seq<MerkleValueSpec> {
    Seq::new(entries.len(), |i: int| entries[i].merkle_value)
}

/// What [`verify`] answers: the first of the three failures that applies, or
/// the merkle values of the visited entries, which are then all the entries.
pub open spec fn spec_verify(entries: Seq<EntrySpec>, roots: Seq<Seq<u8>>) -> Result<
    Seq<MerkleValueSpec>,
    ProofError,
> {
    if root_missing(entries, roots) {
        Err(ProofError::RootNotFound)
    } else if child_missing(entries, roots) {
        Err(ProofError::MissingChild)
    } else if entry_unused(entries, roots) {
        Err(ProofError::UnusedEntry)
    } else {
        Ok(merkle_values(entries))
    }
}

/// Model of a list of merkle values.
pub open spec fn values_view(values: Seq<MerkleValue>) -> Seq<MerkleValueSpec> {
    Seq::new(values.len(), |i: int| values[i]@)
}

/// Number of `true` among `flags`.
pub open spec fn count_true(flags: Seq<bool>) -> nat
    decreases flags.len(),
{
    if flags.len() == 0 {
        0
    } else {
        count_true(flags.drop_last()) + if flags.last() {
            1nat
        } else {
            0nat
        }
    }
}

proof fn lemma_count_bound(flags: Seq<bool>)
    ensures
        count_true(flags) <= flags.len(),
    decreases flags.len(),
{
    if flags.len() > 0 {
        lemma_count_bound(flags.drop_last());
    }
}

proof fn lemma_count_set(flags: Seq<bool>, i: int)
    requires
        0 <= i < flags.len(),
        !flags[i],
    ensures
        count_true(flags.update(i, true)) == count_true(flags) + 1,
    decreases flags.len(),
{
    let after = flags.update(i, true);
    if i == flags.len() - 1 {
        assert(after.drop_last() =~= flags.drop_last());
    } else {
        lemma_count_set(flags.drop_last(), i);
        assert(after.drop_last() =~= flags.drop_last().update(i, true));
    }
}

/// Where no two entries share a merkle value, an entry is found at its own
/// position.
pub proof fn lemma_find_unique(entries: Seq<EntrySpec>, i: int)
    requires
        graph_well_formed(entries),
        0 <= i < entries.len(),
    ensures
        find(entries, entries[i].merkle_value) == Some(i),
{
    lemma_find_from(entries, entries[i].merkle_value, 0);
}

/// Every hash that entry `i` holds is the hash of a marked entry.
pub open spec fn expanded(entries: Seq<EntrySpec>, marked: Seq<bool>, i: int, upto: int) -> bool {
    forall|s: int|
        0 <= s < upto ==> (#[trigger] entries[i].node.children[s] matches Some(
            MerkleValueSpec::Hashed(h),
        ) ==> (find(entries, MerkleValueSpec::Hashed(h)) matches Some(j) && 0 <= j < marked.len()
            && marked[j]))
}

/// A set of entries that holds the roots' nodes and, with an entry, every
/// entry that it refers to, holds every entry on a path.
proof fn lemma_path_marked(
    entries: Seq<EntrySpec>,
    roots: Seq<Seq<u8>>,
    marked: Seq<bool>,
    path: Seq<int>,
    k: int,
)
    requires
        graph_well_formed(entries),
        marked.len() == entries.len(),
        is_path(entries, roots, path),
        0 <= k < path.len(),
        forall|r: int|
            0 <= r < roots.len() ==> (find(entries, MerkleValueSpec::Hashed(#[trigger] roots[r]))
                matches Some(j) && 0 <= j < marked.len() && marked[j]),
        forall|i: int| 0 <= i < entries.len() && #[trigger] marked[i] ==> expanded(entries, marked, i, 16),
    ensures
        marked[path[k]],
    decreases k,
{
    if k == 0 {
        let i = path[0];
        let r = choose|r: int|
            0 <= r < roots.len() && entries[i].merkle_value == MerkleValueSpec::Hashed(
                #[trigger] roots[r],
            );
        lemma_find_unique(entries, i);
    } else {
        lemma_path_marked(entries, roots, marked, path, k - 1);
        let i = path[k - 1];
        let j = path[k];
        assert(refers_to(entries, i, j));
        let s = choose|s: int| #[trigger] refers_by(entries, i, s, j);
        lemma_find_unique(entries, j);
        assert(marked[i]);
        assert(expanded(entries, marked, i, 16));
        assert(entries[i].node.children[s] == Some(entries[j].merkle_value));
    }
}

/// An entry that a reachable entry refers to is reachable.
pub proof fn lemma_reach_step(entries: Seq<EntrySpec>, roots: Seq<Seq<u8>>, i: int, s: int, j: int)
    requires
        reachable(entries, roots, i),
        0 <= j < entries.len(),
        refers_by(entries, i, s, j),
    ensures
        reachable(entries, roots, j),
{
    let path = choose|path: Seq<int>| #[trigger] is_path(entries, roots, path) && path.last() == i;
    let longer = path.push(j);
    assert(refers_to(entries, i, j));
    assert forall|k: int| 0 <= k < longer.len() - 1 implies refers_to(
        entries,
        #[trigger] longer[k],
        longer[k + 1],
    ) by {
        if k < path.len() - 1 {
            assert(longer[k] == path[k] && longer[k + 1] == path[k + 1]);
        }
    }
    assert(longer[0] == path[0]);
    assert(is_path(entries, roots, longer));
    assert(longer.last() == j);
}

/// The node of a root is reachable.
pub proof fn lemma_reach_root(entries: Seq<EntrySpec>, roots: Seq<Seq<u8>>, r: int, i: int)
    requires
        0 <= r < roots.len(),
        0 <= i < entries.len(),
        entries[i].merkle_value == MerkleValueSpec::Hashed(roots[r]),
    ensures
        reachable(entries, roots, i),
{
    let path = seq![i];
    assert(is_root(entries, roots, path[0]));
    assert(is_path(entries, roots, path));
    assert(path.last() == i);
}

/// Marking more entries keeps an expanded entry expanded.
proof fn lemma_expanded_grows(
    entries: Seq<EntrySpec>,
    before: Seq<bool>,
    after: Seq<bool>,
    i: int,
    upto: int,
)
    requires
        before.len() == after.len(),
        forall|k: int| 0 <= k < before.len() && before[k] ==> after[k],
        expanded(entries, before, i, upto),
    ensures
        expanded(entries, after, i, upto),
{
}

/// The entries marked so far, in the order in which they were marked.
struct Walk {
    marked: Vec<bool>,
    order: Vec<usize>,
    slot: Ghost<Seq<int>>,
}

impl Walk {
    /// Exactly the entries in `order` are marked, and each of them hangs below
    /// a root.
    spec fn consistent(&self, entries: Seq<EntrySpec>, roots: Seq<Seq<u8>>) -> bool {
        &&& self.marked@.len() == entries.len()
        &&& self.slot@.len() == entries.len()
        &&& self.order@.len() == count_true(self.marked@)
        &&& forall|k: int|
            0 <= k < self.order@.len() ==> #[trigger] self.order@[k] < entries.len()
                && self.marked@[self.order@[k] as int]
        &&& forall|k: int|
            0 <= k < entries.len() && #[trigger] self.marked@[k] ==> reachable(entries, roots, k)
                && 0 <= self.slot@[k] < self.order@.len() && self.order@[self.slot@[k]] == k
    }

    /// `self` has marked what `before` had, in the same order, and maybe more.
    spec fn extends(&self, before: &Walk) -> bool {
        &&& self.marked@.len() == before.marked@.len()
        &&& forall|k: int| 0 <= k < before.marked@.len() && before.marked@[k] ==> self.marked@[k]
        &&& self.order@.len() >= before.order@.len()
        &&& forall|k: int| 0 <= k < before.order@.len() ==> self.order@[k] == before.order@[k]
    }

    /// A walk in which nothing is marked.
    fn start(n: usize, Ghost(entries): Ghost<Seq<EntrySpec>>, Ghost(roots): Ghost<Seq<Seq<u8>>>) -> (walk:
        Walk)
        requires
            n == entries.len(),
        ensures
            walk.consistent(entries, roots),
            walk.order@.len() == 0,
    {
        let mut marked: Vec<bool> = Vec::new();
        let mut i: usize = 0;
        while i < n
            invariant
                i <= n,
                marked@.len() == i,
                forall|k: int| 0 <= k < i ==> !#[trigger] marked@[k],
                count_true(marked@) == 0,
            decreases n - i,
        {
            let ghost before = marked@;
            marked.push(false);
            assert(marked@.drop_last() =~= before);
            i = i + 1;
        }
        Walk { marked, order: Vec::new(), slot: Ghost(Seq::new(n as nat, |k: int| 0)) }
    }

    /// Marks entry `j`, which hangs below a root.
    fn visit(&mut self, j: usize, Ghost(entries): Ghost<Seq<EntrySpec>>, Ghost(roots): Ghost<
        Seq<Seq<u8>>,
    >)
        requires
            old(self).consistent(entries, roots),
            j < entries.len(),
            reachable(entries, roots, j as int),
        ensures
            final(self).consistent(entries, roots),
            final(self).extends(old(self)),
            final(self).marked@[j as int],
    {
        if !self.marked[j] {
            proof {
                lemma_count_set(self.marked@, j as int);
            }
            let ghost place = self.order@.len() as int;
            self.marked.set(j, true);
            self.order.push(j);
            self.slot = Ghost(self.slot@.update(j as int, place));
        }
    }

    /// Marks the entries that entry `at` refers to by hash.
    fn expand(&mut self, graph: &ProofGraph, at: usize, Ghost(roots): Ghost<Seq<Seq<u8>>>) -> (r:
        Result<(), ProofError>)
        requires
            graph.well_formed(),
            old(self).consistent(graph@, roots),
            at < graph@.len(),
            old(self).marked@[at as int],
        ensures
            match r {
                Ok(()) => final(self).consistent(graph@, roots) && final(self).extends(old(self))
                    && expanded(graph@, final(self).marked@, at as int, 16),
                Err(e) => e == ProofError::MissingChild && child_missing(graph@, roots),
            },
    {
        let ghost entries = graph@;
        let node = match graph.entry(at) {
            Some(entry) => &entry.node,
            None => {
                return Ok(());
            },
        };
        assert(node@ == entries[at as int].node);
        assert(entries[at as int].well_formed());
        let mut s: usize = 0;
        while s < 16
            invariant
                entries == graph@,
                graph.well_formed(),
                self.consistent(entries, roots),
                self.extends(old(self)),
                at < entries.len(),
                node@ == entries[at as int].node,
                node.children@.len() == 16,
                self.marked@[at as int],
                s <= 16,
                expanded(entries, self.marked@, at as int, s as int),
            decreases 16 - s,
        {
            let ghost marked_before = self.marked@;
            assert(entries[at as int].node.children[s as int] == slot_view(
                node.children@[s as int],
            ));
            match &node.children[s] {
                Some(child) => match child {
                    MerkleValue::Hashed(_) => match graph.position(child) {
                        None => {
                            proof {
                                assert(dangling(entries, at as int, s as int));
                                assert(child_missing(entries, roots));
                            }
                            return Err(ProofError::MissingChild);
                        },
                        Some(j) => {
                            proof {
                                lemma_find_from(entries, child@, 0);
                                assert(refers_by(entries, at as int, s as int, j as int));
                                lemma_reach_step(entries, roots, at as int, s as int, j as int);
                            }
                            self.visit(j, Ghost(entries), Ghost(roots));
                        },
                    },
                    MerkleValue::Inline(_) => {},
                },
                None => {},
            }
            proof {
                lemma_expanded_grows(entries, marked_before, self.marked@, at as int, s as int);
            }
            s = s + 1;
        }
        Ok(())
    }
}

/// Once every root's node is marked and every marked entry is expanded, the
/// marked entries are the reachable ones and no node below a root lacks a child.
proof fn lemma_walk_complete(entries: Seq<EntrySpec>, roots: Seq<Seq<u8>>, marked: Seq<bool>)
    requires
        graph_well_formed(entries),
        marked.len() == entries.len(),
        forall|k: int| 0 <= k < entries.len() && #[trigger] marked[k] ==> reachable(entries, roots, k),
        forall|r: int|
            0 <= r < roots.len() ==> (find(entries, MerkleValueSpec::Hashed(#[trigger] roots[r]))
                matches Some(j) && 0 <= j < marked.len() && marked[j]),
        forall|i: int|
            0 <= i < entries.len() && #[trigger] marked[i] ==> expanded(entries, marked, i, 16),
    ensures
        forall|k: int| 0 <= k < entries.len() ==> (#[trigger] marked[k] <==> reachable(entries, roots, k)),
        !root_missing(entries, roots),
        !child_missing(entries, roots),
{
    assert forall|k: int| 0 <= k < entries.len() && reachable(entries, roots, k) implies marked[k] by {
        let path = choose|path: Seq<int>| #[trigger]
            is_path(entries, roots, path) && path.last() == k;
        lemma_path_marked(entries, roots, marked, path, path.len() - 1);
    }
    if child_missing(entries, roots) {
        let (i, s) = choose|i: int, s: int|
            0 <= i < entries.len() && 0 <= s < 16 && reachable(entries, roots, i)
                && #[trigger] dangling(entries, i, s);
        assert(marked[i]);
        assert(expanded(entries, marked, i, 16));
    }
}

/// Verifies a graph against the expected root hashes.
///
/// Looks up the node of every root, walks from these nodes along the hashes
/// that the nodes hold, and returns the merkle values of the visited entries.
/// Fails unless every root is found, every hash met on the way is the hash of
/// an entry, and every entry has been visited. An inline child is part of its
/// parent's encoding and needs no entry.
pub fn verify(graph: &ProofGraph, roots: &Vec<Vec<u8>>) -> (r: Result<Vec<MerkleValue>, ProofError>)
    ensures
        match r {
            Ok(visited) => spec_verify(graph@, roots_view(roots@)) == Ok::<
                Seq<MerkleValueSpec>,
                ProofError,
            >(values_view(visited@)),
            Err(e) => spec_verify(graph@, roots_view(roots@)) == Err::<
                Seq<MerkleValueSpec>,
                ProofError,
            >(e),
        },
{
    let ghost entries = graph@;
    let ghost wanted = roots_view(roots@);
    let n: usize = graph.len();
    let mut walk = Walk::start(n, Ghost(entries), Ghost(wanted));
    let mut r: usize = 0;
    while r < roots.len()
        invariant
            entries == graph@,
            wanted == roots_view(roots@),
            graph.well_formed(),
            n == entries.len(),
            walk.consistent(entries, wanted),
            r <= roots@.len(),
            forall|q: int|
                0 <= q < r ==> (find(entries, MerkleValueSpec::Hashed(#[trigger] wanted[q]))
                    matches Some(j) && 0 <= j < n && walk.marked@[j]),
        decreases roots@.len() - r,
    {
        let value = MerkleValue::Hashed(copy_bytes(roots[r].as_slice()));
        assert(value@ == MerkleValueSpec::Hashed(wanted[r as int]));
        match graph.position(&value) {
            None => {
                assert(root_missing(entries, wanted));
                return Err(ProofError::RootNotFound);
            },
            Some(j) => {
                proof {
                    lemma_find_from(entries, value@, 0);
                    lemma_reach_root(entries, wanted, r as int, j as int);
                }
                walk.visit(j, Ghost(entries), Ghost(wanted));
            },
        }
        r = r + 1;
    }
    assert(!root_missing(entries, wanted));
    let mut next: usize = 0;
    while next < walk.order.len()
        invariant
            entries == graph@,
            wanted == roots_view(roots@),
            graph.well_formed(),
            n == entries.len(),
            walk.consistent(entries, wanted),
            next <= walk.order@.len(),
            forall|q: int|
                0 <= q < wanted.len() ==> (find(entries, MerkleValueSpec::Hashed(#[trigger] wanted[q]))
                    matches Some(j) && 0 <= j < n && walk.marked@[j]),
            forall|k: int|
                0 <= k < next ==> expanded(entries, walk.marked@, #[trigger] walk.order@[k] as int, 16),
            !root_missing(entries, wanted),
        decreases n - next,
    {
        proof {
            lemma_count_bound(walk.marked@);
        }
        let at: usize = walk.order[next];
        let ghost before = walk;
        match walk.expand(graph, at, Ghost(wanted)) {
            Err(e) => {
                return Err(e);
            },
            Ok(()) => {},
        }
        proof {
            assert forall|k: int| 0 <= k < next + 1 implies expanded(
                entries,
                walk.marked@,
                #[trigger] walk.order@[k] as int,
                16,
            ) by {
                if k < next {
                    assert(walk.order@[k] == before.order@[k]);
                    lemma_expanded_grows(
                        entries,
                        before.marked@,
                        walk.marked@,
                        before.order@[k] as int,
                        16,
                    );
                }
            }
        }
        next = next + 1;
    }
    proof {
        assert forall|k: int| 0 <= k < n && #[trigger] walk.marked@[k] implies expanded(
            entries,
            walk.marked@,
            k,
            16,
        ) by {
            assert(walk.order@[walk.slot@[k]] == k);
        }
        lemma_walk_complete(entries, wanted, walk.marked@);
    }
    let mut visited: Vec<MerkleValue> = Vec::new();
    let mut i: usize = 0;
    while i < n
        invariant
            entries == graph@,
            wanted == roots_view(roots@),
            n == entries.len(),
            walk.marked@.len() == n,
            i <= n,
            visited@.len() == i,
            !root_missing(entries, wanted),
            !child_missing(entries, wanted),
            forall|k: int|
                0 <= k < n ==> (#[trigger] walk.marked@[k] <==> reachable(entries, wanted, k)),
            forall|k: int| 0 <= k < i ==> walk.marked@[k],
            forall|k: int| 0 <= k < i ==> (#[trigger] visited@[k])@ == entries[k].merkle_value,
        decreases n - i,
    {
        if !walk.marked[i] {
            assert(!reachable(entries, wanted, i as int));
            assert(entry_unused(entries, wanted));
            return Err(ProofError::UnusedEntry);
        }
        match graph.entry(i) {
            Some(entry) => {
                visited.push(entry.merkle_value.duplicate());
            },
            None => {},
        }
        i = i + 1;
    }
    proof {
        assert(values_view(visited@) =~= merkle_values(entries));
        assert forall|k: int| 0 <= k < n implies reachable(entries, wanted, k) by {
            assert(walk.marked@[k]);
        }
    }
    Ok(visited)
}

} // verus!
