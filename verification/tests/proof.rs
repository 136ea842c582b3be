use trie_proof::bytes::bytes_to_nibbles;
use trie_proof::codec::CodecError;
use trie_proof::graph::{merkle_value, ProofError, ProofGraph};
use trie_proof::hash::hash_node;
use trie_proof::node::MerkleValue;
use trie_proof::traversal::verify;
use trie_proof::view::{decode_and_verify_proof, Config, Lookup, QueryView, VerifiedRoot};

// The trie of these tests has a branch as its root, with the partial key `a`
// and three leaves: `a123` (stored as an entry of its own), `a567` (inline in
// the root) and `a900` (an entry whose value is given by its hash).

fn leaf_a() -> Vec<u8> {
    vec![66, 35, 160, 17, 17, 17, 17, 17, 17, 17, 17, 17, 17, 17, 17, 17, 17, 17, 17, 17, 17, 17, 17, 17, 17, 17, 17, 17, 17, 17, 17, 17, 17, 17, 17, 17, 17, 17, 17, 17, 17, 17, 17]
}

fn leaf_b() -> Vec<u8> {
    vec![66, 103, 8, 104, 105]
}

fn leaf_c() -> Vec<u8> {
    vec![34, 0, 209, 55, 148, 113, 75, 90, 213, 112, 214, 133, 22, 20, 63, 55, 159, 39, 105, 191, 243, 217, 232, 126, 123, 235, 10, 149, 203, 34, 39, 1, 106, 1]
}

fn root_node() -> Vec<u8> {
    vec![129, 10, 34, 2, 128, 111, 42, 19, 153, 162, 111, 242, 148, 213, 229, 32, 211, 140, 109, 139, 105, 153, 134, 199, 53, 46, 1, 216, 237, 1, 150, 35, 243, 24, 230, 21, 10, 20, 66, 103, 8, 104, 105, 128, 186, 10, 136, 45, 195, 62, 73, 255, 63, 13, 247, 44, 134, 67, 40, 233, 87, 168, 223, 9, 114, 219, 193, 180, 69, 61, 220, 48, 70, 114, 237, 161]
}

fn stray_leaf() -> Vec<u8> {
    vec![65, 15, 132, 119, 119, 119, 119, 119, 119, 119, 119, 119, 119, 119, 119, 119, 119, 119, 119, 119, 119, 119, 119, 119, 119, 119, 119, 119, 119, 119, 119, 119, 119, 119, 119, 119]
}

fn root_hash() -> Vec<u8> {
    vec![107, 10, 195, 35, 74, 52, 149, 197, 19, 212, 18, 148, 205, 17, 69, 231, 142, 139, 110, 218, 217, 64, 0, 78, 212, 202, 224, 107, 93, 201, 91, 167]
}

fn hash_a() -> Vec<u8> {
    vec![111, 42, 19, 153, 162, 111, 242, 148, 213, 229, 32, 211, 140, 109, 139, 105, 153, 134, 199, 53, 46, 1, 216, 237, 1, 150, 35, 243, 24, 230, 21, 10]
}

fn hash_c() -> Vec<u8> {
    vec![186, 10, 136, 45, 195, 62, 73, 255, 63, 13, 247, 44, 134, 67, 40, 233, 87, 168, 223, 9, 114, 219, 193, 180, 69, 61, 220, 48, 70, 114, 237, 161]
}

fn value_hash() -> Vec<u8> {
    vec![209, 55, 148, 113, 75, 90, 213, 112, 214, 133, 22, 20, 63, 55, 159, 39, 105, 191, 243, 217, 232, 126, 123, 235, 10, 149, 203, 34, 39, 1, 106, 1]
}

fn odd_root() -> Vec<u8> {
    vec![192, 3, 0, 4, 5, 20, 66, 103, 8, 104, 105, 120, 51, 51, 51, 51, 51, 51, 51, 51, 51, 51, 51, 51, 51, 51, 51, 51, 51, 51, 51, 51, 51, 51, 51, 51, 51, 51, 51, 51, 51, 51]
}

fn odd_root_hash() -> Vec<u8> {
    vec![30, 19, 0, 189, 13, 211, 24, 175, 173, 228, 199, 61, 170, 34, 63, 115, 236, 70, 31, 8, 202, 7, 132, 108, 194, 5, 182, 199, 9, 245, 20, 143]
}

fn nested_root() -> Vec<u8> {
    vec![192, 2, 0, 36, 129, 3, 4, 0, 16, 65, 7, 4, 88, 120, 51, 51, 51, 51, 51, 51, 51, 51, 51, 51, 51, 51, 51, 51, 51, 51, 51, 51, 51, 51, 51, 51, 51, 51, 51, 51, 51, 51, 51, 51]
}

fn nested_root_hash() -> Vec<u8> {
    vec![159, 144, 119, 38, 226, 209, 176, 96, 240, 12, 35, 240, 47, 62, 114, 236, 16, 204, 55, 230, 225, 184, 152, 230, 92, 252, 199, 66, 13, 238, 18, 88]
}

fn concat(parts: &[Vec<u8>]) -> Vec<u8> {
    let mut out = Vec::new();
    for part in parts {
        out.extend_from_slice(part);
    }
    out
}

fn valid_proof() -> Vec<u8> {
    concat(&[root_node(), leaf_a(), leaf_c()])
}

fn check(proof: &[u8], roots: Vec<Vec<u8>>) -> Result<usize, ProofError> {
    decode_and_verify_proof(Config { proof }, roots).map(|view| view.graph().len())
}

#[test]
fn valid_proof_verifies() {
    assert_eq!(check(&valid_proof(), vec![root_hash()]), Ok(3));
}

#[test]
fn entry_order_does_not_matter() {
    let proof = concat(&[leaf_c(), leaf_a(), root_node()]);
    assert_eq!(check(&proof, vec![root_hash()]), Ok(3));
}

#[test]
fn verify_returns_the_merkle_value_of_every_entry() {
    let graph = ProofGraph::build(&valid_proof(), 1).unwrap();
    let visited = verify(&graph, &vec![root_hash()]).unwrap();
    assert_eq!(
        visited,
        vec![
            MerkleValue::Hashed(root_hash()),
            MerkleValue::Hashed(hash_a()),
            MerkleValue::Hashed(hash_c()),
        ]
    );
}

#[test]
fn sub_trie_verifies_against_its_own_root() {
    assert_eq!(check(&leaf_a(), vec![hash_a()]), Ok(1));
}

#[test]
fn view_keeps_graph_and_roots() {
    let view = decode_and_verify_proof(Config { proof: &valid_proof() }, vec![root_hash()]).unwrap();
    assert_eq!(view.root_hashes(), &vec![root_hash()]);
    assert_eq!(view.graph().position(&MerkleValue::Hashed(hash_a())), Some(1));
}

#[test]
fn verified_roots_point_at_their_entries() {
    let proof = concat(&[leaf_c(), root_node(), leaf_a()]);
    let view =
        decode_and_verify_proof(Config { proof: &proof }, vec![root_hash(), hash_a()]).unwrap();
    assert_eq!(view.verified_root(0), Some(VerifiedRoot { hash: root_hash(), position: 1 }));
    assert_eq!(view.verified_root(1), Some(VerifiedRoot { hash: hash_a(), position: 2 }));
    assert_eq!(view.verified_root(2), None);
}

#[test]
fn one_graph_is_checked_against_several_candidate_roots() {
    let graph = ProofGraph::build(&valid_proof(), 1).unwrap();
    assert_eq!(verify(&graph, &vec![value_hash()]).err(), Some(ProofError::RootNotFound));
    assert_eq!(verify(&graph, &vec![hash_a()]).err(), Some(ProofError::UnusedEntry));
    assert_eq!(verify(&graph, &vec![root_hash()]).map(|visited| visited.len()), Ok(3));
    let view = QueryView::new(graph, vec![root_hash()]).unwrap();
    assert_eq!(view.get(&root_hash(), &[0xa5, 0x67]), Lookup::Found(vec![b'h', b'i']));
    let graph = ProofGraph::build(&valid_proof(), 1).unwrap();
    assert_eq!(QueryView::new(graph, vec![hash_c()]).err(), Some(ProofError::UnusedEntry));
}

#[test]
fn two_roots_share_one_proof() {
    let proof = concat(&[leaf_a(), leaf_c()]);
    assert_eq!(check(&proof, vec![hash_a(), hash_c()]), Ok(2));
    assert_eq!(check(&valid_proof(), vec![root_hash(), hash_a()]), Ok(3));
}

#[test]
fn present_keys_are_found() {
    let view = decode_and_verify_proof(Config { proof: &valid_proof() }, vec![root_hash()]).unwrap();
    assert_eq!(view.get(&root_hash(), &[0xa1, 0x23]), Lookup::Found(vec![0x11; 40]));
    assert_eq!(view.get(&root_hash(), &[0xa5, 0x67]), Lookup::Found(vec![b'h', b'i']));
}

#[test]
fn value_given_by_hash_is_reported_by_hash() {
    let view = decode_and_verify_proof(Config { proof: &valid_proof() }, vec![root_hash()]).unwrap();
    assert_eq!(view.get(&root_hash(), &[0xa9, 0x00]), Lookup::FoundHashOnly(value_hash()));
}

#[test]
fn absent_keys_are_not_found() {
    let view = decode_and_verify_proof(Config { proof: &valid_proof() }, vec![root_hash()]).unwrap();
    // No child under nibble 2.
    assert_eq!(view.get(&root_hash(), &[0xa2, 0x00]), Lookup::NotFound);
    // Leaves the partial key of the root.
    assert_eq!(view.get(&root_hash(), &[0xb1, 0x23]), Lookup::NotFound);
    // Ends inside the partial key of a leaf.
    assert_eq!(view.get_nibbles(&root_hash(), &[0xa, 1, 2]), Lookup::NotFound);
    // Goes on below a leaf.
    assert_eq!(view.get(&root_hash(), &[0xa1, 0x23, 0x45]), Lookup::NotFound);
    // The root itself has no value.
    assert_eq!(view.get_nibbles(&root_hash(), &[0xa]), Lookup::NotFound);
    // The empty key.
    assert_eq!(view.get(&root_hash(), &[]), Lookup::NotFound);
    // Not a nibble.
    assert_eq!(view.get_nibbles(&root_hash(), &[0xa, 16, 2, 3]), Lookup::NotFound);
}

#[test]
fn unknown_root_is_not_in_proof() {
    let view = decode_and_verify_proof(Config { proof: &valid_proof() }, vec![root_hash()]).unwrap();
    assert_eq!(view.get(&value_hash(), &[0xa1, 0x23]), Lookup::NotInProof);
    assert_eq!(view.get(&[1, 2, 3], &[0xa1, 0x23]), Lookup::NotInProof);
    assert_eq!(view.children_of(&value_hash(), &[0xa]), vec![]);
}

#[test]
fn lookup_from_a_sub_trie_root() {
    let view = decode_and_verify_proof(Config { proof: &valid_proof() }, vec![root_hash()]).unwrap();
    assert_eq!(view.get_nibbles(&hash_a(), &[2, 3]), Lookup::Found(vec![0x11; 40]));
}

#[test]
fn undecodable_inline_child_is_refused() {
    // The root holds an inline child that is no node encoding.
    assert_eq!(
        check(&odd_root(), vec![odd_root_hash()]),
        Err(ProofError::Codec(CodecError::BadChildLength))
    );
}

#[test]
fn lookup_walks_through_nested_inline_children() {
    // The root holds an inline branch, which holds an inline leaf.
    let view =
        decode_and_verify_proof(Config { proof: &nested_root() }, vec![nested_root_hash()]).unwrap();
    assert_eq!(view.get_nibbles(&nested_root_hash(), &[]), Lookup::Found(vec![0x33; 30]));
    assert_eq!(view.get_nibbles(&nested_root_hash(), &[1, 3, 2, 7]), Lookup::Found(vec![0x58]));
    assert_eq!(view.get_nibbles(&nested_root_hash(), &[1, 3]), Lookup::NotFound);
    assert_eq!(view.get_nibbles(&nested_root_hash(), &[1, 3, 2, 8]), Lookup::NotFound);
    assert_eq!(view.get_nibbles(&nested_root_hash(), &[1, 3, 4, 7]), Lookup::NotFound);
    assert_eq!(view.get_nibbles(&nested_root_hash(), &[2]), Lookup::NotFound);
    assert_eq!(
        view.children_of(&nested_root_hash(), &[1, 3]),
        vec![(2, MerkleValue::Inline(vec![0x41, 0x07, 0x04, 0x58]))]
    );
}

#[test]
fn children_are_listed_in_nibble_order() {
    let view = decode_and_verify_proof(Config { proof: &valid_proof() }, vec![root_hash()]).unwrap();
    assert_eq!(
        view.children_of(&root_hash(), &[0xa]),
        vec![
            (1, MerkleValue::Hashed(hash_a())),
            (5, MerkleValue::Inline(leaf_b())),
            (9, MerkleValue::Hashed(hash_c())),
        ]
    );
    // A leaf has no children, and neither has a key without a node.
    assert_eq!(view.children_of(&root_hash(), &[0xa, 1, 2, 3]), vec![]);
    assert_eq!(view.children_of(&root_hash(), &[0xa, 1]), vec![]);
    assert_eq!(view.children_of(&root_hash(), &[]), vec![]);
}

#[test]
fn unreferenced_entry_is_unused() {
    let proof = concat(&[valid_proof(), stray_leaf()]);
    assert_eq!(check(&proof, vec![root_hash()]), Err(ProofError::UnusedEntry));
    let proof = concat(&[stray_leaf(), valid_proof()]);
    assert_eq!(check(&proof, vec![root_hash()]), Err(ProofError::UnusedEntry));
}

#[test]
fn short_entry_is_unused() {
    // An entry of less than 32 bytes is nobody's hash.
    let proof = concat(&[valid_proof(), leaf_b()]);
    assert_eq!(check(&proof, vec![root_hash()]), Err(ProofError::UnusedEntry));
}

#[test]
fn entries_without_roots_are_unused() {
    assert_eq!(check(&valid_proof(), vec![]), Err(ProofError::UnusedEntry));
}

#[test]
fn repeated_entry_is_a_duplicate() {
    assert!(check(&leaf_a(), vec![hash_a()]).is_ok());
    let proof = concat(&[root_node(), leaf_a(), leaf_a(), leaf_c()]);
    assert_eq!(check(&proof, vec![root_hash()]), Err(ProofError::DuplicateEntry));
    let proof = concat(&[root_node(), leaf_a(), leaf_c(), root_node()]);
    assert_eq!(check(&proof, vec![root_hash()]), Err(ProofError::DuplicateEntry));
    assert_eq!(
        ProofGraph::build(&concat(&[leaf_b(), leaf_b()]), 0).err(),
        Some(ProofError::DuplicateEntry)
    );
}

#[test]
fn truncated_proof_is_rejected() {
    let proof = valid_proof();
    for cut in 0..proof.len() {
        let result = check(&proof[..cut], vec![root_hash()]);
        assert!(result.is_err(), "cut at {}", cut);
    }
    assert_eq!(check(&proof[..0], vec![root_hash()]), Err(ProofError::Empty));
    assert_eq!(check(&proof[..10], vec![root_hash()]), Err(ProofError::TrailingGarbage));
    assert_eq!(check(&proof[..76], vec![root_hash()]), Err(ProofError::MissingChild));
    assert_eq!(check(&proof[..76 + 43], vec![root_hash()]), Err(ProofError::MissingChild));
}

#[test]
fn omitted_root_is_root_not_found() {
    let proof = concat(&[leaf_a(), leaf_c()]);
    assert_eq!(check(&proof, vec![root_hash()]), Err(ProofError::RootNotFound));
    assert_eq!(check(&valid_proof(), vec![root_hash(), value_hash()]), Err(ProofError::RootNotFound));
    assert_eq!(check(&valid_proof(), vec![vec![1, 2, 3]]), Err(ProofError::RootNotFound));
}

#[test]
fn omitted_child_is_missing_child() {
    let proof = concat(&[root_node(), leaf_a()]);
    assert_eq!(check(&proof, vec![root_hash()]), Err(ProofError::MissingChild));
    // Also where an unused entry is there as well.
    let proof = concat(&[root_node(), leaf_a(), stray_leaf()]);
    assert_eq!(check(&proof, vec![root_hash()]), Err(ProofError::MissingChild));
}

#[test]
fn flipped_byte_is_rejected() {
    let proof = valid_proof();
    for at in 0..proof.len() {
        for bit in 0..8 {
            let mut altered = proof.clone();
            altered[at] ^= 1 << bit;
            let result = check(&altered, vec![root_hash()]);
            assert!(result.is_err(), "byte {} bit {}", at, bit);
        }
    }
}

#[test]
fn empty_buffer() {
    assert_eq!(check(&[], vec![root_hash()]), Err(ProofError::Empty));
    assert_eq!(ProofGraph::build(&[], 1).err(), Some(ProofError::Empty));
    assert_eq!(ProofGraph::build(&[], 0).map(|graph| graph.len()), Ok(0));
    assert_eq!(check(&[], vec![]), Ok(0));
}

#[test]
fn trailing_garbage() {
    let proof = concat(&[valid_proof(), vec![0x43, 0x01]]);
    assert_eq!(check(&proof, vec![root_hash()]), Err(ProofError::TrailingGarbage));
    assert_eq!(ProofGraph::build(&[0x43], 0).err(), Some(ProofError::TrailingGarbage));
}

#[test]
fn malformed_entry() {
    let proof = concat(&[valid_proof(), vec![0x05]]);
    assert_eq!(
        check(&proof, vec![root_hash()]),
        Err(ProofError::Codec(CodecError::InvalidHeader))
    );
    let proof = concat(&[vec![0x80, 0x01, 0x00, 0x84], valid_proof()]);
    assert_eq!(
        check(&proof, vec![root_hash()]),
        Err(ProofError::Codec(CodecError::BadChildLength))
    );
    let proof = concat(&[leaf_a(), vec![0x40, 0x03, 0, 0, 0, 0]]);
    assert_eq!(
        check(&proof, vec![hash_a()]),
        Err(ProofError::Codec(CodecError::BadValueLength))
    );
}

#[test]
fn malformed_entry_comes_before_duplicates() {
    let proof = concat(&[leaf_a(), leaf_a(), vec![0x05]]);
    assert_eq!(
        check(&proof, vec![hash_a()]),
        Err(ProofError::Codec(CodecError::InvalidHeader))
    );
}

#[test]
fn plain_value_is_shorter_than_its_encoding() {
    let (node, used) = trie_proof::codec::decode_node(&leaf_a()).unwrap();
    assert_eq!(used, 43);
    assert_eq!(node.storage_value, Some(trie_proof::node::StorageValue::Plain(vec![0x11; 40])));
}

#[test]
fn graph_finds_entries_by_merkle_value() {
    let graph = ProofGraph::build(&valid_proof(), 1).unwrap();
    assert_eq!(graph.len(), 3);
    assert_eq!(graph.position(&MerkleValue::Hashed(root_hash())), Some(0));
    assert_eq!(graph.position(&MerkleValue::Hashed(hash_c())), Some(2));
    assert_eq!(graph.position(&MerkleValue::Hashed(value_hash())), None);
    assert_eq!(graph.position(&MerkleValue::Inline(leaf_b())), None);
    let entry = graph.entry(1).unwrap();
    assert_eq!(entry.bytes, leaf_a());
    assert_eq!(entry.merkle_value, MerkleValue::Hashed(hash_a()));
    assert_eq!(entry.node.partial_key, vec![2, 3]);
    assert!(graph.entry(3).is_none());
}

#[test]
fn merkle_value_of_short_encoding_is_the_encoding() {
    assert_eq!(merkle_value(&leaf_b()), MerkleValue::Inline(leaf_b()));
    assert_eq!(merkle_value(&[7; 31]), MerkleValue::Inline(vec![7; 31]));
    assert_eq!(merkle_value(&[]), MerkleValue::Inline(vec![]));
}

#[test]
fn merkle_value_of_long_encoding_is_its_hash() {
    assert_eq!(merkle_value(&leaf_a()), MerkleValue::Hashed(hash_a()));
    assert_eq!(merkle_value(&root_node()), MerkleValue::Hashed(root_hash()));
    let bytes = [7u8; 32];
    let expected = blake2_rfc::blake2b::blake2b(32, &[], &bytes).as_bytes().to_vec();
    assert_ne!(expected, bytes.to_vec());
    assert_eq!(merkle_value(&bytes), MerkleValue::Hashed(expected));
}

#[test]
fn hash_of_the_empty_string() {
    assert_eq!(
        hash_node(&[]),
        vec![
            14, 87, 81, 192, 38, 229, 67, 178, 232, 171, 46, 176, 96, 153, 218, 161, 209, 229, 223,
            71, 119, 143, 119, 135, 250, 171, 69, 205, 241, 47, 227, 168
        ]
    );
}

#[test]
fn nibbles_high_first() {
    assert_eq!(bytes_to_nibbles(&[0xa1, 0x23, 0x0f]), vec![0xa, 1, 2, 3, 0, 0xf]);
    assert_eq!(bytes_to_nibbles(&[]), Vec::<u8>::new());
}

#[test]
fn merkle_values_compare_by_kind_and_bytes() {
    let hashed = MerkleValue::Hashed(vec![1; 32]);
    assert!(hashed.same_as(&hashed.duplicate()));
    assert!(!hashed.same_as(&MerkleValue::Inline(vec![1; 32])));
    assert!(!hashed.same_as(&MerkleValue::Hashed(vec![2; 32])));
    assert_eq!(hashed.as_bytes(), &vec![1u8; 32]);
}
