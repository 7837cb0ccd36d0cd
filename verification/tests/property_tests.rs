use merkle_tree::index::{ancestor_index, sibling_index};
use merkle_tree::{hash_pair, hash_single, MerkleProof, MerkleTree};

#[test]
fn index_arithmetic() {
    assert_eq!(ancestor_index(6, 0), 6);
    assert_eq!(ancestor_index(6, 1), 3);
    assert_eq!(ancestor_index(6, 2), 1);
    assert_eq!(ancestor_index(13, 2), 3);
    assert_eq!(sibling_index(6), 7);
    assert_eq!(sibling_index(7), 6);
    assert_eq!(sibling_index(0), 1);
}

#[test]
fn hashing_is_deterministic() {
    assert_eq!(hash_single(5), hash_single(5));
    assert_eq!(hash_pair(1, 2), hash_pair(1, 2));
}

#[test]
fn pair_hashing_is_order_sensitive() {
    assert_ne!(hash_pair(1, 2), hash_pair(2, 1));
}

#[test]
fn capacity_is_next_power_of_two() {
    assert_eq!(MerkleTree::build(&[7; 1]).capacity(), 1);
    assert_eq!(MerkleTree::build(&[7; 2]).capacity(), 2);
    assert_eq!(MerkleTree::build(&[7; 3]).capacity(), 4);
    assert_eq!(MerkleTree::build(&[7; 4]).capacity(), 4);
    assert_eq!(MerkleTree::build(&[7; 5]).capacity(), 8);
    assert_eq!(MerkleTree::build(&[7; 13]).capacity(), 16);
    assert_eq!(MerkleTree::build(&[7; 5]).height(), 4);
}

#[test]
fn length_and_emptiness_getters() {
    let tree = MerkleTree::build(&[1, 2, 3]);
    assert_eq!(tree.len(), 3);
    assert!(!tree.is_empty());
    assert!(!tree.is_full());

    let full = MerkleTree::build(&[1, 2, 3, 4]);
    assert_eq!(full.len(), 4);
    assert!(full.is_full());
}

#[test]
fn every_element_of_a_built_tree_verifies() {
    let elements = [11, 22, 33, 44, 55, 66];
    let tree = MerkleTree::build(&elements);
    for (i, &element) in elements.iter().enumerate() {
        assert!(tree.get_proof(i).verify(element));
    }
}

#[test]
fn proofs_reject_other_values_and_mismatched_indices() {
    let elements = [11, 22, 33, 44, 55];
    let tree = MerkleTree::build(&elements);
    assert!(!tree.get_proof(0).verify(22));
    assert!(!tree.get_proof(4).verify(11));
    assert!(!tree.get_proof(2).verify(0));
}

#[test]
fn invalid_proof_rejects_everything() {
    let tree = MerkleTree::build(&[1, 2, 3]);
    let proof = tree.get_proof(3);
    assert!(matches!(proof, MerkleProof::Invalid));
    assert!(!proof.verify(1));
    assert!(!proof.verify(2));
    assert!(!proof.verify(0));

    let empty = MerkleTree::build(&[]);
    assert!(matches!(empty.get_proof(0), MerkleProof::Invalid));
}

#[test]
fn proof_is_invalid_exactly_beyond_the_length() {
    let tree = MerkleTree::build(&[1, 2, 3]);
    assert!(!matches!(tree.get_proof(2), MerkleProof::Invalid));
    assert!(matches!(tree.get_proof(3), MerkleProof::Invalid));
    assert!(matches!(tree.get_proof(100), MerkleProof::Invalid));
}

#[test]
fn push_on_non_full_tree_keeps_capacity() {
    let mut tree = MerkleTree::build(&[1, 2, 3]);
    let capacity_before = tree.capacity();
    tree.push(4);
    assert_eq!(tree.len(), 4);
    assert_eq!(tree.capacity(), capacity_before);
    assert!(tree.get_proof(3).verify(4));
}

#[test]
fn push_on_full_tree_doubles_capacity() {
    let mut tree = MerkleTree::build(&[1, 2, 3, 4]);
    let height_before = tree.height();
    tree.push(5);
    assert_eq!(tree.len(), 5);
    assert_eq!(tree.capacity(), 8);
    assert_eq!(tree.height(), height_before + 1);
    assert!(tree.get_proof(4).verify(5));
    // Pre-existing data still verifies through freshly fetched proofs.
    assert!(tree.get_proof(0).verify(1));
}

#[test]
fn push_changes_the_root() {
    let mut tree = MerkleTree::build(&[1, 2, 3]);
    let root_before = tree.root();
    tree.push(4);
    assert_ne!(tree.root(), root_before);
}

#[test]
fn four_element_scenario() {
    let mut tree = MerkleTree::build(&[1, 2, 3, 4]);
    assert_eq!(tree.height(), 3);
    assert_eq!(tree.capacity(), 4);
    assert!(tree.is_full());
    assert!(tree.get_proof(2).verify(3));
    assert!(!tree.get_proof(3).verify(2));
    tree.push(5);
    assert_eq!(tree.capacity(), 8);
}

#[test]
fn empty_tree_scenario() {
    let mut tree = MerkleTree::build(&[]);
    assert_eq!(tree.len(), 0);
    assert_eq!(tree.capacity(), 0);
    assert_eq!(tree.height(), 0);
    assert!(tree.root().is_none());
    tree.push(4);
    assert_eq!(tree.len(), 1);
    assert_eq!(tree.capacity(), 1);
    assert!(tree.root().is_some());
    assert!(tree.get_proof(0).verify(4));
}

#[test]
fn padded_tree_scenario() {
    let mut tree = MerkleTree::build(&[1, 2, 3]);
    assert_eq!(tree.capacity(), 4);
    assert!(!tree.is_full());
    tree.push(4);
    assert!(tree.is_full());
    assert!(tree.get_proof(3).verify(4));
}

#[test]
fn root_is_present_exactly_when_non_empty() {
    assert!(MerkleTree::build(&[]).root().is_none());
    assert!(MerkleTree::build(&[1]).root().is_some());
    assert!(MerkleTree::build(&[1, 2, 3]).root().is_some());
}

#[test]
fn proof_outlives_tree_mutation() {
    let mut tree = MerkleTree::build(&[1, 2, 3, 4]);
    let proof = tree.get_proof(1);
    tree.push(5);
    // The proof is a snapshot against the old root; it still verifies the
    // old element against that root.
    assert!(proof.verify(2));
}

#[test]
fn growing_from_empty_by_pushes() {
    let mut tree = MerkleTree::build(&[]);
    for value in 1..=9u64 {
        tree.push(value);
    }
    assert_eq!(tree.len(), 9);
    assert_eq!(tree.capacity(), 16);
    for index in 0..9usize {
        assert!(tree.get_proof(index).verify(index as u64 + 1));
    }
}
