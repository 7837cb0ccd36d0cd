use merkle_tree::MerkleTree;

#[test]
fn build_with_power_of_2_elements() {
    MerkleTree::build(&[1; 1]);
    MerkleTree::build(&[1; 4]);
    MerkleTree::build(&[1; 8]);
}

#[test]
fn build_with_padded_trees() {
    MerkleTree::build(&[1; 3]);
    MerkleTree::build(&[1; 7]);
    MerkleTree::build(&[1; 13]);
}

#[test]
fn build_with_empty_array() {
    MerkleTree::build(&[]);
}

#[test]
fn height_of_tree() {
    let mut tests = Vec::new();

    // Power of two inputs.
    tests.push((MerkleTree::build(&[1; 1]), 1));
    tests.push((MerkleTree::build(&[1; 4]), 3));
    tests.push((MerkleTree::build(&[1; 32]), 6));

    // Non power of two inputs.
    tests.push((MerkleTree::build(&[1; 3]), 3));
    tests.push((MerkleTree::build(&[1; 7]), 4));
    tests.push((MerkleTree::build(&[1; 13]), 5));

    for (tree, expected_height) in tests {
        assert_eq!(tree.height(), expected_height);
    }
}

#[test]
fn get_proof_from_populated_tree() {
    // Should not fail
    MerkleTree::build(&[1; 1]).get_proof(0);
    MerkleTree::build(&[1; 4]).get_proof(3);
    MerkleTree::build(&[1; 8]).get_proof(4);

    MerkleTree::build(&[1; 3]).get_proof(2);
    MerkleTree::build(&[1; 7]).get_proof(7);
    MerkleTree::build(&[1; 13]).get_proof(15);
}

#[test]
fn get_proof_from_empty_tree() {
    MerkleTree::build(&[]).get_proof(10);
}

#[test]
fn proof_verifies() {
    let tree = MerkleTree::build(&[1, 2, 3, 4]);
    assert!(tree.get_proof(2).verify(3));

    let tree = MerkleTree::build(&[1, 2]);
    assert!(tree.get_proof(1).verify(2));

    let tree = MerkleTree::build(&[1, 2, 3, 4, 5]);
    assert!(tree.get_proof(4).verify(5));
}

#[test]
fn proof_not_verifies() {
    let tree = MerkleTree::build(&[1, 2, 3, 4]);
    assert!(!tree.get_proof(3).verify(2));

    let tree = MerkleTree::build(&[1, 2]);
    assert!(!tree.get_proof(1).verify(1));

    let tree = MerkleTree::build(&[1, 2, 3, 4, 5]);
    assert!(!tree.get_proof(4).verify(4));

    // Should return false if the tree is empty.
    let tree = MerkleTree::build(&[]);
    assert!(!tree.get_proof(10).verify(2));

    // Should return false for an invalid index.
    let tree = MerkleTree::build(&[1, 2, 3]);
    assert!(!tree.get_proof(10).verify(2));
}

#[test]
fn push_value_with_capacity() {
    let mut tree = MerkleTree::build(&[1, 2, 3]);
    assert!(!tree.get_proof(3).verify(4));
    tree.push(4);
    assert!(tree.get_proof(3).verify(4));

    let mut tree = MerkleTree::build(&[1; 6]);
    assert!(!tree.get_proof(6).verify(2));
    tree.push(2);
    assert!(tree.get_proof(6).verify(2));
    assert!(!tree.get_proof(7).verify(3));
    tree.push(3);
    assert!(tree.get_proof(7).verify(3));
}

#[test]
fn push_value_without_capacity() {
    let mut tree = MerkleTree::build(&[1, 2]);
    tree.push(3);
    tree.get_proof(2).verify(3);

    let mut tree = MerkleTree::build(&[1; 8]);
    tree.push(2);
    tree.push(3);
    tree.get_proof(9).verify(3);
}
