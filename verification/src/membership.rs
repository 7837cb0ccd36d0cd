//! Membership proofs. A proof is either `Invalid` — handed out for an
//! out-of-range position and rejecting every candidate — or a self-contained
//! snapshot of a leaf position, its sibling path and the root at the time
//! the proof was made, against which candidate values can be checked without
//! the tree.

use crate::hashing::hash_pair;
use crate::hashing::hash_single;
use crate::hashing::spec_hash_single;
use crate::model::spec_climb;
use vstd::prelude::*;

verus! {

/// Contains merkle proof information for later validation.
pub enum MerkleProof {
    Proof {
        /// The leaf position the proof speaks for.
        index: usize,
        /// The sibling path, in leaf-to-root order.
        nodes: Vec<u64>,
        /// The tree's root at the time the proof was made.
        root: u64,
    },
    /// Invalid proofs always return false for `proof.verify(value)`.
    Invalid,
}

impl MerkleProof {
    /// What `verify` returns: an `Invalid` proof rejects everything; a real
    /// proof accepts a candidate exactly when climbing from the candidate's
    /// hash along the stored sibling path recomputes the stored root.
    pub open spec fn spec_verify(&self, value: u64) -> bool {
        match self {
            MerkleProof::Invalid => false,
            MerkleProof::Proof { index, nodes, root } => spec_climb(
                *index as nat,
                nodes@,
                spec_hash_single(value),
            ) == *root,
        }
    }

    /// Returns whether a given value verifies the proof. An `Invalid` proof
    /// yields false for every value.
    pub fn verify(&self, value: u64) -> (r: bool)
        ensures
            r == self.spec_verify(value),
            self is Invalid ==> r == false,
    {
        match self {
            MerkleProof::Invalid => false,
            MerkleProof::Proof { index, nodes, root } => {
                let mut computed_root = hash_single(value);
                let mut position: usize = *index;
                let node_count = nodes.len();
                proof {
                    assert(nodes@.skip(0) =~= nodes@);
                }
                for node_n in 0..node_count
                    invariant
                        node_count == nodes@.len(),
                        spec_climb(position as nat, nodes@.skip(node_n as int), computed_root)
                            == spec_climb(*index as nat, nodes@, spec_hash_single(value)),
                {
                    let node = nodes[node_n];
                    proof {
                        assert(nodes@.skip(node_n as int)[0] == nodes@[node_n as int]);
                        assert(nodes@.skip(node_n as int).drop_first() =~= nodes@.skip(
                            node_n as int + 1,
                        ));
                    }
                    computed_root = if position % 2 == 0 {
                        hash_pair(computed_root, node)
                    } else {
                        hash_pair(node, computed_root)
                    };
                    position = position / 2;
                }
                proof {
                    assert(nodes@.skip(node_count as int).len() == 0);
                }
                computed_root == *root
            },
        }
    }
}

} // verus!
