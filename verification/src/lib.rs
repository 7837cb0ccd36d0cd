//! An append-only binary hash tree (Merkle tree) over a sequence of `u64`
//! elements. A tree is built from an initial collection, hands out compact
//! membership proofs for its elements, verifies candidate values against such
//! proofs, and grows by one element at a time, doubling its capacity when
//! full.

pub mod hashing;
pub mod index;
pub mod membership;
pub mod model;
pub mod tree;

pub use hashing::hash_pair;
pub use hashing::hash_single;
pub use membership::MerkleProof;
pub use tree::MerkleTree;
