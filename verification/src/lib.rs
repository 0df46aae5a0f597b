//! A sparse, fixed-depth Merkle tree over the BN254 scalar field, hashed with
//! Poseidon. Leaves are addressed by bit paths; subtrees that were never
//! written are not stored and count with canonical values.

pub mod constants;
pub mod errors;
pub mod field;
pub mod hasher;
pub mod iterator;
pub mod laws;
pub mod node;
pub mod merkle_proof;
pub mod subtree;
pub mod tree;

pub use constants::{get_empty_inner_hash, get_empty_leaf_hash};
pub use errors::{PoseidonMerkleError, ProofError};
pub use field::FieldElement;
pub use hasher::Hasher;
pub use iterator::{SparseTreeIterator, SparseTreeRefIterator};
pub use node::{Node, NodeType};
pub use merkle_proof::MerkleProof;
pub use tree::SparseMerkleTree;
