//! What the operations of the tree report when they fail.

use light_poseidon::PoseidonError;
use vstd::prelude::*;

verus! {

/// The error type of the Poseidon hasher. Nothing is read from a value of
/// it; it is handed on as it came.
#[verifier::external_type_specification]
#[verifier::external_body]
pub struct ExPoseidonError(PoseidonError);

/// Why no inclusion proof could be generated.
#[derive(Debug, PartialEq)]
pub enum ProofError {
    /// The path leaves the stored part of the tree at this level: the child
    /// that the path takes there was never written.
    SiblingNotFound(usize),
    /// A leaf stands where the path passes an inner level.
    InnerNodeExpected,
    /// A node holds no hash.
    EmptyNodeHash,
}

/// Why an operation on the tree failed.
#[derive(Debug, PartialEq)]
pub enum PoseidonMerkleError {
    /// A tree needs a depth of at least 1.
    InvalidDepth,
    /// The Poseidon hasher refused the input.
    HasherError(PoseidonError),
    /// A leaf was found where an inner node was expected, or the reverse.
    InvalidNodeType,
    /// The bits spell a number that is no field element.
    InvalidBitsPathHash,
    /// No inclusion proof could be generated.
    SiblingNotFound(ProofError),
    /// The level is not above the leaves.
    InvalidLevel,
}

} // verus!
