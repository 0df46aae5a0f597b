//! The canonical values that stand for what was never written.

use crate::field::FieldElement;
use vstd::prelude::*;

verus! {

/// The value that stands for an empty leaf: the Poseidon hash of the single
/// input zero.
pub open spec fn empty_leaf_hash() -> nat {
    19014214495641488759237505126948346942972912379615652741039992445865937985820nat
}

/// The value that stands for a subtree of inner nodes that was never written:
/// the Poseidon hash of two empty leaves.
pub open spec fn empty_inner_hash() -> nat {
    10447686833432518214645507207530993719569269870494442919228205482093666444588nat
}

/// The canonical hash of an empty leaf.
pub fn get_empty_leaf_hash() -> (h: FieldElement)
    ensures
        h@ == empty_leaf_hash(),
{
    let limbs: [u64; 4] = [
        0x3aed2411cb65e11c,
        0xe8f7aa12e2b4940a,
        0x6b91effbb2499f07,
        0x2a09a9fd93c590c2,
    ];
    match FieldElement::from_limbs(limbs) {
        Some(h) => h,
        None => unreached(),
    }
}

/// The canonical hash of an inner node below which nothing was written.
pub fn get_empty_inner_hash() -> (h: FieldElement)
    ensures
        h@ == empty_inner_hash(),
{
    let limbs: [u64; 4] = [
        0xffc429aa9021252c,
        0x1f3f1660d10dd9b1,
        0x49d93b3c6be1e2bd,
        0x17192e62a1575568,
    ];
    match FieldElement::from_limbs(limbs) {
        Some(h) => h,
        None => unreached(),
    }
}

} // verus!
