//! Inclusion proofs: the siblings along a path, from which the root is
//! computed again without the tree.

use crate::errors::PoseidonMerkleError;
use crate::field::{nat_bit, FieldElement};
use crate::hasher::{field_values, poseidon2, Hasher};
use vstd::prelude::*;

verus! {

/// The hash of a parent, from the child on the path, which counts with
/// `below`, and the child beside it: the child on the path is the right one
/// where `go_right` holds.
pub open spec fn join(go_right: bool, below: nat, sibling: nat) -> nat {
    if go_right {
        poseidon2(sibling, below)
    } else {
        poseidon2(below, sibling)
    }
}

/// The hash at `level` on the path `path` when the leaf counts with `leaf`
/// and `siblings` holds the siblings from `level` down to the leaf.
pub open spec fn fold_path(leaf: nat, siblings: Seq<nat>, path: nat, level: nat) -> nat
    decreases siblings.len(),
{
    if siblings.len() == 0 {
        leaf
    } else {
        join(
            nat_bit(path, level),
            fold_path(leaf, siblings.drop_first(), path, level + 1),
            siblings[0],
        )
    }
}

/// An inclusion proof for one leaf.
#[derive(Debug, Clone)]
pub struct MerkleProof {
    /// The siblings along the path, from the root down to the leaf.
    pub siblings: Vec<FieldElement>,
    /// The path of the leaf.
    pub merkle_path: FieldElement,
    /// The value of the leaf.
    pub leaf_value: FieldElement,
    /// The root hash that the proof claims.
    pub root_hash: FieldElement,
}

impl MerkleProof {
    /// The root that the leaf value and the siblings give.
    pub open spec fn spec_root(self) -> nat {
        fold_path(self.leaf_value@, field_values(self.siblings@), self.merkle_path@, 0)
    }

    /// Whether the leaf value and the siblings give the claimed root.
    pub open spec fn spec_valid(self) -> bool {
        self.spec_root() == self.root_hash@
    }

    /// A proof with these parts, as they are given.
    pub fn new(
        siblings: Vec<FieldElement>,
        merkle_path: FieldElement,
        leaf_value: FieldElement,
        root_hash: FieldElement,
    ) -> (made: MerkleProof)
        ensures
            made.siblings == siblings,
            made.merkle_path == merkle_path,
            made.leaf_value == leaf_value,
            made.root_hash == root_hash,
    {
        MerkleProof { siblings, merkle_path, leaf_value, root_hash }
    }

    /// Computes the root from the leaf value and the siblings, from the leaf
    /// up, and says whether it is the claimed one. A proof without siblings
    /// needs no hasher; any other needs a hasher that takes pairs, and fails
    /// with the hasher's error without one.
    pub fn verify_proof(&self, hasher: &mut Hasher) -> (r: Result<bool, PoseidonMerkleError>)
        ensures
            *final(hasher) == *old(hasher),
            r is Ok <==> (self.siblings@.len() == 0 || old(hasher).accepts_pairs()),
            r is Ok ==> r.unwrap() == self.spec_valid(),
            r is Err ==> r.unwrap_err() is HasherError,
    {
        let bits = self.merkle_path.to_bits_le();
        let ghost siblings = field_values(self.siblings@);
        let ghost path = self.merkle_path@;
        let mut current_hash = self.leaf_value;
        let mut position: usize = self.siblings.len();
        assert(siblings.skip(position as int).len() == 0);
        while position > 0
            invariant
                position <= self.siblings@.len(),
                siblings == field_values(self.siblings@),
                path == self.merkle_path@,
                bits@.len() == 256,
                forall|i: int| 0 <= i < 256 ==> bits@[i] == nat_bit(path, i as nat),
                *hasher == *old(hasher),
                position < self.siblings@.len() ==> hasher.accepts_pairs(),
                current_hash@ == fold_path(
                    self.leaf_value@,
                    siblings.skip(position as int),
                    path,
                    position as nat,
                ),
            decreases position,
        {
            position = position - 1;
            let sibling = self.siblings[position];
            let go_right = if position < bits.len() {
                bits[position]
            } else {
                self.merkle_path.bit(position)
            };
            let joined = if go_right {
                hasher.hash_pair(&sibling, &current_hash)
            } else {
                hasher.hash_pair(&current_hash, &sibling)
            };
            match joined {
                Ok(hash) => {
                    proof {
                        let rest = siblings.skip(position as int);
                        assert(rest.drop_first() =~= siblings.skip(position + 1));
                        assert(rest[0] == sibling@);
                    }
                    current_hash = hash;
                },
                Err(e) => {
                    return Err(PoseidonMerkleError::HasherError(e));
                },
            }
        }
        assert(siblings.skip(0) =~= siblings);
        Ok(current_hash == self.root_hash)
    }
}

} // verus!
