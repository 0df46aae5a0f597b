//! The Poseidon hash over the BN254 scalar field, with the parameters that
//! circom uses.

use crate::field::{array_value, modulus, FieldElement};
use ark_bn254::Fr;
use ark_ff::{BigInt, PrimeField};
use light_poseidon::{Poseidon, PoseidonError, PoseidonHasher};
use vstd::prelude::*;

verus! {

/// The Poseidon hash of `inputs`, each given by its canonical representative,
/// under the circom parameters for `inputs.len()` inputs and a zero domain
/// tag. It is meant for 1 to 12 inputs.
pub uninterp spec fn poseidon_circom(inputs: Seq<nat>) -> nat;

/// The hash that joins two children into their parent.
pub open spec fn poseidon2(left: nat, right: nat) -> nat {
    poseidon_circom(seq![left, right])
}

/// The input counts for which circom parameters exist.
pub open spec fn circom_supports(nr_inputs: nat) -> bool {
    1 <= nr_inputs <= 12
}

/// The canonical representatives of a sequence of field elements.
pub open spec fn field_values(elements: Seq<FieldElement>) -> Seq<nat> {
    elements.map_values(|x: FieldElement| x@)
}

/// `Poseidon::<Fr>::new_circom`: succeeds for 1 to 12 inputs and for no
/// other count. The sponge itself is dropped.
#[verifier::external_body]
fn circom_parameters_exist(nr_inputs: usize) -> (r: Result<(), PoseidonError>)
    requires
        nr_inputs < usize::MAX,
    ensures
        r is Ok <==> circom_supports(nr_inputs as nat),
{
    Poseidon::<Fr>::new_circom(nr_inputs).map(|_| ())
}

/// `PoseidonHasher::hash` on a sponge that `Poseidon::<Fr>::new_circom` makes
/// for `nr_inputs` inputs. It fails where no such sponge exists or where the
/// number of inputs is another; else the digest is the Poseidon hash of the
/// inputs, returned as the limbs of its canonical representative.
#[verifier::external_body]
fn circom_hash(nr_inputs: usize, inputs: &[FieldElement]) -> (r: Result<[u64; 4], PoseidonError>)
    requires
        nr_inputs < usize::MAX,
    ensures
        r is Ok <==> (circom_supports(nr_inputs as nat) && inputs@.len() == nr_inputs),
        r is Ok ==> array_value(r.unwrap()) < modulus(),
        r is Ok ==> array_value(r.unwrap()) == poseidon_circom(field_values(inputs@)),
{
    let mut sponge = Poseidon::<Fr>::new_circom(nr_inputs)?;
    let elements: Vec<Fr> = inputs.iter().map(|x| Fr::from(BigInt::new(x.to_limbs()))).collect();
    let digest = sponge.hash(&elements)?;
    Ok(digest.into_bigint().0)
}

/// A Poseidon hasher with circom parameters, set up for a fixed number of
/// inputs.
#[derive(Clone, Copy, Debug)]
pub struct Hasher {
    nr_inputs: u8,
}

impl Hasher {
    /// The number of inputs that the hasher takes.
    pub closed spec fn spec_nr_inputs(self) -> nat {
        self.nr_inputs as nat
    }

    /// Whether the hasher takes two inputs, as joining two children needs.
    pub open spec fn accepts_pairs(self) -> bool {
        self.spec_nr_inputs() == 2
    }

    /// A hasher for `nr_inputs` inputs. It exists for 1 to 12 inputs.
    pub fn new_circom(nr_inputs: usize) -> (r: Result<Hasher, PoseidonError>)
        requires
            nr_inputs < usize::MAX,
        ensures
            r is Ok <==> circom_supports(nr_inputs as nat),
            r is Ok ==> r.unwrap().spec_nr_inputs() == nr_inputs,
    {
        match circom_parameters_exist(nr_inputs) {
            Ok(()) => Ok(Hasher { nr_inputs: nr_inputs as u8 }),
            Err(e) => Err(e),
        }
    }

    /// The number of inputs that the hasher takes.
    pub fn nr_inputs(&self) -> (n: usize)
        ensures
            n == self.spec_nr_inputs(),
    {
        self.nr_inputs as usize
    }

    /// Hashes `inputs`. The hasher refuses any other number of inputs than
    /// the one it was set up for.
    pub fn hash(&mut self, inputs: &[FieldElement]) -> (r: Result<FieldElement, PoseidonError>)
        ensures
            *final(self) == *old(self),
            r is Ok <==> circom_supports(old(self).spec_nr_inputs()) && inputs@.len() == old(
                self,
            ).spec_nr_inputs(),
            r is Ok ==> r.unwrap()@ == poseidon_circom(field_values(inputs@)),
    {
        match circom_hash(self.nr_inputs as usize, inputs) {
            Ok(limbs) => match FieldElement::from_limbs(limbs) {
                Some(digest) => Ok(digest),
                None => unreached(),
            },
            Err(e) => Err(e),
        }
    }

    /// Hashes a left and a right child into their parent.
    pub fn hash_pair(&mut self, left: &FieldElement, right: &FieldElement) -> (r: Result<
        FieldElement,
        PoseidonError,
    >)
        ensures
            *final(self) == *old(self),
            r is Ok <==> old(self).accepts_pairs(),
            r is Ok ==> r.unwrap()@ == poseidon2(left@, right@),
    {
        let pair: [FieldElement; 2] = [*left, *right];
        assert(field_values(pair@) =~= seq![left@, right@]);
        self.hash(pair.as_slice())
    }
}

} // verus!
