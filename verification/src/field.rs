//! Elements of the BN254 scalar field, kept as four 64-bit limbs of the
//! canonical representative, and the bit encoding of tree paths.

use ark_ff::{BigInt, BigInteger};
use vstd::arithmetic::power2::{
    lemma2_to64, lemma_pow2_adds, lemma_pow2_strictly_increases, lemma_pow2_unfold, pow2,
};
use vstd::prelude::*;
use vstd::std_specs::cmp::PartialEqSpecImpl;

verus! {

/// The order of the BN254 scalar field.
pub open spec fn modulus() -> nat {
    21888242871839275222246405745257275088548364400416034343698204186575808495617nat
}

/// The integer whose little-endian 64-bit limbs are `l0`, `l1`, `l2`, `l3`.
pub open spec fn limbs_value(l0: u64, l1: u64, l2: u64, l3: u64) -> nat {
    (l0 + l1 * 0x1_0000_0000_0000_0000nat + l2 * 0x1_0000_0000_0000_0000_0000_0000_0000_0000nat
        + l3 * 0x1_0000_0000_0000_0000_0000_0000_0000_0000_0000_0000_0000_0000nat) as nat
}

/// The integer whose little-endian 64-bit limbs the array holds.
pub open spec fn array_value(limbs: [u64; 4]) -> nat {
    limbs_value(limbs[0], limbs[1], limbs[2], limbs[3])
}

/// Bit `i` of `v`, counting from the least significant bit.
pub open spec fn nat_bit(v: nat, i: nat) -> bool
    decreases i,
{
    if i == 0 {
        v % 2 == 1
    } else {
        nat_bit(v / 2, (i - 1) as nat)
    }
}

/// The integer that `bits` spell, least significant bit first.
pub open spec fn le_bits_value(bits: Seq<bool>) -> nat
    decreases bits.len(),
{
    if bits.len() == 0 {
        0
    } else {
        (if bits[0] { 1nat } else { 0nat }) + 2 * le_bits_value(bits.drop_first())
    }
}

/// The first `depth` bits of `v`: the path that a field element with value
/// `v` names in a tree of that depth. Bit 0 is the step taken at the root.
pub open spec fn path_bits(v: nat, depth: nat) -> Seq<bool> {
    Seq::new(depth, |i: int| nat_bit(v, i as nat))
}

/// The bits that fit into four limbs: the first 256 of `bits`.
pub open spec fn packed_bits(bits: Seq<bool>) -> Seq<bool> {
    if bits.len() <= 256 {
        bits
    } else {
        bits.take(256)
    }
}

/// 2^256, written out.
pub proof fn lemma_pow2_256()
    ensures
        pow2(256) == 0x1_0000_0000_0000_0000_0000_0000_0000_0000_0000_0000_0000_0000_0000_0000_0000_0000nat,
        modulus() < pow2(256),
{
    lemma2_to64();
    lemma_pow2_adds(64, 64);
    lemma_pow2_adds(128, 128);
    let two_64 = pow2(64);
    let two_128 = pow2(128);
    assert(two_64 * two_64 == 0x1_0000_0000_0000_0000_0000_0000_0000_0000nat) by (nonlinear_arith)
        requires
            two_64 == 0x1_0000_0000_0000_0000nat,
    ;
    assert(two_128 * two_128
        == 0x1_0000_0000_0000_0000_0000_0000_0000_0000_0000_0000_0000_0000_0000_0000_0000_0000nat)
        by (nonlinear_arith)
        requires
            two_128 == 0x1_0000_0000_0000_0000_0000_0000_0000_0000nat,
    ;
}

/// Reading bit `i` of the integer that `bits` spell gives `bits[i]` back.
pub proof fn lemma_nat_bit_of_le_bits_value(bits: Seq<bool>, i: int)
    requires
        0 <= i < bits.len(),
    ensures
        nat_bit(le_bits_value(bits), i as nat) == bits[i],
    decreases i,
{
    let rest = bits.drop_first();
    let v = le_bits_value(bits);
    assert(v == (if bits[0] { 1nat } else { 0nat }) + 2 * le_bits_value(rest));
    if i > 0 {
        assert(v / 2 == le_bits_value(rest));
        lemma_nat_bit_of_le_bits_value(rest, i - 1);
        assert(rest[i - 1] == bits[i]);
    }
}

/// A set bit `i` makes the number at least 2^i.
pub proof fn lemma_nat_bit_lower_bound(v: nat, i: nat)
    requires
        nat_bit(v, i),
    ensures
        v >= pow2(i),
    decreases i,
{
    if i == 0 {
        lemma2_to64();
    } else {
        lemma_nat_bit_lower_bound(v / 2, (i - 1) as nat);
        lemma_pow2_unfold(i);
    }
}

/// A sequence of cleared bits spells zero.
pub proof fn lemma_le_bits_value_zeros(bits: Seq<bool>)
    requires
        forall|i: int| 0 <= i < bits.len() ==> !bits[i],
    ensures
        le_bits_value(bits) == 0,
    decreases bits.len(),
{
    if bits.len() > 0 {
        lemma_le_bits_value_zeros(bits.drop_first());
    }
}

/// The integer that `bits` spell is what the first `n` bits spell plus 2^n
/// times what the others spell.
pub proof fn lemma_le_bits_value_split(bits: Seq<bool>, n: int)
    requires
        0 <= n <= bits.len(),
    ensures
        le_bits_value(bits) == le_bits_value(bits.take(n)) + pow2(n as nat) * le_bits_value(
            bits.skip(n),
        ),
    decreases n,
{
    if n == 0 {
        lemma2_to64();
        assert(bits.skip(0) =~= bits);
        assert(bits.take(0).len() == 0);
        assert(le_bits_value(bits.take(0)) == 0);
        assert(pow2(0) * le_bits_value(bits) == le_bits_value(bits)) by (nonlinear_arith)
            requires
                pow2(0) == 1,
        ;
    } else {
        let rest = bits.drop_first();
        let first: nat = if bits[0] { 1 } else { 0 };
        lemma_le_bits_value_split(rest, n - 1);
        assert(bits.take(n).drop_first() =~= rest.take(n - 1));
        assert(bits.skip(n) =~= rest.skip(n - 1));
        assert(bits.take(n)[0] == bits[0]);
        lemma_pow2_unfold(n as nat);
        let low = le_bits_value(rest.take(n - 1));
        let high = le_bits_value(bits.skip(n));
        let half = pow2((n - 1) as nat);
        assert(le_bits_value(rest) == low + half * high);
        assert(le_bits_value(bits) == first + 2 * le_bits_value(rest));
        assert(le_bits_value(bits.take(n)) == first + 2 * low);
        assert(2 * (low + half * high) == 2 * low + (2 * half) * high) by (nonlinear_arith);
    }
}

/// A set bit at position `i` makes the spelled integer at least 2^i.
pub proof fn lemma_le_bits_value_lower_bound(bits: Seq<bool>, i: int)
    requires
        0 <= i < bits.len(),
        bits[i],
    ensures
        le_bits_value(bits) >= pow2(i as nat),
{
    lemma_nat_bit_of_le_bits_value(bits, i);
    lemma_nat_bit_lower_bound(le_bits_value(bits), i as nat);
}

/// `BigInteger::to_bits_le` on the four-limb integer with these limbs: its
/// 256 bits, least significant first.
#[verifier::external_body]
fn le_bits_of_limbs(limbs: [u64; 4]) -> (bits: Vec<bool>)
    ensures
        bits@.len() == 256,
        forall|i: int| 0 <= i < 256 ==> bits@[i] == nat_bit(array_value(limbs), i as nat),
{
    BigInt::<4>::new(limbs).to_bits_le()
}

/// `BigInteger::from_bits_le` for four limbs: the limbs of the integer that
/// the first 256 of `bits` spell, least significant bit first. Bits past
/// the 256th are not read.
#[verifier::external_body]
fn limbs_of_le_bits(bits: &[bool]) -> (limbs: [u64; 4])
    ensures
        array_value(limbs) == le_bits_value(packed_bits(bits@)),
{
    BigInt::<4>::from_bits_le(bits).0
}

/// A number below 2^64 plus a multiple of 2^64 splits in one way only.
proof fn lemma_split_low_limb(lo1: int, hi1: int, lo2: int, hi2: int)
    requires
        0 <= lo1 < 0x1_0000_0000_0000_0000,
        0 <= lo2 < 0x1_0000_0000_0000_0000,
        lo1 + 0x1_0000_0000_0000_0000 * hi1 == lo2 + 0x1_0000_0000_0000_0000 * hi2,
    ensures
        lo1 == lo2,
        hi1 == hi2,
{
}

/// Limbs that spell the same integer are the same limbs.
pub proof fn lemma_limbs_value_injective(
    a0: u64, a1: u64, a2: u64, a3: u64,
    b0: u64, b1: u64, b2: u64, b3: u64,
)
    requires
        limbs_value(a0, a1, a2, a3) == limbs_value(b0, b1, b2, b3),
    ensures
        a0 == b0,
        a1 == b1,
        a2 == b2,
        a3 == b3,
{
    let base: int = 0x1_0000_0000_0000_0000;
    let a_mid: int = a2 + base * a3;
    let b_mid: int = b2 + base * b3;
    let a_high: int = a1 + base * a_mid;
    let b_high: int = b1 + base * b_mid;
    assert(limbs_value(a0, a1, a2, a3) == a0 + base * a_high);
    assert(limbs_value(b0, b1, b2, b3) == b0 + base * b_high);
    lemma_split_low_limb(a0 as int, a_high, b0 as int, b_high);
    lemma_split_low_limb(a1 as int, a_mid, b1 as int, b_mid);
    lemma_split_low_limb(a2 as int, a3 as int, b2 as int, b3 as int);
}

const MODULUS_LIMB0: u64 = 0x43e1f593f0000001;
const MODULUS_LIMB1: u64 = 0x2833e84879b97091;
const MODULUS_LIMB2: u64 = 0xb85045b68181585d;
const MODULUS_LIMB3: u64 = 0x30644e72e131a029;

/// An element of the BN254 scalar field. Its view is the canonical
/// representative, a natural number below [`modulus`].
#[derive(Clone, Copy, Debug)]
pub struct FieldElement {
    limb0: u64,
    limb1: u64,
    limb2: u64,
    limb3: u64,
}

impl View for FieldElement {
    type V = nat;

    closed spec fn view(&self) -> nat {
        limbs_value(self.limb0, self.limb1, self.limb2, self.limb3)
    }
}

impl FieldElement {
    #[verifier::type_invariant]
    spec fn canonical(self) -> bool {
        limbs_value(self.limb0, self.limb1, self.limb2, self.limb3) < modulus()
    }

    /// The limbs of the element, least significant first.
    pub closed spec fn spec_limbs(self) -> Seq<u64> {
        seq![self.limb0, self.limb1, self.limb2, self.limb3]
    }

    /// Two elements with the same value are the same element.
    pub proof fn lemma_view_injective(a: FieldElement, b: FieldElement)
        ensures
            (a@ == b@) <==> (a == b),
    {
        if a@ == b@ {
            lemma_limbs_value_injective(
                a.limb0, a.limb1, a.limb2, a.limb3,
                b.limb0, b.limb1, b.limb2, b.limb3,
            );
        }
    }

    /// The additive identity.
    pub fn zero() -> (r: FieldElement)
        ensures
            r@ == 0,
    {
        FieldElement { limb0: 0, limb1: 0, limb2: 0, limb3: 0 }
    }

    /// The element with value `v`.
    pub fn from_u64(v: u64) -> (r: FieldElement)
        ensures
            r@ == v,
    {
        FieldElement { limb0: v, limb1: 0, limb2: 0, limb3: 0 }
    }

    /// The element whose canonical representative has the given limbs, least
    /// significant first; `None` when they spell a number that is not below
    /// the modulus.
    pub fn from_limbs(limbs: [u64; 4]) -> (r: Option<FieldElement>)
        ensures
            r is Some <==> array_value(limbs) < modulus(),
            r is Some ==> r.unwrap()@ == array_value(limbs) && r.unwrap().spec_limbs() == limbs@,
    {
        let l0: u64 = limbs[0];
        let l1: u64 = limbs[1];
        let l2: u64 = limbs[2];
        let l3: u64 = limbs[3];
        let below: bool = if l3 != MODULUS_LIMB3 {
            l3 < MODULUS_LIMB3
        } else if l2 != MODULUS_LIMB2 {
            l2 < MODULUS_LIMB2
        } else if l1 != MODULUS_LIMB1 {
            l1 < MODULUS_LIMB1
        } else {
            l0 < MODULUS_LIMB0
        };
        if below {
            let x = FieldElement { limb0: l0, limb1: l1, limb2: l2, limb3: l3 };
            assert(x.spec_limbs() =~= limbs@);
            Some(x)
        } else {
            None
        }
    }

    /// The 256 bits of the canonical representative, least significant first.
    pub fn to_bits_le(&self) -> (bits: Vec<bool>)
        ensures
            bits@.len() == 256,
            forall|i: int| 0 <= i < 256 ==> bits@[i] == nat_bit(self@, i as nat),
    {
        le_bits_of_limbs([self.limb0, self.limb1, self.limb2, self.limb3])
    }

    /// Bit `position` of the canonical representative, counting from the
    /// least significant bit. Positions past the 256th hold no bit of a field
    /// element and read as `false`.
    pub fn bit(&self, position: usize) -> (r: bool)
        ensures
            r == nat_bit(self@, position as nat),
    {
        let bits = self.to_bits_le();
        if position < bits.len() {
            bits[position]
        } else {
            proof {
                use_type_invariant(self);
                lemma_pow2_256();
                if position > 256 {
                    lemma_pow2_strictly_increases(256, position as nat);
                }
                if nat_bit(self@, position as nat) {
                    lemma_nat_bit_lower_bound(self@, position as nat);
                }
            }
            false
        }
    }

    /// The element whose canonical representative `bits` spell, least
    /// significant bit first; `None` when they spell a number that is not
    /// below the modulus.
    pub fn from_bits_le(bits: &[bool]) -> (r: Option<FieldElement>)
        ensures
            r is Some <==> le_bits_value(bits@) < modulus(),
            r is Some ==> r.unwrap()@ == le_bits_value(bits@),
    {
        let mut i: usize = 256;
        while i < bits.len()
            invariant
                256 <= i,
                forall|j: int| 256 <= j < i && j < bits@.len() ==> !bits@[j],
            decreases bits.len() - i,
        {
            if bits[i] {
                proof {
                    lemma_le_bits_value_lower_bound(bits@, i as int);
                    lemma_pow2_256();
                    if i > 256 {
                        lemma_pow2_strictly_increases(256, i as nat);
                    }
                }
                return None;
            }
            i = i + 1;
        }
        proof {
            if bits@.len() > 256 {
                lemma_le_bits_value_split(bits@, 256);
                lemma_le_bits_value_zeros(bits@.skip(256));
                assert(pow2(256) * 0 == 0);
            }
        }
        let limbs = limbs_of_le_bits(bits);
        FieldElement::from_limbs(limbs)
    }

    /// The limbs of the canonical representative, least significant first.
    pub fn to_limbs(&self) -> (limbs: [u64; 4])
        ensures
            limbs@ == self.spec_limbs(),
            array_value(limbs) == self@,
            array_value(limbs) < modulus(),
    {
        proof {
            use_type_invariant(self);
        }
        [self.limb0, self.limb1, self.limb2, self.limb3]
    }
}

impl PartialEq for FieldElement {
    fn eq(&self, other: &FieldElement) -> (r: bool) {
        proof {
            FieldElement::lemma_view_injective(*self, *other);
        }
        self.limb0 == other.limb0 && self.limb1 == other.limb1 && self.limb2 == other.limb2
            && self.limb3 == other.limb3
    }
}

impl Eq for FieldElement {

}

impl PartialEqSpecImpl for FieldElement {
    open spec fn obeys_eq_spec() -> bool {
        true
    }

    open spec fn eq_spec(&self, other: &FieldElement) -> bool {
        self@ == other@
    }
}

} // verus!
