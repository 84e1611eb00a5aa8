//! The scalar field of the BN254 curve, computed by `halo2curves`.

use vstd::prelude::*;
use vstd::arithmetic::div_mod::{lemma_small_mod, lemma_mod_bound};
use crate::field::{
    Field, limb_base, limbs_value, add_mod, sub_mod, neg_mod, mul_mod, limbs_below,
    lemma_limbs_value_injective,
};

verus! {

/// The limbs of the modulus, least significant first.
pub const MODULUS_LIMBS: [u64; 4] = [
    0x43e1f593f0000001u64,
    0x2833e84879b97091u64,
    0xb85045b68181585du64,
    0x30644e72e131a029u64,
];

/// The order of the field,
/// `0x30644e72e131a029b85045b68181585d2833e84879b9709143e1f593f0000001`.
pub open spec fn modulus() -> nat {
    0x43e1f593f0000001 + limb_base() * (0x2833e84879b97091 + limb_base() * (0xb85045b68181585d
        + limb_base() * 0x30644e72e131a029))
}

/// `+` of `halo2curves::bn256::Fr`. The operands are made from their limbs by
/// `Fr::from_raw`, and the limbs of the result are read by
/// `PrimeFieldBits::to_le_bits`. Trusted: the result is the sum of the two
/// residues, reduced modulo the order of the field.
#[verifier::external_body]
fn fr_add(a: &[u64; 4], b: &[u64; 4]) -> (r: [u64; 4])
    requires
        limbs_value(*a) < modulus(),
        limbs_value(*b) < modulus(),
    ensures
        limbs_value(r) == add_mod(limbs_value(*a), limbs_value(*b), modulus()),
{
    let x = halo2curves::bn256::Fr::from_raw(*a) + halo2curves::bn256::Fr::from_raw(*b);
    halo2curves::ff::PrimeFieldBits::to_le_bits(&x).into_inner()
}

/// `-` of `halo2curves::bn256::Fr` with two operands, between the same
/// conversions as in `fr_add`. Trusted: the result is the difference of the
/// two residues, reduced modulo the order of the field.
#[verifier::external_body]
fn fr_sub(a: &[u64; 4], b: &[u64; 4]) -> (r: [u64; 4])
    requires
        limbs_value(*a) < modulus(),
        limbs_value(*b) < modulus(),
    ensures
        limbs_value(r) == sub_mod(limbs_value(*a), limbs_value(*b), modulus()),
{
    let x = halo2curves::bn256::Fr::from_raw(*a) - halo2curves::bn256::Fr::from_raw(*b);
    halo2curves::ff::PrimeFieldBits::to_le_bits(&x).into_inner()
}

/// `-` of `halo2curves::bn256::Fr` with one operand, between the same
/// conversions as in `fr_add`. Trusted: the result is the residue that adds
/// up to zero with the operand.
#[verifier::external_body]
fn fr_neg(a: &[u64; 4]) -> (r: [u64; 4])
    requires
        limbs_value(*a) < modulus(),
    ensures
        limbs_value(r) == neg_mod(limbs_value(*a), modulus()),
{
    let x = -halo2curves::bn256::Fr::from_raw(*a);
    halo2curves::ff::PrimeFieldBits::to_le_bits(&x).into_inner()
}

/// `*` of `halo2curves::bn256::Fr`, between the same conversions as in
/// `fr_add`. Trusted: the result is the product of the two residues, reduced
/// modulo the order of the field.
#[verifier::external_body]
fn fr_mul(a: &[u64; 4], b: &[u64; 4]) -> (r: [u64; 4])
    requires
        limbs_value(*a) < modulus(),
        limbs_value(*b) < modulus(),
    ensures
        limbs_value(r) == mul_mod(limbs_value(*a), limbs_value(*b), modulus()),
{
    let x = halo2curves::bn256::Fr::from_raw(*a) * halo2curves::bn256::Fr::from_raw(*b);
    halo2curves::ff::PrimeFieldBits::to_le_bits(&x).into_inner()
}

/// `ff::Field::invert` of `halo2curves::bn256::Fr`, between the same
/// conversions as in `fr_add`. Trusted: there is no result for zero and for
/// zero alone, and a result is a residue whose product with the operand is
/// one modulo the order of the field.
#[verifier::external_body]
fn fr_invert(a: &[u64; 4]) -> (r: Option<[u64; 4]>)
    requires
        limbs_value(*a) < modulus(),
    ensures
        r is None <==> limbs_value(*a) == 0,
        r matches Some(inv) ==> limbs_value(inv) < modulus() && mul_mod(
            limbs_value(inv),
            limbs_value(*a),
            modulus(),
        ) == 1,
{
    let x = halo2curves::bn256::Fr::from_raw(*a);
    let inverse: Option<halo2curves::bn256::Fr> = halo2curves::ff::Field::invert(&x).into();
    match inverse {
        Some(inv) => Some(halo2curves::ff::PrimeFieldBits::to_le_bits(&inv).into_inner()),
        None => None,
    }
}

/// An element of the field, held as the limbs of its residue.
#[derive(Clone, Copy, Debug, PartialEq, Eq)]
pub struct Fr {
    limbs: [u64; 4],
}

impl Fr {
    #[verifier::type_invariant]
    spec fn reduced(self) -> bool {
        limbs_value(self.limbs) < modulus()
    }

    /// The element whose residue the limbs stand for, if they stand for one.
    pub fn from_limbs(limbs: [u64; 4]) -> (r: Option<Self>)
        ensures
            r is Some <==> limbs_value(limbs) < modulus(),
            r matches Some(x) ==> x.value() == limbs_value(limbs),
    {
        if limbs_below(&limbs, &MODULUS_LIMBS) {
            proof {
                lemma_small_mod(limbs_value(limbs), modulus());
            }
            Some(Fr { limbs })
        } else {
            None
        }
    }

    /// The limbs of the residue, least significant first.
    pub fn to_limbs(&self) -> (r: [u64; 4])
        ensures
            limbs_value(r) == self.value(),
    {
        proof {
            use_type_invariant(self);
            lemma_small_mod(limbs_value(self.limbs), modulus());
        }
        self.limbs
    }
}

impl Field for Fr {
    open spec fn modulus() -> nat {
        modulus()
    }

    closed spec fn value(&self) -> nat {
        limbs_value(self.limbs) % modulus()
    }

    proof fn lemma_modulus_above_one() {
    }

    proof fn lemma_value_below_modulus(&self) {
        lemma_mod_bound(limbs_value(self.limbs) as int, modulus() as int);
    }

    fn zero() -> (r: Self) {
        proof {
            lemma_small_mod(0, modulus());
        }
        Fr { limbs: [0u64, 0u64, 0u64, 0u64] }
    }

    fn one() -> (r: Self) {
        proof {
            lemma_small_mod(1, modulus());
        }
        Fr { limbs: [1u64, 0u64, 0u64, 0u64] }
    }

    fn from_u64(v: u64) -> (r: Self) {
        proof {
            lemma_small_mod(v as nat, modulus());
        }
        Fr { limbs: [v, 0u64, 0u64, 0u64] }
    }

    fn add(&self, rhs: &Self) -> (r: Self) {
        proof {
            use_type_invariant(self);
            use_type_invariant(rhs);
            lemma_small_mod(limbs_value(self.limbs), modulus());
            lemma_small_mod(limbs_value(rhs.limbs), modulus());
        }
        let limbs = fr_add(&self.limbs, &rhs.limbs);
        proof {
            lemma_mod_bound((limbs_value(self.limbs) + limbs_value(rhs.limbs)) as int, modulus() as int);
            lemma_small_mod(limbs_value(limbs), modulus());
        }
        Fr { limbs }
    }

    fn sub(&self, rhs: &Self) -> (r: Self) {
        proof {
            use_type_invariant(self);
            use_type_invariant(rhs);
            lemma_small_mod(limbs_value(self.limbs), modulus());
            lemma_small_mod(limbs_value(rhs.limbs), modulus());
        }
        let limbs = fr_sub(&self.limbs, &rhs.limbs);
        proof {
            lemma_mod_bound(
                limbs_value(self.limbs) + modulus() - limbs_value(rhs.limbs) % modulus(),
                modulus() as int,
            );
            lemma_small_mod(limbs_value(limbs), modulus());
        }
        Fr { limbs }
    }

    fn neg(&self) -> (r: Self) {
        proof {
            use_type_invariant(self);
            lemma_small_mod(limbs_value(self.limbs), modulus());
        }
        let limbs = fr_neg(&self.limbs);
        proof {
            lemma_mod_bound(modulus() - limbs_value(self.limbs) % modulus(), modulus() as int);
            lemma_small_mod(limbs_value(limbs), modulus());
        }
        Fr { limbs }
    }

    fn mul(&self, rhs: &Self) -> (r: Self) {
        proof {
            use_type_invariant(self);
            use_type_invariant(rhs);
            lemma_small_mod(limbs_value(self.limbs), modulus());
            lemma_small_mod(limbs_value(rhs.limbs), modulus());
        }
        let limbs = fr_mul(&self.limbs, &rhs.limbs);
        proof {
            lemma_mod_bound((limbs_value(self.limbs) * limbs_value(rhs.limbs)) as int, modulus() as int);
            lemma_small_mod(limbs_value(limbs), modulus());
        }
        Fr { limbs }
    }

    fn invert(&self) -> (r: Option<Self>) {
        proof {
            use_type_invariant(self);
            lemma_small_mod(limbs_value(self.limbs), modulus());
        }
        match fr_invert(&self.limbs) {
            Some(limbs) => {
                proof {
                    lemma_small_mod(limbs_value(limbs), modulus());
                }
                Some(Fr { limbs })
            },
            None => None,
        }
    }

    fn is_zero(&self) -> (r: bool) {
        proof {
            use_type_invariant(self);
            lemma_small_mod(limbs_value(self.limbs), modulus());
        }
        self.limbs[0] == 0 && self.limbs[1] == 0 && self.limbs[2] == 0 && self.limbs[3] == 0
    }

    fn same(&self, other: &Self) -> (r: bool) {
        proof {
            use_type_invariant(self);
            use_type_invariant(other);
            lemma_small_mod(limbs_value(self.limbs), modulus());
            lemma_small_mod(limbs_value(other.limbs), modulus());
            if self.value() == other.value() {
                lemma_limbs_value_injective(self.limbs, other.limbs);
            }
        }
        self.limbs[0] == other.limbs[0] && self.limbs[1] == other.limbs[1] && self.limbs[2]
            == other.limbs[2] && self.limbs[3] == other.limbs[3]
    }
}

} // verus!
