use trace_constraints::bn256::Fr;
use trace_constraints::field::Field;
use trace_constraints::pasta::Fp;

const PASTA_MODULUS: [u64; 4] =
    [0x992d30ed00000001, 0x224698fc094cf91b, 0x0000000000000000, 0x4000000000000000];
const PASTA_MODULUS_MINUS_ONE: [u64; 4] =
    [0x992d30ed00000000, 0x224698fc094cf91b, 0x0000000000000000, 0x4000000000000000];
const BN_MODULUS: [u64; 4] =
    [0x43e1f593f0000001, 0x2833e84879b97091, 0xb85045b68181585d, 0x30644e72e131a029];
const BN_MODULUS_MINUS_ONE: [u64; 4] =
    [0x43e1f593f0000000, 0x2833e84879b97091, 0xb85045b68181585d, 0x30644e72e131a029];

#[test]
fn pasta_small_arithmetic_is_exact() {
    let a = Fp::from_u64(11);
    let b = Fp::from_u64(13);
    assert_eq!(a.add(&b), Fp::from_u64(24));
    assert_eq!(a.mul(&b), Fp::from_u64(143));
    assert_eq!(b.sub(&a), Fp::from_u64(2));
    assert_eq!(a.mul(&b).to_limbs(), [143, 0, 0, 0]);
}

#[test]
fn pasta_subtraction_wraps_below_zero() {
    let a = Fp::from_u64(11);
    let b = Fp::from_u64(13);
    let d = a.sub(&b);
    assert_eq!(
        d.to_limbs(),
        [0x992d30ecffffffff, 0x224698fc094cf91b, 0x0000000000000000, 0x4000000000000000]
    );
    assert_eq!(d.add(&b), a);
}

#[test]
fn pasta_modulus_is_the_first_rejected_value() {
    assert!(Fp::from_limbs(PASTA_MODULUS).is_none());
    let top = Fp::from_limbs(PASTA_MODULUS_MINUS_ONE).unwrap();
    assert!(top.add(&Fp::one()).is_zero());
    assert_eq!(Fp::one().neg(), top);
    assert_eq!(top.mul(&top), Fp::one());
}

#[test]
fn pasta_negation_of_zero_is_zero() {
    assert!(Fp::zero().neg().is_zero());
    assert!(Fp::zero().same(&Fp::from_u64(0)));
    assert!(!Fp::zero().same(&Fp::one()));
}

#[test]
fn pasta_inverse_multiplies_to_one() {
    assert!(Fp::zero().invert().is_none());
    let seven = Fp::from_u64(7);
    let inv = seven.invert().unwrap();
    assert!(inv.mul(&seven).same(&Fp::one()));
    assert!(!inv.same(&seven));
}

#[test]
fn pasta_carries_cross_limbs() {
    let big = Fp::from_u64(u64::MAX);
    assert_eq!(big.add(&Fp::one()).to_limbs(), [0, 1, 0, 0]);
    assert_eq!(big.mul(&big).to_limbs(), [1, 0xfffffffffffffffe, 0, 0]);
}

#[test]
fn bn256_small_arithmetic_is_exact() {
    let a = Fr::from_u64(5);
    let b = Fr::from_u64(9);
    assert_eq!(a.mul(&a).mul(&b.mul(&b)).add(&Fr::from_u64(7)), Fr::from_u64(2032));
    assert_eq!(b.sub(&a).to_limbs(), [4, 0, 0, 0]);
}

#[test]
fn bn256_modulus_is_the_first_rejected_value() {
    assert!(Fr::from_limbs(BN_MODULUS).is_none());
    let top = Fr::from_limbs(BN_MODULUS_MINUS_ONE).unwrap();
    assert!(top.add(&Fr::one()).is_zero());
    assert_eq!(Fr::one().neg(), top);
    assert_eq!(Fr::zero().sub(&Fr::one()), top);
}

#[test]
fn bn256_inverse_multiplies_to_one() {
    assert!(Fr::zero().invert().is_none());
    let x = Fr::from_u64(2032);
    let inv = x.invert().unwrap();
    assert_eq!(inv.mul(&x), Fr::one());
}

#[test]
fn the_two_fields_differ() {
    let element = Fp::from_limbs([0, 0, 0, 0x4000000000000000]).unwrap();
    assert!(Fr::from_limbs([0, 0, 0, 0x4000000000000000]).is_none());
    assert_eq!(element.to_limbs(), [0, 0, 0, 0x4000000000000000]);
}
