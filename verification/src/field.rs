//! The scalar type of a trace: elements of a prime field, seen as the
//! natural numbers below the field's modulus.

use vstd::prelude::*;

verus! {

/// Two to the power 64, the weight of one limb.
pub open spec fn limb_base() -> nat {
    0x1_0000_0000_0000_0000
}

/// The natural number that four 64-bit limbs stand for, least significant
/// limb first.
pub open spec fn limbs_value(l: [u64; 4]) -> nat {
    (l[0] + limb_base() * (l[1] + limb_base() * (l[2] + limb_base() * l[3]))) as nat
}

/// The sum of two residues modulo `m`.
pub open spec fn add_mod(a: nat, b: nat, m: nat) -> nat {
    (a + b) % m
}

/// The difference `a - b` modulo `m`, as a residue in `0..m`.
pub open spec fn sub_mod(a: nat, b: nat, m: nat) -> nat {
    ((a + m - b % m) % (m as int)) as nat
}

/// The additive inverse of `a` modulo `m`, as a residue in `0..m`.
pub open spec fn neg_mod(a: nat, m: nat) -> nat {
    ((m - a % m) % (m as int)) as nat
}

/// The product of two residues modulo `m`.
pub open spec fn mul_mod(a: nat, b: nat, m: nat) -> nat {
    (a * b) % m
}

/// An element of a prime field. Its value is a natural number below the
/// modulus, and the operations are the arithmetic of residues.
pub trait Field: Sized + Copy {
    /// The number of elements of the field.
    spec fn modulus() -> nat;

    /// The residue that the element stands for.
    spec fn value(&self) -> nat;

    /// The field has at least two elements.
    proof fn lemma_modulus_above_one()
        ensures
            Self::modulus() > 1,
    ;

    /// Every value is a residue of the modulus.
    proof fn lemma_value_below_modulus(&self)
        ensures
            self.value() < Self::modulus(),
    ;

    /// The additive identity.
    fn zero() -> (r: Self)
        ensures
            r.value() == 0,
    ;

    /// The multiplicative identity.
    fn one() -> (r: Self)
        ensures
            r.value() == 1,
    ;

    /// The element that a machine integer stands for.
    fn from_u64(v: u64) -> (r: Self)
        ensures
            r.value() == v as nat % Self::modulus(),
    ;

    /// The sum of two elements.
    fn add(&self, rhs: &Self) -> (r: Self)
        ensures
            r.value() == add_mod(self.value(), rhs.value(), Self::modulus()),
    ;

    /// The difference of two elements.
    fn sub(&self, rhs: &Self) -> (r: Self)
        ensures
            r.value() == sub_mod(self.value(), rhs.value(), Self::modulus()),
    ;

    /// The additive inverse.
    fn neg(&self) -> (r: Self)
        ensures
            r.value() == neg_mod(self.value(), Self::modulus()),
    ;

    /// The product of two elements.
    fn mul(&self, rhs: &Self) -> (r: Self)
        ensures
            r.value() == mul_mod(self.value(), rhs.value(), Self::modulus()),
    ;

    /// The multiplicative inverse, which every element but zero has.
    fn invert(&self) -> (r: Option<Self>)
        ensures
            r is None <==> self.value() == 0,
            r matches Some(inv) ==> mul_mod(inv.value(), self.value(), Self::modulus()) == 1,
    ;

    /// Whether the element is the additive identity.
    fn is_zero(&self) -> (r: bool)
        ensures
            r == (self.value() == 0),
    ;

    /// Whether two elements are the same residue.
    fn same(&self, other: &Self) -> (r: bool)
        ensures
            r == (self.value() == other.value()),
    ;
}

/// Limbs that stand for the same number are the same limbs.
pub proof fn lemma_limbs_value_injective(a: [u64; 4], b: [u64; 4])
    requires
        limbs_value(a) == limbs_value(b),
    ensures
        a[0] == b[0],
        a[1] == b[1],
        a[2] == b[2],
        a[3] == b[3],
{
    let base = limb_base() as int;
    let a1 = a[1] + base * (a[2] + base * a[3]);
    let b1 = b[1] + base * (b[2] + base * b[3]);
    assert(a[0] + base * a1 == b[0] + base * b1);
    lemma_digit_split(a[0] as int, a1, b[0] as int, b1);
    let a2 = a[2] + base * a[3];
    let b2 = b[2] + base * b[3];
    lemma_digit_split(a[1] as int, a2, b[1] as int, b2);
    lemma_digit_split(a[2] as int, a[3] as int, b[2] as int, b[3] as int);
}

/// Whether the number that `a` stands for is below the one that `b` stands
/// for.
pub fn limbs_below(a: &[u64; 4], b: &[u64; 4]) -> (r: bool)
    ensures
        r == (limbs_value(*a) < limbs_value(*b)),
{
    proof {
        lemma_limbs_order(*a, *b);
        lemma_limbs_order(*b, *a);
        if limbs_value(*a) == limbs_value(*b) {
            lemma_limbs_value_injective(*a, *b);
        }
    }
    if a[3] != b[3] {
        a[3] < b[3]
    } else if a[2] != b[2] {
        a[2] < b[2]
    } else if a[1] != b[1] {
        a[1] < b[1]
    } else {
        a[0] < b[0]
    }
}

/// The most significant limb in which two numbers differ orders them.
proof fn lemma_limbs_order(a: [u64; 4], b: [u64; 4])
    ensures
        a[3] < b[3] ==> limbs_value(a) < limbs_value(b),
        a[3] == b[3] && a[2] < b[2] ==> limbs_value(a) < limbs_value(b),
        a[3] == b[3] && a[2] == b[2] && a[1] < b[1] ==> limbs_value(a) < limbs_value(b),
        a[3] == b[3] && a[2] == b[2] && a[1] == b[1] && a[0] < b[0] ==> limbs_value(a)
            < limbs_value(b),
{
    let base = limb_base() as int;
    let a2 = a[2] + base * a[3];
    let b2 = b[2] + base * b[3];
    let a1 = a[1] + base * a2;
    let b1 = b[1] + base * b2;
    lemma_digit_order(a[2] as int, a[3] as int, b[2] as int, b[3] as int);
    lemma_digit_order(a[1] as int, a2, b[1] as int, b2);
    lemma_digit_order(a[0] as int, a1, b[0] as int, b1);
}

/// A number with the smaller remainder above its lowest digit is smaller.
proof fn lemma_digit_order(x: int, hx: int, y: int, hy: int)
    requires
        0 <= x < limb_base(),
        0 <= y < limb_base(),
    ensures
        hx < hy ==> x + limb_base() * hx < y + limb_base() * hy,
        hx == hy && x < y ==> x + limb_base() * hx < y + limb_base() * hy,
{
    let base = limb_base() as int;
    if hx < hy {
        assert(base * hy - base * hx >= base) by (nonlinear_arith)
            requires
                hy - hx >= 1,
                base > 0,
        ;
    }
}

/// A number has one lowest digit and one remainder above it.
proof fn lemma_digit_split(x: int, hx: int, y: int, hy: int)
    requires
        0 <= x < limb_base(),
        0 <= y < limb_base(),
        x + limb_base() * hx == y + limb_base() * hy,
    ensures
        x == y,
        hx == hy,
{
    let base = limb_base() as int;
    assert(base * (hx - hy) == y - x) by (nonlinear_arith)
        requires
            x + base * hx == y + base * hy,
    ;
    if hx != hy {
        if hx > hy {
            assert(base * (hx - hy) >= base) by (nonlinear_arith)
                requires
                    hx - hy >= 1,
                    base > 0,
            ;
        } else {
            assert(base * (hx - hy) <= -base) by (nonlinear_arith)
                requires
                    hx - hy <= -1,
                    base > 0,
            ;
        }
    }
}

} // verus!
