//! Values that may not be known yet.

use vstd::prelude::*;
use crate::field::{Field, add_mod, sub_mod, neg_mod, mul_mod};

verus! {

/// An element of the field, or the placeholder that stands for one while
/// the witness is absent. Arithmetic on a placeholder gives a placeholder.
#[derive(Debug, PartialEq, Eq)]
pub enum Value<F> {
    Unknown,
    Known(F),
}

impl<F: Copy> Clone for Value<F> {
    fn clone(&self) -> (r: Self)
        ensures
            r == *self,
    {
        *self
    }
}

impl<F: Copy> Copy for Value<F> {

}

/// The sum of two values, unknown if either is.
pub open spec fn value_add(a: Option<nat>, b: Option<nat>, m: nat) -> Option<nat> {
    match (a, b) {
        (Some(x), Some(y)) => Some(add_mod(x, y, m)),
        _ => None,
    }
}

/// The difference of two values, unknown if either is.
pub open spec fn value_sub(a: Option<nat>, b: Option<nat>, m: nat) -> Option<nat> {
    match (a, b) {
        (Some(x), Some(y)) => Some(sub_mod(x, y, m)),
        _ => None,
    }
}

/// The product of two values, unknown if either is.
pub open spec fn value_mul(a: Option<nat>, b: Option<nat>, m: nat) -> Option<nat> {
    match (a, b) {
        (Some(x), Some(y)) => Some(mul_mod(x, y, m)),
        _ => None,
    }
}

/// The additive inverse of a value, unknown if the value is.
pub open spec fn value_neg(a: Option<nat>, m: nat) -> Option<nat> {
    match a {
        Some(x) => Some(neg_mod(x, m)),
        None => None,
    }
}

impl<F: Field> View for Value<F> {
    type V = Option<nat>;

    /// The residue of a known value.
    open spec fn view(&self) -> Option<nat> {
        match self {
            Value::Unknown => None,
            Value::Known(x) => Some(x.value()),
        }
    }
}

impl<F: Field> Value<F> {
    /// The value that is the given element.
    pub fn known(x: F) -> (r: Self)
        ensures
            r@ == Some(x.value()),
    {
        Value::Known(x)
    }

    /// The placeholder.
    pub fn unknown() -> (r: Self)
        ensures
            r@ is None,
    {
        Value::Unknown
    }

    /// Whether the value is an element.
    pub fn is_known(&self) -> (r: bool)
        ensures
            r == self@.is_some(),
    {
        match self {
            Value::Unknown => false,
            Value::Known(_) => true,
        }
    }

    /// The sum of two values, unknown if either is.
    pub fn add(&self, rhs: &Self) -> (r: Self)
        ensures
            r@ == value_add(self@, rhs@, F::modulus()),
    {
        match (self, rhs) {
            (Value::Known(x), Value::Known(y)) => Value::Known(x.add(y)),
            _ => Value::Unknown,
        }
    }

    /// The difference of two values, unknown if either is.
    pub fn sub(&self, rhs: &Self) -> (r: Self)
        ensures
            r@ == value_sub(self@, rhs@, F::modulus()),
    {
        match (self, rhs) {
            (Value::Known(x), Value::Known(y)) => Value::Known(x.sub(y)),
            _ => Value::Unknown,
        }
    }

    /// The product of two values, unknown if either is.
    pub fn mul(&self, rhs: &Self) -> (r: Self)
        ensures
            r@ == value_mul(self@, rhs@, F::modulus()),
    {
        match (self, rhs) {
            (Value::Known(x), Value::Known(y)) => Value::Known(x.mul(y)),
            _ => Value::Unknown,
        }
    }

    /// The additive inverse of a value, unknown if the value is.
    pub fn neg(&self) -> (r: Self)
        ensures
            r@ == value_neg(self@, F::modulus()),
    {
        match self {
            Value::Known(x) => Value::Known(x.neg()),
            Value::Unknown => Value::Unknown,
        }
    }
}

} // verus!
