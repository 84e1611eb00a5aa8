//! The columns and the selector of the Fibonacci circuit.

use vstd::prelude::*;
use crate::cell::{Column, Selector};

verus! {

/// The handles of the Fibonacci circuit: the columns of the two summands
/// and of the sum, the column of the public input, and the selector of the
/// addition gate.
#[derive(Clone, Copy, Debug, PartialEq, Eq, Structural)]
pub struct FiboConfig {
    pub a: Column,
    pub b: Column,
    pub c: Column,
    pub i: Column,
    pub s: Selector,
}

} // verus!
