//! Chips: the parts of a circuit that own a set of columns and selectors
//! and write rows on them.

use vstd::prelude::*;
use crate::field::Field;

verus! {

/// A chip over the field `F`.
pub trait Chip<F: Field>: Sized {
    /// The columns and selectors that the chip works on.
    type Config;

    /// What the chip must have at hand before its instructions are used.
    type Loaded;

    /// The handles of the chip.
    spec fn handles(&self) -> Self::Config;

    /// The handles of the chip.
    fn config(&self) -> (r: &Self::Config)
        ensures
            *r == self.handles(),
    ;

    /// What the chip has at hand.
    fn loaded(&self) -> (r: &Self::Loaded);
}

} // verus!
