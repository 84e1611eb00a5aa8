//! The errors that stop configuration or synthesis at once.

use vstd::prelude::*;
use crate::cell::Cell;

verus! {

/// What is wrong with a circuit's description. All but `AssignmentConflict`
/// are configuration errors: the description names what was never declared,
/// or asks for what its declarations rule out or for what has no layout.
#[derive(Clone, Copy, Debug, PartialEq, Eq, Structural)]
pub enum Error {
    /// A column is named that the registry does not hold under that kind.
    UndeclaredColumn,
    /// A selector is named that the registry does not hold.
    UndeclaredSelector,
    /// Equality was enabled twice on one column.
    EqualityAlreadyEnabled,
    /// Equality was asked for on a column of constants.
    EqualityOnFixedColumn,
    /// A copy constraint names a cell of a column without equality.
    EqualityNotEnabled,
    /// A public input is bound through a column of another kind.
    NotAnInstanceColumn,
    /// A row is named that the table does not have.
    RowOutOfRange,
    /// The table would have more cells than the machine can address.
    TraceTooLarge,
    /// A circuit was given a parameter for which it has no layout.
    InvalidParameter,
    /// A cell was assigned that already held a value.
    AssignmentConflict { cell: Cell },
}

} // verus!
