//! Addresses in a trace: columns, selectors and cells.

use vstd::prelude::*;

verus! {

/// What a column holds.
#[derive(Clone, Copy, Debug, PartialEq, Eq, Structural)]
pub enum ColumnKind {
    /// Private values, supplied by the witness.
    Witness,
    /// Constants that are part of the circuit, one per row.
    FixedConstant,
    /// The column through which public inputs are named.
    PublicInstance,
}

/// A declared column: its place among the columns, and its kind.
#[derive(Clone, Copy, Debug, PartialEq, Eq, Structural)]
pub struct Column {
    pub index: usize,
    pub kind: ColumnKind,
}

/// A declared selector: a switch per row that turns gates on.
#[derive(Clone, Copy, Debug, PartialEq, Eq, Structural)]
pub struct Selector {
    pub index: usize,
}

/// One slot of the trace. A cell is an address, not a value.
#[derive(Clone, Copy, Debug, PartialEq, Eq, Structural)]
pub struct Cell {
    pub column: usize,
    pub row: usize,
}

impl Column {
    /// The cell of this column in the given row.
    pub fn at(&self, row: usize) -> (r: Cell)
        ensures
            r == (Cell { column: self.index, row }),
    {
        Cell { column: self.index, row }
    }
}

} // verus!
