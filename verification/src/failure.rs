//! What validation reports: the constraints that a trace violates.

use vstd::prelude::*;
use crate::cell::Cell;

verus! {

/// One violated constraint.
#[derive(Debug, PartialEq, Eq)]
pub enum Failure {
    /// A gate or a copy constraint needs the cell, and no element was
    /// assigned to it.
    UnassignedCell { cell: Cell },
    /// The polynomial of a gate does not vanish on the row.
    GateNotSatisfied { gate: String, row: usize },
    /// The cells are one class of the copy constraints, and two of them
    /// hold different elements.
    CopyMismatch { cells: Vec<Cell> },
    /// The cell does not hold the public input at the index.
    InstanceMismatch { cell: Cell, index: usize },
    /// The cell is bound to a public input that was not supplied.
    InstanceIndexOutOfRange { cell: Cell, index: usize },
}

/// A violated constraint as a mathematical value.
pub enum FailureView {
    UnassignedCell { cell: Cell },
    GateNotSatisfied { gate: Seq<char>, row: usize },
    CopyMismatch { cells: Seq<Cell> },
    InstanceMismatch { cell: Cell, index: usize },
    InstanceIndexOutOfRange { cell: Cell, index: usize },
}

impl View for Failure {
    type V = FailureView;

    open spec fn view(&self) -> FailureView {
        match self {
            Failure::UnassignedCell { cell } => FailureView::UnassignedCell { cell: *cell },
            Failure::GateNotSatisfied { gate, row } => FailureView::GateNotSatisfied {
                gate: gate@,
                row: *row,
            },
            Failure::CopyMismatch { cells } => FailureView::CopyMismatch { cells: cells@ },
            Failure::InstanceMismatch { cell, index } => FailureView::InstanceMismatch {
                cell: *cell,
                index: *index,
            },
            Failure::InstanceIndexOutOfRange { cell, index } => FailureView::InstanceIndexOutOfRange {
                cell: *cell,
                index: *index,
            },
        }
    }
}

/// A list of violated constraints as mathematical values.
pub open spec fn failures_view(list: Seq<Failure>) -> Seq<FailureView> {
    Seq::new(list.len(), |i: int| list[i]@)
}

/// Adds a failure to a list.
pub fn report(list: &mut Vec<Failure>, failure: Failure)
    ensures
        failures_view(final(list)@) == failures_view(old(list)@).push(failure@),
{
    list.push(failure);
    assert(failures_view(list@) =~= failures_view(old(list)@).push(failure@));
}

} // verus!
