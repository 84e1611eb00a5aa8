//! Regions: batches of assignments, selector switches and copy constraints
//! that a trace takes whole or not at all.

use vstd::prelude::*;
use crate::cell::{Cell, Column, Selector};
use crate::field::Field;
use crate::value::Value;

verus! {

/// One step of filling a trace.
#[derive(Debug, PartialEq, Eq)]
pub enum Op<F> {
    /// Write a value into an empty cell.
    Assign { column: Column, row: usize, value: Value<F> },
    /// Enable a selector on a row.
    Enable { selector: Selector, row: usize },
    /// Demand that two cells hold equal values.
    Equal { left: Cell, right: Cell },
}

/// A step as a mathematical value.
pub enum OpView {
    Assign { column: Column, row: usize, value: Option<nat> },
    Enable { selector: Selector, row: usize },
    Equal { left: Cell, right: Cell },
}

impl<F: Field> View for Op<F> {
    type V = OpView;

    open spec fn view(&self) -> OpView {
        match self {
            Op::Assign { column, row, value } => OpView::Assign {
                column: *column,
                row: *row,
                value: value@,
            },
            Op::Enable { selector, row } => OpView::Enable { selector: *selector, row: *row },
            Op::Equal { left, right } => OpView::Equal { left: *left, right: *right },
        }
    }
}

/// The steps of a batch as mathematical values.
pub open spec fn ops_view<F: Field>(ops: Seq<Op<F>>) -> Seq<OpView> {
    Seq::new(ops.len(), |i: int| ops[i]@)
}

/// A cell together with the value that a region writes into it.
#[derive(Debug, PartialEq, Eq)]
pub struct AssignedCell<F> {
    pub cell: Cell,
    pub value: Value<F>,
}

/// An assigned cell as a mathematical value.
pub struct AssignedView {
    pub cell: Cell,
    pub value: Option<nat>,
}

impl<F: Field> View for AssignedCell<F> {
    type V = AssignedView;

    open spec fn view(&self) -> AssignedView {
        AssignedView { cell: self.cell, value: self.value@ }
    }
}

/// A named batch of steps. The name serves diagnostics alone.
#[derive(Debug, PartialEq, Eq)]
pub struct Region<F> {
    name: String,
    ops: Vec<Op<F>>,
}

impl<F: Field> View for Region<F> {
    type V = Seq<OpView>;

    /// The steps of the region, in the order in which they were added.
    closed spec fn view(&self) -> Seq<OpView> {
        ops_view(self.ops@)
    }
}

impl<F: Field> Region<F> {
    /// The name that the region was given.
    pub closed spec fn label(&self) -> Seq<char> {
        self.name@
    }

    /// A region without steps.
    pub fn new(name: &str) -> (r: Self)
        ensures
            r@ == Seq::<OpView>::empty(),
            r.label() == name@,
    {
        let r = Region { name: name.to_owned(), ops: Vec::new() };
        assert(r@ =~= Seq::<OpView>::empty());
        r
    }

    /// The name that the region was given.
    pub fn name(&self) -> (r: &str)
        ensures
            r@ == self.label(),
    {
        self.name.as_str()
    }

    /// The steps of the region, in the order in which they were added.
    pub fn ops(&self) -> (r: &Vec<Op<F>>)
        ensures
            ops_view(r@) == self@,
    {
        &self.ops
    }

    /// Adds the assignment of `value` to the cell of `column` in `row`.
    pub fn assign(&mut self, column: Column, row: usize, value: Value<F>) -> (r: AssignedCell<F>)
        ensures
            final(self)@ == old(self)@.push(OpView::Assign { column, row, value: value@ }),
            final(self).label() == old(self).label(),
            r.cell == (Cell { column: column.index, row }),
            r.value == value,
    {
        self.ops.push(Op::Assign { column, row, value });
        assert(self@ =~= old(self)@.push(OpView::Assign { column, row, value: value@ }));
        AssignedCell { cell: Cell { column: column.index, row }, value }
    }

    /// Adds the enabling of `selector` on `row`.
    pub fn enable_selector(&mut self, selector: Selector, row: usize)
        ensures
            final(self)@ == old(self)@.push(OpView::Enable { selector, row }),
            final(self).label() == old(self).label(),
    {
        self.ops.push(Op::Enable { selector, row });
        assert(self@ =~= old(self)@.push(OpView::Enable { selector, row }));
    }

    /// Adds the demand that `left` and `right` hold equal values.
    pub fn constrain_equal(&mut self, left: Cell, right: Cell)
        ensures
            final(self)@ == old(self)@.push(OpView::Equal { left, right }),
            final(self).label() == old(self).label(),
    {
        self.ops.push(Op::Equal { left, right });
        assert(self@ =~= old(self)@.push(OpView::Equal { left, right }));
    }

    /// Carries an assigned value over to another cell: adds the assignment
    /// of the same value to the cell of `column` in `row`, and the demand
    /// that the two cells hold equal values.
    pub fn copy(&mut self, from: &AssignedCell<F>, column: Column, row: usize) -> (r: AssignedCell<
        F,
    >)
        ensures
            final(self)@ == old(self)@.push(
                OpView::Assign { column, row, value: from.value@ },
            ).push(OpView::Equal { left: from.cell, right: Cell { column: column.index, row } }),
            final(self).label() == old(self).label(),
            r.cell == (Cell { column: column.index, row }),
            r.value == from.value,
    {
        let r = self.assign(column, row, from.value);
        self.constrain_equal(from.cell, r.cell);
        r
    }
}

} // verus!
