//! The polynomials of gates: expressions over the cells of a row and of the
//! rows around it.

use vstd::prelude::*;
use vstd::arithmetic::div_mod::{lemma_fundamental_div_mod, lemma_fundamental_div_mod_converse};
use crate::cell::{Cell, Column};
use crate::field::{Field, add_mod, sub_mod, neg_mod, mul_mod};
use crate::trace::{Trace, TraceView};

verus! {

/// A polynomial over the cells near a row.
#[derive(Debug, PartialEq, Eq)]
pub enum Expr<F> {
    /// An element of the field.
    Constant(F),
    /// The cell of `column` that lies `rotation` rows after the row at which
    /// the polynomial is evaluated, counting round the table.
    Query { column: Column, rotation: i32 },
    Negated(Box<Expr<F>>),
    Sum(Box<Expr<F>>, Box<Expr<F>>),
    Difference(Box<Expr<F>>, Box<Expr<F>>),
    Product(Box<Expr<F>>, Box<Expr<F>>),
}

/// A polynomial as a mathematical value: constants are residues.
pub enum ExprView {
    Constant(nat),
    Query { column: Column, rotation: int },
    Negated(Box<ExprView>),
    Sum(Box<ExprView>, Box<ExprView>),
    Difference(Box<ExprView>, Box<ExprView>),
    Product(Box<ExprView>, Box<ExprView>),
}

/// The row that lies `rotation` rows after `row` in a table of `rows` rows,
/// counting round the table.
pub open spec fn rotated(row: int, rotation: int, rows: int) -> int {
    (row + rotation) % rows
}

impl ExprView {
    /// The value of the polynomial at a row of the trace, modulo `m`; or the
    /// first cell, in reading order, that it needs and that holds no residue.
    pub open spec fn eval(self, t: TraceView, row: int, m: nat) -> Result<nat, Cell>
        decreases self,
    {
        match self {
            ExprView::Constant(c) => Ok(c),
            ExprView::Query { column, rotation } => {
                let cell = Cell {
                    column: column.index,
                    row: rotated(row, rotation, t.rows as int) as usize,
                };
                match t.known(cell) {
                    Some(v) => Ok(v),
                    None => Err(cell),
                }
            },
            ExprView::Negated(a) => match a.eval(t, row, m) {
                Ok(x) => Ok(neg_mod(x, m)),
                Err(c) => Err(c),
            },
            ExprView::Sum(a, b) => match a.eval(t, row, m) {
                Ok(x) => match b.eval(t, row, m) {
                    Ok(y) => Ok(add_mod(x, y, m)),
                    Err(c) => Err(c),
                },
                Err(c) => Err(c),
            },
            ExprView::Difference(a, b) => match a.eval(t, row, m) {
                Ok(x) => match b.eval(t, row, m) {
                    Ok(y) => Ok(sub_mod(x, y, m)),
                    Err(c) => Err(c),
                },
                Err(c) => Err(c),
            },
            ExprView::Product(a, b) => match a.eval(t, row, m) {
                Ok(x) => match b.eval(t, row, m) {
                    Ok(y) => Ok(mul_mod(x, y, m)),
                    Err(c) => Err(c),
                },
                Err(c) => Err(c),
            },
        }
    }

    /// Whether every column that the polynomial reads is among `kinds`,
    /// under its own kind.
    pub open spec fn reads_only(self, kinds: Seq<crate::cell::ColumnKind>) -> bool
        decreases self,
    {
        match self {
            ExprView::Constant(_) => true,
            ExprView::Query { column, rotation } => column.index < kinds.len()
                && kinds[column.index as int] == column.kind,
            ExprView::Negated(a) => a.reads_only(kinds),
            ExprView::Sum(a, b) => a.reads_only(kinds) && b.reads_only(kinds),
            ExprView::Difference(a, b) => a.reads_only(kinds) && b.reads_only(kinds),
            ExprView::Product(a, b) => a.reads_only(kinds) && b.reads_only(kinds),
        }
    }
}

impl<F: Field> Expr<F> {
    /// The polynomial with each constant replaced by its residue.
    pub open spec fn model(&self) -> ExprView
        decreases self,
    {
        match self {
            Expr::Constant(c) => ExprView::Constant(c.value()),
            Expr::Query { column, rotation } => ExprView::Query {
                column: *column,
                rotation: *rotation as int,
            },
            Expr::Negated(a) => ExprView::Negated(Box::new(a.model())),
            Expr::Sum(a, b) => ExprView::Sum(Box::new(a.model()), Box::new(b.model())),
            Expr::Difference(a, b) => ExprView::Difference(
                Box::new(a.model()),
                Box::new(b.model()),
            ),
            Expr::Product(a, b) => ExprView::Product(Box::new(a.model()), Box::new(b.model())),
        }
    }
}

impl<F: Field> View for Expr<F> {
    type V = ExprView;

    open spec fn view(&self) -> ExprView {
        self.model()
    }
}

/// The row that lies `rotation` rows after `row`, counting round the table.
pub fn rotate(row: usize, rotation: i32, rows: usize) -> (r: usize)
    requires
        row < rows,
    ensures
        r == rotated(row as int, rotation as int, rows as int),
        r < rows,
{
    if rotation >= 0 {
        let step: usize = (rotation as usize) % rows;
        proof {
            lemma_fundamental_div_mod(rotation as int, rows as int);
        }
        let ghost q = (rotation as int) / (rows as int);
        if step >= rows - row {
            let r: usize = step - (rows - row);
            proof {
                assert(row + rotation == (q + 1) * rows + r) by (nonlinear_arith)
                    requires
                        rotation == rows * q + step,
                        r == step - (rows - row),
                ;
                lemma_fundamental_div_mod_converse(row + rotation, rows as int, q + 1, r as int);
            }
            r
        } else {
            let r: usize = row + step;
            proof {
                assert(row + rotation == q * rows + r) by (nonlinear_arith)
                    requires
                        rotation == rows * q + step,
                        r == row + step,
                ;
                lemma_fundamental_div_mod_converse(row + rotation, rows as int, q, r as int);
            }
            r
        }
    } else {
        let back_all: u64 = (-(rotation as i64)) as u64;
        let back: usize = (back_all % (rows as u64)) as usize;
        proof {
            lemma_fundamental_div_mod(back_all as int, rows as int);
        }
        let ghost q = (back_all as int) / (rows as int);
        if back <= row {
            let r: usize = row - back;
            proof {
                assert(row + rotation == (-q) * rows + r) by (nonlinear_arith)
                    requires
                        -rotation == rows * q + back,
                        r == row - back,
                ;
                lemma_fundamental_div_mod_converse(row + rotation, rows as int, -q, r as int);
            }
            r
        } else {
            let r: usize = rows - (back - row);
            proof {
                assert(row + rotation == (-q - 1) * rows + r) by (nonlinear_arith)
                    requires
                        -rotation == rows * q + back,
                        r == rows - (back - row),
                ;
                lemma_fundamental_div_mod_converse(row + rotation, rows as int, -q - 1, r as int);
            }
            r
        }
    }
}

impl<F: Field> Expr<F> {
    /// The polynomial that is the given element everywhere.
    pub fn constant(c: F) -> (r: Self)
        ensures
            r@ == ExprView::Constant(c.value()),
    {
        Expr::Constant(c)
    }

    /// The cell of `column` in the row at which the polynomial is
    /// evaluated.
    pub fn query(column: Column) -> (r: Self)
        ensures
            r@ == (ExprView::Query { column, rotation: 0 }),
    {
        Expr::Query { column, rotation: 0 }
    }

    /// The cell of `column` that lies `rotation` rows after the row at which
    /// the polynomial is evaluated, counting round the table.
    pub fn query_at(column: Column, rotation: i32) -> (r: Self)
        ensures
            r@ == (ExprView::Query { column, rotation: rotation as int }),
    {
        Expr::Query { column, rotation }
    }

    /// The additive inverse of the polynomial.
    pub fn neg(self) -> (r: Self)
        ensures
            r@ == ExprView::Negated(Box::new(self@)),
    {
        Expr::Negated(Box::new(self))
    }

    /// The sum of two polynomials.
    pub fn add(self, rhs: Self) -> (r: Self)
        ensures
            r@ == ExprView::Sum(Box::new(self@), Box::new(rhs@)),
    {
        Expr::Sum(Box::new(self), Box::new(rhs))
    }

    /// The difference of two polynomials.
    pub fn sub(self, rhs: Self) -> (r: Self)
        ensures
            r@ == ExprView::Difference(Box::new(self@), Box::new(rhs@)),
    {
        Expr::Difference(Box::new(self), Box::new(rhs))
    }

    /// The product of two polynomials.
    pub fn mul(self, rhs: Self) -> (r: Self)
        ensures
            r@ == ExprView::Product(Box::new(self@), Box::new(rhs@)),
    {
        Expr::Product(Box::new(self), Box::new(rhs))
    }

    /// The value of the polynomial at a row of the trace; or the first cell,
    /// in reading order, that it needs and that holds no element.
    pub fn evaluate(&self, trace: &Trace<F>, row: usize) -> (r: Result<F, Cell>)
        requires
            trace.wf(),
            row < trace@.rows,
        ensures
            match r {
                Ok(x) => self@.eval(trace@, row as int, F::modulus()) == Ok::<nat, Cell>(x.value()),
                Err(c) => self@.eval(trace@, row as int, F::modulus()) == Err::<nat, Cell>(c),
            },
        decreases self,
    {
        match self {
            Expr::Constant(c) => Ok(*c),
            Expr::Query { column, rotation } => {
                let cell = Cell { column: column.index, row: rotate(row, *rotation, trace.rows()) };
                match trace.known(cell) {
                    Some(x) => Ok(x),
                    None => Err(cell),
                }
            },
            Expr::Negated(a) => match a.evaluate(trace, row) {
                Ok(x) => Ok(x.neg()),
                Err(c) => Err(c),
            },
            Expr::Sum(a, b) => match a.evaluate(trace, row) {
                Ok(x) => match b.evaluate(trace, row) {
                    Ok(y) => Ok(x.add(&y)),
                    Err(c) => Err(c),
                },
                Err(c) => Err(c),
            },
            Expr::Difference(a, b) => match a.evaluate(trace, row) {
                Ok(x) => match b.evaluate(trace, row) {
                    Ok(y) => Ok(x.sub(&y)),
                    Err(c) => Err(c),
                },
                Err(c) => Err(c),
            },
            Expr::Product(a, b) => match a.evaluate(trace, row) {
                Ok(x) => match b.evaluate(trace, row) {
                    Ok(y) => Ok(x.mul(&y)),
                    Err(c) => Err(c),
                },
                Err(c) => Err(c),
            },
        }
    }

    /// Whether every column that the polynomial reads is among `kinds`,
    /// under its own kind.
    pub fn reads_only(&self, kinds: &Vec<crate::cell::ColumnKind>) -> (r: bool)
        ensures
            r == self@.reads_only(kinds@),
        decreases self,
    {
        match self {
            Expr::Constant(_) => true,
            Expr::Query { column, rotation } => column.index < kinds.len() && kinds[column.index]
                == column.kind,
            Expr::Negated(a) => a.reads_only(kinds),
            Expr::Sum(a, b) => a.reads_only(kinds) && b.reads_only(kinds),
            Expr::Difference(a, b) => a.reads_only(kinds) && b.reads_only(kinds),
            Expr::Product(a, b) => a.reads_only(kinds) && b.reads_only(kinds),
        }
    }
}

} // verus!
