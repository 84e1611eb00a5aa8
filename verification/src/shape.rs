//! The registry of a circuit's shape: its columns, selectors and gates,
//! declared once and independent of any witness.

use vstd::prelude::*;
use crate::cell::{Column, ColumnKind, Selector};
use crate::error::Error;
use crate::expr::{Expr, ExprView};
use crate::field::Field;

verus! {

/// A polynomial that must vanish on every row where its selector is enabled.
/// The name serves diagnostics alone.
#[derive(Debug, PartialEq, Eq)]
pub struct Gate<F> {
    pub name: String,
    pub selector: Selector,
    pub poly: Expr<F>,
}

/// A gate as a mathematical value.
pub struct GateView {
    pub name: Seq<char>,
    pub selector: Selector,
    pub poly: ExprView,
}

impl<F: Field> View for Gate<F> {
    type V = GateView;

    open spec fn view(&self) -> GateView {
        GateView { name: self.name@, selector: self.selector, poly: self.poly@ }
    }
}

/// A circuit's shape as a mathematical value.
pub struct ShapeView {
    pub rows: nat,
    pub kinds: Seq<ColumnKind>,
    pub equality: Seq<bool>,
    pub selectors: nat,
    pub gates: Seq<GateView>,
}

impl ShapeView {
    /// Whether the column is declared, under its own kind.
    pub open spec fn declares(self, column: Column) -> bool {
        column.index < self.kinds.len() && self.kinds[column.index as int] == column.kind
    }

    /// Every column has its equality flag, and every gate names a declared
    /// selector and reads declared columns only.
    pub open spec fn well_formed(self) -> bool {
        &&& self.equality.len() == self.kinds.len()
        &&& forall|g: int|
            0 <= g < self.gates.len() ==> {
                &&& (#[trigger] self.gates[g]).selector.index < self.selectors
                &&& self.gates[g].poly.reads_only(self.kinds)
            }
    }

    /// The shape with one more column, of the given kind and without
    /// equality.
    pub open spec fn with_column(self, kind: ColumnKind) -> ShapeView {
        ShapeView { kinds: self.kinds.push(kind), equality: self.equality.push(false), ..self }
    }

    /// The shape with one more selector.
    pub open spec fn with_selector(self) -> ShapeView {
        ShapeView { selectors: self.selectors + 1, ..self }
    }

    /// What enabling equality on a column makes of the shape, or why it
    /// cannot be done.
    pub open spec fn with_equality(self, column: Column) -> Result<ShapeView, Error> {
        if !self.declares(column) {
            Err(Error::UndeclaredColumn)
        } else if column.kind == ColumnKind::FixedConstant {
            Err(Error::EqualityOnFixedColumn)
        } else if self.equality[column.index as int] {
            Err(Error::EqualityAlreadyEnabled)
        } else {
            Ok(ShapeView { equality: self.equality.update(column.index as int, true), ..self })
        }
    }

    /// What declaring a gate makes of the shape, or why it cannot be done.
    pub open spec fn with_gate(self, gate: GateView) -> Result<ShapeView, Error> {
        if gate.selector.index >= self.selectors {
            Err(Error::UndeclaredSelector)
        } else if !gate.poly.reads_only(self.kinds) {
            Err(Error::UndeclaredColumn)
        } else {
            Ok(ShapeView { gates: self.gates.push(gate), ..self })
        }
    }
}

/// The shape after an attempt to change it: what the attempt made of it, or
/// what there was where the attempt failed.
pub open spec fn kept(r: Result<ShapeView, Error>, fallback: ShapeView) -> ShapeView {
    match r {
        Ok(s) => s,
        Err(_) => fallback,
    }
}

/// What enabling equality on a column makes of the outcome of earlier
/// steps.
pub open spec fn and_equality(r: Result<ShapeView, Error>, column: Column) -> Result<
    ShapeView,
    Error,
> {
    match r {
        Ok(s) => s.with_equality(column),
        Err(e) => Err(e),
    }
}

/// What declaring a gate makes of the outcome of earlier steps.
pub open spec fn and_gate(r: Result<ShapeView, Error>, gate: GateView) -> Result<ShapeView, Error> {
    match r {
        Ok(s) => s.with_gate(gate),
        Err(e) => Err(e),
    }
}

/// The shape with the given number of rows and nothing declared.
pub open spec fn empty_shape(rows: nat) -> ShapeView {
    ShapeView {
        rows,
        kinds: Seq::empty(),
        equality: Seq::empty(),
        selectors: 0,
        gates: Seq::empty(),
    }
}

/// The registry of columns, selectors and gates.
#[derive(Debug, PartialEq, Eq)]
pub struct CircuitShape<F> {
    rows: usize,
    kinds: Vec<ColumnKind>,
    equality: Vec<bool>,
    selectors: Vec<Selector>,
    gates: Vec<Gate<F>>,
}

impl<F: Field> View for CircuitShape<F> {
    type V = ShapeView;

    closed spec fn view(&self) -> ShapeView {
        ShapeView {
            rows: self.rows as nat,
            kinds: self.kinds@,
            equality: self.equality@,
            selectors: self.selectors@.len(),
            gates: Seq::new(self.gates@.len(), |g: int| self.gates@[g]@),
        }
    }
}

impl<F: Field> CircuitShape<F> {
    /// The invariant of a registry.
    pub open spec fn wf(&self) -> bool {
        self@.well_formed()
    }

    /// A registry for a table of `rows` rows, with nothing declared.
    pub fn new(rows: usize) -> (r: Self)
        ensures
            r.wf(),
            r@ == empty_shape(rows as nat),
    {
        let r = CircuitShape {
            rows,
            kinds: Vec::new(),
            equality: Vec::new(),
            selectors: Vec::new(),
            gates: Vec::new(),
        };
        assert(r@.gates =~= Seq::empty());
        r
    }

    /// Declares a column of the given kind. Columns are numbered in the
    /// order of their declaration.
    pub fn declare_column(&mut self, kind: ColumnKind) -> (r: Column)
        requires
            old(self).wf(),
        ensures
            final(self).wf(),
            final(self)@ == old(self)@.with_column(kind),
            r == (Column { index: old(self)@.kinds.len() as usize, kind }),
    {
        let index = self.kinds.len();
        self.kinds.push(kind);
        self.equality.push(false);
        proof {
            assert(self@.gates =~= old(self)@.gates);
            assert forall|g: int| 0 <= g < self@.gates.len() implies (#[trigger] self@.gates[g]).poly.reads_only(
                self@.kinds,
            ) by {
                lemma_reads_more(self@.gates[g].poly, old(self)@.kinds, kind);
            }
        }
        Column { index, kind }
    }

    /// Declares a selector. Selectors are numbered in the order of their
    /// declaration.
    pub fn declare_selector(&mut self) -> (r: Selector)
        requires
            old(self).wf(),
        ensures
            final(self).wf(),
            final(self)@ == old(self)@.with_selector(),
            r == (Selector { index: old(self)@.selectors as usize }),
    {
        let r = Selector { index: self.selectors.len() };
        self.selectors.push(r);
        proof {
            assert(self@.gates =~= old(self)@.gates);
        }
        r
    }

    /// Lets cells of the column stand in copy constraints. A column of
    /// constants cannot have equality, and no column can get it twice.
    pub fn enable_equality(&mut self, column: Column) -> (r: Result<(), Error>)
        requires
            old(self).wf(),
        ensures
            final(self).wf(),
            match old(self)@.with_equality(column) {
                Ok(s) => r is Ok && final(self)@ == s,
                Err(e) => r == Err::<(), Error>(e) && final(self)@ == old(self)@,
            },
    {
        if !(column.index < self.kinds.len() && self.kinds[column.index] == column.kind) {
            return Err(Error::UndeclaredColumn);
        }
        if column.kind == ColumnKind::FixedConstant {
            return Err(Error::EqualityOnFixedColumn);
        }
        if self.equality[column.index] {
            return Err(Error::EqualityAlreadyEnabled);
        }
        self.equality.set(column.index, true);
        proof {
            assert(self@.gates =~= old(self)@.gates);
        }
        Ok(())
    }

    /// Declares a gate: `poly` must vanish on every row where `selector` is
    /// enabled. The selector and every column that the polynomial reads must
    /// have been declared.
    pub fn declare_gate(&mut self, name: &str, selector: Selector, poly: Expr<F>) -> (r: Result<
        (),
        Error,
    >)
        requires
            old(self).wf(),
        ensures
            final(self).wf(),
            match old(self)@.with_gate(GateView { name: name@, selector, poly: poly@ }) {
                Ok(s) => r is Ok && final(self)@ == s,
                Err(e) => r == Err::<(), Error>(e) && final(self)@ == old(self)@,
            },
    {
        if selector.index >= self.selectors.len() {
            return Err(Error::UndeclaredSelector);
        }
        if !poly.reads_only(&self.kinds) {
            return Err(Error::UndeclaredColumn);
        }
        let gate = Gate { name: name.to_owned(), selector, poly };
        self.gates.push(gate);
        proof {
            assert(self@.gates =~= old(self)@.gates.push(gate@));
        }
        Ok(())
    }

    /// The number of rows of the table.
    pub fn rows(&self) -> (r: usize)
        ensures
            r == self@.rows,
    {
        self.rows
    }

    /// The kinds of the declared columns, in the order of declaration.
    pub fn kinds(&self) -> (r: &Vec<ColumnKind>)
        ensures
            r@ == self@.kinds,
    {
        &self.kinds
    }

    /// For each declared column, whether it has equality.
    pub fn equality(&self) -> (r: &Vec<bool>)
        ensures
            r@ == self@.equality,
    {
        &self.equality
    }

    /// The number of declared selectors.
    pub fn selectors(&self) -> (r: usize)
        ensures
            r == self@.selectors,
    {
        self.selectors.len()
    }

    /// The declared gates, in the order of declaration.
    pub fn gates(&self) -> (r: &Vec<Gate<F>>)
        ensures
            r@.len() == self@.gates.len(),
            forall|g: int| 0 <= g < r@.len() ==> (#[trigger] r@[g])@ == self@.gates[g],
    {
        &self.gates
    }
}

/// A polynomial that reads declared columns only still does so after one
/// more column is declared.
pub proof fn lemma_reads_more(e: ExprView, kinds: Seq<ColumnKind>, kind: ColumnKind)
    requires
        e.reads_only(kinds),
    ensures
        e.reads_only(kinds.push(kind)),
    decreases e,
{
    match e {
        ExprView::Constant(_) => {},
        ExprView::Query { column, rotation } => {},
        ExprView::Negated(a) => {
            lemma_reads_more(*a, kinds, kind);
        },
        ExprView::Sum(a, b) => {
            lemma_reads_more(*a, kinds, kind);
            lemma_reads_more(*b, kinds, kind);
        },
        ExprView::Difference(a, b) => {
            lemma_reads_more(*a, kinds, kind);
            lemma_reads_more(*b, kinds, kind);
        },
        ExprView::Product(a, b) => {
            lemma_reads_more(*a, kinds, kind);
            lemma_reads_more(*b, kinds, kind);
        },
    }
}

} // verus!
