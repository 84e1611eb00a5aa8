//! The chip of the Fibonacci circuit: its gate, and the rows that it
//! writes.

use vstd::prelude::*;
use crate::cell::{Cell, Column, Selector};
use crate::chip::Chip;
use crate::error::Error;
use crate::expr::{Expr, ExprView};
use crate::fibonacci::config::FiboConfig;
use crate::field::{Field, add_mod};
use crate::region::{AssignedCell, AssignedView, OpView, Region};
use crate::shape::{CircuitShape, GateView, ShapeView, and_equality, and_gate, kept};
use crate::trace::Trace;
use crate::value::{Value, value_add};

verus! {

/// The instructions of the Fibonacci chip. Each writes its steps as one
/// region: where a step cannot be taken, the trace stays as it was.
pub trait FiboInstructions<F: Field>: Chip<F, Config = FiboConfig> {
    /// Writes row 0: the two seeds and their sum.
    fn write_first_row(&self, trace: &mut Trace<F>) -> (r: Result<
        (AssignedCell<F>, AssignedCell<F>, AssignedCell<F>),
        Error,
    >)
        requires
            old(trace).wf(),
        ensures
            final(trace).wf(),
            final(trace).scope() == old(trace).scope(),
            match (old(trace)@.after_all(first_row(self.handles(), F::modulus())), r) {
                (Ok(t), Ok(cells)) => final(trace)@ == t && row_view(cells) == first_cells(
                    self.handles(),
                    F::modulus(),
                ),
                (Err(e), Err(e2)) => final(trace)@ == old(trace)@ && e2 == e,
                _ => false,
            },
    ;

    /// Writes row `i`: the last two terms, copied from the cells that hold
    /// them, and their sum.
    fn write_next_row(
        &self,
        trace: &mut Trace<F>,
        prev_b: &AssignedCell<F>,
        prev_c: &AssignedCell<F>,
        i: usize,
    ) -> (r: Result<(AssignedCell<F>, AssignedCell<F>, AssignedCell<F>), Error>)
        requires
            old(trace).wf(),
        ensures
            final(trace).wf(),
            final(trace).scope() == old(trace).scope(),
            match (
                old(trace)@.after_all(next_row(self.handles(), prev_b@, prev_c@, i, F::modulus())),
                r,
            ) {
                (Ok(t), Ok(cells)) => final(trace)@ == t && row_view(cells) == next_cells(
                    self.handles(),
                    prev_b@,
                    prev_c@,
                    i,
                    F::modulus(),
                ),
                (Err(e), Err(e2)) => final(trace)@ == old(trace)@ && e2 == e,
                _ => false,
            },
    ;

    /// Binds the cell to the first public input.
    fn expose_public(&self, trace: &mut Trace<F>, cell: &AssignedCell<F>) -> (r: Result<(), Error>)
        requires
            old(trace).wf(),
        ensures
            final(trace).wf(),
            final(trace).scope() == old(trace).scope(),
            match old(trace)@.after_bind(cell.cell, self.handles().i, 0) {
                Ok(t) => r is Ok && final(trace)@ == t,
                Err(e) => r == Err::<(), Error>(e) && final(trace)@ == old(trace)@,
            },
    ;
}

/// The chip: the handles that its instructions work on.
pub struct FiboChip<F> {
    config: FiboConfig,
    _marker: core::marker::PhantomData<F>,
}

/// The polynomial of the addition gate: `a + b - c`.
pub open spec fn addition(a: Column, b: Column, c: Column) -> ExprView {
    ExprView::Difference(
        Box::new(
            ExprView::Sum(
                Box::new(ExprView::Query { column: a, rotation: 0 }),
                Box::new(ExprView::Query { column: b, rotation: 0 }),
            ),
        ),
        Box::new(ExprView::Query { column: c, rotation: 0 }),
    )
}

/// What the chip's configuration makes of a shape: equality on the three
/// columns of terms and on the column of the public input, and a gate,
/// `add`, which demands `a + b - c = 0` where `s` is enabled.
pub open spec fn chip_configured(
    before: ShapeView,
    advices: [Column; 3],
    i: Column,
    s: Selector,
) -> Result<ShapeView, Error> {
    match before.with_equality(advices[0]) {
        Err(e) => Err(e),
        Ok(s1) => match s1.with_equality(advices[1]) {
            Err(e) => Err(e),
            Ok(s2) => match s2.with_equality(advices[2]) {
                Err(e) => Err(e),
                Ok(s3) => match s3.with_equality(i) {
                    Err(e) => Err(e),
                    Ok(s4) => s4.with_gate(
                        GateView {
                            name: "add"@,
                            selector: s,
                            poly: addition(advices[0], advices[1], advices[2]),
                        },
                    ),
                },
            },
        },
    }
}

/// The registry that the chip's configuration leaves, whether it succeeds
/// or stops. Equality is enabled on the columns in the order `a`, `b`, `c`,
/// `i`, and `add` is declared last; where a step fails, the steps
/// before it have been taken and no later one is. Columns, selectors and,
/// where it stops, gates are as they were.
pub open spec fn chip_left(before: ShapeView, advices: [Column; 3], i: Column, s: Selector) -> ShapeView {
    let r1 = before.with_equality(advices[0]);
    let l1 = kept(r1, before);
    let r2 = and_equality(r1, advices[1]);
    let l2 = kept(r2, l1);
    let r3 = and_equality(r2, advices[2]);
    let l3 = kept(r3, l2);
    let r4 = and_equality(r3, i);
    let l4 = kept(r4, l3);
    let r5 = and_gate(
        r4,
        GateView { name: "add"@, selector: s, poly: addition(advices[0], advices[1], advices[2]) },
    );
    kept(r5, l4)
}

/// The steps of row 0: the selector is enabled, both seeds are one, and the
/// third cell holds their sum.
pub open spec fn first_row(config: FiboConfig, m: nat) -> Seq<OpView> {
    seq![
        OpView::Enable { selector: config.s, row: 0 },
        OpView::Assign { column: config.a, row: 0, value: Some(1nat) },
        OpView::Assign { column: config.b, row: 0, value: Some(1nat) },
        OpView::Assign { column: config.c, row: 0, value: Some(add_mod(1, 1, m)) },
    ]
}

/// The steps of row `i`: the selector is enabled, the last two terms are
/// copied from the cells that hold them, each copy under a copy
/// constraint, and the third cell holds their sum.
pub open spec fn next_row(
    config: FiboConfig,
    prev_b: AssignedView,
    prev_c: AssignedView,
    i: usize,
    m: nat,
) -> Seq<OpView> {
    seq![
        OpView::Enable { selector: config.s, row: i },
        OpView::Assign { column: config.a, row: i, value: prev_b.value },
        OpView::Equal { left: prev_b.cell, right: Cell { column: config.a.index, row: i } },
        OpView::Assign { column: config.b, row: i, value: prev_c.value },
        OpView::Equal { left: prev_c.cell, right: Cell { column: config.b.index, row: i } },
        OpView::Assign {
            column: config.c,
            row: i,
            value: value_add(prev_b.value, prev_c.value, m),
        },
    ]
}

/// The three assigned cells of a row as mathematical values.
pub open spec fn row_view<F: Field>(
    cells: (AssignedCell<F>, AssignedCell<F>, AssignedCell<F>),
) -> (AssignedView, AssignedView, AssignedView) {
    (cells.0@, cells.1@, cells.2@)
}

/// The three cells of row 0 and what they hold.
pub open spec fn first_cells(config: FiboConfig, m: nat) -> (
    AssignedView,
    AssignedView,
    AssignedView,
) {
    (
        AssignedView { cell: Cell { column: config.a.index, row: 0 }, value: Some(1nat) },
        AssignedView { cell: Cell { column: config.b.index, row: 0 }, value: Some(1nat) },
        AssignedView {
            cell: Cell { column: config.c.index, row: 0 },
            value: Some(add_mod(1, 1, m)),
        },
    )
}

/// The three cells of row `i` and what they hold.
pub open spec fn next_cells(
    config: FiboConfig,
    prev_b: AssignedView,
    prev_c: AssignedView,
    i: usize,
    m: nat,
) -> (AssignedView, AssignedView, AssignedView) {
    (
        AssignedView { cell: Cell { column: config.a.index, row: i }, value: prev_b.value },
        AssignedView { cell: Cell { column: config.b.index, row: i }, value: prev_c.value },
        AssignedView {
            cell: Cell { column: config.c.index, row: i },
            value: value_add(prev_b.value, prev_c.value, m),
        },
    )
}

impl<F: Field> Chip<F> for FiboChip<F> {
    type Config = FiboConfig;

    type Loaded = ();

    closed spec fn handles(&self) -> FiboConfig {
        self.config
    }

    fn config(&self) -> (r: &FiboConfig) {
        &self.config
    }

    fn loaded(&self) -> (r: &()) {
        &()
    }
}

impl<F: Field> FiboChip<F> {
    /// The chip over the given handles.
    pub fn construct(config: FiboConfig) -> (r: Self)
        ensures
            r.handles() == config,
    {
        Self { config, _marker: core::marker::PhantomData }
    }

    /// Enables equality on the three columns of terms and on the column of
    /// the public input, and declares the addition gate under the selector.
    pub fn configure(meta: &mut CircuitShape<F>, advices: [Column; 3], i: Column, s: Selector) -> (r:
        Result<FiboConfig, Error>)
        requires
            old(meta).wf(),
        ensures
            final(meta).wf(),
            final(meta)@ == chip_left(old(meta)@, advices, i, s),
            final(meta)@.rows == old(meta)@.rows,
            final(meta)@.kinds == old(meta)@.kinds,
            final(meta)@.selectors == old(meta)@.selectors,
            r is Err ==> final(meta)@.gates == old(meta)@.gates,
            match chip_configured(old(meta)@, advices, i, s) {
                Ok(shape) => final(meta)@ == shape && r == Ok::<FiboConfig, Error>(
                    FiboConfig { a: advices[0], b: advices[1], c: advices[2], i, s },
                ),
                Err(e) => r == Err::<FiboConfig, Error>(e),
            },
    {
        let a = advices[0];
        let b = advices[1];
        let c = advices[2];
        match meta.enable_equality(a) {
            Ok(_) => {},
            Err(e) => {
                return Err(e);
            },
        }
        match meta.enable_equality(b) {
            Ok(_) => {},
            Err(e) => {
                return Err(e);
            },
        }
        match meta.enable_equality(c) {
            Ok(_) => {},
            Err(e) => {
                return Err(e);
            },
        }
        match meta.enable_equality(i) {
            Ok(_) => {},
            Err(e) => {
                return Err(e);
            },
        }
        let poly = Expr::query(a).add(Expr::query(b)).sub(Expr::query(c));
        match meta.declare_gate("add", s, poly) {
            Ok(_) => {},
            Err(e) => {
                return Err(e);
            },
        }
        Ok(FiboConfig { a, b, c, i, s })
    }
}

impl<F: Field> FiboInstructions<F> for FiboChip<F> {
    fn write_first_row(&self, trace: &mut Trace<F>) -> (r: Result<
        (AssignedCell<F>, AssignedCell<F>, AssignedCell<F>),
        Error,
    >) {
        let mut region = Region::new("first row");
        region.enable_selector(self.config.s, 0);
        let a_cell = region.assign(self.config.a, 0, Value::known(F::one()));
        let b_cell = region.assign(self.config.b, 0, Value::known(F::one()));
        let c_cell = region.assign(self.config.c, 0, a_cell.value.add(&b_cell.value));
        assert(region@ =~= first_row(self.handles(), F::modulus()));
        match trace.assign_region(&region) {
            Ok(_) => Ok((a_cell, b_cell, c_cell)),
            Err(e) => Err(e),
        }
    }

    fn write_next_row(
        &self,
        trace: &mut Trace<F>,
        prev_b: &AssignedCell<F>,
        prev_c: &AssignedCell<F>,
        i: usize,
    ) -> (r: Result<(AssignedCell<F>, AssignedCell<F>, AssignedCell<F>), Error>) {
        let mut region = Region::new("next row");
        region.enable_selector(self.config.s, i);
        let curr_a = region.copy(prev_b, self.config.a, i);
        let curr_b = region.copy(prev_c, self.config.b, i);
        let curr_c = region.assign(self.config.c, i, curr_a.value.add(&curr_b.value));
        assert(region@ =~= next_row(self.handles(), prev_b@, prev_c@, i, F::modulus()));
        match trace.assign_region(&region) {
            Ok(_) => Ok((curr_a, curr_b, curr_c)),
            Err(e) => Err(e),
        }
    }

    fn expose_public(&self, trace: &mut Trace<F>, cell: &AssignedCell<F>) -> (r: Result<(), Error>) {
        trace.constrain_instance(cell.cell, self.config.i, 0)
    }
}

} // verus!
