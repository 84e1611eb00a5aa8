//! A small general-purpose circuit: one gate with five constants per row,
//! which turn it into a multiplication, an addition or any affine
//! combination, and rows of it chained by copy constraints.

use vstd::prelude::*;
use vstd::arithmetic::div_mod::{
    lemma_add_mod_noop, lemma_add_mod_noop_right, lemma_mod_bound, lemma_mod_multiples_vanish,
    lemma_mod_self_0, lemma_mul_mod_noop_left, lemma_small_mod,
};
use vstd::arithmetic::power2::pow2;
use crate::cell::{Cell, Column, ColumnKind, Selector};
use crate::chip::Chip;
use crate::circuit::Circuit;
use crate::error::Error;
use crate::expr::{Expr, ExprView};
use crate::failure::FailureView;
use crate::field::{Field, add_mod, mul_mod, neg_mod};
use crate::laws::{
    bindings_hold, copies_hold, gates_hold, lemma_copies_edgewise, row_holds, satisfied,
};
use crate::prover::layout;
use crate::region::{OpView, Region};
use crate::shape::{CircuitShape, GateView, ShapeView, and_equality, and_gate, empty_shape, kept};
use crate::validate::gate_row_failure;
use crate::trace::{
    Binding, Trace, TraceView, all_erased, assigns_to, empty_trace, held, lemma_one_more,
    lemma_step_seen, lemma_then_all_structure, lemma_then_bind_structure, outline, then_all,
    then_bind,
};
use crate::value::{Value, value_add, value_mul};

verus! {

/// The handles of the circuit: the columns of the left input, the right
/// input and the output; the columns of the five constants of its gate;
/// the column of the public inputs; and the selector of that gate.
#[derive(Clone, Copy, Debug, PartialEq, Eq, Structural)]
pub struct TutorialConfig {
    pub l: Column,
    pub r: Column,
    pub o: Column,
    pub sl: Column,
    pub sr: Column,
    pub so: Column,
    pub sm: Column,
    pub sc: Column,
    pub pi: Column,
    pub q: Selector,
}

/// The instructions of the chip. Each gate row is written at the row that
/// the caller names, and each instruction writes its steps as one region:
/// where a step cannot be taken, the trace stays as it was.
pub trait TutorialComposer<F: Field>: Chip<F, Config = TutorialConfig> {
    /// Writes a row that demands `lhs * rhs = out`, and returns its three
    /// cells.
    fn raw_multiply(
        &self,
        trace: &mut Trace<F>,
        row: usize,
        lhs: Value<F>,
        rhs: Value<F>,
        out: Value<F>,
    ) -> (r: Result<(Cell, Cell, Cell), Error>)
        requires
            old(trace).wf(),
        ensures
            final(trace).wf(),
            final(trace).scope() == old(trace).scope(),
            match (old(trace)@.after_all(multiply_row(self.handles(), row, lhs@, rhs@, out@)), r) {
                (Ok(t), Ok(cells)) => final(trace)@ == t && cells == row_cells(self.handles(), row),
                (Err(e), Err(e2)) => final(trace)@ == old(trace)@ && e2 == e,
                _ => false,
            },
    ;

    /// Writes a row that demands `lhs + rhs = out`, and returns its three
    /// cells.
    fn raw_add(
        &self,
        trace: &mut Trace<F>,
        row: usize,
        lhs: Value<F>,
        rhs: Value<F>,
        out: Value<F>,
    ) -> (r: Result<(Cell, Cell, Cell), Error>)
        requires
            old(trace).wf(),
        ensures
            final(trace).wf(),
            final(trace).scope() == old(trace).scope(),
            match (old(trace)@.after_all(add_row(self.handles(), row, lhs@, rhs@, out@)), r) {
                (Ok(t), Ok(cells)) => final(trace)@ == t && cells == row_cells(self.handles(), row),
                (Err(e), Err(e2)) => final(trace)@ == old(trace)@ && e2 == e,
                _ => false,
            },
    ;

    /// Demands that two cells hold equal values.
    fn copy(&self, trace: &mut Trace<F>, a: Cell, b: Cell) -> (r: Result<(), Error>)
        requires
            old(trace).wf(),
        ensures
            final(trace).wf(),
            final(trace).scope() == old(trace).scope(),
            match old(trace)@.after_all(link(a, b)) {
                Ok(t) => r is Ok && final(trace)@ == t,
                Err(e) => r == Err::<(), Error>(e) && final(trace)@ == old(trace)@,
            },
    ;

    /// Binds the cell to the public input at `row`.
    fn expose_public(&self, trace: &mut Trace<F>, cell: Cell, row: usize) -> (r: Result<(), Error>)
        requires
            old(trace).wf(),
        ensures
            final(trace).wf(),
            final(trace).scope() == old(trace).scope(),
            match old(trace)@.after_bind(cell, self.handles().pi, row) {
                Ok(t) => r is Ok && final(trace)@ == t,
                Err(e) => r == Err::<(), Error>(e) && final(trace)@ == old(trace)@,
            },
    ;
}

/// The chip: the handles that its instructions work on.
pub struct TutorialChip<F> {
    config: TutorialConfig,
    _maker: core::marker::PhantomData<F>,
}

/// The cell of a column in the row at which a gate is evaluated.
pub open spec fn here(column: Column) -> ExprView {
    ExprView::Query { column, rotation: 0 }
}

/// The product of two polynomials.
pub open spec fn times(a: ExprView, b: ExprView) -> ExprView {
    ExprView::Product(Box::new(a), Box::new(b))
}

/// The sum of two polynomials.
pub open spec fn plus(a: ExprView, b: ExprView) -> ExprView {
    ExprView::Sum(Box::new(a), Box::new(b))
}

/// The polynomial of the one gate: `l*sl + r*sr + l*r*sm + o*so*(-1) + sc`.
pub open spec fn mini_plonk(config: TutorialConfig, m: nat) -> ExprView {
    plus(
        plus(
            plus(
                plus(times(here(config.l), here(config.sl)), times(here(config.r), here(config.sr))),
                times(times(here(config.l), here(config.r)), here(config.sm)),
            ),
            times(times(here(config.o), here(config.so)), ExprView::Constant(neg_mod(1, m))),
        ),
        here(config.sc),
    )
}

/// The steps of a gate row: the selector is enabled, the two inputs and the
/// output are assigned, and so is each of the five constants.
pub open spec fn gate_row(
    config: TutorialConfig,
    row: usize,
    lhs: Option<nat>,
    rhs: Option<nat>,
    out: Option<nat>,
    sl: nat,
    sr: nat,
    sm: nat,
    so: nat,
    sc: nat,
) -> Seq<OpView> {
    seq![
        OpView::Enable { selector: config.q, row },
        OpView::Assign { column: config.l, row, value: lhs },
        OpView::Assign { column: config.r, row, value: rhs },
        OpView::Assign { column: config.o, row, value: out },
        OpView::Assign { column: config.sl, row, value: Some(sl) },
        OpView::Assign { column: config.sr, row, value: Some(sr) },
        OpView::Assign { column: config.sm, row, value: Some(sm) },
        OpView::Assign { column: config.so, row, value: Some(so) },
        OpView::Assign { column: config.sc, row, value: Some(sc) },
    ]
}

/// The steps of a multiplication row: the constants reduce the polynomial
/// to `l*r - o`.
pub open spec fn multiply_row(
    config: TutorialConfig,
    row: usize,
    lhs: Option<nat>,
    rhs: Option<nat>,
    out: Option<nat>,
) -> Seq<OpView> {
    gate_row(config, row, lhs, rhs, out, 0, 0, 1, 1, 0)
}

/// The steps of an addition row: the constants reduce the polynomial to
/// `l + r - o`.
pub open spec fn add_row(
    config: TutorialConfig,
    row: usize,
    lhs: Option<nat>,
    rhs: Option<nat>,
    out: Option<nat>,
) -> Seq<OpView> {
    gate_row(config, row, lhs, rhs, out, 1, 1, 0, 1, 0)
}

/// The three cells of a gate row: left input, right input, output.
pub open spec fn row_cells(config: TutorialConfig, row: usize) -> (Cell, Cell, Cell) {
    (
        Cell { column: config.l.index, row },
        Cell { column: config.r.index, row },
        Cell { column: config.o.index, row },
    )
}

impl<F: Field> Chip<F> for TutorialChip<F> {
    type Config = TutorialConfig;

    type Loaded = ();

    closed spec fn handles(&self) -> TutorialConfig {
        self.config
    }

    fn config(&self) -> (r: &TutorialConfig) {
        &self.config
    }

    fn loaded(&self) -> (r: &()) {
        &()
    }
}

impl<F: Field> TutorialChip<F> {
    /// The chip over the given handles.
    pub fn new(config: TutorialConfig) -> (r: Self)
        ensures
            r.handles() == config,
    {
        Self { config, _maker: core::marker::PhantomData }
    }

    /// Writes a gate row with the given constants.
    fn raw_row(
        &self,
        trace: &mut Trace<F>,
        name: &str,
        row: usize,
        values: (Value<F>, Value<F>, Value<F>),
        sl: F,
        sr: F,
        sm: F,
        so: F,
        sc: F,
    ) -> (r: Result<(Cell, Cell, Cell), Error>)
        requires
            old(trace).wf(),
        ensures
            final(trace).wf(),
            final(trace).scope() == old(trace).scope(),
            match (
                old(trace)@.after_all(
                    gate_row(
                        self.handles(),
                        row,
                        values.0@,
                        values.1@,
                        values.2@,
                        sl.value(),
                        sr.value(),
                        sm.value(),
                        so.value(),
                        sc.value(),
                    ),
                ),
                r,
            ) {
                (Ok(t), Ok(cells)) => final(trace)@ == t && cells == row_cells(self.handles(), row),
                (Err(e), Err(e2)) => final(trace)@ == old(trace)@ && e2 == e,
                _ => false,
            },
    {
        let mut region = Region::new(name);
        region.enable_selector(self.config.q, row);
        let lhs = region.assign(self.config.l, row, values.0);
        let rhs = region.assign(self.config.r, row, values.1);
        let out = region.assign(self.config.o, row, values.2);
        region.assign(self.config.sl, row, Value::known(sl));
        region.assign(self.config.sr, row, Value::known(sr));
        region.assign(self.config.sm, row, Value::known(sm));
        region.assign(self.config.so, row, Value::known(so));
        region.assign(self.config.sc, row, Value::known(sc));
        assert(region@ =~= gate_row(
            self.handles(),
            row,
            values.0@,
            values.1@,
            values.2@,
            sl.value(),
            sr.value(),
            sm.value(),
            so.value(),
            sc.value(),
        ));
        trace.assign_region(&region)?;
        Ok((lhs.cell, rhs.cell, out.cell))
    }
}

impl<F: Field> TutorialComposer<F> for TutorialChip<F> {
    fn raw_multiply(
        &self,
        trace: &mut Trace<F>,
        row: usize,
        lhs: Value<F>,
        rhs: Value<F>,
        out: Value<F>,
    ) -> (r: Result<(Cell, Cell, Cell), Error>) {
        self.raw_row(
            trace,
            "multiply",
            row,
            (lhs, rhs, out),
            F::zero(),
            F::zero(),
            F::one(),
            F::one(),
            F::zero(),
        )
    }

    fn raw_add(
        &self,
        trace: &mut Trace<F>,
        row: usize,
        lhs: Value<F>,
        rhs: Value<F>,
        out: Value<F>,
    ) -> (r: Result<(Cell, Cell, Cell), Error>) {
        self.raw_row(
            trace,
            "add",
            row,
            (lhs, rhs, out),
            F::one(),
            F::one(),
            F::zero(),
            F::one(),
            F::zero(),
        )
    }

    fn copy(&self, trace: &mut Trace<F>, a: Cell, b: Cell) -> (r: Result<(), Error>) {
        let mut region = Region::new("copy");
        region.constrain_equal(a, b);
        assert(region@ =~= link(a, b));
        trace.assign_region(&region)
    }

    fn expose_public(&self, trace: &mut Trace<F>, cell: Cell, row: usize) -> (r: Result<(), Error>) {
        trace.constrain_instance(cell, self.config.pi, row)
    }
}

/// The circuit that computes `x^2 * y^2 + constant` from the private `x`
/// and `y`, and makes the constant and the result public.
#[derive(Debug, PartialEq, Eq)]
pub struct TutorialCircuit<F> {
    pub x: Value<F>,
    pub y: Value<F>,
    pub constant: F,
}

/// The handles that configuration returns when it starts from `before`.
pub open spec fn tutorial_handles(before: ShapeView) -> TutorialConfig {
    let first = before.kinds.len();
    TutorialConfig {
        l: Column { index: first as usize, kind: ColumnKind::Witness },
        r: Column { index: (first + 1) as usize, kind: ColumnKind::Witness },
        o: Column { index: (first + 2) as usize, kind: ColumnKind::Witness },
        sm: Column { index: (first + 3) as usize, kind: ColumnKind::FixedConstant },
        sl: Column { index: (first + 4) as usize, kind: ColumnKind::FixedConstant },
        sr: Column { index: (first + 5) as usize, kind: ColumnKind::FixedConstant },
        so: Column { index: (first + 6) as usize, kind: ColumnKind::FixedConstant },
        sc: Column { index: (first + 7) as usize, kind: ColumnKind::FixedConstant },
        pi: Column { index: (first + 8) as usize, kind: ColumnKind::PublicInstance },
        q: Selector { index: before.selectors as usize },
    }
}

/// The equality that the circuit enables, on a shape that holds its
/// columns: on the two inputs, the output and the column of public inputs.
pub open spec fn tutorial_equality(declared: ShapeView, config: TutorialConfig) -> Result<
    ShapeView,
    Error,
> {
    match declared.with_equality(config.l) {
        Err(e) => Err(e),
        Ok(s1) => match s1.with_equality(config.r) {
            Err(e) => Err(e),
            Ok(s2) => match s2.with_equality(config.o) {
                Err(e) => Err(e),
                Ok(s3) => s3.with_equality(config.pi),
            },
        },
    }
}

/// What the circuit declares: three private columns, five columns of
/// constants, the column of public inputs and a selector; equality on the
/// private columns and on the column of public inputs; and a gate,
/// `mini plonk`, under the selector.
pub open spec fn tutorial_configured(before: ShapeView, m: nat) -> Result<
    (ShapeView, TutorialConfig),
    Error,
> {
    let config = tutorial_handles(before);
    let declared = before.with_column(ColumnKind::Witness).with_column(
        ColumnKind::Witness,
    ).with_column(ColumnKind::Witness).with_column(ColumnKind::FixedConstant).with_column(
        ColumnKind::FixedConstant,
    ).with_column(ColumnKind::FixedConstant).with_column(ColumnKind::FixedConstant).with_column(
        ColumnKind::FixedConstant,
    ).with_column(ColumnKind::PublicInstance).with_selector();
    match tutorial_equality(declared, config) {
        Err(e) => Err(e),
        Ok(s) => match s.with_gate(
            GateView { name: "mini plonk"@, selector: config.q, poly: mini_plonk(config, m) },
        ) {
            Err(e) => Err(e),
            Ok(shape) => Ok((shape, config)),
        },
    }
}

/// The registry that configuration leaves, whether it succeeds or stops:
/// the columns and the selector are declared, and equality is enabled and
/// then `mini plonk` declared as far as each could be.
pub open spec fn tutorial_declared(before: ShapeView, m: nat) -> ShapeView {
    let config = tutorial_handles(before);
    let declared = before.with_column(ColumnKind::Witness).with_column(
        ColumnKind::Witness,
    ).with_column(ColumnKind::Witness).with_column(ColumnKind::FixedConstant).with_column(
        ColumnKind::FixedConstant,
    ).with_column(ColumnKind::FixedConstant).with_column(ColumnKind::FixedConstant).with_column(
        ColumnKind::FixedConstant,
    ).with_column(ColumnKind::PublicInstance).with_selector();
    let r1 = declared.with_equality(config.l);
    let l1 = kept(r1, declared);
    let r2 = and_equality(r1, config.r);
    let l2 = kept(r2, l1);
    let r3 = and_equality(r2, config.o);
    let l3 = kept(r3, l2);
    let r4 = and_equality(r3, config.pi);
    let l4 = kept(r4, l3);
    let r5 = and_gate(
        r4,
        GateView { name: "mini plonk"@, selector: config.q, poly: mini_plonk(config, m) },
    );
    kept(r5, l4)
}

/// The demand that two cells be equal, as a batch of one step.
pub open spec fn link(a: Cell, b: Cell) -> Seq<OpView> {
    seq![OpView::Equal { left: a, right: b }]
}

/// What the circuit makes of a trace. Row 0 holds `x * x`, row 1 `y * y`,
/// row 2 the product of the two squares and row 3 that product plus the
/// constant. The two inputs of each square are linked, each square is
/// linked to the input of row 2 that takes it, and the product to the left
/// input of row 3. The constant is bound to the public input 0 and the
/// result to the public input 1.
pub open spec fn tutorial_synthesized(
    config: TutorialConfig,
    x: Option<nat>,
    y: Option<nat>,
    constant: nat,
    m: nat,
    before: TraceView,
) -> Result<TraceView, Error> {
    let xx = value_mul(x, x, m);
    let yy = value_mul(y, y, m);
    let product = value_mul(xx, yy, m);
    let result = value_add(product, Some(constant), m);
    let row0 = row_cells(config, 0);
    let row1 = row_cells(config, 1);
    let row2 = row_cells(config, 2);
    let row3 = row_cells(config, 3);
    let t0 = then_all(before.after_all(multiply_row(config, 0, x, x, xx)), link(row0.0, row0.1));
    let t1 = then_all(then_all(t0, multiply_row(config, 1, y, y, yy)), link(row1.0, row1.1));
    let t2 = then_all(
        then_all(then_all(t1, multiply_row(config, 2, xx, yy, product)), link(row0.2, row2.0)),
        link(row1.2, row2.1),
    );
    let t3 = then_all(
        then_all(t2, add_row(config, 3, product, Some(constant), result)),
        link(row2.2, row3.0),
    );
    then_bind(then_bind(t3, row3.1, config.pi, 0), row3.2, config.pi, 1)
}

/// The structure of the trace does not depend on the witness. Whatever
/// `x`, `y` and the constant are, and whether `x` and `y` are known or not,
/// synthesis stops with the same error or fills the same cells, enables the
/// same selector on the same rows and records the same copy constraints and
/// bindings. A run without witness so shows the structure of every run.
pub proof fn lemma_general_structure(
    config: TutorialConfig,
    first: (Option<nat>, Option<nat>, nat),
    second: (Option<nat>, Option<nat>, nat),
    m: nat,
    before: TraceView,
)
    requires
        before.well_formed(),
    ensures
        outline(tutorial_synthesized(config, first.0, first.1, first.2, m, before)) == outline(
            tutorial_synthesized(config, second.0, second.1, second.2, m, before),
        ),
{
    let (x1, y1, c1) = first;
    let (x2, y2, c2) = second;
    let xx1 = value_mul(x1, x1, m);
    let yy1 = value_mul(y1, y1, m);
    let p1 = value_mul(xx1, yy1, m);
    let r1 = value_add(p1, Some(c1), m);
    let xx2 = value_mul(x2, x2, m);
    let yy2 = value_mul(y2, y2, m);
    let p2 = value_mul(xx2, yy2, m);
    let r2 = value_add(p2, Some(c2), m);
    let row0 = row_cells(config, 0);
    let row1 = row_cells(config, 1);
    let row2 = row_cells(config, 2);
    let row3 = row_cells(config, 3);
    let start = Ok::<TraceView, Error>(before);

    let m0a = multiply_row(config, 0, x1, x1, xx1);
    let m0b = multiply_row(config, 0, x2, x2, xx2);
    assert(all_erased(m0a) =~= all_erased(m0b));
    lemma_then_all_structure(start, start, m0a, m0b);
    let a1 = then_all(start, m0a);
    let b1 = then_all(start, m0b);
    lemma_then_all_structure(a1, b1, link(row0.0, row0.1), link(row0.0, row0.1));
    let a2 = then_all(a1, link(row0.0, row0.1));
    let b2 = then_all(b1, link(row0.0, row0.1));

    let m1a = multiply_row(config, 1, y1, y1, yy1);
    let m1b = multiply_row(config, 1, y2, y2, yy2);
    assert(all_erased(m1a) =~= all_erased(m1b));
    lemma_then_all_structure(a2, b2, m1a, m1b);
    let a3 = then_all(a2, m1a);
    let b3 = then_all(b2, m1b);
    lemma_then_all_structure(a3, b3, link(row1.0, row1.1), link(row1.0, row1.1));
    let a4 = then_all(a3, link(row1.0, row1.1));
    let b4 = then_all(b3, link(row1.0, row1.1));

    let m2a = multiply_row(config, 2, xx1, yy1, p1);
    let m2b = multiply_row(config, 2, xx2, yy2, p2);
    assert(all_erased(m2a) =~= all_erased(m2b));
    lemma_then_all_structure(a4, b4, m2a, m2b);
    let a5 = then_all(a4, m2a);
    let b5 = then_all(b4, m2b);
    lemma_then_all_structure(a5, b5, link(row0.2, row2.0), link(row0.2, row2.0));
    let a6 = then_all(a5, link(row0.2, row2.0));
    let b6 = then_all(b5, link(row0.2, row2.0));
    lemma_then_all_structure(a6, b6, link(row1.2, row2.1), link(row1.2, row2.1));
    let a7 = then_all(a6, link(row1.2, row2.1));
    let b7 = then_all(b6, link(row1.2, row2.1));

    let m3a = add_row(config, 3, p1, Some(c1), r1);
    let m3b = add_row(config, 3, p2, Some(c2), r2);
    assert(all_erased(m3a) =~= all_erased(m3b));
    lemma_then_all_structure(a7, b7, m3a, m3b);
    let a8 = then_all(a7, m3a);
    let b8 = then_all(b7, m3b);
    lemma_then_all_structure(a8, b8, link(row2.2, row3.0), link(row2.2, row3.0));
    let a9 = then_all(a8, link(row2.2, row3.0));
    let b9 = then_all(b8, link(row2.2, row3.0));

    lemma_then_bind_structure(a9, b9, row3.1, config.pi, 0);
    let a10 = then_bind(a9, row3.1, config.pi, 0);
    let b10 = then_bind(b9, row3.1, config.pi, 0);
    lemma_then_bind_structure(a10, b10, row3.2, config.pi, 1);
    assert(then_all(start, m0a) == before.after_all(m0a));
    assert(then_all(start, m0b) == before.after_all(m0b));
}

/// The handles of the circuit on a shape that held nothing before: the
/// columns 0 to 8 and the selector 0.
pub open spec fn first_handles() -> TutorialConfig {
    tutorial_handles(empty_shape(0))
}

/// The one gate of the circuit.
pub open spec fn plonk_gate(m: nat) -> GateView {
    GateView {
        name: "mini plonk"@,
        selector: first_handles().q,
        poly: mini_plonk(first_handles(), m),
    }
}

/// The kinds of the columns of the circuit.
pub open spec fn plonk_kinds() -> Seq<ColumnKind> {
    seq![
        ColumnKind::Witness,
        ColumnKind::Witness,
        ColumnKind::Witness,
        ColumnKind::FixedConstant,
        ColumnKind::FixedConstant,
        ColumnKind::FixedConstant,
        ColumnKind::FixedConstant,
        ColumnKind::FixedConstant,
        ColumnKind::PublicInstance,
    ]
}

/// For each column of the circuit, whether it has equality.
pub open spec fn plonk_equality() -> Seq<bool> {
    seq![true, true, true, false, false, false, false, false, true]
}

/// Configuration succeeds on a shape that holds nothing: it declares nine
/// columns, one selector and one gate.
pub proof fn lemma_general_shape(rows: nat, m: nat)
    ensures
        tutorial_configured(empty_shape(rows), m) is Ok,
        tutorial_configured(empty_shape(rows), m).unwrap().1 == first_handles(),
        tutorial_configured(empty_shape(rows), m).unwrap().0.rows == rows,
        tutorial_configured(empty_shape(rows), m).unwrap().0.kinds == plonk_kinds(),
        tutorial_configured(empty_shape(rows), m).unwrap().0.equality == plonk_equality(),
        tutorial_configured(empty_shape(rows), m).unwrap().0.selectors == 1,
        tutorial_configured(empty_shape(rows), m).unwrap().0.gates == seq![plonk_gate(m)],
{
    reveal_with_fuel(ExprView::reads_only, 6);
    let config = first_handles();
    assert(tutorial_handles(empty_shape(rows)) == config);
    let declared = empty_shape(rows).with_column(ColumnKind::Witness).with_column(
        ColumnKind::Witness,
    ).with_column(ColumnKind::Witness).with_column(ColumnKind::FixedConstant).with_column(
        ColumnKind::FixedConstant,
    ).with_column(ColumnKind::FixedConstant).with_column(ColumnKind::FixedConstant).with_column(
        ColumnKind::FixedConstant,
    ).with_column(ColumnKind::PublicInstance).with_selector();
    assert(declared.kinds =~= plonk_kinds());
    assert(declared.equality =~= seq![
        false,
        false,
        false,
        false,
        false,
        false,
        false,
        false,
        false,
    ]);
    let s1 = declared.with_equality(config.l).unwrap();
    let s2 = s1.with_equality(config.r).unwrap();
    let s3 = s2.with_equality(config.o).unwrap();
    let s4 = s3.with_equality(config.pi).unwrap();
    assert(s4.equality =~= plonk_equality());
    assert(tutorial_equality(declared, config) == Ok::<ShapeView, Error>(s4));
    assert(plonk_gate(m).poly.reads_only(plonk_kinds()));
    let shape = s4.with_gate(plonk_gate(m)).unwrap();
    assert(shape.gates =~= seq![plonk_gate(m)]);
}

/// What a cell of a gate row holds: the two inputs, the output and the five
/// constants, in the order of the columns.
pub open spec fn row_slot(
    column: int,
    lhs: Option<nat>,
    rhs: Option<nat>,
    out: Option<nat>,
    sl: nat,
    sr: nat,
    sm: nat,
    so: nat,
    sc: nat,
) -> Option<nat> {
    if column == 0 {
        lhs
    } else if column == 1 {
        rhs
    } else if column == 2 {
        out
    } else if column == 3 {
        Some(sm)
    } else if column == 4 {
        Some(sl)
    } else if column == 5 {
        Some(sr)
    } else if column == 6 {
        Some(so)
    } else {
        Some(sc)
    }
}

/// Whether the trace has the columns and the selector of the circuit, and
/// the cells of its gate row `row` are empty.
pub open spec fn row_free(t: TraceView, row: usize) -> bool {
    &&& t.well_formed()
    &&& t.kinds == plonk_kinds()
    &&& t.equality == plonk_equality()
    &&& t.enabled.len() == 1
    &&& row < t.rows
    &&& forall|column: usize| column < 8 ==> (#[trigger] t.slot(Cell { column, row })) is None
}

/// Whether `s` is `t` with nothing changed but what `cells` and `switch`
/// tell apart.
pub open spec fn same_but(
    t: TraceView,
    s: TraceView,
    cells: spec_fn(Cell) -> Option<Option<nat>>,
    switch: spec_fn(Selector, int) -> bool,
    links: Seq<(Cell, Cell)>,
) -> bool {
    &&& s.well_formed()
    &&& s.rows == t.rows
    &&& s.kinds == t.kinds
    &&& s.equality == t.equality
    &&& s.enabled.len() == t.enabled.len()
    &&& s.bindings == t.bindings
    &&& s.copies == t.copies + links
    &&& forall|cell: Cell| #[trigger]
        s.slot(cell) == match cells(cell) {
            Some(v) => Some(v),
            None => t.slot(cell),
        }
    &&& forall|selector: Selector, row: int| #[trigger]
        s.is_enabled(selector, row) == (t.is_enabled(selector, row) || switch(selector, row))
}

/// What a gate row leaves to be seen.
pub proof fn lemma_gate_row_added(
    t: TraceView,
    row: usize,
    lhs: Option<nat>,
    rhs: Option<nat>,
    out: Option<nat>,
    sl: nat,
    sr: nat,
    sm: nat,
    so: nat,
    sc: nat,
)
    requires
        row_free(t, row),
    ensures
        t.after_all(gate_row(first_handles(), row, lhs, rhs, out, sl, sr, sm, so, sc)) is Ok,
        same_but(
            t,
            t.after_all(gate_row(first_handles(), row, lhs, rhs, out, sl, sr, sm, so, sc)).unwrap(),
            |cell: Cell|
                if cell.column < 8 && cell.row == row {
                    Some(row_slot(cell.column as int, lhs, rhs, out, sl, sr, sm, so, sc))
                } else {
                    None
                },
            |selector: Selector, r: int| selector == first_handles().q && r == row,
            Seq::empty(),
        ),
{
    let config = first_handles();
    let o0 = OpView::Enable { selector: config.q, row };
    let o1 = OpView::Assign { column: config.l, row, value: lhs };
    let o2 = OpView::Assign { column: config.r, row, value: rhs };
    let o3 = OpView::Assign { column: config.o, row, value: out };
    let o4 = OpView::Assign { column: config.sl, row, value: Some(sl) };
    let o5 = OpView::Assign { column: config.sr, row, value: Some(sr) };
    let o6 = OpView::Assign { column: config.sm, row, value: Some(sm) };
    let o7 = OpView::Assign { column: config.so, row, value: Some(so) };
    let o8 = OpView::Assign { column: config.sc, row, value: Some(sc) };
    let none = Seq::<OpView>::empty();
    let p0 = none.push(o0);
    let p1 = p0.push(o1);
    let p2 = p1.push(o2);
    let p3 = p2.push(o3);
    let p4 = p3.push(o4);
    let p5 = p4.push(o5);
    let p6 = p5.push(o6);
    let p7 = p6.push(o7);
    let p8 = p7.push(o8);
    assert(gate_row(config, row, lhs, rhs, out, sl, sr, sm, so, sc) =~= p8);
    lemma_one_more(t, none, o0);
    lemma_one_more(t, p0, o1);
    lemma_one_more(t, p1, o2);
    lemma_one_more(t, p2, o3);
    lemma_one_more(t, p3, o4);
    lemma_one_more(t, p4, o5);
    lemma_one_more(t, p5, o6);
    lemma_one_more(t, p6, o7);
    lemma_one_more(t, p7, o8);
    assert(t.slot(Cell { column: 0, row }) is None);
    assert(t.slot(Cell { column: 1, row }) is None);
    assert(t.slot(Cell { column: 2, row }) is None);
    assert(t.slot(Cell { column: 3, row }) is None);
    assert(t.slot(Cell { column: 4, row }) is None);
    assert(t.slot(Cell { column: 5, row }) is None);
    assert(t.slot(Cell { column: 6, row }) is None);
    assert(t.slot(Cell { column: 7, row }) is None);
    let t0 = t.after(o0).unwrap();
    lemma_step_seen(t, o0);
    assert(t0.slot(Cell { column: 0, row }) is None);
    let t1 = t0.after(o1).unwrap();
    lemma_step_seen(t0, o1);
    assert(t1.slot(Cell { column: 1, row }) is None);
    let t2 = t1.after(o2).unwrap();
    lemma_step_seen(t1, o2);
    assert(t2.slot(Cell { column: 2, row }) is None);
    let t3 = t2.after(o3).unwrap();
    lemma_step_seen(t2, o3);
    assert(t3.slot(Cell { column: 4, row }) == t.slot(Cell { column: 4, row }));
    let t4 = t3.after(o4).unwrap();
    lemma_step_seen(t3, o4);
    assert(t4.slot(Cell { column: 5, row }) == t.slot(Cell { column: 5, row }));
    let t5 = t4.after(o5).unwrap();
    lemma_step_seen(t4, o5);
    assert(t5.slot(Cell { column: 3, row }) == t.slot(Cell { column: 3, row }));
    let t6 = t5.after(o6).unwrap();
    lemma_step_seen(t5, o6);
    assert(t6.slot(Cell { column: 6, row }) == t.slot(Cell { column: 6, row }));
    let t7 = t6.after(o7).unwrap();
    lemma_step_seen(t6, o7);
    assert(t7.slot(Cell { column: 7, row }) == t.slot(Cell { column: 7, row }));
    let t8 = t7.after(o8).unwrap();
    lemma_step_seen(t7, o8);
    assert(t.after_all(p8) == Ok::<TraceView, Error>(t8));
    assert(t8.copies =~= t.copies + Seq::<(Cell, Cell)>::empty());
    assert forall|cell: Cell| #[trigger]
        t8.slot(cell) == (if cell.column < 8 && cell.row == row {
            Some(row_slot(cell.column as int, lhs, rhs, out, sl, sr, sm, so, sc))
        } else {
            t.slot(cell)
        }) by {
        assert(t8.slot(cell) == if assigns_to(o8, cell) {
            Some(Some(sc))
        } else {
            t7.slot(cell)
        });
        assert(t7.slot(cell) == if assigns_to(o7, cell) {
            Some(Some(so))
        } else {
            t6.slot(cell)
        });
        assert(t6.slot(cell) == if assigns_to(o6, cell) {
            Some(Some(sm))
        } else {
            t5.slot(cell)
        });
        assert(t5.slot(cell) == if assigns_to(o5, cell) {
            Some(Some(sr))
        } else {
            t4.slot(cell)
        });
        assert(t4.slot(cell) == if assigns_to(o4, cell) {
            Some(Some(sl))
        } else {
            t3.slot(cell)
        });
        assert(t3.slot(cell) == if assigns_to(o3, cell) {
            Some(out)
        } else {
            t2.slot(cell)
        });
        assert(t2.slot(cell) == if assigns_to(o2, cell) {
            Some(rhs)
        } else {
            t1.slot(cell)
        });
        assert(t1.slot(cell) == if assigns_to(o1, cell) {
            Some(lhs)
        } else {
            t0.slot(cell)
        });
        assert(t0.slot(cell) == t.slot(cell));
    }
    assert forall|selector: Selector, r: int| #[trigger]
        t8.is_enabled(selector, r) == (t.is_enabled(selector, r) || (selector == config.q && r
            == row)) by {
        assert(t8.is_enabled(selector, r) == t7.is_enabled(selector, r));
        assert(t7.is_enabled(selector, r) == t6.is_enabled(selector, r));
        assert(t6.is_enabled(selector, r) == t5.is_enabled(selector, r));
        assert(t5.is_enabled(selector, r) == t4.is_enabled(selector, r));
        assert(t4.is_enabled(selector, r) == t3.is_enabled(selector, r));
        assert(t3.is_enabled(selector, r) == t2.is_enabled(selector, r));
        assert(t2.is_enabled(selector, r) == t1.is_enabled(selector, r));
        assert(t1.is_enabled(selector, r) == t0.is_enabled(selector, r));
    }
}

/// What a link between two cells leaves to be seen.
pub proof fn lemma_link_added(t: TraceView, a: Cell, b: Cell)
    requires
        t.well_formed(),
        t.kinds == plonk_kinds(),
        t.equality == plonk_equality(),
        a.column < 3,
        b.column < 3,
        a.row < t.rows,
        b.row < t.rows,
    ensures
        t.after_all(link(a, b)) is Ok,
        same_but(
            t,
            t.after_all(link(a, b)).unwrap(),
            |cell: Cell| None,
            |selector: Selector, r: int| false,
            seq![(a, b)],
        ),
{
    let op = OpView::Equal { left: a, right: b };
    let none = Seq::<OpView>::empty();
    assert(link(a, b) =~= none.push(op));
    lemma_one_more(t, none, op);
    lemma_step_seen(t, op);
    let s = t.after(op).unwrap();
    assert(s.copies =~= t.copies + seq![(a, b)]);
}

/// The value of the polynomial of the one gate on a row that holds the
/// given inputs, output and constants.
pub open spec fn plonk_value(
    l: nat,
    r: nat,
    o: nat,
    sl: nat,
    sr: nat,
    sm: nat,
    so: nat,
    sc: nat,
    m: nat,
) -> nat {
    add_mod(
        add_mod(
            add_mod(
                add_mod(mul_mod(l, sl, m), mul_mod(r, sr, m), m),
                mul_mod(mul_mod(l, r, m), sm, m),
                m,
            ),
            mul_mod(mul_mod(o, so, m), neg_mod(1, m), m),
            m,
        ),
        sc,
        m,
    )
}

/// A residue times one, times the additive inverse of one, is the additive
/// inverse of the residue.
pub proof fn lemma_times_minus_one(p: nat, m: nat)
    requires
        m > 1,
        p < m,
    ensures
        mul_mod(mul_mod(p, 1, m), neg_mod(1, m), m) == neg_mod(p, m),
{
    lemma_small_mod(p, m);
    lemma_small_mod(1, m);
    lemma_small_mod((m - 1) as nat, m);
    assert(neg_mod(1, m) == m - 1);
    assert(mul_mod(p, 1, m) == p);
    if p == 0 {
        lemma_mod_self_0(m as int);
        assert(0 * (m - 1) == 0) by (nonlinear_arith);
    } else {
        assert(p * (m - 1) == m * (p - 1) + (m - p)) by (nonlinear_arith);
        lemma_mod_multiples_vanish(p - 1, m - p, m as int);
    }
}

/// A residue and its additive inverse add up to zero.
pub proof fn lemma_cancel(s: nat, m: nat)
    requires
        m > 0,
        s < m,
    ensures
        add_mod(s, neg_mod(s, m), m) == 0,
{
    lemma_small_mod(s, m);
    lemma_mod_self_0(m as int);
    if s > 0 {
        lemma_small_mod((m - s) as nat, m);
    }
}

/// With the constants of a multiplication row, the polynomial vanishes
/// where the output is the product of the inputs.
pub proof fn lemma_multiply_vanishes(l: nat, r: nat, m: nat)
    requires
        m > 1,
    ensures
        plonk_value(l, r, mul_mod(l, r, m), 0, 0, 1, 1, 0, m) == 0,
{
    let p = mul_mod(l, r, m);
    lemma_mod_bound((l * r) as int, m as int);
    lemma_small_mod(0, m);
    lemma_small_mod(p, m);
    assert(l * 0 == 0 && r * 0 == 0) by (nonlinear_arith);
    assert(mul_mod(l, 0, m) == 0 && mul_mod(r, 0, m) == 0);
    assert(mul_mod(p, 1, m) == p);
    lemma_times_minus_one(p, m);
    lemma_cancel(p, m);
}

/// With the constants of an addition row, the polynomial vanishes where
/// the output is the sum of the inputs.
pub proof fn lemma_add_vanishes(l: nat, r: nat, m: nat)
    requires
        m > 1,
        l < m,
        r < m,
    ensures
        plonk_value(l, r, add_mod(l, r, m), 1, 1, 0, 1, 0, m) == 0,
{
    let s = add_mod(l, r, m);
    lemma_mod_bound((l + r) as int, m as int);
    lemma_small_mod(0, m);
    lemma_small_mod(l, m);
    lemma_small_mod(r, m);
    lemma_small_mod(s, m);
    assert(mul_mod(l, 1, m) == l && mul_mod(r, 1, m) == r);
    assert(mul_mod(l, r, m) * 0 == 0) by (nonlinear_arith);
    assert(mul_mod(mul_mod(l, r, m), 0, m) == 0);
    lemma_times_minus_one(s, m);
    lemma_cancel(s, m);
}

/// What the cell holds once the circuit is laid out on an empty table for
/// the witness `x`, `y` and the constant `c`.
pub open spec fn general_slot(cell: Cell, x: nat, y: nat, c: nat, m: nat) -> Option<Option<nat>> {
    let xx = mul_mod(x, x, m);
    let yy = mul_mod(y, y, m);
    let product = mul_mod(xx, yy, m);
    let result = add_mod(product, c, m);
    let column = cell.column as int;
    if cell.column < 8 && cell.row < 4 {
        if cell.row == 0 {
            Some(row_slot(column, Some(x), Some(x), Some(xx), 0, 0, 1, 1, 0))
        } else if cell.row == 1 {
            Some(row_slot(column, Some(y), Some(y), Some(yy), 0, 0, 1, 1, 0))
        } else if cell.row == 2 {
            Some(row_slot(column, Some(xx), Some(yy), Some(product), 0, 0, 1, 1, 0))
        } else {
            Some(row_slot(column, Some(product), Some(c), Some(result), 1, 1, 0, 1, 0))
        }
    } else {
        None
    }
}

/// The copy constraints of the circuit.
pub open spec fn general_links() -> Seq<(Cell, Cell)> {
    seq![
        (Cell { column: 0, row: 0 }, Cell { column: 1, row: 0 }),
        (Cell { column: 0, row: 1 }, Cell { column: 1, row: 1 }),
        (Cell { column: 2, row: 0 }, Cell { column: 0, row: 2 }),
        (Cell { column: 2, row: 1 }, Cell { column: 1, row: 2 }),
        (Cell { column: 2, row: 2 }, Cell { column: 0, row: 3 }),
    ]
}

/// The bindings of the circuit: the right input of row 3 to the public
/// input 0, and the output of row 3 to the public input 1.
pub open spec fn general_bindings() -> Seq<Binding> {
    seq![
        Binding { cell: Cell { column: 1, row: 3 }, index: 0 },
        Binding { cell: Cell { column: 2, row: 3 }, index: 1 },
    ]
}

/// Whether the trace is the empty table of the circuit with the circuit
/// laid out on it.
pub open spec fn general_written(t: TraceView, rows: nat, x: nat, y: nat, c: nat, m: nat) -> bool {
    &&& t.well_formed()
    &&& t.rows == rows
    &&& t.kinds == plonk_kinds()
    &&& t.copies == general_links()
    &&& t.bindings == general_bindings()
    &&& forall|cell: Cell| #[trigger] t.slot(cell) == general_slot(cell, x, y, c, m)
    &&& forall|selector: Selector, row: int| #[trigger]
        t.is_enabled(selector, row) == (selector == first_handles().q && 0 <= row < 4)
}

/// The circuit can be laid out on every table of four rows or more, and
/// leaves the four gate rows, five copy constraints and two bindings.
pub proof fn lemma_general_written(rows: nat, x: nat, y: nat, c: nat, m: nat)
    requires
        4 <= rows,
        9 * rows <= usize::MAX,
    ensures
        tutorial_synthesized(
            first_handles(),
            Some(x),
            Some(y),
            c,
            m,
            empty_trace(tutorial_configured(empty_shape(rows), m).unwrap().0),
        ) is Ok,
        general_written(
            tutorial_synthesized(
                first_handles(),
                Some(x),
                Some(y),
                c,
                m,
                empty_trace(tutorial_configured(empty_shape(rows), m).unwrap().0),
            ).unwrap(),
            rows,
            x,
            y,
            c,
            m,
        ),
{
    lemma_general_shape(rows, m);
    let config = first_handles();
    let t0 = empty_trace(tutorial_configured(empty_shape(rows), m).unwrap().0);
    assert(t0.well_formed());
    let xx = mul_mod(x, x, m);
    let yy = mul_mod(y, y, m);
    let product = mul_mod(xx, yy, m);
    let result = add_mod(product, c, m);
    let row0 = row_cells(config, 0);
    let row1 = row_cells(config, 1);
    let row2 = row_cells(config, 2);
    let row3 = row_cells(config, 3);

    assert forall|column: usize| column < 8 implies (#[trigger] t0.slot(
        Cell { column, row: 0 },
    )) is None by {}
    lemma_gate_row_added(t0, 0, Some(x), Some(x), Some(xx), 0, 0, 1, 1, 0);
    let s1 = t0.after_all(multiply_row(config, 0, Some(x), Some(x), Some(xx))).unwrap();
    lemma_link_added(s1, row0.0, row0.1);
    let s2 = s1.after_all(link(row0.0, row0.1)).unwrap();

    assert forall|column: usize| column < 8 implies (#[trigger] s2.slot(
        Cell { column, row: 1 },
    )) is None by {
        assert(s1.slot(Cell { column, row: 1 }) == t0.slot(Cell { column, row: 1 }));
    }
    lemma_gate_row_added(s2, 1, Some(y), Some(y), Some(yy), 0, 0, 1, 1, 0);
    let s3 = s2.after_all(multiply_row(config, 1, Some(y), Some(y), Some(yy))).unwrap();
    lemma_link_added(s3, row1.0, row1.1);
    let s4 = s3.after_all(link(row1.0, row1.1)).unwrap();

    assert forall|column: usize| column < 8 implies (#[trigger] s4.slot(
        Cell { column, row: 2 },
    )) is None by {
        assert(s3.slot(Cell { column, row: 2 }) == s2.slot(Cell { column, row: 2 }));
        assert(s1.slot(Cell { column, row: 2 }) == t0.slot(Cell { column, row: 2 }));
    }
    lemma_gate_row_added(s4, 2, Some(xx), Some(yy), Some(product), 0, 0, 1, 1, 0);
    let s5 = s4.after_all(multiply_row(config, 2, Some(xx), Some(yy), Some(product))).unwrap();
    lemma_link_added(s5, row0.2, row2.0);
    let s6 = s5.after_all(link(row0.2, row2.0)).unwrap();
    lemma_link_added(s6, row1.2, row2.1);
    let s7 = s6.after_all(link(row1.2, row2.1)).unwrap();

    assert forall|column: usize| column < 8 implies (#[trigger] s7.slot(
        Cell { column, row: 3 },
    )) is None by {
        assert(s5.slot(Cell { column, row: 3 }) == s4.slot(Cell { column, row: 3 }));
        assert(s3.slot(Cell { column, row: 3 }) == s2.slot(Cell { column, row: 3 }));
        assert(s1.slot(Cell { column, row: 3 }) == t0.slot(Cell { column, row: 3 }));
    }
    lemma_gate_row_added(s7, 3, Some(product), Some(c), Some(result), 1, 1, 0, 1, 0);
    let s8 = s7.after_all(add_row(config, 3, Some(product), Some(c), Some(result))).unwrap();
    lemma_link_added(s8, row2.2, row3.0);
    let s9 = s8.after_all(link(row2.2, row3.0)).unwrap();

    let b1 = s9.after_bind(row3.1, config.pi, 0).unwrap();
    let t = b1.after_bind(row3.2, config.pi, 1).unwrap();
    assert(tutorial_synthesized(config, Some(x), Some(y), c, m, t0) == Ok::<TraceView, Error>(t));
    assert(t.bindings =~= general_bindings());
    assert(t.copies =~= general_links());
    assert forall|cell: Cell| #[trigger] t.slot(cell) == general_slot(cell, x, y, c, m) by {
        assert(t.slot(cell) == s9.slot(cell));
        assert(s9.slot(cell) == s8.slot(cell));
        assert(s7.slot(cell) == s6.slot(cell));
        assert(s6.slot(cell) == s5.slot(cell));
        assert(s4.slot(cell) == s3.slot(cell));
        assert(s2.slot(cell) == s1.slot(cell));
        assert(t0.slot(cell) is None);
        assert(cell.column < 8 && cell.row == 3 || s8.slot(cell) == s7.slot(cell));
        assert(cell.column < 8 && cell.row == 2 || s5.slot(cell) == s4.slot(cell));
        assert(cell.column < 8 && cell.row == 1 || s3.slot(cell) == s2.slot(cell));
        assert(cell.column < 8 && cell.row == 0 || s1.slot(cell) == t0.slot(cell));
    }
    assert forall|selector: Selector, row: int| #[trigger]
        t.is_enabled(selector, row) == (selector == config.q && 0 <= row < 4) by {
        assert(t.is_enabled(selector, row) == s9.is_enabled(selector, row));
        assert(s9.is_enabled(selector, row) == s8.is_enabled(selector, row));
        assert(s7.is_enabled(selector, row) == s6.is_enabled(selector, row));
        assert(s6.is_enabled(selector, row) == s5.is_enabled(selector, row));
        assert(s4.is_enabled(selector, row) == s3.is_enabled(selector, row));
        assert(s2.is_enabled(selector, row) == s1.is_enabled(selector, row));
        assert(!t0.is_enabled(selector, row));
        assert(s8.is_enabled(selector, row) == (s7.is_enabled(selector, row) || (selector
            == config.q && row == 3)));
        assert(s5.is_enabled(selector, row) == (s4.is_enabled(selector, row) || (selector
            == config.q && row == 2)));
        assert(s3.is_enabled(selector, row) == (s2.is_enabled(selector, row) || (selector
            == config.q && row == 1)));
        assert(s1.is_enabled(selector, row) == (t0.is_enabled(selector, row) || (selector
            == config.q && row == 0)));
    }
    assert forall|i: int| 0 <= i < t.bindings.len() implies t.holds(
        (#[trigger] t.bindings[i]).cell,
    ) by {}
}

/// On a row whose cells hold the given inputs, output and constants, the
/// polynomial of the one gate evaluates to their `plonk_value`.
pub proof fn lemma_plonk_eval(
    t: TraceView,
    row: int,
    m: nat,
    l: nat,
    r: nat,
    o: nat,
    sl: nat,
    sr: nat,
    sm: nat,
    so: nat,
    sc: nat,
)
    requires
        0 <= row < t.rows,
        t.rows <= usize::MAX,
        forall|column: usize|
            column < 8 ==> (#[trigger] t.slot(Cell { column, row: row as usize })) == Some(
                row_slot(column as int, Some(l), Some(r), Some(o), sl, sr, sm, so, sc),
            ),
    ensures
        plonk_gate(m).poly.eval(t, row, m) == Ok::<nat, Cell>(
            plonk_value(l, r, o, sl, sr, sm, so, sc, m),
        ),
{
    reveal_with_fuel(ExprView::eval, 7);
    lemma_small_mod(row as nat, t.rows);
    let at = |column: usize| Cell { column, row: row as usize };
    assert(t.known(at(0)) == Some(l)) by {
        assert(t.slot(Cell { column: 0, row: row as usize }) is Some);
    }
    assert(t.known(at(1)) == Some(r)) by {
        assert(t.slot(Cell { column: 1, row: row as usize }) is Some);
    }
    assert(t.known(at(2)) == Some(o)) by {
        assert(t.slot(Cell { column: 2, row: row as usize }) is Some);
    }
    assert(t.known(at(3)) == Some(sm)) by {
        assert(t.slot(Cell { column: 3, row: row as usize }) is Some);
    }
    assert(t.known(at(4)) == Some(sl)) by {
        assert(t.slot(Cell { column: 4, row: row as usize }) is Some);
    }
    assert(t.known(at(5)) == Some(sr)) by {
        assert(t.slot(Cell { column: 5, row: row as usize }) is Some);
    }
    assert(t.known(at(6)) == Some(so)) by {
        assert(t.slot(Cell { column: 6, row: row as usize }) is Some);
    }
    assert(t.known(at(7)) == Some(sc)) by {
        assert(t.slot(Cell { column: 7, row: row as usize }) is Some);
    }
}

/// The polynomial of the one gate over the integers:
/// `l*sl + r*sr + l*r*sm - o*so + sc`.
pub open spec fn plonk_sum(
    l: nat,
    r: nat,
    o: nat,
    sl: nat,
    sr: nat,
    sm: nat,
    so: nat,
    sc: nat,
) -> int {
    l * sl + r * sr + l * r * sm - o * so + sc
}

/// The value of the polynomial of the one gate is the residue of
/// `l*sl + r*sr + l*r*sm - o*so + sc`.
pub proof fn lemma_plonk_value(
    l: nat,
    r: nat,
    o: nat,
    sl: nat,
    sr: nat,
    sm: nat,
    so: nat,
    sc: nat,
    m: nat,
)
    requires
        m > 1,
    ensures
        plonk_value(l, r, o, sl, sr, sm, so, sc, m) == plonk_sum(l, r, o, sl, sr, sm, so, sc) % (
        m as int),
{
    let mi = m as int;
    let a = (l * sl) as int;
    let b = (r * sr) as int;
    let lr = (l * r) as int;
    let c = lr * sm;
    let d = (o * so) as int;
    lemma_small_mod(1, m);
    lemma_small_mod((m - 1) as nat, m);
    assert(neg_mod(1, m) == m - 1);
    lemma_add_mod_noop(a, b, mi);
    let s1 = add_mod(mul_mod(l, sl, m), mul_mod(r, sr, m), m);
    assert(s1 == (a + b) % mi);
    lemma_mul_mod_noop_left(lr, sm as int, mi);
    let t2 = mul_mod(mul_mod(l, r, m), sm, m);
    assert(t2 == c % mi);
    lemma_add_mod_noop(a + b, c, mi);
    let s2 = add_mod(s1, t2, m);
    assert(s2 == (a + b + c) % mi);
    lemma_mul_mod_noop_left(d, mi - 1, mi);
    let t3 = mul_mod(mul_mod(o, so, m), neg_mod(1, m), m);
    assert(t3 == (d * (mi - 1)) % mi);
    lemma_add_mod_noop(a + b + c, d * (mi - 1), mi);
    let s3 = add_mod(s2, t3, m);
    assert(s3 == (a + b + c + d * (mi - 1)) % mi);
    lemma_add_mod_noop_right(sc as int, a + b + c + d * (mi - 1), mi);
    let s4 = add_mod(s3, sc, m);
    assert(s4 == (sc + (a + b + c + d * (mi - 1))) % mi);
    let sum = plonk_sum(l, r, o, sl, sr, sm, so, sc);
    assert(sc + (a + b + c + d * (mi - 1)) == mi * d + sum) by (nonlinear_arith)
        requires
            sum == a + b + c - d + sc,
    ;
    lemma_mod_multiples_vanish(d, sum, mi);
}

/// The one gate is sound and complete on its own. On a row on which its
/// selector is enabled and whose cells hold the inputs `l` and `r`, the
/// output `o` and the constants, it holds exactly where
/// `l*sl + r*sr + l*r*sm - o*so + sc` is zero in the field; and where it
/// is not, it reports that row, under its name, as not satisfied.
pub proof fn lemma_plonk_row_decides(
    t: TraceView,
    row: int,
    m: nat,
    l: nat,
    r: nat,
    o: nat,
    sl: nat,
    sr: nat,
    sm: nat,
    so: nat,
    sc: nat,
)
    requires
        m > 1,
        0 <= row < t.rows,
        t.rows <= usize::MAX,
        t.is_enabled(first_handles().q, row),
        forall|column: usize|
            column < 8 ==> (#[trigger] t.slot(Cell { column, row: row as usize })) == Some(
                row_slot(column as int, Some(l), Some(r), Some(o), sl, sr, sm, so, sc),
            ),
    ensures
        row_holds(m, plonk_gate(m), t, row) <==> plonk_sum(l, r, o, sl, sr, sm, so, sc) % (
        m as int) == 0,
        plonk_sum(l, r, o, sl, sr, sm, so, sc) % (m as int) != 0 ==> gate_row_failure(
            m,
            plonk_gate(m),
            t,
            row,
        ) == seq![FailureView::GateNotSatisfied { gate: "mini plonk"@, row: row as usize }],
{
    lemma_plonk_eval(t, row, m, l, r, o, sl, sr, sm, so, sc);
    lemma_plonk_value(l, r, o, sl, sr, sm, so, sc, m);
}

/// Where the circuit is laid out, its gate holds on every row.
pub proof fn lemma_general_gates(t: TraceView, rows: nat, x: nat, y: nat, c: nat, m: nat, row: int)
    requires
        m > 1,
        c < m,
        4 <= rows,
        general_written(t, rows, x, y, c, m),
        0 <= row < rows,
    ensures
        row_holds(m, plonk_gate(m), t, row),
{
    let xx = mul_mod(x, x, m);
    let yy = mul_mod(y, y, m);
    let product = mul_mod(xx, yy, m);
    lemma_mod_bound((xx * yy) as int, m as int);
    assert(t.is_enabled(plonk_gate(m).selector, row) == (0 <= row < 4));
    if row < 4 {
        assert forall|column: usize| column < 8 implies (#[trigger] t.slot(
            Cell { column, row: row as usize },
        )) == general_slot(Cell { column, row: row as usize }, x, y, c, m) by {}
        if row == 0 {
            lemma_plonk_eval(t, row, m, x, x, xx, 0, 0, 1, 1, 0);
            lemma_multiply_vanishes(x, x, m);
        } else if row == 1 {
            lemma_plonk_eval(t, row, m, y, y, yy, 0, 0, 1, 1, 0);
            lemma_multiply_vanishes(y, y, m);
        } else if row == 2 {
            lemma_plonk_eval(t, row, m, xx, yy, product, 0, 0, 1, 1, 0);
            lemma_multiply_vanishes(xx, yy, m);
        } else {
            lemma_plonk_eval(t, row, m, product, c, add_mod(product, c, m), 1, 1, 0, 1, 0);
            lemma_add_vanishes(product, c, m);
        }
    }
}

/// The general circuit is sound and complete. It can be laid out on every
/// table of four rows or more that can be addressed, and for a known
/// witness the trace that it fills passes validation exactly where the
/// public input 0 is the constant and the public input 1 is
/// `x^2 * y^2 + constant`.
pub proof fn lemma_general_exact(rows: nat, x: nat, y: nat, c: nat, m: nat, public: Seq<nat>)
    requires
        m > 1,
        c < m,
        4 <= rows,
        9 * rows <= usize::MAX,
    ensures
        tutorial_configured(empty_shape(rows), m) is Ok,
        tutorial_synthesized(
            tutorial_configured(empty_shape(rows), m).unwrap().1,
            Some(x),
            Some(y),
            c,
            m,
            empty_trace(tutorial_configured(empty_shape(rows), m).unwrap().0),
        ) is Ok,
        satisfied(
            m,
            tutorial_configured(empty_shape(rows), m).unwrap().0,
            tutorial_synthesized(
                tutorial_configured(empty_shape(rows), m).unwrap().1,
                Some(x),
                Some(y),
                c,
                m,
                empty_trace(tutorial_configured(empty_shape(rows), m).unwrap().0),
            ).unwrap(),
            public,
        ) <==> public.len() > 1 && public[0] == c && public[1] == add_mod(
            mul_mod(mul_mod(x, x, m), mul_mod(y, y, m), m),
            c,
            m,
        ),
{
    lemma_general_shape(rows, m);
    lemma_general_written(rows, x, y, c, m);
    let shape = tutorial_configured(empty_shape(rows), m).unwrap().0;
    let t = tutorial_synthesized(first_handles(), Some(x), Some(y), c, m, empty_trace(shape)).unwrap();
    let result = add_mod(mul_mod(mul_mod(x, x, m), mul_mod(y, y, m), m), c, m);
    assert(gates_hold(m, shape, t)) by {
        assert forall|g: int, row: int|
            0 <= g < shape.gates.len() && 0 <= row < t.rows implies #[trigger] row_holds(
            m,
            shape.gates[g],
            t,
            row,
        ) by {
            assert(shape.gates[g] == plonk_gate(m));
            lemma_general_gates(t, rows, x, y, c, m, row);
        }
    }
    assert(copies_hold(t)) by {
        assert forall|e: int| 0 <= e < t.copies.len() implies t.known(
            (#[trigger] t.copies[e]).0,
        ) is Some && t.known(t.copies[e].0) == t.known(t.copies[e].1) by {
            assert(t.slot(t.copies[e].0) == general_slot(t.copies[e].0, x, y, c, m));
            assert(t.slot(t.copies[e].1) == general_slot(t.copies[e].1, x, y, c, m));
        }
        lemma_copies_edgewise(t);
    }
    let b0 = Cell { column: 1, row: 3 };
    let b1 = Cell { column: 2, row: 3 };
    assert(t.known(b0) == Some(c)) by {
        assert(t.slot(b0) == general_slot(b0, x, y, c, m));
    }
    assert(t.known(b1) == Some(result)) by {
        assert(t.slot(b1) == general_slot(b1, x, y, c, m));
    }
    if bindings_hold(t, public) {
        assert(t.bindings[0].index < public.len());
        assert(t.bindings[1].index < public.len());
    }
    if public.len() > 1 && public[0] == c && public[1] == result {
        assert forall|i: int| 0 <= i < t.bindings.len() implies (#[trigger] t.bindings[i]).index
            < public.len() && t.known(t.bindings[i].cell) == Some(
            public[t.bindings[i].index as int],
        ) by {}
    }
}

/// The mock prover accepts the general circuit with a known witness exactly
/// where the public input 0 is the constant and the public input 1 is
/// `x^2 * y^2 + constant`: the circuit can be laid out on every table of
/// `2^k` rows that has four rows and can be addressed, and its trace passes
/// validation exactly there.
pub proof fn lemma_general_layout<F: Field>(k: nat, circuit: TutorialCircuit<F>, public: Seq<nat>)
    requires
        circuit.x@ is Some,
        circuit.y@ is Some,
        4 <= pow2(k),
        9 * pow2(k) <= usize::MAX,
    ensures
        layout::<F, TutorialCircuit<F>>(k, circuit) is Ok,
        satisfied(
            F::modulus(),
            layout::<F, TutorialCircuit<F>>(k, circuit).unwrap().0,
            layout::<F, TutorialCircuit<F>>(k, circuit).unwrap().1,
            public,
        ) <==> public.len() > 1 && public[0] == circuit.constant.value() && public[1] == add_mod(
            mul_mod(
                mul_mod(circuit.x@.unwrap(), circuit.x@.unwrap(), F::modulus()),
                mul_mod(circuit.y@.unwrap(), circuit.y@.unwrap(), F::modulus()),
                F::modulus(),
            ),
            circuit.constant.value(),
            F::modulus(),
        ),
{
    F::lemma_modulus_above_one();
    circuit.constant.lemma_value_below_modulus();
    lemma_general_shape(pow2(k), F::modulus());
    lemma_general_exact(
        pow2(k),
        circuit.x@.unwrap(),
        circuit.y@.unwrap(),
        circuit.constant.value(),
        F::modulus(),
        public,
    );
    let shape = tutorial_configured(empty_shape(pow2(k)), F::modulus()).unwrap().0;
    assert(shape.kinds.len() == 9);
}

/// The trace that synthesis leaves, whether it succeeds or stops: each
/// region and each binding of `tutorial_synthesized`, in its order, as far
/// as each could be taken.
pub open spec fn tutorial_filled(
    config: TutorialConfig,
    x: Option<nat>,
    y: Option<nat>,
    constant: nat,
    m: nat,
    before: TraceView,
) -> TraceView {
    let xx = value_mul(x, x, m);
    let yy = value_mul(y, y, m);
    let product = value_mul(xx, yy, m);
    let result = value_add(product, Some(constant), m);
    let row0 = row_cells(config, 0);
    let row1 = row_cells(config, 1);
    let row2 = row_cells(config, 2);
    let row3 = row_cells(config, 3);
    let r0 = before.after_all(multiply_row(config, 0, x, x, xx));
    let l0 = held(r0, before);
    let r1 = then_all(r0, link(row0.0, row0.1));
    let l1 = held(r1, l0);
    let r2 = then_all(r1, multiply_row(config, 1, y, y, yy));
    let l2 = held(r2, l1);
    let r3 = then_all(r2, link(row1.0, row1.1));
    let l3 = held(r3, l2);
    let r4 = then_all(r3, multiply_row(config, 2, xx, yy, product));
    let l4 = held(r4, l3);
    let r5 = then_all(r4, link(row0.2, row2.0));
    let l5 = held(r5, l4);
    let r6 = then_all(r5, link(row1.2, row2.1));
    let l6 = held(r6, l5);
    let r7 = then_all(r6, add_row(config, 3, product, Some(constant), result));
    let l7 = held(r7, l6);
    let r8 = then_all(r7, link(row2.2, row3.0));
    let l8 = held(r8, l7);
    let r9 = then_bind(r8, row3.1, config.pi, 0);
    let l9 = held(r9, l8);
    let r10 = then_bind(r9, row3.2, config.pi, 1);
    held(r10, l9)
}

impl<F: Field> Circuit<F> for TutorialCircuit<F> {
    type Config = TutorialConfig;

    open spec fn configured(before: ShapeView) -> Result<(ShapeView, TutorialConfig), Error> {
        tutorial_configured(before, F::modulus())
    }

    open spec fn synthesized(&self, config: TutorialConfig, before: TraceView) -> Result<
        TraceView,
        Error,
    > {
        tutorial_synthesized(config, self.x@, self.y@, self.constant.value(), F::modulus(), before)
    }

    open spec fn declared(before: ShapeView) -> ShapeView {
        tutorial_declared(before, F::modulus())
    }

    open spec fn filled(&self, config: TutorialConfig, before: TraceView) -> TraceView {
        tutorial_filled(config, self.x@, self.y@, self.constant.value(), F::modulus(), before)
    }

    open spec fn blank(&self) -> bool {
        self.x@ is None && self.y@ is None && self.constant.value() == 0
    }

    /// The witness and the constant are all that a circuit holds, and the
    /// layout depends on neither.
    open spec fn same_shape(&self, other: &Self) -> bool {
        true
    }

    fn without_witnesses(&self) -> (r: Self) {
        let r = TutorialCircuit { x: Value::unknown(), y: Value::unknown(), constant: F::zero() };
        proof {
            assert forall|config: TutorialConfig, before: TraceView|
                before.well_formed() implies outline(#[trigger] r.synthesized(config, before))
                == outline(self.synthesized(config, before)) by {
                lemma_general_structure(
                    config,
                    (r.x@, r.y@, r.constant.value()),
                    (self.x@, self.y@, self.constant.value()),
                    F::modulus(),
                    before,
                );
            }
        }
        r
    }

    fn configure(meta: &mut CircuitShape<F>) -> (r: Result<TutorialConfig, Error>) {
        let l = meta.declare_column(ColumnKind::Witness);
        let r = meta.declare_column(ColumnKind::Witness);
        let o = meta.declare_column(ColumnKind::Witness);

        let sm = meta.declare_column(ColumnKind::FixedConstant);
        let sl = meta.declare_column(ColumnKind::FixedConstant);
        let sr = meta.declare_column(ColumnKind::FixedConstant);
        let so = meta.declare_column(ColumnKind::FixedConstant);
        let sc = meta.declare_column(ColumnKind::FixedConstant);

        let pi = meta.declare_column(ColumnKind::PublicInstance);
        let q = meta.declare_selector();

        meta.enable_equality(l)?;
        meta.enable_equality(r)?;
        meta.enable_equality(o)?;
        meta.enable_equality(pi)?;

        let left = Expr::query(l).mul(Expr::query(sl));
        let right = Expr::query(r).mul(Expr::query(sr));
        let both = Expr::query(l).mul(Expr::query(r)).mul(Expr::query(sm));
        let output = Expr::query(o).mul(Expr::query(so)).mul(Expr::constant(F::one().neg()));
        let poly = left.add(right).add(both).add(output).add(Expr::query(sc));
        meta.declare_gate("mini plonk", q, poly)?;

        Ok(TutorialConfig { l, r, o, sl, sr, so, sm, sc, pi, q })
    }

    fn synthesize(&self, config: TutorialConfig, trace: &mut Trace<F>) -> (r: Result<(), Error>)
        ensures
            final(trace).scope() == old(trace).scope(),
    {
        let chip = TutorialChip::<F>::new(config);

        let x = self.x;
        let y = self.y;
        let consty = Value::known(self.constant);
        let xx = x.mul(&x);
        let yy = y.mul(&y);
        let product = xx.mul(&yy);
        let result = product.add(&consty);

        // x^2
        let (a0, b0, c0) = chip.raw_multiply(trace, 0, x, x, xx)?;
        chip.copy(trace, a0, b0)?;

        // y^2
        let (a1, b1, c1) = chip.raw_multiply(trace, 1, y, y, yy)?;
        chip.copy(trace, a1, b1)?;

        // x^2 * y^2
        let (a2, b2, c2) = chip.raw_multiply(trace, 2, xx, yy, product)?;
        chip.copy(trace, c0, a2)?;
        chip.copy(trace, c1, b2)?;

        // x^2 * y^2 + constant
        let (a3, b3, c3) = chip.raw_add(trace, 3, product, consty, result)?;
        chip.copy(trace, c2, a3)?;

        chip.expose_public(trace, b3, 0)?;
        trace.constrain_instance(c3, config.pi, 1)
    }
}

} // verus!
