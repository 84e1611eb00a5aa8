//! The factoring circuit: it shows that a public number is the product of
//! two private ones.

use vstd::prelude::*;
use vstd::arithmetic::div_mod::{lemma_mod_bound, lemma_mod_self_0, lemma_small_mod};
use vstd::arithmetic::power2::{pow2, lemma_pow2_pos};
use crate::cell::{Cell, Column, ColumnKind, Selector};
use crate::circuit::Circuit;
use crate::error::Error;
use crate::expr::{Expr, ExprView};
use crate::field::{Field, mul_mod, sub_mod};
use crate::laws::{bindings_hold, copies_hold, gates_hold, row_holds, satisfied};
use crate::prover::layout;
use crate::region::{OpView, Region};
use crate::shape::{CircuitShape, GateView, ShapeView, and_equality, and_gate, empty_shape, kept};
use crate::trace::{
    Binding, Trace, TraceView, all_erased, empty_trace, lemma_bind_structure, lemma_one_more,
    held, lemma_step_seen, lemma_steps_structure, outline, then_bind,
};
use crate::value::Value;

verus! {

/// The handles of the factoring circuit: the columns of the two factors and
/// of the product, the column of the public input, and the selector of the
/// multiplication gate.
#[derive(Clone, Copy, Debug, PartialEq, Eq, Structural)]
pub struct FactorConfig {
    pub a: Column,
    pub b: Column,
    pub c: Column,
    pub instance: Column,
    pub s: Selector,
}

/// The circuit; its witness is the two factors.
#[derive(Debug, PartialEq, Eq)]
pub struct FactorCircuit<F> {
    pub a: F,
    pub b: F,
}

/// The polynomial of the multiplication gate: `a * b - c`.
pub open spec fn multiplication(a: Column, b: Column, c: Column) -> ExprView {
    ExprView::Difference(
        Box::new(
            ExprView::Product(
                Box::new(ExprView::Query { column: a, rotation: 0 }),
                Box::new(ExprView::Query { column: b, rotation: 0 }),
            ),
        ),
        Box::new(ExprView::Query { column: c, rotation: 0 }),
    )
}

/// The handles that configuration returns when it starts from `before`.
pub open spec fn factor_handles(before: ShapeView) -> FactorConfig {
    let first = before.kinds.len();
    FactorConfig {
        a: Column { index: first as usize, kind: ColumnKind::Witness },
        b: Column { index: (first + 1) as usize, kind: ColumnKind::Witness },
        c: Column { index: (first + 2) as usize, kind: ColumnKind::Witness },
        instance: Column { index: (first + 3) as usize, kind: ColumnKind::PublicInstance },
        s: Selector { index: before.selectors as usize },
    }
}

/// What the circuit declares: three private columns, the column of the
/// public input and a selector; equality on all four columns; and a gate,
/// `mul`, that demands `a * b - c = 0` where the selector is enabled.
pub open spec fn factor_configured(before: ShapeView) -> Result<(ShapeView, FactorConfig), Error> {
    let config = factor_handles(before);
    let declared = before.with_column(ColumnKind::Witness).with_column(
        ColumnKind::Witness,
    ).with_column(ColumnKind::Witness).with_column(ColumnKind::PublicInstance).with_selector();
    match declared.with_equality(config.a) {
        Err(e) => Err(e),
        Ok(s1) => match s1.with_equality(config.b) {
            Err(e) => Err(e),
            Ok(s2) => match s2.with_equality(config.c) {
                Err(e) => Err(e),
                Ok(s3) => match s3.with_equality(config.instance) {
                    Err(e) => Err(e),
                    Ok(s4) => match s4.with_gate(
                        GateView {
                            name: "mul"@,
                            selector: config.s,
                            poly: multiplication(config.a, config.b, config.c),
                        },
                    ) {
                        Err(e) => Err(e),
                        Ok(s5) => Ok((s5, config)),
                    },
                },
            },
        },
    }
}

/// The registry that configuration leaves, whether it succeeds or stops:
/// the columns and the selector are declared, and equality is enabled and
/// then `mul` declared as far as each could be.
pub open spec fn factor_declared(before: ShapeView) -> ShapeView {
    let config = factor_handles(before);
    let declared = before.with_column(ColumnKind::Witness).with_column(
        ColumnKind::Witness,
    ).with_column(ColumnKind::Witness).with_column(ColumnKind::PublicInstance).with_selector();
    let r1 = declared.with_equality(config.a);
    let l1 = kept(r1, declared);
    let r2 = and_equality(r1, config.b);
    let l2 = kept(r2, l1);
    let r3 = and_equality(r2, config.c);
    let l3 = kept(r3, l2);
    let r4 = and_equality(r3, config.instance);
    let l4 = kept(r4, l3);
    let r5 = and_gate(
        r4,
        GateView {
            name: "mul"@,
            selector: config.s,
            poly: multiplication(config.a, config.b, config.c),
        },
    );
    kept(r5, l4)
}

/// The steps of the one row: its selector is enabled, and the row holds
/// the two factors and their product.
pub open spec fn factor_row(config: FactorConfig, a: nat, b: nat, m: nat) -> Seq<OpView> {
    seq![
        OpView::Enable { selector: config.s, row: 0 },
        OpView::Assign { column: config.a, row: 0, value: Some(a) },
        OpView::Assign { column: config.b, row: 0, value: Some(b) },
        OpView::Assign { column: config.c, row: 0, value: Some(mul_mod(a, b, m)) },
    ]
}

/// What the circuit makes of a trace: the one row, and its product bound
/// to the first public input.
pub open spec fn factor_synthesized(
    config: FactorConfig,
    a: nat,
    b: nat,
    m: nat,
    before: TraceView,
) -> Result<TraceView, Error> {
    then_bind(
        before.after_all(factor_row(config, a, b, m)),
        Cell { column: config.c.index, row: 0 },
        config.instance,
        0,
    )
}

/// The structure of the trace does not depend on the witness. Whatever the
/// two factors are, synthesis stops with the same error or fills the same
/// cells, enables the same selector on the same row and records the same
/// binding.
pub proof fn lemma_factor_structure(
    config: FactorConfig,
    first: (nat, nat),
    second: (nat, nat),
    m: nat,
    before: TraceView,
)
    requires
        before.well_formed(),
    ensures
        outline(factor_synthesized(config, first.0, first.1, m, before)) == outline(
            factor_synthesized(config, second.0, second.1, m, before),
        ),
{
    let ops1 = factor_row(config, first.0, first.1, m);
    let ops2 = factor_row(config, second.0, second.1, m);
    assert(all_erased(ops1) =~= all_erased(ops2));
    lemma_steps_structure(before, ops1);
    lemma_steps_structure(before, ops2);
    let cell = Cell { column: config.c.index, row: 0 };
    if let Ok(t) = before.after_all(ops1) {
        lemma_bind_structure(t, cell, config.instance, 0);
    }
    if let Ok(t) = before.after_all(ops2) {
        lemma_bind_structure(t, cell, config.instance, 0);
    }
}

/// A residue less itself is zero.
pub proof fn lemma_sub_self(x: nat, m: nat)
    requires
        0 < m,
        x < m,
    ensures
        sub_mod(x, x, m) == 0,
{
    lemma_small_mod(x, m);
    lemma_mod_self_0(m as int);
}

/// The factoring circuit is sound and complete. It can be laid out on
/// every table that has a row and can be addressed, and the trace that it
/// fills passes validation exactly where the first public input is the
/// product of the two factors.
pub proof fn lemma_factor_exact(rows: nat, a: nat, b: nat, m: nat, public: Seq<nat>)
    requires
        0 < m,
        0 < rows,
        4 * rows <= usize::MAX,
    ensures
        factor_configured(empty_shape(rows)) is Ok,
        factor_synthesized(
            factor_configured(empty_shape(rows)).unwrap().1,
            a,
            b,
            m,
            empty_trace(factor_configured(empty_shape(rows)).unwrap().0),
        ) is Ok,
        satisfied(
            m,
            factor_configured(empty_shape(rows)).unwrap().0,
            factor_synthesized(
                factor_configured(empty_shape(rows)).unwrap().1,
                a,
                b,
                m,
                empty_trace(factor_configured(empty_shape(rows)).unwrap().0),
            ).unwrap(),
            public,
        ) <==> public.len() > 0 && public[0] == mul_mod(a, b, m),
{
    reveal_with_fuel(ExprView::reads_only, 4);
    reveal_with_fuel(ExprView::eval, 4);
    let config = factor_handles(empty_shape(rows));
    let gate = GateView {
        name: "mul"@,
        selector: config.s,
        poly: multiplication(config.a, config.b, config.c),
    };
    let kinds = seq![
        ColumnKind::Witness,
        ColumnKind::Witness,
        ColumnKind::Witness,
        ColumnKind::PublicInstance,
    ];
    let declared = empty_shape(rows).with_column(ColumnKind::Witness).with_column(
        ColumnKind::Witness,
    ).with_column(ColumnKind::Witness).with_column(ColumnKind::PublicInstance).with_selector();
    assert(declared.kinds =~= kinds);
    assert(declared.equality =~= seq![false, false, false, false]);
    let s1 = declared.with_equality(config.a).unwrap();
    let s2 = s1.with_equality(config.b).unwrap();
    let s3 = s2.with_equality(config.c).unwrap();
    let s4 = s3.with_equality(config.instance).unwrap();
    assert(s4.equality =~= seq![true, true, true, true]);
    assert(gate.poly.reads_only(kinds));
    let shape = s4.with_gate(gate).unwrap();
    assert(factor_configured(empty_shape(rows)) == Ok::<(ShapeView, FactorConfig), Error>(
        (shape, config),
    ));
    assert(shape.gates =~= seq![gate]);

    let product = mul_mod(a, b, m);
    let t0 = empty_trace(shape);
    assert(t0.well_formed());
    let o1 = OpView::Enable { selector: config.s, row: 0 };
    let o2 = OpView::Assign { column: config.a, row: 0, value: Some(a) };
    let o3 = OpView::Assign { column: config.b, row: 0, value: Some(b) };
    let o4 = OpView::Assign { column: config.c, row: 0, value: Some(product) };
    let none = Seq::<OpView>::empty();
    assert(factor_row(config, a, b, m) =~= none.push(o1).push(o2).push(o3).push(o4));
    lemma_one_more(t0, none, o1);
    lemma_one_more(t0, none.push(o1), o2);
    lemma_one_more(t0, none.push(o1).push(o2), o3);
    lemma_one_more(t0, none.push(o1).push(o2).push(o3), o4);
    let t1 = t0.after(o1).unwrap();
    lemma_step_seen(t0, o1);
    assert(t1.slot(Cell { column: 0, row: 0 }) is None);
    let t2 = t1.after(o2).unwrap();
    lemma_step_seen(t1, o2);
    assert(t2.slot(Cell { column: 1, row: 0 }) is None);
    let t3 = t2.after(o3).unwrap();
    lemma_step_seen(t2, o3);
    assert(t3.slot(Cell { column: 2, row: 0 }) is None);
    let t4 = t3.after(o4).unwrap();
    lemma_step_seen(t3, o4);
    assert(t0.after_all(factor_row(config, a, b, m)) == Ok::<TraceView, Error>(t4));
    let bound = Cell { column: 2, row: 0 };
    let t = t4.after_bind(bound, config.instance, 0).unwrap();
    assert(factor_synthesized(config, a, b, m, t0) == Ok::<TraceView, Error>(t));
    assert(t.bindings =~= seq![Binding { cell: bound, index: 0 }]);
    assert(t.copies =~= Seq::<(Cell, Cell)>::empty());

    assert(t.known(Cell { column: 0, row: 0 }) == Some(a)) by {
        assert(t.slot(Cell { column: 0, row: 0 }) == t4.slot(Cell { column: 0, row: 0 }));
    }
    assert(t.known(Cell { column: 1, row: 0 }) == Some(b)) by {
        assert(t.slot(Cell { column: 1, row: 0 }) == t4.slot(Cell { column: 1, row: 0 }));
    }
    assert(t.known(bound) == Some(product)) by {
        assert(t.slot(bound) == t4.slot(bound));
    }
    assert forall|row: int| 0 <= row < rows implies #[trigger] row_holds(m, gate, t, row) by {
        assert(t.is_enabled(config.s, row) == t4.is_enabled(config.s, row));
        if row == 0 {
            lemma_small_mod(0, rows);
            lemma_mod_bound((a * b) as int, m as int);
            lemma_sub_self(product, m);
            assert(gate.poly.eval(t, 0, m) == Ok::<nat, Cell>(sub_mod(product, product, m)));
        } else {
            assert(!t0.is_enabled(config.s, row));
            assert(!t.is_enabled(config.s, row));
        }
    }
    assert(gates_hold(m, shape, t)) by {
        assert forall|g: int, row: int|
            0 <= g < shape.gates.len() && 0 <= row < t.rows implies #[trigger] row_holds(
            m,
            shape.gates[g],
            t,
            row,
        ) by {
            assert(shape.gates[g] == gate);
            assert(row_holds(m, gate, t, row));
        }
    }
    assert(copies_hold(t));
    if bindings_hold(t, public) {
        assert(t.bindings[0].index < public.len());
    }
    if public.len() > 0 && public[0] == product {
        assert forall|i: int| 0 <= i < t.bindings.len() implies (#[trigger] t.bindings[i]).index
            < public.len() && t.known(t.bindings[i].cell) == Some(
            public[t.bindings[i].index as int],
        ) by {}
    }
}

/// The mock prover accepts the factoring circuit exactly where the first
/// public input is the product of the two factors: the circuit can be laid
/// out on every table of `2^k` rows that can be addressed, and its trace
/// passes validation exactly there.
pub proof fn lemma_factor_layout<F: Field>(k: nat, circuit: FactorCircuit<F>, public: Seq<nat>)
    requires
        4 * pow2(k) <= usize::MAX,
    ensures
        layout::<F, FactorCircuit<F>>(k, circuit) is Ok,
        satisfied(
            F::modulus(),
            layout::<F, FactorCircuit<F>>(k, circuit).unwrap().0,
            layout::<F, FactorCircuit<F>>(k, circuit).unwrap().1,
            public,
        ) <==> public.len() > 0 && public[0] == mul_mod(
            circuit.a.value(),
            circuit.b.value(),
            F::modulus(),
        ),
{
    lemma_pow2_pos(k);
    F::lemma_modulus_above_one();
    lemma_factor_exact(pow2(k), circuit.a.value(), circuit.b.value(), F::modulus(), public);
    let shape = factor_configured(empty_shape(pow2(k))).unwrap().0;
    assert(shape.kinds.len() == 4);
}

/// The trace that synthesis leaves, whether it succeeds or stops: the one
/// row, if it could be written, and the binding, if it could be recorded.
pub open spec fn factor_filled(
    config: FactorConfig,
    a: nat,
    b: nat,
    m: nat,
    before: TraceView,
) -> TraceView {
    let row = before.after_all(factor_row(config, a, b, m));
    let bound = then_bind(row, Cell { column: config.c.index, row: 0 }, config.instance, 0);
    held(bound, held(row, before))
}

impl<F: Field> Circuit<F> for FactorCircuit<F> {
    type Config = FactorConfig;

    open spec fn configured(before: ShapeView) -> Result<(ShapeView, FactorConfig), Error> {
        factor_configured(before)
    }

    open spec fn synthesized(&self, config: FactorConfig, before: TraceView) -> Result<
        TraceView,
        Error,
    > {
        factor_synthesized(config, self.a.value(), self.b.value(), F::modulus(), before)
    }

    open spec fn declared(before: ShapeView) -> ShapeView {
        factor_declared(before)
    }

    open spec fn filled(&self, config: FactorConfig, before: TraceView) -> TraceView {
        factor_filled(config, self.a.value(), self.b.value(), F::modulus(), before)
    }

    open spec fn blank(&self) -> bool {
        self.a.value() == 0 && self.b.value() == 0
    }

    /// The factors are all that a circuit holds.
    open spec fn same_shape(&self, other: &Self) -> bool {
        true
    }

    fn without_witnesses(&self) -> (r: Self) {
        let r = FactorCircuit { a: F::zero(), b: F::zero() };
        proof {
            assert forall|config: FactorConfig, before: TraceView|
                before.well_formed() implies outline(#[trigger] r.synthesized(config, before))
                == outline(self.synthesized(config, before)) by {
                lemma_factor_structure(
                    config,
                    (r.a.value(), r.b.value()),
                    (self.a.value(), self.b.value()),
                    F::modulus(),
                    before,
                );
            }
        }
        r
    }

    fn configure(meta: &mut CircuitShape<F>) -> (r: Result<FactorConfig, Error>) {
        let a = meta.declare_column(ColumnKind::Witness);
        let b = meta.declare_column(ColumnKind::Witness);
        let c = meta.declare_column(ColumnKind::Witness);
        let instance = meta.declare_column(ColumnKind::PublicInstance);
        let s = meta.declare_selector();
        meta.enable_equality(a)?;
        meta.enable_equality(b)?;
        meta.enable_equality(c)?;
        meta.enable_equality(instance)?;
        let poly = Expr::query(a).mul(Expr::query(b)).sub(Expr::query(c));
        meta.declare_gate("mul", s, poly)?;
        Ok(FactorConfig { a, b, c, instance, s })
    }

    fn synthesize(&self, config: FactorConfig, trace: &mut Trace<F>) -> (r: Result<(), Error>)
        ensures
            final(trace).scope() == old(trace).scope(),
    {
        let mut region = Region::new("assign the row");
        region.enable_selector(config.s, 0);
        let a_cell = region.assign(config.a, 0, Value::known(self.a));
        let b_cell = region.assign(config.b, 0, Value::known(self.b));
        let c_cell = region.assign(config.c, 0, a_cell.value.mul(&b_cell.value));
        assert(region@ =~= factor_row(config, self.a.value(), self.b.value(), F::modulus()));
        trace.assign_region(&region)?;
        trace.constrain_instance(c_cell.cell, config.instance, 0)
    }
}

} // verus!
