use trace_constraints::cell::{Cell, Column, ColumnKind, Selector};
use trace_constraints::chip::Chip;
use trace_constraints::circuit::Circuit;
use trace_constraints::error::Error;
use trace_constraints::expr::Expr;
use trace_constraints::factor::{FactorCircuit, FactorConfig};
use trace_constraints::failure::Failure;
use trace_constraints::fibonacci::chip::{FiboChip, FiboInstructions};
use trace_constraints::fibonacci::circuit::FiboCircuit;
use trace_constraints::fibonacci::config::FiboConfig;
use trace_constraints::field::Field;
use trace_constraints::general::{TutorialChip, TutorialCircuit, TutorialComposer, TutorialConfig};
use trace_constraints::pasta::Fp;
use trace_constraints::region::AssignedCell;
use trace_constraints::shape::CircuitShape;
use trace_constraints::trace::{Binding, Trace};
use trace_constraints::validate::validate;
use trace_constraints::value::Value;

fn known(v: u64) -> Value<Fp> {
    Value::known(Fp::from_u64(v))
}

fn witness(index: usize) -> Column {
    Column { index, kind: ColumnKind::Witness }
}

fn fixed(index: usize) -> Column {
    Column { index, kind: ColumnKind::FixedConstant }
}

fn fibo_setup(rows: usize) -> (CircuitShape<Fp>, FiboConfig) {
    let mut shape = CircuitShape::new(rows);
    let config = <FiboCircuit as Circuit<Fp>>::configure(&mut shape).unwrap();
    (shape, config)
}

#[test]
fn fibonacci_configuration_declares_four_columns_and_one_gate() {
    let (shape, config) = fibo_setup(8);
    assert_eq!(
        config,
        FiboConfig {
            a: witness(0),
            b: witness(1),
            c: witness(2),
            i: Column { index: 3, kind: ColumnKind::PublicInstance },
            s: Selector { index: 0 },
        }
    );
    assert_eq!(shape.equality(), &vec![true, true, true, true]);
    assert_eq!(shape.selectors(), 1);
    assert_eq!(shape.gates().len(), 1);
    assert_eq!(shape.gates()[0].name, "add");
    assert_eq!(shape.gates()[0].selector, config.s);
    assert_eq!(
        shape.gates()[0].poly,
        Expr::query(config.a).add(Expr::query(config.b)).sub(Expr::query(config.c))
    );
}

#[test]
fn fibonacci_chip_refuses_columns_with_equality() {
    let mut shape = CircuitShape::<Fp>::new(8);
    let a = shape.declare_column(ColumnKind::Witness);
    let b = shape.declare_column(ColumnKind::Witness);
    let c = shape.declare_column(ColumnKind::Witness);
    let i = shape.declare_column(ColumnKind::PublicInstance);
    let s = shape.declare_selector();
    shape.enable_equality(c).unwrap();
    assert_eq!(
        FiboChip::<Fp>::configure(&mut shape, [a, b, c], i, s),
        Err(Error::EqualityAlreadyEnabled)
    );
    assert_eq!(shape.gates().len(), 0);
}

#[test]
fn fibonacci_chip_refuses_an_undeclared_selector() {
    let mut shape = CircuitShape::<Fp>::new(8);
    let a = shape.declare_column(ColumnKind::Witness);
    let b = shape.declare_column(ColumnKind::Witness);
    let c = shape.declare_column(ColumnKind::Witness);
    let i = shape.declare_column(ColumnKind::PublicInstance);
    assert_eq!(
        FiboChip::<Fp>::configure(&mut shape, [a, b, c], i, Selector { index: 0 }),
        Err(Error::UndeclaredSelector)
    );
}

#[test]
fn fibonacci_chip_writes_rows() {
    let (shape, config) = fibo_setup(8);
    let chip = FiboChip::<Fp>::construct(config);
    assert_eq!(chip.config(), &config);
    assert_eq!(chip.loaded(), &());
    let mut trace = Trace::new(&shape).unwrap();
    let (a, b, c) = chip.write_first_row(&mut trace).unwrap();
    assert_eq!(a, AssignedCell { cell: Cell { column: 0, row: 0 }, value: known(1) });
    assert_eq!(b, AssignedCell { cell: Cell { column: 1, row: 0 }, value: known(1) });
    assert_eq!(c, AssignedCell { cell: Cell { column: 2, row: 0 }, value: known(2) });
    let (a5, b5, c5) = chip.write_next_row(&mut trace, &b, &c, 5).unwrap();
    assert_eq!(a5, AssignedCell { cell: Cell { column: 0, row: 5 }, value: known(1) });
    assert_eq!(b5, AssignedCell { cell: Cell { column: 1, row: 5 }, value: known(2) });
    assert_eq!(c5, AssignedCell { cell: Cell { column: 2, row: 5 }, value: known(3) });
    assert_eq!(
        trace.copies(),
        &vec![
            (Cell { column: 1, row: 0 }, Cell { column: 0, row: 5 }),
            (Cell { column: 2, row: 0 }, Cell { column: 1, row: 5 }),
        ]
    );
    assert!(trace.is_enabled(config.s, 0));
    assert!(trace.is_enabled(config.s, 5));
    assert!(!trace.is_enabled(config.s, 1));
    chip.expose_public(&mut trace, &c5).unwrap();
    assert_eq!(trace.bindings(), &vec![Binding { cell: Cell { column: 2, row: 5 }, index: 0 }]);
    assert_eq!(validate(&shape, &trace, &vec![Fp::from_u64(3)]), Ok(()));
}

#[test]
fn fibonacci_row_written_twice_is_a_conflict_and_leaves_the_trace() {
    let (shape, config) = fibo_setup(8);
    let chip = FiboChip::<Fp>::construct(config);
    let mut trace = Trace::new(&shape).unwrap();
    let (_, b, c) = chip.write_first_row(&mut trace).unwrap();
    let mut same = Trace::new(&shape).unwrap();
    chip.write_first_row(&mut same).unwrap();
    assert_eq!(
        chip.write_first_row(&mut trace).err(),
        Some(Error::AssignmentConflict { cell: Cell { column: 0, row: 0 } })
    );
    assert_eq!(
        chip.write_next_row(&mut trace, &b, &c, 0).err(),
        Some(Error::AssignmentConflict { cell: Cell { column: 0, row: 0 } })
    );
    assert_eq!(chip.write_next_row(&mut trace, &b, &c, 8).err(), Some(Error::RowOutOfRange));
    assert_eq!(trace, same);
}

#[test]
fn a_forged_term_is_exposed_by_the_copy_constraint_of_its_row() {
    let (shape, config) = fibo_setup(4);
    let chip = FiboChip::<Fp>::construct(config);
    let mut trace = Trace::new(&shape).unwrap();
    let (_, b, c) = chip.write_first_row(&mut trace).unwrap();
    // Row 1 is fed a forged term in place of the sum of row 0. Its gate
    // holds, and the copy constraint that comes with the row exposes it.
    let forged = AssignedCell { cell: c.cell, value: known(40) };
    let (_, _, c1) = chip.write_next_row(&mut trace, &b, &forged, 1).unwrap();
    assert_eq!(c1.value, known(41));
    chip.expose_public(&mut trace, &c1).unwrap();
    assert_eq!(
        validate(&shape, &trace, &vec![Fp::from_u64(41)]),
        Err(vec![Failure::CopyMismatch {
            cells: vec![Cell { column: 1, row: 1 }, Cell { column: 2, row: 0 }]
        }])
    );
}

#[test]
fn fibonacci_synthesis_opens_and_closes_its_namespaces() {
    let (shape, config) = fibo_setup(8);
    let mut trace = Trace::new(&shape).unwrap();
    trace.enter_namespace("outer");
    let circuit = FiboCircuit { n: 5 };
    Circuit::<Fp>::synthesize(&circuit, config, &mut trace).unwrap();
    assert_eq!(trace.namespaces(), &vec!["outer".to_string()]);
    trace.leave_namespace();
    trace.leave_namespace();
    assert_eq!(trace.namespaces().len(), 0);

    let mut short = Trace::new(&fibo_setup(2).0).unwrap();
    assert_eq!(
        Circuit::<Fp>::synthesize(&circuit, config, &mut short),
        Err(Error::RowOutOfRange)
    );
    assert_eq!(short.namespaces(), &vec!["next".to_string()]);
}

#[test]
fn namespaces_change_nothing_that_validation_sees() {
    let (shape, config) = fibo_setup(8);
    let chip = FiboChip::<Fp>::construct(config);
    let mut plain = Trace::new(&shape).unwrap();
    chip.write_first_row(&mut plain).unwrap();
    let mut labelled = Trace::new(&shape).unwrap();
    labelled.enter_namespace("a");
    labelled.enter_namespace("b");
    chip.write_first_row(&mut labelled).unwrap();
    assert_eq!(labelled.namespaces(), &vec!["a".to_string(), "b".to_string()]);
    assert_eq!(validate(&shape, &plain, &vec![]), validate(&shape, &labelled, &vec![]));
    labelled.leave_namespace();
    labelled.leave_namespace();
    assert_eq!(plain, labelled);
}

#[test]
fn factoring_configuration_declares_the_multiplication_gate() {
    let mut shape = CircuitShape::<Fp>::new(2);
    let config = FactorCircuit::<Fp>::configure(&mut shape).unwrap();
    assert_eq!(
        config,
        FactorConfig {
            a: witness(0),
            b: witness(1),
            c: witness(2),
            instance: Column { index: 3, kind: ColumnKind::PublicInstance },
            s: Selector { index: 0 },
        }
    );
    assert_eq!(shape.gates()[0].name, "mul");
    assert_eq!(
        shape.gates()[0].poly,
        Expr::query(config.a).mul(Expr::query(config.b)).sub(Expr::query(config.c))
    );
    assert_eq!(shape.equality(), &vec![true, true, true, true]);
}

#[test]
fn factoring_on_a_shape_that_holds_columns_already() {
    let mut shape = CircuitShape::<Fp>::new(2);
    shape.declare_column(ColumnKind::FixedConstant);
    shape.declare_selector();
    let config = FactorCircuit::<Fp>::configure(&mut shape).unwrap();
    assert_eq!(config.a, witness(1));
    assert_eq!(config.instance, Column { index: 4, kind: ColumnKind::PublicInstance });
    assert_eq!(config.s, Selector { index: 1 });
    let circuit = FactorCircuit { a: Fp::from_u64(6), b: Fp::from_u64(7) };
    let mut trace = Trace::new(&shape).unwrap();
    circuit.synthesize(config, &mut trace).unwrap();
    assert_eq!(trace.known(Cell { column: 3, row: 0 }), Some(Fp::from_u64(42)));
    assert_eq!(validate(&shape, &trace, &vec![Fp::from_u64(42)]), Ok(()));
    assert_eq!(
        circuit.synthesize(config, &mut trace),
        Err(Error::AssignmentConflict { cell: Cell { column: 1, row: 0 } })
    );
}

#[test]
fn factoring_wraps_round_the_modulus() {
    let top = Fp::zero().sub(&Fp::one());
    let circuit = FactorCircuit { a: top, b: top };
    let mut shape = CircuitShape::<Fp>::new(1);
    let config = FactorCircuit::<Fp>::configure(&mut shape).unwrap();
    let mut trace = Trace::new(&shape).unwrap();
    circuit.synthesize(config, &mut trace).unwrap();
    assert_eq!(validate(&shape, &trace, &vec![Fp::one()]), Ok(()));
}

fn general_setup(rows: usize) -> (CircuitShape<Fp>, TutorialConfig) {
    let mut shape = CircuitShape::new(rows);
    let config = TutorialCircuit::<Fp>::configure(&mut shape).unwrap();
    (shape, config)
}

#[test]
fn general_configuration_declares_nine_columns_and_one_gate() {
    let (shape, config) = general_setup(4);
    assert_eq!(
        config,
        TutorialConfig {
            l: witness(0),
            r: witness(1),
            o: witness(2),
            sm: fixed(3),
            sl: fixed(4),
            sr: fixed(5),
            so: fixed(6),
            sc: fixed(7),
            pi: Column { index: 8, kind: ColumnKind::PublicInstance },
            q: Selector { index: 0 },
        }
    );
    assert_eq!(
        shape.equality(),
        &vec![true, true, true, false, false, false, false, false, true]
    );
    assert_eq!(shape.gates().len(), 1);
    assert_eq!(shape.gates()[0].name, "mini plonk");
    let l = || Expr::query(config.l);
    let r = || Expr::query(config.r);
    let o = || Expr::query(config.o);
    assert_eq!(
        shape.gates()[0].poly,
        l().mul(Expr::query(config.sl))
            .add(r().mul(Expr::query(config.sr)))
            .add(l().mul(r()).mul(Expr::query(config.sm)))
            .add(o().mul(Expr::query(config.so)).mul(Expr::constant(Fp::one().neg())))
            .add(Expr::query(config.sc))
    );
}

#[test]
fn general_chip_rows_hold_their_gate() {
    let (shape, config) = general_setup(4);
    let chip = TutorialChip::<Fp>::new(config);
    assert_eq!(chip.config(), &config);
    assert_eq!(chip.loaded(), &());
    let mut trace = Trace::new(&shape).unwrap();
    let cells = chip.raw_multiply(&mut trace, 1, known(6), known(7), known(42)).unwrap();
    assert_eq!(
        cells,
        (Cell { column: 0, row: 1 }, Cell { column: 1, row: 1 }, Cell { column: 2, row: 1 })
    );
    chip.raw_add(&mut trace, 2, known(6), known(7), known(13)).unwrap();
    assert_eq!(validate(&shape, &trace, &vec![]), Ok(()));
    chip.raw_multiply(&mut trace, 0, known(6), known(7), known(13)).unwrap();
    chip.raw_add(&mut trace, 3, known(6), known(7), known(42)).unwrap();
    assert_eq!(
        validate(&shape, &trace, &vec![]),
        Err(vec![
            Failure::GateNotSatisfied { gate: "mini plonk".to_string(), row: 0 },
            Failure::GateNotSatisfied { gate: "mini plonk".to_string(), row: 3 },
        ])
    );
}

#[test]
fn general_chip_copies_and_exposes() {
    let (shape, config) = general_setup(4);
    let chip = TutorialChip::<Fp>::new(config);
    let mut trace = Trace::new(&shape).unwrap();
    let (l, r, o) = chip.raw_add(&mut trace, 0, known(2), known(2), known(4)).unwrap();
    chip.copy(&mut trace, l, r).unwrap();
    chip.expose_public(&mut trace, o, 2).unwrap();
    assert_eq!(trace.copies(), &vec![(l, r)]);
    assert_eq!(trace.bindings(), &vec![Binding { cell: o, index: 2 }]);
    assert_eq!(
        chip.copy(&mut trace, l, Cell { column: 3, row: 0 }),
        Err(Error::EqualityNotEnabled)
    );
    assert_eq!(chip.copy(&mut trace, l, Cell { column: 0, row: 4 }), Err(Error::RowOutOfRange));
    assert_eq!(
        chip.raw_add(&mut trace, 0, known(1), known(1), known(2)),
        Err(Error::AssignmentConflict { cell: Cell { column: 0, row: 0 } })
    );
    let inputs = vec![Fp::zero(), Fp::zero(), Fp::from_u64(4)];
    assert_eq!(validate(&shape, &trace, &inputs), Ok(()));
}

#[test]
fn general_chip_constants_fill_the_row() {
    let (shape, config) = general_setup(2);
    let chip = TutorialChip::<Fp>::new(config);
    let mut trace = Trace::new(&shape).unwrap();
    chip.raw_multiply(&mut trace, 0, known(1), known(1), known(1)).unwrap();
    chip.raw_add(&mut trace, 1, known(1), known(1), known(2)).unwrap();
    let constants = |row: usize| -> Vec<Option<Fp>> {
        [config.sl, config.sr, config.sm, config.so, config.sc]
            .iter()
            .map(|c| trace.known(c.at(row)))
            .collect()
    };
    let (zero, one) = (Some(Fp::zero()), Some(Fp::one()));
    assert_eq!(constants(0), vec![zero, zero, one, one, zero]);
    assert_eq!(constants(1), vec![one, one, zero, one, zero]);
}

#[test]
fn a_second_configuration_fails_and_leaves_the_registry() {
    let (mut shape, config) = fibo_setup(8);
    let (same, _) = fibo_setup(8);
    assert_eq!(
        FiboChip::<Fp>::configure(&mut shape, [config.a, config.b, config.c], config.i, config.s),
        Err(Error::EqualityAlreadyEnabled)
    );
    assert_eq!(shape, same);
    assert_eq!(shape.gates().len(), 1);
}

#[test]
fn a_configuration_that_stops_keeps_the_steps_before() {
    let mut shape = CircuitShape::<Fp>::new(8);
    let a = shape.declare_column(ColumnKind::Witness);
    let b = shape.declare_column(ColumnKind::Witness);
    let f = shape.declare_column(ColumnKind::FixedConstant);
    let i = shape.declare_column(ColumnKind::PublicInstance);
    let s = shape.declare_selector();
    assert_eq!(
        FiboChip::<Fp>::configure(&mut shape, [a, b, f], i, s),
        Err(Error::EqualityOnFixedColumn)
    );
    assert_eq!(shape.equality(), &vec![true, true, false, false]);
    assert_eq!(shape.kinds().len(), 4);
    assert_eq!(shape.selectors(), 1);
    assert_eq!(shape.gates().len(), 0);

    let mut repeated = CircuitShape::<Fp>::new(8);
    let a = repeated.declare_column(ColumnKind::Witness);
    let c = repeated.declare_column(ColumnKind::Witness);
    let i = repeated.declare_column(ColumnKind::PublicInstance);
    let s = repeated.declare_selector();
    assert_eq!(
        FiboChip::<Fp>::configure(&mut repeated, [a, a, c], i, s),
        Err(Error::EqualityAlreadyEnabled)
    );
    assert_eq!(repeated.equality(), &vec![true, false, false]);
    assert_eq!(repeated.gates().len(), 0);
}

#[test]
fn a_circuit_configured_twice_declares_again_and_succeeds() {
    let mut shape = CircuitShape::<Fp>::new(8);
    let first = <FiboCircuit as Circuit<Fp>>::configure(&mut shape).unwrap();
    let second = <FiboCircuit as Circuit<Fp>>::configure(&mut shape).unwrap();
    assert_eq!(first.a, witness(0));
    assert_eq!(second.a, witness(4));
    assert_eq!(second.s, Selector { index: 1 });
    assert_eq!(shape.gates().len(), 2);
}

#[test]
fn synthesis_that_stops_leaves_the_regions_before() {
    let (shape, config) = fibo_setup(2);
    let mut trace = Trace::new(&shape).unwrap();
    let circuit = FiboCircuit { n: 5 };
    assert_eq!(
        Circuit::<Fp>::synthesize(&circuit, config, &mut trace),
        Err(Error::RowOutOfRange)
    );
    assert_eq!(trace.known(Cell { column: 2, row: 0 }), Some(Fp::from_u64(2)));
    assert_eq!(trace.known(Cell { column: 2, row: 1 }), Some(Fp::from_u64(3)));
    assert_eq!(trace.copies().len(), 2);
    assert_eq!(trace.bindings().len(), 0);

    let (shape, config) = general_setup(2);
    let mut trace = Trace::new(&shape).unwrap();
    let circuit =
        TutorialCircuit { x: known(5), y: known(9), constant: Fp::from_u64(7) };
    assert_eq!(circuit.synthesize(config, &mut trace), Err(Error::RowOutOfRange));
    assert_eq!(trace.known(Cell { column: 2, row: 1 }), Some(Fp::from_u64(81)));
    assert_eq!(trace.copies().len(), 2);
    assert_eq!(trace.get(Cell { column: 0, row: 2 }), None);

    let too_few = FiboCircuit { n: 1 };
    let (shape, config) = fibo_setup(2);
    let mut trace = Trace::new(&shape).unwrap();
    let empty = Trace::new(&shape).unwrap();
    assert_eq!(
        Circuit::<Fp>::synthesize(&too_few, config, &mut trace),
        Err(Error::InvalidParameter)
    );
    assert_eq!(trace, empty);
}
