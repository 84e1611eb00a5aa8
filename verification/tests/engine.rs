use trace_constraints::cell::{Cell, Column, ColumnKind, Selector};
use trace_constraints::error::Error;
use trace_constraints::expr::{rotate, Expr};
use trace_constraints::failure::Failure;
use trace_constraints::field::Field;
use trace_constraints::pasta::Fp;
use trace_constraints::region::Region;
use trace_constraints::shape::CircuitShape;
use trace_constraints::trace::{Binding, Trace};
use trace_constraints::validate::validate;
use trace_constraints::value::Value;

struct Table {
    shape: CircuitShape<Fp>,
    a: Column,
    b: Column,
    c: Column,
    fixed: Column,
    instance: Column,
    s: Selector,
}

fn known(v: u64) -> Value<Fp> {
    Value::known(Fp::from_u64(v))
}

/// Three private columns with equality, a column of constants, a column of
/// public inputs, and one gate, `mul`: a * b - c.
fn table(rows: usize) -> Table {
    let mut shape = CircuitShape::new(rows);
    let a = shape.declare_column(ColumnKind::Witness);
    let b = shape.declare_column(ColumnKind::Witness);
    let c = shape.declare_column(ColumnKind::Witness);
    let fixed = shape.declare_column(ColumnKind::FixedConstant);
    let instance = shape.declare_column(ColumnKind::PublicInstance);
    let s = shape.declare_selector();
    shape.enable_equality(a).unwrap();
    shape.enable_equality(b).unwrap();
    shape.enable_equality(c).unwrap();
    shape.declare_gate("mul", s, Expr::query(a).mul(Expr::query(b)).sub(Expr::query(c))).unwrap();
    Table { shape, a, b, c, fixed, instance, s }
}

fn product_row(t: &Table, row: usize, a: u64, b: u64, c: u64) -> Region<Fp> {
    let mut region = Region::new("product");
    region.enable_selector(t.s, row);
    region.assign(t.a, row, known(a));
    region.assign(t.b, row, known(b));
    region.assign(t.c, row, known(c));
    region
}

#[test]
fn columns_and_selectors_are_numbered_in_order() {
    let t = table(4);
    assert_eq!(t.a, Column { index: 0, kind: ColumnKind::Witness });
    assert_eq!(t.c, Column { index: 2, kind: ColumnKind::Witness });
    assert_eq!(t.fixed, Column { index: 3, kind: ColumnKind::FixedConstant });
    assert_eq!(t.instance, Column { index: 4, kind: ColumnKind::PublicInstance });
    assert_eq!(t.s, Selector { index: 0 });
    assert_eq!(t.shape.rows(), 4);
    assert_eq!(t.shape.selectors(), 1);
    assert_eq!(t.shape.equality(), &vec![true, true, true, false, false]);
    assert_eq!(t.shape.gates().len(), 1);
    assert_eq!(t.shape.gates()[0].name, "mul");
    assert_eq!(t.a.at(3), Cell { column: 0, row: 3 });
}

#[test]
fn satisfied_gate_passes() {
    let t = table(4);
    let mut trace = Trace::new(&t.shape).unwrap();
    trace.assign_region(&product_row(&t, 1, 3, 4, 12)).unwrap();
    assert_eq!(validate(&t.shape, &trace, &vec![]), Ok(()));
    assert_eq!(trace.get(Cell { column: 2, row: 1 }), Some(known(12)));
    assert_eq!(trace.get(Cell { column: 2, row: 0 }), None);
    assert_eq!(trace.known(Cell { column: 1, row: 1 }), Some(Fp::from_u64(4)));
    assert!(trace.is_enabled(t.s, 1));
    assert!(!trace.is_enabled(t.s, 0));
}

#[test]
fn perturbed_value_fails_its_gate() {
    for (a, b, c) in [(4u64, 4u64, 12u64), (3, 5, 12), (3, 4, 13)] {
        let t = table(4);
        let mut trace = Trace::new(&t.shape).unwrap();
        trace.assign_region(&product_row(&t, 1, a, b, c)).unwrap();
        assert_eq!(
            validate(&t.shape, &trace, &vec![]),
            Err(vec![Failure::GateNotSatisfied { gate: "mul".to_string(), row: 1 }])
        );
    }
}

#[test]
fn gate_is_silent_where_its_selector_is_off() {
    let t = table(4);
    let mut trace = Trace::new(&t.shape).unwrap();
    let mut region = Region::new("no selector");
    region.assign(t.a, 0, known(3));
    region.assign(t.b, 0, known(4));
    region.assign(t.c, 0, known(99));
    trace.assign_region(&region).unwrap();
    assert_eq!(validate(&t.shape, &trace, &vec![]), Ok(()));
}

#[test]
fn gate_reports_the_first_cell_it_cannot_read() {
    let t = table(4);
    let mut trace = Trace::new(&t.shape).unwrap();
    let mut region = Region::new("gap");
    region.enable_selector(t.s, 2);
    region.assign(t.a, 2, known(3));
    region.assign(t.c, 2, known(12));
    trace.assign_region(&region).unwrap();
    assert_eq!(
        validate(&t.shape, &trace, &vec![]),
        Err(vec![Failure::UnassignedCell { cell: Cell { column: 1, row: 2 } }])
    );
}

#[test]
fn placeholder_counts_as_unassigned_at_validation() {
    let t = table(4);
    let mut trace = Trace::new(&t.shape).unwrap();
    let mut region = Region::new("placeholder");
    region.enable_selector(t.s, 0);
    region.assign(t.a, 0, known(3));
    region.assign(t.b, 0, known(4));
    region.assign(t.c, 0, Value::unknown());
    trace.assign_region(&region).unwrap();
    assert_eq!(trace.get(Cell { column: 2, row: 0 }), Some(Value::Unknown));
    assert_eq!(trace.known(Cell { column: 2, row: 0 }), None);
    assert_eq!(
        validate(&t.shape, &trace, &vec![]),
        Err(vec![Failure::UnassignedCell { cell: Cell { column: 2, row: 0 } }])
    );
}

#[test]
fn copy_constraints_are_transitive() {
    let t = table(4);
    let x = t.a.at(0);
    let y = t.b.at(1);
    let z = t.c.at(2);
    for (vx, vy, vz, ok) in [(7u64, 7u64, 7u64, true), (7, 7, 8, false), (8, 7, 7, false)] {
        let mut trace = Trace::new(&t.shape).unwrap();
        let mut region = Region::new("chain");
        region.assign(t.a, 0, known(vx));
        region.assign(t.b, 1, known(vy));
        region.assign(t.c, 2, known(vz));
        region.constrain_equal(x, y);
        region.constrain_equal(z, y);
        trace.assign_region(&region).unwrap();
        let expected =
            if ok { Ok(()) } else { Err(vec![Failure::CopyMismatch { cells: vec![x, y, z] }]) };
        assert_eq!(validate(&t.shape, &trace, &vec![]), expected);
    }
}

#[test]
fn ends_of_a_chain_must_agree_across_an_empty_cell() {
    let t = table(4);
    let x = t.a.at(3);
    let y = t.a.at(1);
    let z = t.a.at(0);
    let mut trace = Trace::new(&t.shape).unwrap();
    let mut region = Region::new("chain");
    region.assign(t.a, 3, known(1));
    region.assign(t.a, 0, known(2));
    region.constrain_equal(x, y);
    region.constrain_equal(y, z);
    trace.assign_region(&region).unwrap();
    assert_eq!(
        validate(&t.shape, &trace, &vec![]),
        Err(vec![
            Failure::UnassignedCell { cell: y },
            Failure::UnassignedCell { cell: y },
            Failure::CopyMismatch { cells: vec![z, y, x] },
        ])
    );
}

#[test]
fn separate_classes_are_reported_separately_in_table_order() {
    let t = table(4);
    let mut trace = Trace::new(&t.shape).unwrap();
    let mut region = Region::new("two classes");
    region.assign(t.b, 0, known(1));
    region.assign(t.b, 1, known(2));
    region.assign(t.a, 2, known(3));
    region.assign(t.c, 3, known(4));
    region.assign(t.a, 0, known(5));
    region.assign(t.c, 0, known(5));
    region.constrain_equal(t.b.at(1), t.b.at(0));
    region.constrain_equal(t.c.at(3), t.a.at(2));
    region.constrain_equal(t.a.at(0), t.c.at(0));
    trace.assign_region(&region).unwrap();
    assert_eq!(
        validate(&t.shape, &trace, &vec![]),
        Err(vec![
            Failure::CopyMismatch { cells: vec![t.a.at(2), t.c.at(3)] },
            Failure::CopyMismatch { cells: vec![t.b.at(0), t.b.at(1)] },
        ])
    );
}

#[test]
fn binding_must_match_the_public_input() {
    let t = table(4);
    let mut trace = Trace::new(&t.shape).unwrap();
    trace.assign_region(&product_row(&t, 0, 3, 4, 12)).unwrap();
    trace.constrain_instance(t.c.at(0), t.instance, 1).unwrap();
    assert_eq!(trace.bindings(), &vec![Binding { cell: t.c.at(0), index: 1 }]);
    let inputs = |v: u64| vec![Fp::from_u64(0), Fp::from_u64(v)];
    assert_eq!(validate(&t.shape, &trace, &inputs(12)), Ok(()));
    assert_eq!(
        validate(&t.shape, &trace, &inputs(11)),
        Err(vec![Failure::InstanceMismatch { cell: t.c.at(0), index: 1 }])
    );
    assert_eq!(
        validate(&t.shape, &trace, &vec![Fp::from_u64(12)]),
        Err(vec![Failure::InstanceIndexOutOfRange { cell: t.c.at(0), index: 1 }])
    );
}

#[test]
fn binding_of_an_empty_cell_is_a_mismatch() {
    let t = table(4);
    let mut trace = Trace::new(&t.shape).unwrap();
    trace.constrain_instance(t.c.at(2), t.instance, 0).unwrap();
    assert_eq!(
        validate(&t.shape, &trace, &vec![Fp::from_u64(0)]),
        Err(vec![Failure::InstanceMismatch { cell: t.c.at(2), index: 0 }])
    );
}

#[test]
fn several_bindings_may_share_a_public_input() {
    let t = table(4);
    let mut trace = Trace::new(&t.shape).unwrap();
    trace.assign_region(&product_row(&t, 0, 1, 5, 5)).unwrap();
    trace.constrain_instance(t.b.at(0), t.instance, 0).unwrap();
    trace.constrain_instance(t.c.at(0), t.instance, 0).unwrap();
    trace.constrain_instance(t.a.at(0), t.instance, 0).unwrap();
    assert_eq!(
        validate(&t.shape, &trace, &vec![Fp::from_u64(5)]),
        Err(vec![Failure::InstanceMismatch { cell: t.a.at(0), index: 0 }])
    );
}

#[test]
fn every_violation_is_reported_in_one_run() {
    let t = table(4);
    let mut trace = Trace::new(&t.shape).unwrap();
    trace.assign_region(&product_row(&t, 0, 2, 2, 5)).unwrap();
    trace.assign_region(&product_row(&t, 1, 2, 3, 7)).unwrap();
    let mut region = Region::new("links");
    region.constrain_equal(t.c.at(0), t.c.at(1));
    region.constrain_equal(t.a.at(0), t.a.at(3));
    trace.assign_region(&region).unwrap();
    trace.constrain_instance(t.c.at(0), t.instance, 0).unwrap();
    trace.constrain_instance(t.c.at(1), t.instance, 5).unwrap();
    assert_eq!(
        validate(&t.shape, &trace, &vec![Fp::from_u64(4)]),
        Err(vec![
            Failure::GateNotSatisfied { gate: "mul".to_string(), row: 0 },
            Failure::GateNotSatisfied { gate: "mul".to_string(), row: 1 },
            Failure::UnassignedCell { cell: t.a.at(3) },
            Failure::CopyMismatch { cells: vec![t.c.at(0), t.c.at(1)] },
            Failure::InstanceMismatch { cell: t.c.at(0), index: 0 },
            Failure::InstanceIndexOutOfRange { cell: t.c.at(1), index: 5 },
        ])
    );
}

#[test]
fn gates_are_checked_in_the_order_of_declaration() {
    let mut t = table(2);
    t.shape
        .declare_gate("sum", t.s, Expr::query(t.a).add(Expr::query(t.b)).sub(Expr::query(t.c)))
        .unwrap();
    let mut trace = Trace::new(&t.shape).unwrap();
    trace.assign_region(&product_row(&t, 0, 2, 2, 4)).unwrap();
    trace.assign_region(&product_row(&t, 1, 2, 3, 5)).unwrap();
    assert_eq!(
        validate(&t.shape, &trace, &vec![]),
        Err(vec![Failure::GateNotSatisfied { gate: "mul".to_string(), row: 1 }])
    );
    let mut other = Trace::new(&t.shape).unwrap();
    other.assign_region(&product_row(&t, 0, 3, 3, 0)).unwrap();
    other.assign_region(&product_row(&t, 1, 0, 0, 0)).unwrap();
    assert_eq!(
        validate(&t.shape, &other, &vec![]),
        Err(vec![
            Failure::GateNotSatisfied { gate: "mul".to_string(), row: 0 },
            Failure::GateNotSatisfied { gate: "sum".to_string(), row: 0 },
        ])
    );
}

#[test]
fn constants_negation_and_rotation_in_a_gate() {
    let mut shape = CircuitShape::<Fp>::new(4);
    let a = shape.declare_column(ColumnKind::Witness);
    let b = shape.declare_column(ColumnKind::Witness);
    let s = shape.declare_selector();
    // b(row) = 10 - a(row - 1) - a(row + 1)
    let poly = Expr::constant(Fp::from_u64(10))
        .add(Expr::query_at(a, -1).neg())
        .sub(Expr::query_at(a, 1))
        .sub(Expr::query(b));
    shape.declare_gate("around", s, poly).unwrap();
    let mut trace = Trace::new(&shape).unwrap();
    let mut region = Region::new("ring");
    region.assign(a, 0, known(1));
    region.assign(a, 1, known(2));
    region.assign(a, 2, known(3));
    region.assign(a, 3, known(4));
    region.assign(b, 0, known(4));
    region.assign(b, 3, known(6));
    region.assign(b, 2, known(5));
    region.enable_selector(s, 0);
    region.enable_selector(s, 3);
    region.enable_selector(s, 2);
    trace.assign_region(&region).unwrap();
    assert_eq!(
        validate(&shape, &trace, &vec![]),
        Err(vec![Failure::GateNotSatisfied { gate: "around".to_string(), row: 2 }])
    );
}

#[test]
fn rotation_counts_round_the_table() {
    assert_eq!(rotate(0, 0, 4), 0);
    assert_eq!(rotate(3, 1, 4), 0);
    assert_eq!(rotate(0, -1, 4), 3);
    assert_eq!(rotate(2, 7, 4), 1);
    assert_eq!(rotate(2, -7, 4), 3);
    assert_eq!(rotate(1, -8, 4), 1);
    assert_eq!(rotate(0, i32::MIN, 3), 1);
    assert_eq!(rotate(0, i32::MAX, 3), 1);
    assert_eq!(rotate(0, 5, 1), 0);
}

#[test]
fn gate_must_read_declared_columns_and_selectors() {
    let mut shape = CircuitShape::<Fp>::new(4);
    let a = shape.declare_column(ColumnKind::Witness);
    let s = shape.declare_selector();
    let missing = Column { index: 1, kind: ColumnKind::Witness };
    let wrong_kind = Column { index: 0, kind: ColumnKind::FixedConstant };
    assert_eq!(
        shape.declare_gate("g", s, Expr::query(a).mul(Expr::query(missing))),
        Err(Error::UndeclaredColumn)
    );
    assert_eq!(shape.declare_gate("g", s, Expr::query(wrong_kind)), Err(Error::UndeclaredColumn));
    assert_eq!(
        shape.declare_gate("g", Selector { index: 1 }, Expr::query(a)),
        Err(Error::UndeclaredSelector)
    );
    assert_eq!(
        shape.declare_gate("g", Selector { index: 1 }, Expr::query(missing)),
        Err(Error::UndeclaredSelector)
    );
    assert_eq!(shape.gates().len(), 0);
    assert_eq!(shape.declare_gate("g", s, Expr::query(a)), Ok(()));
    assert_eq!(shape.gates().len(), 1);
}

#[test]
fn equality_is_enabled_once_and_not_on_constants() {
    let mut shape = CircuitShape::<Fp>::new(4);
    let a = shape.declare_column(ColumnKind::Witness);
    let f = shape.declare_column(ColumnKind::FixedConstant);
    let i = shape.declare_column(ColumnKind::PublicInstance);
    assert_eq!(shape.enable_equality(a), Ok(()));
    assert_eq!(shape.enable_equality(a), Err(Error::EqualityAlreadyEnabled));
    assert_eq!(shape.enable_equality(f), Err(Error::EqualityOnFixedColumn));
    assert_eq!(shape.enable_equality(i), Ok(()));
    assert_eq!(
        shape.enable_equality(Column { index: 3, kind: ColumnKind::Witness }),
        Err(Error::UndeclaredColumn)
    );
    assert_eq!(
        shape.enable_equality(Column { index: 1, kind: ColumnKind::Witness }),
        Err(Error::UndeclaredColumn)
    );
    assert_eq!(shape.equality(), &vec![true, false, true]);
}

#[test]
fn a_cell_is_assigned_at_most_once() {
    let t = table(4);
    let mut trace = Trace::new(&t.shape).unwrap();
    trace.assign_region(&product_row(&t, 0, 3, 4, 12)).unwrap();
    let mut again = Region::new("again");
    again.assign(t.b, 0, known(4));
    assert_eq!(
        trace.assign_region(&again),
        Err(Error::AssignmentConflict { cell: Cell { column: 1, row: 0 } })
    );
    let mut twice = Region::new("twice");
    twice.assign(t.a, 1, known(1));
    twice.enable_selector(t.s, 1);
    twice.assign(t.a, 1, known(1));
    assert_eq!(
        trace.assign_region(&twice),
        Err(Error::AssignmentConflict { cell: Cell { column: 0, row: 1 } })
    );
    let mut placeholder = Region::new("placeholder");
    placeholder.assign(t.a, 2, Value::unknown());
    assert_eq!(trace.assign_region(&placeholder), Ok(()));
    let mut over = Region::new("over placeholder");
    over.assign(t.a, 2, known(1));
    assert_eq!(
        trace.assign_region(&over),
        Err(Error::AssignmentConflict { cell: Cell { column: 0, row: 2 } })
    );
}

#[test]
fn a_region_is_taken_whole_or_not_at_all() {
    let t = table(4);
    let mut trace = Trace::new(&t.shape).unwrap();
    trace.assign_region(&product_row(&t, 0, 3, 4, 12)).unwrap();
    let mut untouched = Trace::new(&t.shape).unwrap();
    untouched.assign_region(&product_row(&t, 0, 3, 4, 12)).unwrap();

    let mut region = Region::new("fails late");
    region.enable_selector(t.s, 3);
    region.assign(t.a, 3, known(9));
    region.constrain_equal(t.a.at(3), t.a.at(0));
    region.assign(t.c, 0, known(5));
    assert_eq!(
        trace.assign_region(&region),
        Err(Error::AssignmentConflict { cell: Cell { column: 2, row: 0 } })
    );
    assert_eq!(trace, untouched);
    assert!(!trace.is_enabled(t.s, 3));
    assert_eq!(trace.get(t.a.at(3)), None);
    assert_eq!(trace.copies().len(), 0);
}

#[test]
fn the_first_step_that_fails_names_the_error() {
    let t = table(4);
    let mut trace = Trace::new(&t.shape).unwrap();
    let mut region = Region::new("two errors");
    region.assign(t.a, 0, known(1));
    region.assign(t.a, 4, known(1));
    region.assign(t.a, 0, known(1));
    assert_eq!(trace.assign_region(&region), Err(Error::RowOutOfRange));
}

#[test]
fn steps_must_name_what_the_table_has() {
    let t = table(4);
    let mut trace = Trace::new(&t.shape).unwrap();
    let one = |f: &dyn Fn(&mut Region<Fp>)| {
        let mut region = Region::new("one");
        f(&mut region);
        region
    };
    let ghost_column = Column { index: 5, kind: ColumnKind::Witness };
    let wrong_kind = Column { index: 3, kind: ColumnKind::Witness };
    let cases: Vec<(Region<Fp>, Error)> = vec![
        (one(&|r| { r.assign(ghost_column, 0, known(1)); }), Error::UndeclaredColumn),
        (one(&|r| { r.assign(wrong_kind, 0, known(1)); }), Error::UndeclaredColumn),
        (one(&|r| { r.assign(ghost_column, 9, known(1)); }), Error::UndeclaredColumn),
        (one(&|r| { r.assign(t.a, 4, known(1)); }), Error::RowOutOfRange),
        (one(&|r| r.enable_selector(Selector { index: 1 }, 0)), Error::UndeclaredSelector),
        (one(&|r| r.enable_selector(Selector { index: 1 }, 4)), Error::UndeclaredSelector),
        (one(&|r| r.enable_selector(t.s, 4)), Error::RowOutOfRange),
        (one(&|r| r.constrain_equal(Cell { column: 5, row: 0 }, t.a.at(0))), Error::UndeclaredColumn),
        (one(&|r| r.constrain_equal(t.a.at(4), Cell { column: 5, row: 0 })), Error::RowOutOfRange),
        (one(&|r| r.constrain_equal(t.a.at(0), Cell { column: 5, row: 0 })), Error::UndeclaredColumn),
        (one(&|r| r.constrain_equal(t.a.at(0), t.b.at(4))), Error::RowOutOfRange),
        (one(&|r| r.constrain_equal(t.a.at(0), t.fixed.at(0))), Error::EqualityNotEnabled),
        (one(&|r| r.constrain_equal(t.instance.at(0), t.a.at(0))), Error::EqualityNotEnabled),
    ];
    let empty = Trace::new(&t.shape).unwrap();
    for (region, error) in cases {
        assert_eq!(trace.assign_region(&region), Err(error));
        assert_eq!(trace, empty);
    }
}

#[test]
fn bindings_go_through_an_instance_column_to_a_cell_of_the_table() {
    let t = table(4);
    let mut trace = Trace::new(&t.shape).unwrap();
    let cell = t.c.at(0);
    assert_eq!(trace.constrain_instance(cell, t.a, 0), Err(Error::NotAnInstanceColumn));
    assert_eq!(trace.constrain_instance(cell, t.fixed, 0), Err(Error::NotAnInstanceColumn));
    assert_eq!(
        trace.constrain_instance(cell, Column { index: 7, kind: ColumnKind::PublicInstance }, 0),
        Err(Error::UndeclaredColumn)
    );
    assert_eq!(
        trace.constrain_instance(cell, Column { index: 0, kind: ColumnKind::PublicInstance }, 0),
        Err(Error::UndeclaredColumn)
    );
    assert_eq!(
        trace.constrain_instance(Cell { column: 5, row: 0 }, t.instance, 0),
        Err(Error::UndeclaredColumn)
    );
    assert_eq!(trace.constrain_instance(t.c.at(4), t.instance, 0), Err(Error::RowOutOfRange));
    assert_eq!(trace.bindings().len(), 0);
    assert_eq!(trace.constrain_instance(cell, t.instance, usize::MAX), Ok(()));
    assert_eq!(trace.bindings(), &vec![Binding { cell, index: usize::MAX }]);
}

#[test]
fn enabling_a_selector_twice_changes_nothing() {
    let t = table(4);
    let mut once = Trace::new(&t.shape).unwrap();
    let mut region = Region::new("once");
    region.enable_selector(t.s, 2);
    once.assign_region(&region).unwrap();
    let mut twice = Trace::new(&t.shape).unwrap();
    let mut region = Region::new("twice");
    region.enable_selector(t.s, 2);
    region.enable_selector(t.s, 2);
    twice.assign_region(&region).unwrap();
    twice.assign_region(&region).unwrap();
    assert_eq!(once, twice);
}

#[test]
fn copying_assigns_and_links() {
    let t = table(4);
    let mut region = Region::new("copy");
    let first = region.assign(t.c, 0, known(8));
    let second = region.copy(&first, t.a, 1);
    assert_eq!(region.name(), "copy");
    assert_eq!(region.ops().len(), 3);
    assert_eq!(second.cell, Cell { column: 0, row: 1 });
    assert_eq!(second.value, known(8));
    let mut trace = Trace::new(&t.shape).unwrap();
    trace.assign_region(&region).unwrap();
    assert_eq!(trace.copies(), &vec![(t.c.at(0), t.a.at(1))]);
    assert_eq!(trace.known(t.a.at(1)), Some(Fp::from_u64(8)));
    assert_eq!(trace.rows(), 4);
    assert_eq!(trace.columns(), 5);
}

#[test]
fn a_table_without_rows_has_nothing_to_violate() {
    let t = table(0);
    let mut trace = Trace::new(&t.shape).unwrap();
    assert_eq!(trace.assign_region(&product_row(&t, 0, 1, 1, 2)), Err(Error::RowOutOfRange));
    assert_eq!(validate(&t.shape, &trace, &vec![]), Ok(()));
}

#[test]
fn a_trace_of_another_shape_leaves_gates_unread() {
    let t = table(2);
    let mut small = CircuitShape::<Fp>::new(2);
    small.declare_column(ColumnKind::Witness);
    small.declare_selector();
    let mut trace = Trace::new(&small).unwrap();
    let mut region = Region::new("on");
    region.enable_selector(t.s, 1);
    trace.assign_region(&region).unwrap();
    assert_eq!(
        validate(&t.shape, &trace, &vec![]),
        Err(vec![Failure::UnassignedCell { cell: Cell { column: 0, row: 1 } }])
    );
}

#[test]
fn unknown_values_stay_unknown() {
    let three = known(3);
    let unknown = Value::<Fp>::unknown();
    assert_eq!(three.add(&known(4)), known(7));
    assert_eq!(three.sub(&known(1)), known(2));
    assert_eq!(three.mul(&known(4)), known(12));
    assert_eq!(three.neg().add(&three), known(0));
    assert_eq!(three.add(&unknown), Value::Unknown);
    assert_eq!(unknown.sub(&three), Value::Unknown);
    assert_eq!(unknown.mul(&unknown), Value::Unknown);
    assert_eq!(unknown.neg(), Value::Unknown);
    assert!(three.is_known());
    assert!(!unknown.is_known());
}
