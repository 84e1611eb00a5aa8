use trace_constraints::bn256::Fr;
use trace_constraints::cell::Cell;
use trace_constraints::circuit::Circuit;
use trace_constraints::error::Error;
use trace_constraints::factor::FactorCircuit;
use trace_constraints::failure::Failure;
use trace_constraints::fibonacci::circuit::FiboCircuit;
use trace_constraints::field::Field;
use trace_constraints::general::TutorialCircuit;
use trace_constraints::pasta::Fp;
use trace_constraints::prover::{rows_for, MockProver};
use trace_constraints::value::Value;

#[test]
fn factoring_accepts_the_product() {
    let circuit = FactorCircuit { a: Fp::from_u64(11), b: Fp::from_u64(13) };
    let prover = MockProver::run(4, &circuit, vec![Fp::from_u64(143)]).unwrap();
    assert_eq!(prover.verify(), Ok(()));
}

#[test]
fn factoring_rejects_another_number() {
    let circuit = FactorCircuit { a: Fp::from_u64(11), b: Fp::from_u64(13) };
    let prover = MockProver::run(4, &circuit, vec![Fp::from_u64(144)]).unwrap();
    assert_eq!(
        prover.verify(),
        Err(vec![Failure::InstanceMismatch { cell: Cell { column: 2, row: 0 }, index: 0 }])
    );
}

#[test]
fn factoring_without_public_input_is_out_of_range() {
    let circuit = FactorCircuit { a: Fp::from_u64(11), b: Fp::from_u64(13) };
    let prover = MockProver::run(4, &circuit, vec![]).unwrap();
    assert_eq!(
        prover.verify(),
        Err(vec![Failure::InstanceIndexOutOfRange { cell: Cell { column: 2, row: 0 }, index: 0 }])
    );
}

#[test]
fn fibonacci_ninth_term_is_55() {
    let circuit = FiboCircuit { n: 9 };
    let prover = MockProver::run(6, &circuit, vec![Fp::from_u64(55)]).unwrap();
    assert_eq!(prover.verify(), Ok(()));
}

#[test]
fn fibonacci_rejects_56() {
    let circuit = FiboCircuit { n: 9 };
    let prover = MockProver::run(6, &circuit, vec![Fp::from_u64(56)]).unwrap();
    assert_eq!(
        prover.verify(),
        Err(vec![Failure::InstanceMismatch { cell: Cell { column: 2, row: 7 }, index: 0 }])
    );
}

#[test]
fn fibonacci_sequence_term_by_term() {
    let expected: [u64; 10] = [1, 1, 2, 3, 5, 8, 13, 21, 34, 55];
    for n in 2..10usize {
        let circuit = FiboCircuit { n };
        let good = MockProver::run(6, &circuit, vec![Fp::from_u64(expected[n])]).unwrap();
        assert_eq!(good.verify(), Ok(()));
        let bad = MockProver::run(6, &circuit, vec![Fp::from_u64(expected[n] + 1)]).unwrap();
        assert!(bad.verify().is_err());
    }
}

#[test]
fn fibonacci_has_no_layout_below_the_term_two() {
    for n in 0..2usize {
        let circuit = FiboCircuit { n };
        assert_eq!(
            MockProver::run(2, &circuit, vec![Fp::from_u64(1)]).err(),
            Some(Error::InvalidParameter)
        );
    }
    let second = FiboCircuit { n: 2 };
    let prover = MockProver::run(0, &second, vec![Fp::from_u64(2)]).unwrap();
    assert_eq!(prover.verify(), Ok(()));
}

#[test]
fn general_circuit_accepts_its_outputs() {
    let circuit = TutorialCircuit {
        x: Value::known(Fr::from_u64(5)),
        y: Value::known(Fr::from_u64(9)),
        constant: Fr::from_u64(7),
    };
    let prover =
        MockProver::run(4, &circuit, vec![Fr::from_u64(7), Fr::from_u64(25 * 81 + 7)]).unwrap();
    assert_eq!(prover.verify(), Ok(()));
}

#[test]
fn general_circuit_rejects_a_wrong_result() {
    let circuit = TutorialCircuit {
        x: Value::known(Fr::from_u64(5)),
        y: Value::known(Fr::from_u64(9)),
        constant: Fr::from_u64(7),
    };
    let prover = MockProver::run(4, &circuit, vec![Fr::from_u64(7), Fr::from_u64(2031)]).unwrap();
    assert_eq!(
        prover.verify(),
        Err(vec![Failure::InstanceMismatch { cell: Cell { column: 2, row: 3 }, index: 1 }])
    );
}

#[test]
fn general_circuit_over_the_other_field() {
    let circuit = TutorialCircuit {
        x: Value::known(Fp::from_u64(5)),
        y: Value::known(Fp::from_u64(9)),
        constant: Fp::from_u64(7),
    };
    let prover = MockProver::run(4, &circuit, vec![Fp::from_u64(7), Fp::from_u64(2032)]).unwrap();
    assert_eq!(prover.verify(), Ok(()));
}

#[test]
fn synthesis_twice_gives_the_same_trace() {
    let circuit = FiboCircuit { n: 9 };
    let first = MockProver::run(6, &circuit, vec![Fp::from_u64(55)]).unwrap();
    let second = MockProver::run(6, &circuit, vec![Fp::from_u64(55)]).unwrap();
    assert_eq!(first, second);
    assert_eq!(first.trace().copies().len(), 14);
    assert_eq!(first.trace().bindings().len(), 1);
    assert_eq!(first.shape().rows(), 64);
    assert_eq!(first.public_inputs(), &vec![Fp::from_u64(55)]);
}

#[test]
fn fibonacci_rows_hold_the_sequence() {
    let circuit = FiboCircuit { n: 9 };
    let prover = MockProver::run(3, &circuit, vec![Fp::from_u64(55)]).unwrap();
    let expected: [u64; 10] = [1, 1, 2, 3, 5, 8, 13, 21, 34, 55];
    for row in 0..8 {
        for column in 0..3 {
            assert_eq!(
                prover.trace().known(Cell { column, row }),
                Some(Fp::from_u64(expected[row + column]))
            );
        }
        assert!(prover.trace().is_enabled(prover.shape().gates()[0].selector, row));
    }
    assert_eq!(prover.trace().copies()[0], (Cell { column: 1, row: 0 }, Cell { column: 0, row: 1 }));
    assert_eq!(prover.trace().copies()[1], (Cell { column: 2, row: 0 }, Cell { column: 1, row: 1 }));
}

#[test]
fn fibonacci_needs_a_row_per_term() {
    let circuit = FiboCircuit { n: 9 };
    assert_eq!(
        MockProver::run(2, &circuit, vec![Fp::from_u64(55)]).err(),
        Some(Error::RowOutOfRange)
    );
}

#[test]
fn a_table_that_cannot_be_addressed_is_refused() {
    let circuit = FiboCircuit { n: 9 };
    assert_eq!(
        MockProver::run(usize::BITS, &circuit, vec![Fp::from_u64(55)]).err(),
        Some(Error::TraceTooLarge)
    );
    assert_eq!(
        MockProver::run(usize::BITS - 1, &circuit, vec![Fp::from_u64(55)]).err(),
        Some(Error::TraceTooLarge)
    );
    assert_eq!(rows_for(10), Some(1024));
    assert_eq!(rows_for(0), Some(1));
    assert_eq!(rows_for(usize::BITS), None);
}

#[test]
fn general_circuit_needs_four_rows() {
    let circuit = TutorialCircuit {
        x: Value::known(Fr::from_u64(5)),
        y: Value::known(Fr::from_u64(9)),
        constant: Fr::from_u64(7),
    };
    assert_eq!(
        MockProver::run(1, &circuit, vec![]).err(),
        Some(Error::RowOutOfRange)
    );
    assert!(MockProver::run(2, &circuit, vec![]).is_ok());
}

#[test]
fn general_circuit_without_witness_has_the_same_structure() {
    let circuit = TutorialCircuit {
        x: Value::known(Fr::from_u64(5)),
        y: Value::known(Fr::from_u64(9)),
        constant: Fr::from_u64(7),
    };
    let blank: TutorialCircuit<Fr> = circuit.without_witnesses();
    assert_eq!(blank, TutorialCircuit { x: Value::Unknown, y: Value::Unknown, constant: Fr::zero() });
    let full = MockProver::run(4, &circuit, vec![]).unwrap();
    let dry = MockProver::run(4, &blank, vec![]).unwrap();
    assert_eq!(full.shape(), dry.shape());
    assert_eq!(full.trace().copies(), dry.trace().copies());
    assert_eq!(full.trace().bindings(), dry.trace().bindings());
    assert_eq!(dry.trace().get(Cell { column: 0, row: 0 }), Some(Value::Unknown));
    match dry.verify() {
        Err(list) => {
            assert_eq!(list[0], Failure::UnassignedCell { cell: Cell { column: 0, row: 0 } });
        }
        Ok(()) => panic!("a trace of placeholders passed"),
    }
}

#[test]
fn circuits_without_witness_hold_defaults() {
    let factor = FactorCircuit { a: Fp::from_u64(11), b: Fp::from_u64(13) };
    assert_eq!(factor.without_witnesses(), FactorCircuit { a: Fp::zero(), b: Fp::zero() });
    let fibo = FiboCircuit { n: 9 };
    assert_eq!(Circuit::<Fp>::without_witnesses(&fibo), FiboCircuit { n: 9 });
    assert_eq!(FiboCircuit::default(), FiboCircuit { n: 0 });
}

#[test]
fn general_circuit_layout() {
    let circuit = TutorialCircuit {
        x: Value::known(Fr::from_u64(5)),
        y: Value::known(Fr::from_u64(9)),
        constant: Fr::from_u64(7),
    };
    let prover = MockProver::run(4, &circuit, vec![]).unwrap();
    let trace = prover.trace();
    let value = |column: usize, row: usize| trace.known(Cell { column, row });
    let rows: [[u64; 3]; 4] = [[5, 5, 25], [9, 9, 81], [25, 81, 2025], [2025, 7, 2032]];
    for row in 0..4 {
        for column in 0..3 {
            assert_eq!(value(column, row), Some(Fr::from_u64(rows[row][column])));
        }
    }
    // columns 3..8 hold sm, sl, sr, so, sc
    assert_eq!(value(3, 0), Some(Fr::one()));
    assert_eq!(value(4, 0), Some(Fr::zero()));
    assert_eq!(value(3, 3), Some(Fr::zero()));
    assert_eq!(value(4, 3), Some(Fr::one()));
    assert_eq!(value(5, 3), Some(Fr::one()));
    assert_eq!(value(6, 3), Some(Fr::one()));
    assert_eq!(value(7, 3), Some(Fr::zero()));
    assert_eq!(value(0, 4), None);
    assert_eq!(trace.copies().len(), 5);
    assert_eq!(
        prover.verify(),
        Err(vec![
            Failure::InstanceIndexOutOfRange { cell: Cell { column: 1, row: 3 }, index: 0 },
            Failure::InstanceIndexOutOfRange { cell: Cell { column: 2, row: 3 }, index: 1 },
        ])
    );
}

#[test]
fn fibonacci_without_witness_fills_the_same_rows() {
    let circuit = FiboCircuit { n: 9 };
    let dry: FiboCircuit = Circuit::<Fp>::without_witnesses(&circuit);
    let full = MockProver::run(3, &circuit, vec![Fp::from_u64(55)]).unwrap();
    let again = MockProver::run(3, &dry, vec![Fp::from_u64(55)]).unwrap();
    assert_eq!(full, again);
    assert_eq!(again.trace().copies().len(), 14);
    assert_eq!(again.verify(), Ok(()));
}

#[test]
fn factoring_without_witness_fills_the_same_cells() {
    let circuit = FactorCircuit { a: Fp::from_u64(11), b: Fp::from_u64(13) };
    let dry = circuit.without_witnesses();
    let full = MockProver::run(1, &circuit, vec![]).unwrap();
    let blank = MockProver::run(1, &dry, vec![]).unwrap();
    assert_eq!(full.shape(), blank.shape());
    assert_eq!(full.trace().bindings(), blank.trace().bindings());
    for column in 0..4 {
        for row in 0..2 {
            let cell = Cell { column, row };
            assert_eq!(full.trace().get(cell).is_some(), blank.trace().get(cell).is_some());
        }
    }
    assert_eq!(blank.trace().known(Cell { column: 2, row: 0 }), Some(Fp::zero()));
}

#[test]
fn fibonacci_copy_constraints_carry_each_term_on() {
    let circuit = FiboCircuit { n: 9 };
    let prover = MockProver::run(3, &circuit, vec![Fp::from_u64(55)]).unwrap();
    let copies = prover.trace().copies();
    assert_eq!(copies.len(), 14);
    for r in 1..8usize {
        assert_eq!(
            copies[2 * (r - 1)],
            (Cell { column: 1, row: r - 1 }, Cell { column: 0, row: r })
        );
        assert_eq!(
            copies[2 * (r - 1) + 1],
            (Cell { column: 2, row: r - 1 }, Cell { column: 1, row: r })
        );
    }
    assert_eq!(
        prover.trace().bindings(),
        &vec![trace_constraints::trace::Binding { cell: Cell { column: 2, row: 7 }, index: 0 }]
    );
    for r in 1..7usize {
        let carried = prover.trace().known(Cell { column: 2, row: r - 1 });
        assert_eq!(carried, prover.trace().known(Cell { column: 1, row: r }));
        assert_eq!(carried, prover.trace().known(Cell { column: 0, row: r + 1 }));
    }
}
