//! The Fibonacci circuit: the chip's rows, one after another, and the last
//! term bound to the public input.

use vstd::prelude::*;
use vstd::arithmetic::div_mod::{lemma_add_mod_noop, lemma_mod_bound, lemma_small_mod};
use vstd::arithmetic::power2::pow2;
use crate::cell::{Cell, Column, ColumnKind, Selector};
use crate::chip::Chip;
use crate::circuit::Circuit;
use crate::error::Error;
use crate::expr::ExprView;
use crate::factor::lemma_sub_self;
use crate::fibonacci::chip::{
    FiboChip, FiboInstructions, addition, chip_configured, chip_left, first_cells, first_row,
    next_cells, next_row,
};
use crate::fibonacci::config::FiboConfig;
use crate::field::{Field, add_mod, sub_mod};
use crate::laws::{
    bindings_hold, copies_agree, copies_hold, gates_hold, lemma_copies_edgewise,
    lemma_failures_exact, row_holds, satisfied,
};
use crate::ledger::{lemma_class_equivalence, lemma_class_joins, same_class};
use crate::validate::failures;
use crate::prover::layout;
use crate::region::{AssignedView, OpView};
use crate::shape::{CircuitShape, GateView, ShapeView, empty_shape};
use crate::trace::{
    Binding, Trace, TraceView, empty_trace, held, lemma_one_more, lemma_step_seen, outline,
};

verus! {

/// The circuit that shows the `n`-th term of the sequence that starts with
/// 1, 1 and in which each further term is the sum of the two before it,
/// the first term being the term 0. Its first row holds the term 2, so it
/// has a layout for the terms from 2 on alone. It has no private witness:
/// `n` belongs to its shape.
#[derive(Debug, PartialEq, Eq)]
pub struct FiboCircuit {
    pub n: usize,
}

impl Default for FiboCircuit {
    fn default() -> (r: Self)
        ensures
            r.n == 0,
    {
        FiboCircuit { n: 0 }
    }
}

/// The trace after some rows, and the cells that hold the last two terms.
pub struct FiboState {
    pub trace: TraceView,
    pub b: AssignedView,
    pub c: AssignedView,
}

/// The number of rows that follow row 0 for the `n`-th term, `n` being 2
/// or more: row 0 holds the term 2, and each further row the next term.
pub open spec fn rows_after_first(n: usize) -> nat {
    if n >= 2 {
        (n - 2) as nat
    } else {
        0
    }
}

/// What the rows 0 to `k` make of a trace; or the error of the first step
/// that cannot be taken.
pub open spec fn rows_written(config: FiboConfig, m: nat, before: TraceView, k: nat) -> Result<
    FiboState,
    Error,
>
    decreases k,
{
    if k == 0 {
        match before.after_all(first_row(config, m)) {
            Err(e) => Err(e),
            Ok(t) => Ok(
                FiboState { trace: t, b: first_cells(config, m).1, c: first_cells(config, m).2 },
            ),
        }
    } else {
        match rows_written(config, m, before, (k - 1) as nat) {
            Err(e) => Err(e),
            Ok(s) => match s.trace.after_all(next_row(config, s.b, s.c, k as usize, m)) {
                Err(e) => Err(e),
                Ok(t) => Ok(
                    FiboState {
                        trace: t,
                        b: next_cells(config, s.b, s.c, k as usize, m).1,
                        c: next_cells(config, s.b, s.c, k as usize, m).2,
                    },
                ),
            },
        }
    }
}

/// The handles that configuration returns when it starts from `before`.
pub open spec fn fibo_handles(before: ShapeView) -> FiboConfig {
    let first = before.kinds.len();
    FiboConfig {
        a: Column { index: first as usize, kind: ColumnKind::Witness },
        b: Column { index: (first + 1) as usize, kind: ColumnKind::Witness },
        c: Column { index: (first + 2) as usize, kind: ColumnKind::Witness },
        i: Column { index: (first + 3) as usize, kind: ColumnKind::PublicInstance },
        s: Selector { index: before.selectors as usize },
    }
}

/// The registry with the columns and the selector of the circuit declared:
/// three columns of terms, the column of the public input and a selector.
pub open spec fn fibo_columns(before: ShapeView) -> ShapeView {
    before.with_column(ColumnKind::Witness).with_column(ColumnKind::Witness).with_column(
        ColumnKind::Witness,
    ).with_column(ColumnKind::PublicInstance).with_selector()
}

/// What the circuit declares: its columns and its selector, and with them
/// what the chip declares.
pub open spec fn fibo_configured(before: ShapeView) -> Result<(ShapeView, FiboConfig), Error> {
    let config = fibo_handles(before);
    match chip_configured(
        fibo_columns(before),
        [config.a, config.b, config.c],
        config.i,
        config.s,
    ) {
        Err(e) => Err(e),
        Ok(shape) => Ok((shape, config)),
    }
}

/// What the circuit makes of a trace: the rows 0 to `n - 2`, and the sum
/// of the last row bound to the first public input. For a term before the
/// term 2 there is no layout, and nothing is written.
pub open spec fn fibo_synthesized(n: usize, config: FiboConfig, m: nat, before: TraceView) -> Result<
    TraceView,
    Error,
> {
    if n < 2 {
        Err(Error::InvalidParameter)
    } else {
        match rows_written(config, m, before, rows_after_first(n)) {
            Err(e) => Err(e),
            Ok(s) => s.trace.after_bind(s.c.cell, config.i, 0),
        }
    }
}

/// The registry that configuration leaves, whether it succeeds or stops:
/// the columns and the selector are declared, and the chip has configured
/// as far as it could.
pub open spec fn fibo_declared(before: ShapeView) -> ShapeView {
    let config = fibo_handles(before);
    chip_left(fibo_columns(before), [config.a, config.b, config.c], config.i, config.s)
}

/// The trace that the rows 0 to `k` leave, whether they can all be written
/// or not: the rows before the first that cannot be written are there.
pub open spec fn rows_left(config: FiboConfig, m: nat, before: TraceView, k: nat) -> TraceView
    decreases k,
{
    if k == 0 {
        held(before.after_all(first_row(config, m)), before)
    } else {
        match rows_written(config, m, before, (k - 1) as nat) {
            Err(_) => rows_left(config, m, before, (k - 1) as nat),
            Ok(s) => held(s.trace.after_all(next_row(config, s.b, s.c, k as usize, m)), s.trace),
        }
    }
}

/// The trace that synthesis leaves, whether it succeeds or stops: the rows
/// that could be written, and the binding, if it could be recorded.
pub open spec fn fibo_filled(n: usize, config: FiboConfig, m: nat, before: TraceView) -> TraceView {
    if n < 2 {
        before
    } else {
        match rows_written(config, m, before, rows_after_first(n)) {
            Err(_) => rows_left(config, m, before, rows_after_first(n)),
            Ok(s) => held(s.trace.after_bind(s.c.cell, config.i, 0), s.trace),
        }
    }
}

/// The namespaces that are open after synthesis: those that were open
/// before it, and where it stops in a namespace of its own, that one.
pub open spec fn fibo_scope(
    n: usize,
    config: FiboConfig,
    m: nat,
    before: TraceView,
    scope: Seq<Seq<char>>,
) -> Seq<Seq<char>> {
    if n < 2 || fibo_synthesized(n, config, m, before) is Ok {
        scope
    } else {
        scope.push(stopped_in(n, config, m, before))
    }
}

/// Where the rows 0 to `k` cannot be written, the rows 0 to `n` leave what
/// they leave.
pub proof fn lemma_rows_left_stop(config: FiboConfig, m: nat, before: TraceView, k: nat, n: nat)
    requires
        k <= n,
        rows_written(config, m, before, k) is Err,
    ensures
        rows_left(config, m, before, n) == rows_left(config, m, before, k),
    decreases n - k,
{
    if k < n {
        lemma_rows_left_stop(config, m, before, k, (n - 1) as nat);
        lemma_rows_stop(config, m, before, k, (n - 1) as nat);
    }
}

/// The label of the namespace in which synthesis stops, where it stops:
/// `first` for row 0, `next` for a further row, and `expose` for the
/// binding.
pub open spec fn stopped_in(n: usize, config: FiboConfig, m: nat, before: TraceView) -> Seq<char> {
    if rows_written(config, m, before, 0) is Err {
        "first"@
    } else if rows_written(config, m, before, rows_after_first(n)) is Err {
        "next"@
    } else {
        "expose"@
    }
}

/// Where the rows 0 to `k` cannot be written, neither can the rows 0 to
/// `n`, and the error is the same.
pub proof fn lemma_rows_stop(config: FiboConfig, m: nat, before: TraceView, k: nat, n: nat)
    requires
        k <= n,
        rows_written(config, m, before, k) is Err,
    ensures
        rows_written(config, m, before, n) == rows_written(config, m, before, k),
    decreases n - k,
{
    if k < n {
        lemma_rows_stop(config, m, before, k, (n - 1) as nat);
    }
}

/// The sequence that starts with 1, 1 and in which each further term is the
/// sum of the two before it.
pub open spec fn fib(n: nat) -> nat
    decreases n,
{
    if n < 2 {
        1
    } else {
        fib((n - 1) as nat) + fib((n - 2) as nat)
    }
}

/// The rows hold the sequence. After the rows 0 to `k`, the cells that are
/// handed on are those of `b` and `c` in row `k`, and they hold the terms
/// `k + 1` and `k + 2`, reduced modulo `m`.
pub proof fn lemma_rows_hold_sequence(config: FiboConfig, m: nat, before: TraceView, k: nat)
    requires
        m > 1,
        rows_written(config, m, before, k) is Ok,
    ensures
        rows_written(config, m, before, k).unwrap().b == (AssignedView {
            cell: Cell { column: config.b.index, row: k as usize },
            value: Some(fib(k + 1) % m),
        }),
        rows_written(config, m, before, k).unwrap().c == (AssignedView {
            cell: Cell { column: config.c.index, row: k as usize },
            value: Some(fib(k + 2) % m),
        }),
    decreases k,
{
    if k == 0 {
        lemma_small_mod(1, m);
        assert(fib(2) == 2);
    } else {
        lemma_rows_hold_sequence(config, m, before, (k - 1) as nat);
        lemma_add_mod_noop(fib(k) as int, fib(k + 1) as int, m as int);
        assert(fib(k + 2) == fib(k + 1) + fib(k));
    }
}

/// The handles of the circuit on a shape that held nothing before: the
/// columns 0 to 3 and the selector 0.
pub open spec fn first_handles() -> FiboConfig {
    FiboConfig {
        a: Column { index: 0, kind: ColumnKind::Witness },
        b: Column { index: 1, kind: ColumnKind::Witness },
        c: Column { index: 2, kind: ColumnKind::Witness },
        i: Column { index: 3, kind: ColumnKind::PublicInstance },
        s: Selector { index: 0 },
    }
}

/// The one gate of the circuit.
pub open spec fn add_gate() -> GateView {
    GateView {
        name: "add"@,
        selector: first_handles().s,
        poly: addition(first_handles().a, first_handles().b, first_handles().c),
    }
}

/// Configuration succeeds on a shape that holds nothing: it declares four
/// columns, all with equality, one selector and one gate.
pub proof fn lemma_fibo_shape(rows: nat)
    ensures
        fibo_configured(empty_shape(rows)) is Ok,
        fibo_configured(empty_shape(rows)).unwrap().1 == first_handles(),
        fibo_configured(empty_shape(rows)).unwrap().0.rows == rows,
        fibo_configured(empty_shape(rows)).unwrap().0.kinds == seq![
            ColumnKind::Witness,
            ColumnKind::Witness,
            ColumnKind::Witness,
            ColumnKind::PublicInstance,
        ],
        fibo_configured(empty_shape(rows)).unwrap().0.equality == seq![true, true, true, true],
        fibo_configured(empty_shape(rows)).unwrap().0.selectors == 1,
        fibo_configured(empty_shape(rows)).unwrap().0.gates == seq![add_gate()],
{
    reveal_with_fuel(ExprView::reads_only, 4);
    let config = first_handles();
    let kinds = seq![
        ColumnKind::Witness,
        ColumnKind::Witness,
        ColumnKind::Witness,
        ColumnKind::PublicInstance,
    ];
    let declared = empty_shape(rows).with_column(ColumnKind::Witness).with_column(
        ColumnKind::Witness,
    ).with_column(ColumnKind::Witness).with_column(ColumnKind::PublicInstance).with_selector();
    assert(declared.kinds =~= kinds);
    assert(declared.equality =~= seq![false, false, false, false]);
    let advices = [config.a, config.b, config.c];
    assert(advices[0] == config.a && advices[1] == config.b && advices[2] == config.c);
    let s1 = declared.with_equality(config.a).unwrap();
    let s2 = s1.with_equality(config.b).unwrap();
    let s3 = s2.with_equality(config.c).unwrap();
    let s4 = s3.with_equality(config.i).unwrap();
    assert(s4.equality =~= seq![true, true, true, true]);
    assert(add_gate().poly.reads_only(kinds));
    let shape = s4.with_gate(add_gate()).unwrap();
    assert(shape.gates =~= seq![add_gate()]);
    assert(chip_configured(declared, advices, config.i, config.s) == Ok::<ShapeView, Error>(shape));
}

/// Whether `s` is `t` with one more row of the sequence: the selector
/// enabled on row `i`, the three cells of that row filled as `cells` says,
/// and the pairs of `links` added to the copy constraints.
pub open spec fn row_added(
    t: TraceView,
    s: TraceView,
    i: usize,
    cells: (AssignedView, AssignedView, AssignedView),
    links: Seq<(Cell, Cell)>,
) -> bool {
    &&& s.well_formed()
    &&& s.rows == t.rows
    &&& s.kinds == t.kinds
    &&& s.equality == t.equality
    &&& s.enabled.len() == t.enabled.len()
    &&& s.bindings == t.bindings
    &&& s.copies == t.copies + links
    &&& forall|cell: Cell| #[trigger]
        s.slot(cell) == if cell == cells.0.cell {
            Some(cells.0.value)
        } else if cell == cells.1.cell {
            Some(cells.1.value)
        } else if cell == cells.2.cell {
            Some(cells.2.value)
        } else {
            t.slot(cell)
        }
    &&& forall|selector: Selector, row: int| #[trigger]
        s.is_enabled(selector, row) == (t.is_enabled(selector, row) || (selector
            == first_handles().s && row == i))
}

/// Whether the trace has the columns and the selector of the circuit, and
/// the three cells of row `i` are empty.
pub open spec fn row_free(t: TraceView, i: usize) -> bool {
    &&& t.well_formed()
    &&& t.kinds == seq![
        ColumnKind::Witness,
        ColumnKind::Witness,
        ColumnKind::Witness,
        ColumnKind::PublicInstance,
    ]
    &&& t.equality == seq![true, true, true, true]
    &&& t.enabled.len() == 1
    &&& i < t.rows
    &&& t.slot(Cell { column: 0, row: i }) is None
    &&& t.slot(Cell { column: 1, row: i }) is None
    &&& t.slot(Cell { column: 2, row: i }) is None
}

/// What row 0 leaves to be seen.
pub proof fn lemma_first_row_added(t: TraceView, m: nat)
    requires
        row_free(t, 0),
    ensures
        t.after_all(first_row(first_handles(), m)) is Ok,
        row_added(
            t,
            t.after_all(first_row(first_handles(), m)).unwrap(),
            0,
            first_cells(first_handles(), m),
            Seq::empty(),
        ),
{
    let config = first_handles();
    let o1 = OpView::Enable { selector: config.s, row: 0 };
    let o2 = OpView::Assign { column: config.a, row: 0, value: Some(1nat) };
    let o3 = OpView::Assign { column: config.b, row: 0, value: Some(1nat) };
    let o4 = OpView::Assign { column: config.c, row: 0, value: Some(add_mod(1, 1, m)) };
    let none = Seq::<OpView>::empty();
    assert(first_row(config, m) =~= none.push(o1).push(o2).push(o3).push(o4));
    lemma_one_more(t, none, o1);
    lemma_one_more(t, none.push(o1), o2);
    lemma_one_more(t, none.push(o1).push(o2), o3);
    lemma_one_more(t, none.push(o1).push(o2).push(o3), o4);
    let t1 = t.after(o1).unwrap();
    lemma_step_seen(t, o1);
    assert(t1.slot(Cell { column: 0, row: 0 }) is None);
    let t2 = t1.after(o2).unwrap();
    lemma_step_seen(t1, o2);
    assert(t2.slot(Cell { column: 1, row: 0 }) is None);
    let t3 = t2.after(o3).unwrap();
    lemma_step_seen(t2, o3);
    assert(t3.slot(Cell { column: 2, row: 0 }) is None);
    let t4 = t3.after(o4).unwrap();
    lemma_step_seen(t3, o4);
    assert(t.after_all(first_row(config, m)) == Ok::<TraceView, Error>(t4));
    assert(t4.copies =~= t.copies + Seq::<(Cell, Cell)>::empty());
    let cells = first_cells(config, m);
    assert forall|cell: Cell| #[trigger]
        t4.slot(cell) == if cell == cells.0.cell {
            Some(cells.0.value)
        } else if cell == cells.1.cell {
            Some(cells.1.value)
        } else if cell == cells.2.cell {
            Some(cells.2.value)
        } else {
            t.slot(cell)
        } by {
        assert(t4.slot(cell) == if crate::trace::assigns_to(o4, cell) {
            Some(Some(add_mod(1, 1, m)))
        } else {
            t3.slot(cell)
        });
        assert(t3.slot(cell) == if crate::trace::assigns_to(o3, cell) {
            Some(Some(1nat))
        } else {
            t2.slot(cell)
        });
        assert(t2.slot(cell) == if crate::trace::assigns_to(o2, cell) {
            Some(Some(1nat))
        } else {
            t1.slot(cell)
        });
        assert(t1.slot(cell) == t.slot(cell));
    }
    assert forall|selector: Selector, row: int| #[trigger]
        t4.is_enabled(selector, row) == (t.is_enabled(selector, row) || (selector == config.s
            && row == 0)) by {
        assert(t4.is_enabled(selector, row) == t3.is_enabled(selector, row));
        assert(t3.is_enabled(selector, row) == t2.is_enabled(selector, row));
        assert(t2.is_enabled(selector, row) == t1.is_enabled(selector, row));
    }
}

/// What a further row leaves to be seen.
pub proof fn lemma_next_row_added(
    t: TraceView,
    prev_b: AssignedView,
    prev_c: AssignedView,
    i: usize,
    m: nat,
)
    requires
        row_free(t, i),
        t.holds(prev_b.cell),
        t.holds(prev_c.cell),
        prev_b.cell.column < 3,
        prev_c.cell.column < 3,
    ensures
        t.after_all(next_row(first_handles(), prev_b, prev_c, i, m)) is Ok,
        row_added(
            t,
            t.after_all(next_row(first_handles(), prev_b, prev_c, i, m)).unwrap(),
            i,
            next_cells(first_handles(), prev_b, prev_c, i, m),
            seq![
                (prev_b.cell, Cell { column: 0, row: i }),
                (prev_c.cell, Cell { column: 1, row: i }),
            ],
        ),
{
    let config = first_handles();
    let cells = next_cells(config, prev_b, prev_c, i, m);
    let o1 = OpView::Enable { selector: config.s, row: i };
    let o2 = OpView::Assign { column: config.a, row: i, value: prev_b.value };
    let o3 = OpView::Equal { left: prev_b.cell, right: Cell { column: 0, row: i } };
    let o4 = OpView::Assign { column: config.b, row: i, value: prev_c.value };
    let o5 = OpView::Equal { left: prev_c.cell, right: Cell { column: 1, row: i } };
    let o6 = OpView::Assign { column: config.c, row: i, value: cells.2.value };
    let none = Seq::<OpView>::empty();
    assert(next_row(config, prev_b, prev_c, i, m) =~= none.push(o1).push(o2).push(o3).push(
        o4,
    ).push(o5).push(o6));
    lemma_one_more(t, none, o1);
    lemma_one_more(t, none.push(o1), o2);
    lemma_one_more(t, none.push(o1).push(o2), o3);
    lemma_one_more(t, none.push(o1).push(o2).push(o3), o4);
    lemma_one_more(t, none.push(o1).push(o2).push(o3).push(o4), o5);
    lemma_one_more(t, none.push(o1).push(o2).push(o3).push(o4).push(o5), o6);
    let t1 = t.after(o1).unwrap();
    lemma_step_seen(t, o1);
    assert(t1.slot(Cell { column: 0, row: i }) is None);
    let t2 = t1.after(o2).unwrap();
    lemma_step_seen(t1, o2);
    let t3 = t2.after(o3).unwrap();
    lemma_step_seen(t2, o3);
    assert(t3.slot(Cell { column: 1, row: i }) is None);
    let t4 = t3.after(o4).unwrap();
    lemma_step_seen(t3, o4);
    let t5 = t4.after(o5).unwrap();
    lemma_step_seen(t4, o5);
    assert(t5.slot(Cell { column: 2, row: i }) is None);
    let t6 = t5.after(o6).unwrap();
    lemma_step_seen(t5, o6);
    assert(t.after_all(next_row(config, prev_b, prev_c, i, m)) == Ok::<TraceView, Error>(t6));
    assert(t6.copies =~= t.copies + seq![
        (prev_b.cell, Cell { column: 0, row: i }),
        (prev_c.cell, Cell { column: 1, row: i }),
    ]);
    assert forall|cell: Cell| #[trigger]
        t6.slot(cell) == if cell == cells.0.cell {
            Some(cells.0.value)
        } else if cell == cells.1.cell {
            Some(cells.1.value)
        } else if cell == cells.2.cell {
            Some(cells.2.value)
        } else {
            t.slot(cell)
        } by {
        assert(t6.slot(cell) == if crate::trace::assigns_to(o6, cell) {
            Some(cells.2.value)
        } else {
            t5.slot(cell)
        });
        assert(t5.slot(cell) == t4.slot(cell));
        assert(t4.slot(cell) == if crate::trace::assigns_to(o4, cell) {
            Some(cells.1.value)
        } else {
            t3.slot(cell)
        });
        assert(t3.slot(cell) == t2.slot(cell));
        assert(t2.slot(cell) == if crate::trace::assigns_to(o2, cell) {
            Some(cells.0.value)
        } else {
            t1.slot(cell)
        });
        assert(t1.slot(cell) == t.slot(cell));
    }
    assert forall|selector: Selector, row: int| #[trigger]
        t6.is_enabled(selector, row) == (t.is_enabled(selector, row) || (selector == config.s
            && row == i)) by {
        assert(t6.is_enabled(selector, row) == t5.is_enabled(selector, row));
        assert(t5.is_enabled(selector, row) == t4.is_enabled(selector, row));
        assert(t4.is_enabled(selector, row) == t3.is_enabled(selector, row));
        assert(t3.is_enabled(selector, row) == t2.is_enabled(selector, row));
        assert(t2.is_enabled(selector, row) == t1.is_enabled(selector, row));
    }
}

/// What a cell holds once the rows 0 to `k` are written on an empty table:
/// in row `r` up to `k`, the three columns hold the terms `r`, `r + 1` and
/// `r + 2`, reduced modulo `m`.
pub open spec fn sequence_slot(cell: Cell, k: nat, m: nat) -> Option<Option<nat>> {
    if cell.column < 3 && cell.row <= k {
        Some(Some(fib((cell.row + cell.column) as nat) % m))
    } else {
        None
    }
}

/// The copy constraints of the rows 0 to `k`, in the order in which they
/// are recorded: for each row from row 1 on, one from `b` of the row before
/// to `a` of the row, then one from `c` of the row before to `b` of the
/// row.
pub open spec fn fibo_links(k: nat) -> Seq<(Cell, Cell)>
    decreases k,
{
    if k == 0 {
        Seq::empty()
    } else {
        fibo_links((k - 1) as nat).push(
            (Cell { column: 1, row: (k - 1) as usize }, Cell { column: 0, row: k as usize }),
        ).push((Cell { column: 2, row: (k - 1) as usize }, Cell { column: 1, row: k as usize }))
    }
}

/// The two copy constraints of row `r` among those of the rows 0 to `k`.
pub proof fn lemma_fibo_links(k: nat, r: nat)
    requires
        1 <= r <= k,
    ensures
        fibo_links(k).len() == 2 * k,
        fibo_links(k)[2 * (r - 1)] == (
            Cell { column: 1, row: (r - 1) as usize },
            Cell { column: 0, row: r as usize },
        ),
        fibo_links(k)[2 * (r - 1) + 1] == (
            Cell { column: 2, row: (r - 1) as usize },
            Cell { column: 1, row: r as usize },
        ),
    decreases k,
{
    lemma_fibo_links_count((k - 1) as nat);
    if r < k {
        lemma_fibo_links((k - 1) as nat, r);
    }
}

/// Each row from row 1 on has two copy constraints.
pub proof fn lemma_fibo_links_count(k: nat)
    ensures
        fibo_links(k).len() == 2 * k,
    decreases k,
{
    if k > 0 {
        lemma_fibo_links_count((k - 1) as nat);
    }
}

/// A term is carried from row to row. Among the copy constraints of the
/// rows 0 to `k`, `c` of row `r - 1`, `b` of row `r` and `a` of row `r + 1`
/// are one class, though no copy constraint relates the first to the last;
/// so where validation finds nothing to report, the three hold one and the
/// same residue.
pub proof fn lemma_fibo_carried(
    m: nat,
    shape: ShapeView,
    t: TraceView,
    public: Seq<nat>,
    k: nat,
    r: nat,
)
    requires
        t.well_formed(),
        t.copies == fibo_links(k),
        1 <= r < k,
        k <= usize::MAX,
    ensures
        same_class(
            t.copies,
            Cell { column: 2, row: (r - 1) as usize },
            Cell { column: 0, row: (r + 1) as usize },
        ),
        failures(m, shape, t, public).len() == 0 ==> t.known(
            Cell { column: 2, row: (r - 1) as usize },
        ) is Some && t.known(Cell { column: 2, row: (r - 1) as usize }) == t.known(
            Cell { column: 1, row: r as usize },
        ) && t.known(Cell { column: 1, row: r as usize }) == t.known(
            Cell { column: 0, row: (r + 1) as usize },
        ),
{
    let first = Cell { column: 2, row: (r - 1) as usize };
    let middle = Cell { column: 1, row: r as usize };
    let last = Cell { column: 0, row: (r + 1) as usize };
    lemma_fibo_links(k, r);
    lemma_fibo_links(k, r + 1);
    let e1 = 2 * (r - 1) + 1;
    let e2 = 2 * r;
    assert(t.copies[e1] == (first, middle));
    assert(t.copies[e2 as int] == (middle, last));
    lemma_class_joins(t.copies, e1);
    lemma_class_joins(t.copies, e2 as int);
    lemma_class_equivalence(t.copies);
    assert(same_class(t.copies, first, middle));
    assert(same_class(t.copies, middle, last));
    if failures(m, shape, t, public).len() == 0 {
        lemma_failures_exact(m, shape, t, public);
        assert(t.known(t.copies[e1].0) is Some && t.known(t.copies[e1].1) is Some);
        assert(t.known(t.copies[e2 as int].0) is Some && t.known(t.copies[e2 as int].1) is Some);
    }
}

/// Whether the trace is the empty table of the circuit with the rows 0 to
/// `k` of the sequence written on it.
pub open spec fn sequence_written(t: TraceView, rows: nat, k: nat, m: nat) -> bool {
    &&& t.well_formed()
    &&& t.rows == rows
    &&& t.kinds == seq![
        ColumnKind::Witness,
        ColumnKind::Witness,
        ColumnKind::Witness,
        ColumnKind::PublicInstance,
    ]
    &&& t.equality == seq![true, true, true, true]
    &&& t.enabled.len() == 1
    &&& t.copies == fibo_links(k)
    &&& copies_agree(t)
    &&& forall|cell: Cell| #[trigger] t.slot(cell) == sequence_slot(cell, k, m)
    &&& forall|selector: Selector, row: int| #[trigger]
        t.is_enabled(selector, row) == (selector == first_handles().s && 0 <= row <= k)
}

/// The rows can be written on every table that has them, and they hold the
/// sequence.
pub proof fn lemma_sequence_written(rows: nat, k: nat, m: nat)
    requires
        m > 1,
        k < rows,
        4 * rows <= usize::MAX,
    ensures
        rows_written(
            first_handles(),
            m,
            empty_trace(fibo_configured(empty_shape(rows)).unwrap().0),
            k,
        ) is Ok,
        sequence_written(
            rows_written(
                first_handles(),
                m,
                empty_trace(fibo_configured(empty_shape(rows)).unwrap().0),
                k,
            ).unwrap().trace,
            rows,
            k,
            m,
        ),
        rows_written(
            first_handles(),
            m,
            empty_trace(fibo_configured(empty_shape(rows)).unwrap().0),
            k,
        ).unwrap().trace.bindings == Seq::<Binding>::empty(),
    decreases k,
{
    lemma_fibo_shape(rows);
    let config = first_handles();
    let t0 = empty_trace(fibo_configured(empty_shape(rows)).unwrap().0);
    assert(t0.well_formed());
    if k == 0 {
        assert(row_free(t0, 0));
        lemma_first_row_added(t0, m);
        let t = t0.after_all(first_row(config, m)).unwrap();
        lemma_small_mod(1, m);
        assert(fib(0) == 1 && fib(1) == 1 && fib(2) == 2);
        assert(t.copies =~= Seq::<(Cell, Cell)>::empty());
        assert forall|cell: Cell| #[trigger] t.slot(cell) == sequence_slot(cell, 0, m) by {
            assert(t0.slot(cell) is None);
        }
        assert forall|selector: Selector, row: int| #[trigger]
            t.is_enabled(selector, row) == (selector == config.s && 0 <= row <= 0) by {
            assert(!t0.is_enabled(selector, row));
        }
    } else {
        lemma_sequence_written(rows, (k - 1) as nat, m);
        lemma_rows_hold_sequence(config, m, t0, (k - 1) as nat);
        let last = rows_written(config, m, t0, (k - 1) as nat).unwrap();
        let t = last.trace;
        let i = k as usize;
        assert(t.slot(Cell { column: 0, row: i }) == sequence_slot(
            Cell { column: 0, row: i },
            (k - 1) as nat,
            m,
        ));
        assert(t.slot(Cell { column: 1, row: i }) == sequence_slot(
            Cell { column: 1, row: i },
            (k - 1) as nat,
            m,
        ));
        assert(t.slot(Cell { column: 2, row: i }) == sequence_slot(
            Cell { column: 2, row: i },
            (k - 1) as nat,
            m,
        ));
        assert(row_free(t, i));
        lemma_next_row_added(t, last.b, last.c, i, m);
        let s = t.after_all(next_row(config, last.b, last.c, i, m)).unwrap();
        let cells = next_cells(config, last.b, last.c, i, m);
        lemma_add_mod_noop(fib(k) as int, fib(k + 1) as int, m as int);
        assert(fib(k + 2) == fib(k + 1) + fib(k));
        assert(cells.2.value == Some(fib(k + 2) % m));
        assert forall|cell: Cell| #[trigger] s.slot(cell) == sequence_slot(cell, k, m) by {
            assert(t.slot(cell) == sequence_slot(cell, (k - 1) as nat, m));
        }
        assert forall|selector: Selector, row: int| #[trigger]
            s.is_enabled(selector, row) == (selector == config.s && 0 <= row <= k) by {
            assert(t.is_enabled(selector, row) == (selector == config.s && 0 <= row <= k - 1));
        }
        let links = seq![
            (last.b.cell, Cell { column: 0, row: i }),
            (last.c.cell, Cell { column: 1, row: i }),
        ];
        assert(s.copies =~= fibo_links(k));
        assert forall|e: int| 0 <= e < s.copies.len() implies s.known(
            (#[trigger] s.copies[e]).0,
        ) is Some && s.known(s.copies[e].0) == s.known(s.copies[e].1) by {
            if e < t.copies.len() {
                assert(s.copies[e] == t.copies[e]);
                assert(t.known(t.copies[e].0) is Some && t.known(t.copies[e].0) == t.known(
                    t.copies[e].1,
                ));
                assert(s.slot(s.copies[e].0) == sequence_slot(s.copies[e].0, k, m));
                assert(t.slot(s.copies[e].0) == sequence_slot(s.copies[e].0, (k - 1) as nat, m));
                assert(s.slot(s.copies[e].1) == sequence_slot(s.copies[e].1, k, m));
                assert(t.slot(s.copies[e].1) == sequence_slot(s.copies[e].1, (k - 1) as nat, m));
            } else {
                assert(s.copies[e] == links[e - t.copies.len()]);
                assert(s.slot(last.b.cell) == sequence_slot(last.b.cell, k, m));
                assert(s.slot(last.c.cell) == sequence_slot(last.c.cell, k, m));
                assert(s.slot(Cell { column: 0, row: i }) == sequence_slot(
                    Cell { column: 0, row: i },
                    k,
                    m,
                ));
                assert(s.slot(Cell { column: 1, row: i }) == sequence_slot(
                    Cell { column: 1, row: i },
                    k,
                    m,
                ));
            }
        }
    }
}

/// Where the rows 0 to `k` hold the sequence, the one gate holds on every
/// row.
pub proof fn lemma_sequence_gates(t: TraceView, rows: nat, k: nat, m: nat, row: int)
    requires
        m > 0,
        k < rows,
        sequence_written(t, rows, k, m),
        0 <= row < rows,
    ensures
        row_holds(m, add_gate(), t, row),
{
    reveal_with_fuel(ExprView::eval, 4);
    let gate = add_gate();
    if row <= k {
        let r = row as nat;
        lemma_small_mod(r, rows);
        let ca = Cell { column: 0, row: row as usize };
        let cb = Cell { column: 1, row: row as usize };
        let cc = Cell { column: 2, row: row as usize };
        assert(t.slot(ca) == sequence_slot(ca, k, m));
        assert(t.slot(cb) == sequence_slot(cb, k, m));
        assert(t.slot(cc) == sequence_slot(cc, k, m));
        lemma_add_mod_noop(fib(r) as int, fib(r + 1) as int, m as int);
        assert(fib(r + 2) == fib(r + 1) + fib(r));
        lemma_mod_bound(fib(r + 2) as int, m as int);
        lemma_sub_self(fib(r + 2) % m, m);
        assert(gate.poly.eval(t, row, m) == Ok::<nat, Cell>(
            sub_mod(add_mod(fib(r) % m, fib(r + 1) % m, m), fib(r + 2) % m, m),
        ));
    } else {
        assert(t.is_enabled(gate.selector, row) == (gate.selector == first_handles().s && 0 <= row
            <= k));
    }
}

/// A binding leaves the rows of the sequence as they are.
pub proof fn lemma_sequence_bound(t: TraceView, rows: nat, k: nat, m: nat, cell: Cell, index: usize)
    requires
        sequence_written(t, rows, k, m),
        t.after_bind(cell, first_handles().i, index) is Ok,
    ensures
        sequence_written(t.after_bind(cell, first_handles().i, index).unwrap(), rows, k, m),
        t.after_bind(cell, first_handles().i, index).unwrap().bindings == t.bindings.push(
            Binding { cell, index },
        ),
{
    let s = t.after_bind(cell, first_handles().i, index).unwrap();
    assert forall|c: Cell| #[trigger] s.slot(c) == sequence_slot(c, k, m) by {
        assert(s.slot(c) == t.slot(c));
    }
    assert forall|selector: Selector, row: int| #[trigger]
        s.is_enabled(selector, row) == (selector == first_handles().s && 0 <= row <= k) by {
        assert(s.is_enabled(selector, row) == t.is_enabled(selector, row));
    }
    assert forall|e: int| 0 <= e < s.copies.len() implies s.known(
        (#[trigger] s.copies[e]).0,
    ) is Some && s.known(s.copies[e].0) == s.known(s.copies[e].1) by {
        assert(s.copies[e] == t.copies[e]);
        assert(s.slot(s.copies[e].0) == t.slot(t.copies[e].0));
        assert(s.slot(s.copies[e].1) == t.slot(t.copies[e].1));
    }
    assert forall|i: int| 0 <= i < s.bindings.len() implies s.holds(
        (#[trigger] s.bindings[i]).cell,
    ) by {
        if i < t.bindings.len() {
            assert(s.bindings[i] == t.bindings[i]);
        }
    }
}

/// The Fibonacci circuit is sound and complete. It can be laid out on
/// every table that has a row for each of its terms from the term 2 on and
/// can be addressed. The trace that it fills has the copy constraints
/// `fibo_links(n - 2)` and no others, and one binding, of `c` in the last
/// row to the public input 0; and it passes validation exactly where the
/// first public input is the `n`-th term of the sequence, reduced modulo
/// `m`.
pub proof fn lemma_fibo_exact(rows: nat, n: usize, m: nat, public: Seq<nat>)
    requires
        m > 1,
        n >= 2,
        n - 2 < rows,
        4 * rows <= usize::MAX,
    ensures
        fibo_configured(empty_shape(rows)) is Ok,
        fibo_synthesized(
            n,
            fibo_configured(empty_shape(rows)).unwrap().1,
            m,
            empty_trace(fibo_configured(empty_shape(rows)).unwrap().0),
        ) is Ok,
        satisfied(
            m,
            fibo_configured(empty_shape(rows)).unwrap().0,
            fibo_synthesized(
                n,
                fibo_configured(empty_shape(rows)).unwrap().1,
                m,
                empty_trace(fibo_configured(empty_shape(rows)).unwrap().0),
            ).unwrap(),
            public,
        ) <==> public.len() > 0 && public[0] == fib(n as nat) % m,
        fibo_synthesized(
            n,
            fibo_configured(empty_shape(rows)).unwrap().1,
            m,
            empty_trace(fibo_configured(empty_shape(rows)).unwrap().0),
        ).unwrap().copies == fibo_links((n - 2) as nat),
        fibo_synthesized(
            n,
            fibo_configured(empty_shape(rows)).unwrap().1,
            m,
            empty_trace(fibo_configured(empty_shape(rows)).unwrap().0),
        ).unwrap().bindings == seq![
            Binding { cell: Cell { column: 2, row: (n - 2) as usize }, index: 0 },
        ],
{
    lemma_fibo_shape(rows);
    let config = first_handles();
    let shape = fibo_configured(empty_shape(rows)).unwrap().0;
    let t0 = empty_trace(shape);
    let k = rows_after_first(n);
    lemma_sequence_written(rows, k, m);
    lemma_rows_hold_sequence(config, m, t0, k);
    let last = rows_written(config, m, t0, k).unwrap();
    let bound = Cell { column: 2, row: k as usize };
    assert(last.c.cell == bound);
    assert(last.trace.after_bind(bound, config.i, 0) is Ok);
    lemma_sequence_bound(last.trace, rows, k, m, bound, 0);
    let t = last.trace.after_bind(bound, config.i, 0).unwrap();
    assert(fibo_synthesized(n, config, m, t0) == Ok::<TraceView, Error>(t));
    assert(t.bindings =~= seq![Binding { cell: bound, index: 0 }]);
    assert(t.slot(bound) == sequence_slot(bound, k, m));
    assert(t.known(bound) == Some(fib(k + 2) % m));
    assert(gates_hold(m, shape, t)) by {
        assert forall|g: int, row: int|
            0 <= g < shape.gates.len() && 0 <= row < t.rows implies #[trigger] row_holds(
            m,
            shape.gates[g],
            t,
            row,
        ) by {
            assert(shape.gates[g] == add_gate());
            lemma_sequence_gates(t, rows, k, m, row);
        }
    }
    assert(copies_hold(t)) by {
        lemma_copies_edgewise(t);
    }
    if bindings_hold(t, public) {
        assert(t.bindings[0].index < public.len());
    }
    if public.len() > 0 && public[0] == fib(k + 2) % m {
        assert forall|i: int| 0 <= i < t.bindings.len() implies (#[trigger] t.bindings[i]).index
            < public.len() && t.known(t.bindings[i].cell) == Some(
            public[t.bindings[i].index as int],
        ) by {}
    }
}

/// The mock prover accepts the Fibonacci circuit exactly where the first
/// public input is the term that the circuit is for: the circuit for the
/// term `n` from 2 on can be laid out on every table of `2^k` rows that
/// has a row for each term from the term 2 on and can be addressed, and its
/// trace passes validation exactly there. The trace has the copy
/// constraints `fibo_links(n - 2)` and the one binding of the last sum.
pub proof fn lemma_fibo_layout<F: Field>(k: nat, circuit: FiboCircuit, public: Seq<nat>)
    requires
        circuit.n >= 2,
        circuit.n - 2 < pow2(k),
        4 * pow2(k) <= usize::MAX,
    ensures
        layout::<F, FiboCircuit>(k, circuit) is Ok,
        satisfied(
            F::modulus(),
            layout::<F, FiboCircuit>(k, circuit).unwrap().0,
            layout::<F, FiboCircuit>(k, circuit).unwrap().1,
            public,
        ) <==> public.len() > 0 && public[0] == fib(circuit.n as nat) % F::modulus(),
        layout::<F, FiboCircuit>(k, circuit).unwrap().1.copies == fibo_links(
            (circuit.n - 2) as nat,
        ),
        layout::<F, FiboCircuit>(k, circuit).unwrap().1.bindings == seq![
            Binding { cell: Cell { column: 2, row: (circuit.n - 2) as usize }, index: 0 },
        ],
{
    F::lemma_modulus_above_one();
    lemma_fibo_shape(pow2(k));
    lemma_fibo_exact(pow2(k), circuit.n, F::modulus(), public);
    let shape = fibo_configured(empty_shape(pow2(k))).unwrap().0;
    assert(shape.kinds.len() == 4);
}

impl<F: Field> Circuit<F> for FiboCircuit {
    type Config = FiboConfig;

    open spec fn configured(before: ShapeView) -> Result<(ShapeView, FiboConfig), Error> {
        fibo_configured(before)
    }

    open spec fn synthesized(&self, config: FiboConfig, before: TraceView) -> Result<
        TraceView,
        Error,
    > {
        fibo_synthesized(self.n, config, F::modulus(), before)
    }

    open spec fn declared(before: ShapeView) -> ShapeView {
        fibo_declared(before)
    }

    open spec fn filled(&self, config: FiboConfig, before: TraceView) -> TraceView {
        fibo_filled(self.n, config, F::modulus(), before)
    }

    /// The circuit has no witness, so every circuit is without one.
    open spec fn blank(&self) -> bool {
        true
    }

    open spec fn same_shape(&self, other: &Self) -> bool {
        self.n == other.n
    }

    /// The circuit itself: `n` belongs to the shape and is kept.
    fn without_witnesses(&self) -> (r: Self) {
        let r = FiboCircuit { n: self.n };
        proof {
            assert forall|config: FiboConfig, before: TraceView|
                before.well_formed() implies outline(
                #[trigger] Circuit::<F>::synthesized(&r, config, before),
            ) == outline(Circuit::<F>::synthesized(self, config, before)) by {}
        }
        r
    }

    fn configure(meta: &mut CircuitShape<F>) -> (r: Result<FiboConfig, Error>) {
        let a = meta.declare_column(ColumnKind::Witness);
        let b = meta.declare_column(ColumnKind::Witness);
        let c = meta.declare_column(ColumnKind::Witness);
        let i = meta.declare_column(ColumnKind::PublicInstance);
        let s = meta.declare_selector();
        FiboChip::<F>::configure(meta, [a, b, c], i, s)
    }

    /// Writes the rows, each in a namespace of its own, and binds the last
    /// sum. The namespace in which synthesis stops is left open.
    fn synthesize(&self, config: FiboConfig, trace: &mut Trace<F>) -> (r: Result<(), Error>)
        ensures
            final(trace).scope() == fibo_scope(
                self.n,
                config,
                F::modulus(),
                old(trace)@,
                old(trace).scope(),
            ),
    {
        if self.n < 2 {
            return Err(Error::InvalidParameter);
        }
        let chip = FiboChip::<F>::construct(config);
        let ghost before = trace@;
        let ghost m = F::modulus();
        let rows: usize = self.n - 2;
        trace.enter_namespace("first");
        let (mut b, mut c) = match chip.write_first_row(trace) {
            Ok(cells) => (cells.1, cells.2),
            Err(e) => {
                proof {
                    lemma_rows_stop(config, m, before, 0, rows as nat);
                    lemma_rows_left_stop(config, m, before, 0, rows as nat);
                }
                return Err(e);
            },
        };
        trace.leave_namespace();
        let mut i: usize = 0;
        while i < rows
            invariant
                i <= rows,
                self.n >= 2,
                rows == rows_after_first(self.n),
                before == old(trace)@,
                chip.handles() == config,
                m == F::modulus(),
                trace.wf(),
                trace.scope() == old(trace).scope(),
                rows_written(config, m, before, i as nat) == Ok::<FiboState, Error>(
                    FiboState { trace: trace@, b: b@, c: c@ },
                ),
            decreases rows - i,
        {
            let ghost last = FiboState { trace: trace@, b: b@, c: c@ };
            i += 1;
            assert(rows_written(config, m, before, (i as nat - 1) as nat) == Ok::<FiboState, Error>(
                last,
            ));
            assert((i as nat) as usize == i);
            trace.enter_namespace("next");
            match chip.write_next_row(trace, &b, &c, i) {
                Ok(cells) => {
                    b = cells.1;
                    c = cells.2;
                },
                Err(e) => {
                    proof {
                        assert(last.trace.after_all(next_row(config, last.b, last.c, i, m)) is Err);
                        assert(rows_written(config, m, before, i as nat) is Err);
                        lemma_rows_stop(config, m, before, i as nat, rows as nat);
                        lemma_rows_left_stop(config, m, before, i as nat, rows as nat);
                        if rows_written(config, m, before, 0) is Err {
                            lemma_rows_stop(config, m, before, 0, (i - 1) as nat);
                        }
                    }
                    return Err(e);
                },
            }
            trace.leave_namespace();
        }
        proof {
            if rows_written(config, m, before, 0) is Err {
                lemma_rows_stop(config, m, before, 0, rows as nat);
            }
        }
        trace.enter_namespace("expose");
        match chip.expose_public(trace, &c) {
            Ok(_) => {
                trace.leave_namespace();
                Ok(())
            },
            Err(e) => Err(e),
        }
    }
}

} // verus!
