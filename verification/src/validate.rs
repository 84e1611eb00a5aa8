//! Validation: a filled trace is held against every gate, every copy
//! constraint and every binding to a public input. All violations are
//! collected; none ends the run.

use vstd::prelude::*;
use vstd::arithmetic::div_mod::{lemma_fundamental_div_mod, lemma_fundamental_div_mod_converse};
use crate::cell::Cell;
use crate::laws::{lemma_failures_exact, satisfied};
use crate::ledger::{Ledger, same_class, image, lemma_class_image};
use crate::failure::{Failure, FailureView, failures_view, report};
use crate::field::Field;
use crate::shape::{CircuitShape, Gate, GateView, ShapeView};
use crate::trace::{Binding, Trace, TraceView};

verus! {

/// The residues of a list of elements.
pub open spec fn values<F: Field>(list: Seq<F>) -> Seq<nat> {
    Seq::new(list.len(), |i: int| list[i].value())
}

/// What a gate has to report of one row: nothing where its selector is off
/// or its polynomial vanishes.
pub open spec fn gate_row_failure(m: nat, gate: GateView, t: TraceView, row: int) -> Seq<
    FailureView,
> {
    if !t.is_enabled(gate.selector, row) {
        Seq::empty()
    } else {
        match gate.poly.eval(t, row, m) {
            Ok(v) => if v == 0 {
                Seq::empty()
            } else {
                seq![FailureView::GateNotSatisfied { gate: gate.name, row: row as usize }]
            },
            Err(cell) => seq![FailureView::UnassignedCell { cell }],
        }
    }
}

/// What a gate has to report of the first `n` rows, in the order of the
/// rows.
pub open spec fn gate_failures(m: nat, gate: GateView, t: TraceView, n: nat) -> Seq<FailureView>
    decreases n,
{
    if n == 0 {
        Seq::empty()
    } else {
        gate_failures(m, gate, t, (n - 1) as nat) + gate_row_failure(m, gate, t, n - 1)
    }
}

/// What the gates have to report of the trace, gate by gate.
pub open spec fn gates_failures(m: nat, gates: Seq<GateView>, t: TraceView) -> Seq<FailureView>
    decreases gates.len(),
{
    if gates.len() == 0 {
        Seq::empty()
    } else {
        gates_failures(m, gates.drop_last(), t) + gate_failures(m, gates.last(), t, t.rows)
    }
}

/// The report that a cell holds no element, where it holds none.
pub open spec fn missing(t: TraceView, cell: Cell) -> Seq<FailureView> {
    if t.known(cell) is None {
        seq![FailureView::UnassignedCell { cell }]
    } else {
        Seq::empty()
    }
}

/// The reports of the sides of copy constraints that hold no element, in
/// the order of the constraints, left side first.
pub open spec fn endpoint_failures(t: TraceView, copies: Seq<(Cell, Cell)>) -> Seq<FailureView>
    decreases copies.len(),
{
    if copies.len() == 0 {
        Seq::empty()
    } else {
        endpoint_failures(t, copies.drop_last()) + missing(t, copies.last().0) + missing(
            t,
            copies.last().1,
        )
    }
}

/// What a binding has to report: nothing where its cell holds the public
/// input that it names.
pub open spec fn binding_failure(t: TraceView, public: Seq<nat>, b: Binding) -> Seq<FailureView> {
    if b.index >= public.len() {
        seq![FailureView::InstanceIndexOutOfRange { cell: b.cell, index: b.index }]
    } else if t.known(b.cell) == Some(public[b.index as int]) {
        Seq::empty()
    } else {
        seq![FailureView::InstanceMismatch { cell: b.cell, index: b.index }]
    }
}

/// What the bindings have to report, in their order.
pub open spec fn binding_failures(t: TraceView, public: Seq<nat>, bindings: Seq<Binding>) -> Seq<
    FailureView,
>
    decreases bindings.len(),
{
    if bindings.len() == 0 {
        Seq::empty()
    } else {
        binding_failures(t, public, bindings.drop_last()) + binding_failure(
            t,
            public,
            bindings.last(),
        )
    }
}

/// The number of cells of the table.
pub open spec fn cell_count(t: TraceView) -> nat {
    t.kinds.len() * t.rows
}

/// The place of a cell when the table is read column by column.
pub open spec fn cell_index(cell: Cell, rows: nat) -> int {
    cell.column * rows + cell.row
}

/// The cell at a place when the table is read column by column.
pub open spec fn cell_at(i: int, rows: nat) -> Cell {
    Cell { column: (i / rows as int) as usize, row: (i % rows as int) as usize }
}

/// Whether the copy constraints force the cells at two places to be equal.
pub open spec fn in_class(t: TraceView, i: int, j: int) -> bool {
    same_class(t.copies, cell_at(i, t.rows), cell_at(j, t.rows))
}

/// The residue in the cell at a place, where one was assigned.
pub open spec fn known_at(t: TraceView, i: int) -> Option<nat> {
    t.known(cell_at(i, t.rows))
}

/// Whether the cell at the place is the first of its class.
pub open spec fn leads(t: TraceView, i: int) -> bool {
    forall|j: int| 0 <= j < i ==> !#[trigger] in_class(t, j, i)
}

/// Whether two cells of the class of the cell at the place hold different
/// residues.
pub open spec fn clashes(t: TraceView, i: int) -> bool {
    exists|j: int, k: int|
        0 <= j < cell_count(t) && 0 <= k < cell_count(t) && #[trigger] in_class(t, i, j)
            && #[trigger] in_class(t, i, k) && known_at(t, j) is Some && known_at(t, k) is Some
            && known_at(t, j) != known_at(t, k)
}

/// The cells of the class of the cell at place `i` among the first `n`
/// places, in the order of their places.
pub open spec fn members(t: TraceView, i: int, n: nat) -> Seq<Cell>
    decreases n,
{
    if n == 0 {
        Seq::empty()
    } else if in_class(t, i, n - 1) {
        members(t, i, (n - 1) as nat).push(cell_at(n - 1, t.rows))
    } else {
        members(t, i, (n - 1) as nat)
    }
}

/// What there is to report of the cell at a place: its class, where it is
/// the first of the class and two cells of the class hold different
/// residues.
pub open spec fn class_failure(t: TraceView, i: int) -> Seq<FailureView> {
    if leads(t, i) && clashes(t, i) {
        seq![FailureView::CopyMismatch { cells: members(t, i, cell_count(t)) }]
    } else {
        Seq::empty()
    }
}

/// What there is to report of the classes that begin among the first `n`
/// places, in the order of their first cells.
pub open spec fn class_failures(t: TraceView, n: nat) -> Seq<FailureView>
    decreases n,
{
    if n == 0 {
        Seq::empty()
    } else {
        class_failures(t, (n - 1) as nat) + class_failure(t, n - 1)
    }
}

/// Everything that a trace violates: what the gates report, then the sides
/// of copy constraints that hold no element, then the classes of copy
/// constraints that hold different elements, then what the bindings to
/// public inputs report.
pub open spec fn failures(m: nat, shape: ShapeView, t: TraceView, public: Seq<nat>) -> Seq<
    FailureView,
> {
    gates_failures(m, shape.gates, t) + endpoint_failures(t, t.copies) + class_failures(
        t,
        cell_count(t),
    ) + binding_failures(t, public, t.bindings)
}

/// The cell at a place below the number of cells is a cell of the table,
/// and its place is that place.
pub proof fn lemma_cell_at(i: int, columns: nat, rows: nat)
    requires
        0 <= i < columns * rows,
        columns <= usize::MAX,
        rows <= usize::MAX,
    ensures
        rows > 0,
        cell_at(i, rows).column < columns,
        cell_at(i, rows).row < rows,
        cell_at(i, rows).column == i / rows as int,
        cell_at(i, rows).row == i % rows as int,
        cell_index(cell_at(i, rows), rows) == i,
{
    if rows == 0 {
        assert(columns * rows == 0) by (nonlinear_arith)
            requires
                rows == 0,
        ;
    }
    let r = rows as int;
    lemma_fundamental_div_mod(i, r);
    let q = i / r;
    assert(0 <= i % r < r);
    assert(0 <= q < columns) by (nonlinear_arith)
        requires
            i == r * q + i % r,
            0 <= i % r < r,
            0 <= i < columns * r,
            r > 0,
    ;
    assert(q * r == r * q) by (nonlinear_arith);
}

/// The place of a cell of the table is below the number of cells, and the
/// cell at that place is that cell.
pub proof fn lemma_cell_index(cell: Cell, columns: nat, rows: nat)
    requires
        cell.column < columns,
        cell.row < rows,
    ensures
        0 <= cell_index(cell, rows) < columns * rows,
        cell_at(cell_index(cell, rows), rows) == cell,
{
    let r = rows as int;
    let c = cell.column as int;
    let i = cell_index(cell, rows);
    assert(0 <= c * r + cell.row < columns * r) by (nonlinear_arith)
        requires
            0 <= c < columns,
            0 <= cell.row < r,
    ;
    lemma_fundamental_div_mod_converse(i, r, c, cell.row as int);
}

/// The cell at a place of the table.
fn cell_of<F: Field>(trace: &Trace<F>, i: usize) -> (r: Cell)
    requires
        trace.wf(),
        i < cell_count(trace@),
    ensures
        r == cell_at(i as int, trace@.rows),
        trace@.holds(r),
{
    proof {
        lemma_cell_at(i as int, trace@.kinds.len(), trace@.rows);
    }
    let rows = trace.rows();
    Cell { column: i / rows, row: i % rows }
}

/// The place of a cell of the table.
fn place_of<F: Field>(trace: &Trace<F>, cell: Cell) -> (r: usize)
    requires
        trace.wf(),
        trace@.holds(cell),
    ensures
        r == cell_index(cell, trace@.rows),
        r < cell_count(trace@),
{
    proof {
        lemma_cell_index(cell, trace@.kinds.len(), trace@.rows);
    }
    let rows = trace.rows();
    assert(cell.column * rows <= cell.column * rows + cell.row);
    cell.column * rows + cell.row
}

/// The places of the two sides of each copy constraint.
pub open spec fn places(copies: Seq<(Cell, Cell)>, rows: nat) -> Seq<(int, int)> {
    image(copies, |c: Cell| cell_index(c, rows))
}

/// Whether two places have one root in the ledger exactly where the copy
/// constraints force their cells to be equal.
pub open spec fn agrees(ledger: Ledger, t: TraceView) -> bool {
    &&& ledger.wf()
    &&& ledger.size() == cell_count(t)
    &&& forall|i: int, j: int|
        0 <= i < cell_count(t) && 0 <= j < cell_count(t) ==> (ledger.root(i) == ledger.root(j)
            <==> #[trigger] in_class(t, i, j))
}

/// The ledger of the copy constraints of a trace, over the places of its
/// cells.
fn build_ledger<F: Field>(trace: &Trace<F>) -> (ledger: Ledger)
    requires
        trace.wf(),
    ensures
        agrees(ledger, trace@),
{
    let n = trace.columns() * trace.rows();
    let mut ledger = Ledger::new(n);
    let copies = trace.copies();
    let ghost rows = trace@.rows;
    let mut e: usize = 0;
    assert(places(copies@.take(0), rows) =~= Seq::<(int, int)>::empty());
    while e < copies.len()
        invariant
            e <= copies@.len(),
            copies@ == trace@.copies,
            rows == trace@.rows,
            trace.wf(),
            ledger.wf(),
            ledger.size() == cell_count(trace@),
            ledger.pairs() == places(copies@.take(e as int), rows),
        decreases copies@.len() - e,
    {
        let (left, right) = copies[e];
        assert(trace@.holds(trace@.copies[e as int].0) && trace@.holds(trace@.copies[e as int].1));
        let a = place_of(trace, left);
        let b = place_of(trace, right);
        ledger.union(a, b);
        assert(places(copies@.take(e + 1), rows) =~= places(copies@.take(e as int), rows).push(
            (a as int, b as int),
        ));
        e += 1;
    }
    proof {
        assert(copies@.take(e as int) =~= copies@);
        let t = trace@;
        let f = |c: Cell| cell_index(c, rows);
        let within = |c: Cell| t.holds(c);
        assert forall|x: Cell, y: Cell| within(x) && within(y) && #[trigger] f(x) == #[trigger] f(
            y,
        ) implies x == y by {
            lemma_cell_index(x, t.kinds.len(), rows);
            lemma_cell_index(y, t.kinds.len(), rows);
        }
        assert forall|i: int, j: int| 0 <= i < cell_count(t) && 0 <= j < cell_count(t) implies (
        ledger.root(i) == ledger.root(j) <==> #[trigger] in_class(t, i, j)) by {
            ledger.lemma_faithful(i, j);
            lemma_cell_at(i, t.kinds.len(), rows);
            lemma_cell_at(j, t.kinds.len(), rows);
            lemma_class_image(t.copies, f, within, cell_at(i, rows), cell_at(j, rows));
        }
    }
    ledger
}

/// What the first `n` places say of the class with root `r`: `first` is
/// the residue of its first cell that holds one, and `bad` says whether
/// two of its cells hold different residues.
pub open spec fn tallied(
    t: TraceView,
    ledger: Ledger,
    n: int,
    r: int,
    first: Option<nat>,
    bad: bool,
) -> bool {
    &&& first is None ==> forall|j: int|
        0 <= j < n && #[trigger] ledger.root(j) == r ==> known_at(t, j) is None
    &&& first is Some ==> exists|j: int|
        0 <= j < n && #[trigger] ledger.root(j) == r && known_at(t, j) == first
    &&& !bad ==> forall|j: int|
        0 <= j < n && #[trigger] ledger.root(j) == r && known_at(t, j) is Some ==> known_at(t, j)
            == first
    &&& bad ==> exists|j: int, k: int|
        0 <= j < n && 0 <= k < n && #[trigger] ledger.root(j) == r && #[trigger] ledger.root(k)
            == r && known_at(t, j) is Some && known_at(t, k) is Some && known_at(t, j)
            != known_at(t, k)
}

/// The residue of an element that may be absent.
pub open spec fn residue<F: Field>(x: Option<F>) -> Option<nat> {
    match x {
        Some(v) => Some(v.value()),
        None => None,
    }
}

/// For each root of the ledger, whether two cells of its class hold
/// different elements.
fn clashing<F: Field>(trace: &Trace<F>, ledger: &Ledger) -> (bad: Vec<bool>)
    requires
        trace.wf(),
        agrees(*ledger, trace@),
    ensures
        bad@.len() == cell_count(trace@),
        forall|i: int|
            0 <= i < cell_count(trace@) ==> (bad@[ledger.root(i)] <==> #[trigger] clashes(
                trace@,
                i,
            )),
{
    let n = ledger.len();
    let ghost t = trace@;
    let mut first: Vec<Option<F>> = Vec::new();
    let mut bad: Vec<bool> = Vec::new();
    let mut r: usize = 0;
    while r < n
        invariant
            r <= n,
            first@.len() == r,
            bad@.len() == r,
            forall|k: int| 0 <= k < r ==> (#[trigger] first@[k]) is None,
            forall|k: int| 0 <= k < r ==> !#[trigger] bad@[k],
        decreases n - r,
    {
        first.push(None);
        bad.push(false);
        r += 1;
    }
    let mut i: usize = 0;
    while i < n
        invariant
            i <= n,
            n == cell_count(t),
            t == trace@,
            trace.wf(),
            agrees(*ledger, t),
            first@.len() == n,
            bad@.len() == n,
            forall|r: int|
                0 <= r < n ==> tallied(t, *ledger, i as int, r, residue(#[trigger] first@[r]), bad@[r]),
        decreases n - i,
    {
        let root = ledger.find(i);
        let cell = cell_of(trace, i);
        let ghost old_first = first@;
        let ghost old_bad = bad@;
        assert(tallied(t, *ledger, i as int, root as int, residue(old_first[root as int]), old_bad[root as int]));
        match trace.known(cell) {
            None => {},
            Some(x) => {
                match first[root] {
                    None => {
                        first.set(root, Some(x));
                    },
                    Some(v) => {
                        if !x.same(&v) {
                            bad.set(root, true);
                        }
                    },
                }
            },
        }
        proof {
            assert forall|r: int| 0 <= r < n implies tallied(
                t,
                *ledger,
                i + 1,
                r,
                residue(#[trigger] first@[r]),
                bad@[r],
            ) by {
                assert(tallied(t, *ledger, i as int, r, residue(old_first[r]), old_bad[r]));
                if r != root {
                    assert(first@[r] == old_first[r]);
                    assert(bad@[r] == old_bad[r]);
                } else {
                    lemma_tally_step(
                        t,
                        *ledger,
                        i as int,
                        residue(old_first[r]),
                        old_bad[r],
                        residue(first@[r]),
                        bad@[r],
                    );
                }
            }
        }
        i += 1;
    }
    proof {
        assert forall|i: int| 0 <= i < cell_count(t) implies (bad@[ledger.root(i)]
            <==> #[trigger] clashes(t, i)) by {
            ledger.lemma_root(i);
            let r = ledger.root(i);
            assert(tallied(t, *ledger, n as int, r, residue(first@[r]), bad@[r]));
            lemma_tally_done(t, *ledger, i, residue(first@[r]), bad@[r]);
        }
    }
    bad
}

/// The tally of the class of place `n` after that place was read: the
/// first residue is kept or set, and a residue that differs from it is
/// marked.
proof fn lemma_tally_step(
    t: TraceView,
    ledger: Ledger,
    n: int,
    first: Option<nat>,
    bad: bool,
    new_first: Option<nat>,
    new_bad: bool,
)
    requires
        0 <= n,
        tallied(t, ledger, n, ledger.root(n), first, bad),
        new_first == match known_at(t, n) {
            None => first,
            Some(x) => match first {
                None => Some(x),
                Some(v) => Some(v),
            },
        },
        new_bad == match known_at(t, n) {
            None => bad,
            Some(x) => match first {
                None => bad,
                Some(v) => bad || x != v,
            },
        },
    ensures
        tallied(t, ledger, n + 1, ledger.root(n), new_first, new_bad),
{
    let r = ledger.root(n);
    if first is Some {
        let j = choose|j: int| 0 <= j < n && #[trigger] ledger.root(j) == r && known_at(t, j) == first;
        assert(0 <= j < n + 1 && ledger.root(j) == r && known_at(t, j) == new_first);
        if new_bad && !bad {
            assert(0 <= n < n + 1 && ledger.root(n) == r && known_at(t, n) is Some && known_at(t, j)
                != known_at(t, n));
        }
    } else if new_first is Some {
        assert(0 <= n < n + 1 && ledger.root(n) == r && known_at(t, n) == new_first);
    }
    if bad {
        let (j, k) = choose|j: int, k: int|
            0 <= j < n && 0 <= k < n && #[trigger] ledger.root(j) == r && #[trigger] ledger.root(k)
                == r && known_at(t, j) is Some && known_at(t, k) is Some && known_at(t, j)
                != known_at(t, k);
        assert(0 <= j < n + 1 && 0 <= k < n + 1 && ledger.root(j) == r && ledger.root(k) == r);
    }
}

/// Once every place was read, the tally of a class says whether two of its
/// cells hold different residues.
proof fn lemma_tally_done(t: TraceView, ledger: Ledger, i: int, first: Option<nat>, bad: bool)
    requires
        agrees(ledger, t),
        0 <= i < cell_count(t),
        tallied(t, ledger, cell_count(t) as int, ledger.root(i), first, bad),
    ensures
        bad <==> clashes(t, i),
{
    let r = ledger.root(i);
    let n = cell_count(t) as int;
    if bad {
        let (j, k) = choose|j: int, k: int|
            0 <= j < n && 0 <= k < n && #[trigger] ledger.root(j) == r && #[trigger] ledger.root(k)
                == r && known_at(t, j) is Some && known_at(t, k) is Some && known_at(t, j)
                != known_at(t, k);
        assert(in_class(t, i, j) && in_class(t, i, k));
    }
    if clashes(t, i) {
        let (j, k) = choose|j: int, k: int|
            0 <= j < cell_count(t) && 0 <= k < cell_count(t) && #[trigger] in_class(t, i, j)
                && #[trigger] in_class(t, i, k) && known_at(t, j) is Some && known_at(t, k) is Some
                && known_at(t, j) != known_at(t, k);
        assert(ledger.root(j) == r && ledger.root(k) == r);
    }
}

/// The cells of the class of the cell at a place, in the order of their
/// places.
fn class_members<F: Field>(trace: &Trace<F>, ledger: &Ledger, i: usize) -> (cells: Vec<Cell>)
    requires
        trace.wf(),
        agrees(*ledger, trace@),
        i < cell_count(trace@),
    ensures
        cells@ == members(trace@, i as int, cell_count(trace@)),
{
    let n = ledger.len();
    let root = ledger.find(i);
    let mut cells: Vec<Cell> = Vec::new();
    let mut j: usize = 0;
    while j < n
        invariant
            j <= n,
            n == cell_count(trace@),
            i < n,
            trace.wf(),
            agrees(*ledger, trace@),
            root == ledger.root(i as int),
            cells@ == members(trace@, i as int, j as nat),
        decreases n - j,
    {
        assert(ledger.root(i as int) == ledger.root(j as int) <==> in_class(trace@, i as int, j as int));
        if ledger.find(j) == root {
            cells.push(cell_of(trace, j));
        }
        j += 1;
    }
    cells
}

/// Reports every class of the copy constraints in which two cells hold
/// different elements.
fn check_classes<F: Field>(trace: &Trace<F>, out: &mut Vec<Failure>)
    requires
        trace.wf(),
    ensures
        failures_view(final(out)@) == failures_view(old(out)@) + class_failures(
            trace@,
            cell_count(trace@),
        ),
{
    let ledger = build_ledger(trace);
    let bad = clashing(trace, &ledger);
    let n = ledger.len();
    let ghost t = trace@;
    let mut seen: Vec<bool> = Vec::new();
    let mut r: usize = 0;
    while r < n
        invariant
            r <= n,
            seen@.len() == r,
            forall|k: int| 0 <= k < r ==> !#[trigger] seen@[k],
        decreases n - r,
    {
        seen.push(false);
        r += 1;
    }
    let mut i: usize = 0;
    assert(failures_view(out@) =~= failures_view(old(out)@) + Seq::<FailureView>::empty());
    while i < n
        invariant
            i <= n,
            n == cell_count(t),
            t == trace@,
            trace.wf(),
            agrees(ledger, t),
            bad@.len() == n,
            forall|k: int| 0 <= k < n ==> (bad@[ledger.root(k)] <==> #[trigger] clashes(t, k)),
            seen@.len() == n,
            forall|r: int|
                0 <= r < n ==> (#[trigger] seen@[r] <==> exists|j: int|
                    0 <= j < i && #[trigger] ledger.root(j) == r),
            failures_view(out@) == failures_view(old(out)@) + class_failures(t, i as nat),
        decreases n - i,
    {
        let ghost before = failures_view(out@);
        let ghost part = class_failure(t, i as int);
        let ghost old_seen = seen@;
        let root = ledger.find(i);
        proof {
            if old_seen[root as int] {
                let j = choose|j: int| 0 <= j < i && #[trigger] ledger.root(j) == root;
                assert(in_class(t, j, i as int));
                assert(!leads(t, i as int));
            } else {
                assert forall|j: int| 0 <= j < i implies !#[trigger] in_class(t, j, i as int) by {
                    if in_class(t, j, i as int) {
                        assert(ledger.root(j) == root);
                    }
                }
                assert(leads(t, i as int));
            }
            assert(bad@[ledger.root(i as int)] <==> clashes(t, i as int));
        }
        if !seen[root] {
            seen.set(root, true);
            if bad[root] {
                let cells = class_members(trace, &ledger, i);
                report(out, Failure::CopyMismatch { cells });
            }
        }
        proof {
            assert(failures_view(out@) =~= before + part);
            assert(before + part =~= failures_view(old(out)@) + (class_failures(t, i as nat) + part));
            assert forall|r: int| 0 <= r < n implies (#[trigger] seen@[r] <==> exists|j: int|
                0 <= j < i + 1 && #[trigger] ledger.root(j) == r) by {
                if r == root {
                    assert(0 <= i < i + 1 && ledger.root(i as int) == r);
                } else {
                    assert(seen@[r] == old_seen[r]);
                    if old_seen[r] {
                        let j = choose|j: int| 0 <= j < i && #[trigger] ledger.root(j) == r;
                        assert(0 <= j < i + 1 && ledger.root(j) == r);
                    }
                    if exists|j: int| 0 <= j < i + 1 && #[trigger] ledger.root(j) == r {
                        let j = choose|j: int| 0 <= j < i + 1 && #[trigger] ledger.root(j) == r;
                        assert(j != i);
                        assert(0 <= j < i && ledger.root(j) == r);
                    }
                }
            }
        }
        i += 1;
    }
}

/// Checks one gate on every row of the trace.
fn check_gate<F: Field>(gate: &Gate<F>, trace: &Trace<F>, out: &mut Vec<Failure>)
    requires
        trace.wf(),
    ensures
        failures_view(final(out)@) == failures_view(old(out)@) + gate_failures(
            F::modulus(),
            gate@,
            trace@,
            trace@.rows,
        ),
{
    let rows = trace.rows();
    let mut row: usize = 0;
    assert(failures_view(out@) =~= failures_view(old(out)@) + Seq::<FailureView>::empty());
    while row < rows
        invariant
            row <= rows,
            rows == trace@.rows,
            trace.wf(),
            failures_view(out@) == failures_view(old(out)@) + gate_failures(
                F::modulus(),
                gate@,
                trace@,
                row as nat,
            ),
        decreases rows - row,
    {
        let ghost before = failures_view(out@);
        let ghost part = gate_row_failure(F::modulus(), gate@, trace@, row as int);
        if trace.is_enabled(gate.selector, row) {
            match gate.poly.evaluate(trace, row) {
                Ok(v) => {
                    if !v.is_zero() {
                        report(out, Failure::GateNotSatisfied { gate: gate.name.clone(), row });
                    }
                },
                Err(cell) => {
                    report(out, Failure::UnassignedCell { cell });
                },
            }
        }
        assert(failures_view(out@) =~= before + part);
        assert(before + part =~= failures_view(old(out)@) + (gate_failures(
            F::modulus(),
            gate@,
            trace@,
            row as nat,
        ) + part));
        row += 1;
    }
}

/// Checks every gate on every row of the trace.
fn check_gates<F: Field>(shape: &CircuitShape<F>, trace: &Trace<F>, out: &mut Vec<Failure>)
    requires
        trace.wf(),
    ensures
        failures_view(final(out)@) == failures_view(old(out)@) + gates_failures(
            F::modulus(),
            shape@.gates,
            trace@,
        ),
{
    let gates = shape.gates();
    let mut g: usize = 0;
    assert(shape@.gates.take(0) =~= Seq::<GateView>::empty());
    assert(failures_view(out@) =~= failures_view(old(out)@) + Seq::<FailureView>::empty());
    while g < gates.len()
        invariant
            g <= gates@.len(),
            gates@.len() == shape@.gates.len(),
            forall|k: int| 0 <= k < gates@.len() ==> (#[trigger] gates@[k])@ == shape@.gates[k],
            trace.wf(),
            failures_view(out@) == failures_view(old(out)@) + gates_failures(
                F::modulus(),
                shape@.gates.take(g as int),
                trace@,
            ),
        decreases gates@.len() - g,
    {
        let ghost before = failures_view(out@);
        check_gate(&gates[g], trace, out);
        proof {
            let next = shape@.gates.take(g + 1);
            assert(next.drop_last() =~= shape@.gates.take(g as int));
            assert(next.last() == gates@[g as int]@);
            let part = gate_failures(F::modulus(), gates@[g as int]@, trace@, trace@.rows);
            assert(before + part =~= failures_view(old(out)@) + (gates_failures(
                F::modulus(),
                shape@.gates.take(g as int),
                trace@,
            ) + part));
        }
        g += 1;
    }
    assert(shape@.gates.take(g as int) =~= shape@.gates);
}

/// Reports the cell where it holds no element.
fn check_known<F: Field>(trace: &Trace<F>, cell: Cell, out: &mut Vec<Failure>)
    requires
        trace.wf(),
    ensures
        failures_view(final(out)@) == failures_view(old(out)@) + missing(trace@, cell),
{
    if trace.known(cell).is_none() {
        report(out, Failure::UnassignedCell { cell });
    }
    assert(failures_view(out@) =~= failures_view(old(out)@) + missing(trace@, cell));
}

/// Reports the sides of copy constraints that hold no element.
fn check_endpoints<F: Field>(trace: &Trace<F>, out: &mut Vec<Failure>)
    requires
        trace.wf(),
    ensures
        failures_view(final(out)@) == failures_view(old(out)@) + endpoint_failures(
            trace@,
            trace@.copies,
        ),
{
    let copies = trace.copies();
    let mut i: usize = 0;
    assert(copies@.take(0) =~= Seq::<(Cell, Cell)>::empty());
    assert(failures_view(out@) =~= failures_view(old(out)@) + Seq::<FailureView>::empty());
    while i < copies.len()
        invariant
            i <= copies@.len(),
            copies@ == trace@.copies,
            trace.wf(),
            failures_view(out@) == failures_view(old(out)@) + endpoint_failures(
                trace@,
                copies@.take(i as int),
            ),
        decreases copies@.len() - i,
    {
        let ghost before = failures_view(out@);
        let (left, right) = copies[i];
        check_known(trace, left, out);
        check_known(trace, right, out);
        proof {
            let next = copies@.take(i + 1);
            assert(next.drop_last() =~= copies@.take(i as int));
            assert(next.last() == copies@[i as int]);
            assert(before + missing(trace@, left) + missing(trace@, right) =~= failures_view(
                old(out)@,
            ) + (endpoint_failures(trace@, copies@.take(i as int)) + missing(trace@, left)
                + missing(trace@, right)));
        }
        i += 1;
    }
    assert(copies@.take(i as int) =~= copies@);
}

/// Checks every binding against the public inputs.
fn check_bindings<F: Field>(trace: &Trace<F>, public_inputs: &Vec<F>, out: &mut Vec<Failure>)
    requires
        trace.wf(),
    ensures
        failures_view(final(out)@) == failures_view(old(out)@) + binding_failures(
            trace@,
            values(public_inputs@),
            trace@.bindings,
        ),
{
    let bindings = trace.bindings();
    let ghost public = values(public_inputs@);
    let mut i: usize = 0;
    assert(bindings@.take(0) =~= Seq::<Binding>::empty());
    assert(failures_view(out@) =~= failures_view(old(out)@) + Seq::<FailureView>::empty());
    while i < bindings.len()
        invariant
            i <= bindings@.len(),
            bindings@ == trace@.bindings,
            public == values(public_inputs@),
            trace.wf(),
            failures_view(out@) == failures_view(old(out)@) + binding_failures(
                trace@,
                public,
                bindings@.take(i as int),
            ),
        decreases bindings@.len() - i,
    {
        let ghost before = failures_view(out@);
        let b = bindings[i];
        let ghost part = binding_failure(trace@, public, b);
        if b.index >= public_inputs.len() {
            report(out, Failure::InstanceIndexOutOfRange { cell: b.cell, index: b.index });
        } else {
            let held = match trace.known(b.cell) {
                Some(x) => x.same(&public_inputs[b.index]),
                None => false,
            };
            if !held {
                report(out, Failure::InstanceMismatch { cell: b.cell, index: b.index });
            }
        }
        proof {
            assert(failures_view(out@) =~= before + part);
            let next = bindings@.take(i + 1);
            assert(next.drop_last() =~= bindings@.take(i as int));
            assert(next.last() == b);
            assert(before + part =~= failures_view(old(out)@) + (binding_failures(
                trace@,
                public,
                bindings@.take(i as int),
            ) + part));
        }
        i += 1;
    }
    assert(bindings@.take(i as int) =~= bindings@);
}

/// Checks a trace against the gates of its shape, its copy constraints and
/// its bindings to the public inputs. Succeeds where nothing is violated;
/// else returns every violation: what the gates report, row by row and gate
/// by gate; the sides of copy constraints that hold no element; the classes
/// of copy constraints in which two cells hold different elements; and the
/// bindings that the public inputs do not meet.
pub fn validate<F: Field>(shape: &CircuitShape<F>, trace: &Trace<F>, public_inputs: &Vec<F>) -> (r:
    Result<(), Vec<Failure>>)
    requires
        trace.wf(),
    ensures
        r is Ok <==> satisfied(F::modulus(), shape@, trace@, values(public_inputs@)),
        match r {
            Ok(_) => failures(F::modulus(), shape@, trace@, values(public_inputs@)).len() == 0,
            Err(list) => list@.len() > 0 && failures_view(list@) == failures(
                F::modulus(),
                shape@,
                trace@,
                values(public_inputs@),
            ),
        },
{
    proof {
        lemma_failures_exact(F::modulus(), shape@, trace@, values(public_inputs@));
    }
    let mut out: Vec<Failure> = Vec::new();
    assert(failures_view(out@) =~= Seq::<FailureView>::empty());
    check_gates(shape, trace, &mut out);
    check_endpoints(trace, &mut out);
    check_classes(trace, &mut out);
    check_bindings(trace, public_inputs, &mut out);
    assert(failures_view(out@) =~= failures(F::modulus(), shape@, trace@, values(public_inputs@)));
    if out.len() == 0 {
        Ok(())
    } else {
        Err(out)
    }
}

} // verus!
