//! What validation means: a trace passes exactly where every enabled gate
//! vanishes, every class of copy constraints holds one value, and every
//! bound cell holds its public input.

use vstd::prelude::*;
use crate::cell::{Cell, Column, ColumnKind};
use crate::error::Error;
use crate::failure::FailureView;
use crate::ledger::{same_class, lemma_class_equivalence, lemma_class_joins, lemma_class_least};
use crate::shape::{GateView, ShapeView};
use crate::trace::{Binding, TraceView};
use crate::validate::{
    binding_failure, binding_failures, cell_at, cell_count, cell_index, class_failure,
    class_failures, clashes, endpoint_failures, failures, gate_failures, gate_row_failure,
    gates_failures, in_class, known_at, leads, lemma_cell_index, missing,
};

verus! {

/// Whether the polynomial of a gate vanishes on the row, if the selector of
/// that gate is enabled there.
pub open spec fn row_holds(m: nat, gate: GateView, t: TraceView, row: int) -> bool {
    t.is_enabled(gate.selector, row) ==> gate.poly.eval(t, row, m) == Ok::<nat, Cell>(0)
}

/// Whether every gate vanishes on every row where its selector is enabled.
pub open spec fn gates_hold(m: nat, shape: ShapeView, t: TraceView) -> bool {
    forall|g: int, row: int|
        0 <= g < shape.gates.len() && 0 <= row < t.rows ==> #[trigger] row_holds(
            m,
            shape.gates[g],
            t,
            row,
        )
}

/// Whether both sides of every copy constraint hold a residue, and any two
/// cells that the copy constraints force to be equal hold the same residue
/// where both hold one.
pub open spec fn copies_hold(t: TraceView) -> bool {
    &&& forall|e: int|
        0 <= e < t.copies.len() ==> t.known((#[trigger] t.copies[e]).0) is Some && t.known(
            t.copies[e].1,
        ) is Some
    &&& forall|a: Cell, b: Cell|
        #[trigger] same_class(t.copies, a, b) && t.known(a) is Some && t.known(b) is Some
            ==> t.known(a) == t.known(b)
}

/// Whether every bound cell holds the public input that it is bound to.
pub open spec fn bindings_hold(t: TraceView, public: Seq<nat>) -> bool {
    forall|i: int|
        0 <= i < t.bindings.len() ==> (#[trigger] t.bindings[i]).index < public.len() && t.known(
            t.bindings[i].cell,
        ) == Some(public[t.bindings[i].index as int])
}

/// Whether the trace meets every constraint.
pub open spec fn satisfied(m: nat, shape: ShapeView, t: TraceView, public: Seq<nat>) -> bool {
    gates_hold(m, shape, t) && copies_hold(t) && bindings_hold(t, public)
}

/// A gate reports nothing of the first `n` rows exactly where it holds on
/// each of them.
pub proof fn lemma_gate_rows(m: nat, gate: GateView, t: TraceView, n: nat)
    ensures
        gate_failures(m, gate, t, n).len() == 0 <==> forall|row: int|
            0 <= row < n ==> #[trigger] row_holds(m, gate, t, row),
    decreases n,
{
    if n > 0 {
        lemma_gate_rows(m, gate, t, (n - 1) as nat);
        let before = gate_failures(m, gate, t, (n - 1) as nat);
        let last = gate_row_failure(m, gate, t, n - 1);
        assert(gate_failures(m, gate, t, n).len() == before.len() + last.len());
        assert(last.len() == 0 <==> row_holds(m, gate, t, n - 1));
        if gate_failures(m, gate, t, n).len() == 0 {
            assert forall|row: int| 0 <= row < n implies #[trigger] row_holds(m, gate, t, row) by {
                if row < n - 1 {
                    assert(row_holds(m, gate, t, row));
                }
            }
        }
        if forall|row: int| 0 <= row < n ==> #[trigger] row_holds(m, gate, t, row) {
            assert(row_holds(m, gate, t, n - 1));
            assert forall|row: int| 0 <= row < n - 1 implies #[trigger] row_holds(m, gate, t, row) by {
                assert(0 <= row < n);
            }
        }
    }
}

/// The gates report nothing exactly where each holds on every row.
pub proof fn lemma_gates(m: nat, gates: Seq<GateView>, t: TraceView)
    ensures
        gates_failures(m, gates, t).len() == 0 <==> forall|g: int, row: int|
            0 <= g < gates.len() && 0 <= row < t.rows ==> #[trigger] row_holds(m, gates[g], t, row),
    decreases gates.len(),
{
    if gates.len() > 0 {
        let before = gates.drop_last();
        let last = gates.last();
        lemma_gates(m, before, t);
        lemma_gate_rows(m, last, t, t.rows);
        assert(gates_failures(m, gates, t).len() == gates_failures(m, before, t).len()
            + gate_failures(m, last, t, t.rows).len());
        if gates_failures(m, gates, t).len() == 0 {
            assert forall|g: int, row: int|
                0 <= g < gates.len() && 0 <= row < t.rows implies #[trigger] row_holds(
                m,
                gates[g],
                t,
                row,
            ) by {
                if g < gates.len() - 1 {
                    assert(before[g] == gates[g]);
                    assert(row_holds(m, before[g], t, row));
                } else {
                    assert(row_holds(m, last, t, row));
                }
            }
        }
        if forall|g: int, row: int|
            0 <= g < gates.len() && 0 <= row < t.rows ==> #[trigger] row_holds(m, gates[g], t, row) {
            assert forall|row: int| 0 <= row < t.rows implies #[trigger] row_holds(
                m,
                last,
                t,
                row,
            ) by {
                assert(row_holds(m, gates[gates.len() - 1], t, row));
            }
            assert forall|g: int, row: int|
                0 <= g < before.len() && 0 <= row < t.rows implies #[trigger] row_holds(
                m,
                before[g],
                t,
                row,
            ) by {
                assert(before[g] == gates[g]);
                assert(row_holds(m, gates[g], t, row));
            }
        }
    }
}

/// Nothing is reported of the sides of copy constraints exactly where each
/// side holds a residue.
pub proof fn lemma_endpoints(t: TraceView, copies: Seq<(Cell, Cell)>)
    ensures
        endpoint_failures(t, copies).len() == 0 <==> forall|e: int|
            0 <= e < copies.len() ==> t.known((#[trigger] copies[e]).0) is Some && t.known(
                copies[e].1,
            ) is Some,
    decreases copies.len(),
{
    if copies.len() > 0 {
        let before = copies.drop_last();
        let last = copies.last();
        lemma_endpoints(t, before);
        assert(endpoint_failures(t, copies).len() == endpoint_failures(t, before).len() + missing(
            t,
            last.0,
        ).len() + missing(t, last.1).len());
        if endpoint_failures(t, copies).len() == 0 {
            assert forall|e: int| 0 <= e < copies.len() implies t.known(
                (#[trigger] copies[e]).0,
            ) is Some && t.known(copies[e].1) is Some by {
                if e < copies.len() - 1 {
                    assert(before[e] == copies[e]);
                }
            }
        }
        if forall|e: int|
            0 <= e < copies.len() ==> t.known((#[trigger] copies[e]).0) is Some && t.known(
                copies[e].1,
            ) is Some {
            assert(copies[copies.len() - 1] == last);
            assert forall|e: int| 0 <= e < before.len() implies t.known(
                (#[trigger] before[e]).0,
            ) is Some && t.known(before[e].1) is Some by {
                assert(before[e] == copies[e]);
            }
        }
    }
}

/// The bindings report nothing exactly where each bound cell holds its
/// public input.
pub proof fn lemma_bindings(t: TraceView, public: Seq<nat>, bindings: Seq<Binding>)
    ensures
        binding_failures(t, public, bindings).len() == 0 <==> forall|i: int|
            0 <= i < bindings.len() ==> (#[trigger] bindings[i]).index < public.len() && t.known(
                bindings[i].cell,
            ) == Some(public[bindings[i].index as int]),
    decreases bindings.len(),
{
    if bindings.len() > 0 {
        let before = bindings.drop_last();
        let last = bindings.last();
        lemma_bindings(t, public, before);
        assert(binding_failures(t, public, bindings).len() == binding_failures(
            t,
            public,
            before,
        ).len() + binding_failure(t, public, last).len());
        if binding_failures(t, public, bindings).len() == 0 {
            assert forall|i: int| 0 <= i < bindings.len() implies (#[trigger] bindings[i]).index
                < public.len() && t.known(bindings[i].cell) == Some(
                public[bindings[i].index as int],
            ) by {
                if i < bindings.len() - 1 {
                    assert(before[i] == bindings[i]);
                }
            }
        }
        if forall|i: int|
            0 <= i < bindings.len() ==> (#[trigger] bindings[i]).index < public.len() && t.known(
                bindings[i].cell,
            ) == Some(public[bindings[i].index as int]) {
            assert(bindings[bindings.len() - 1] == last);
            assert forall|i: int| 0 <= i < before.len() implies (#[trigger] before[i]).index
                < public.len() && t.known(before[i].cell) == Some(
                public[before[i].index as int],
            ) by {
                assert(before[i] == bindings[i]);
            }
        }
    }
}

/// Nothing is reported of the classes that begin among the first `n` places
/// exactly where none of them holds two different residues.
pub proof fn lemma_classes(t: TraceView, n: nat)
    ensures
        class_failures(t, n).len() == 0 <==> forall|i: int|
            0 <= i < n && #[trigger] leads(t, i) ==> !clashes(t, i),
    decreases n,
{
    if n > 0 {
        lemma_classes(t, (n - 1) as nat);
        assert(class_failures(t, n).len() == class_failures(t, (n - 1) as nat).len()
            + class_failure(t, n - 1).len());
        if class_failures(t, n).len() == 0 {
            assert forall|i: int| 0 <= i < n && #[trigger] leads(t, i) implies !clashes(t, i) by {
                if i < n - 1 {
                    assert(0 <= i < n - 1 && leads(t, i));
                }
            }
        }
        if forall|i: int| 0 <= i < n && #[trigger] leads(t, i) ==> !clashes(t, i) {
            if leads(t, n - 1) {
                assert(!clashes(t, n - 1));
            }
            assert forall|i: int| 0 <= i < n - 1 && #[trigger] leads(t, i) implies !clashes(
                t,
                i,
            ) by {
                assert(0 <= i < n);
            }
        }
    }
}

/// Every class has a first cell.
pub proof fn lemma_leader(t: TraceView, i: int) -> (j: int)
    requires
        0 <= i,
    ensures
        0 <= j <= i,
        in_class(t, j, i),
        leads(t, j),
    decreases i,
{
    lemma_class_equivalence(t.copies);
    if leads(t, i) {
        i
    } else {
        let k = choose|k: int| 0 <= k < i && #[trigger] in_class(t, k, i);
        let j = lemma_leader(t, k);
        j
    }
}

/// No class holds two different residues exactly where any two cells that
/// the copy constraints force to be equal hold the same residue, if both
/// hold one.
pub proof fn lemma_no_clash(t: TraceView)
    requires
        t.well_formed(),
    ensures
        (forall|i: int| 0 <= i < cell_count(t) && #[trigger] leads(t, i) ==> !clashes(t, i))
            <==> (forall|a: Cell, b: Cell|
            #[trigger] same_class(t.copies, a, b) && t.known(a) is Some && t.known(b) is Some
                ==> t.known(a) == t.known(b)),
{
    lemma_class_equivalence(t.copies);
    let n = cell_count(t);
    if forall|i: int| 0 <= i < n && #[trigger] leads(t, i) ==> !clashes(t, i) {
        assert forall|a: Cell, b: Cell| #[trigger]
            same_class(t.copies, a, b) && t.known(a) is Some && t.known(b) is Some implies t.known(
            a,
        ) == t.known(b) by {
            lemma_cell_index(a, t.kinds.len(), t.rows);
            lemma_cell_index(b, t.kinds.len(), t.rows);
            let ia = cell_index(a, t.rows);
            let ib = cell_index(b, t.rows);
            let j = lemma_leader(t, ia);
            assert(in_class(t, j, ia));
            assert(in_class(t, ia, ib));
            assert(in_class(t, j, ib));
            assert(leads(t, j) && !clashes(t, j));
            if t.known(a) != t.known(b) {
                assert(known_at(t, ia) == t.known(a) && known_at(t, ib) == t.known(b));
                assert(clashes(t, j));
            }
        }
    }
    if forall|a: Cell, b: Cell| #[trigger]
        same_class(t.copies, a, b) && t.known(a) is Some && t.known(b) is Some ==> t.known(a)
            == t.known(b) {
        assert forall|i: int| 0 <= i < n && #[trigger] leads(t, i) implies !clashes(t, i) by {
            if clashes(t, i) {
                let (j, k) = choose|j: int, k: int|
                    0 <= j < cell_count(t) && 0 <= k < cell_count(t) && #[trigger] in_class(t, i, j)
                        && #[trigger] in_class(t, i, k) && known_at(t, j) is Some && known_at(
                        t,
                        k,
                    ) is Some && known_at(t, j) != known_at(t, k);
                assert(in_class(t, j, i));
                assert(same_class(t.copies, cell_at(j, t.rows), cell_at(k, t.rows)));
            }
        }
    }
}

/// Validation finds nothing to report exactly where the trace meets every
/// constraint.
pub proof fn lemma_failures_exact(m: nat, shape: ShapeView, t: TraceView, public: Seq<nat>)
    requires
        t.well_formed(),
    ensures
        failures(m, shape, t, public).len() == 0 <==> satisfied(m, shape, t, public),
{
    lemma_gates(m, shape.gates, t);
    lemma_endpoints(t, t.copies);
    lemma_classes(t, cell_count(t));
    lemma_no_clash(t);
    lemma_bindings(t, public, t.bindings);
    let a = gates_failures(m, shape.gates, t);
    let b = endpoint_failures(t, t.copies);
    let c = class_failures(t, cell_count(t));
    let d = binding_failures(t, public, t.bindings);
    assert(failures(m, shape, t, public).len() == a.len() + b.len() + c.len() + d.len());
}

/// Whether the two sides of every copy constraint hold one and the same
/// residue.
pub open spec fn copies_agree(t: TraceView) -> bool {
    forall|e: int|
        0 <= e < t.copies.len() ==> t.known((#[trigger] t.copies[e]).0) is Some && t.known(
            t.copies[e].0,
        ) == t.known(t.copies[e].1)
}

/// The classes of the copy constraints each hold one value exactly where
/// the two sides of each copy constraint do.
pub proof fn lemma_copies_edgewise(t: TraceView)
    ensures
        copies_hold(t) <==> copies_agree(t),
{
    if copies_hold(t) {
        assert forall|e: int| 0 <= e < t.copies.len() implies t.known(
            (#[trigger] t.copies[e]).0,
        ) is Some && t.known(t.copies[e].0) == t.known(t.copies[e].1) by {
            lemma_class_joins(t.copies, e);
        }
    }
    if copies_agree(t) {
        let rel = |x: Cell, y: Cell| t.known(x) == t.known(y);
        assert forall|a: Cell, b: Cell| #[trigger]
            same_class(t.copies, a, b) && t.known(a) is Some && t.known(b) is Some implies t.known(
            a,
        ) == t.known(b) by {
            assert forall|i: int| 0 <= i < t.copies.len() implies rel(
                (#[trigger] t.copies[i]).0,
                t.copies[i].1,
            ) by {}
            lemma_class_least(t.copies, rel, a, b);
        }
    }
}

/// A list holds what either of its two parts holds.
proof fn lemma_either_part(a: Seq<FailureView>, b: Seq<FailureView>, x: FailureView)
    requires
        a.contains(x) || b.contains(x),
    ensures
        (a + b).contains(x),
{
    if a.contains(x) {
        let i = choose|i: int| 0 <= i < a.len() && a[i] == x;
        assert((a + b)[i] == x);
    } else {
        let i = choose|i: int| 0 <= i < b.len() && b[i] == x;
        assert((a + b)[a.len() + i] == x);
    }
}

/// What a gate reports of a row is among what the gates report.
proof fn lemma_row_reported(
    m: nat,
    gates: Seq<GateView>,
    t: TraceView,
    g: int,
    row: int,
    x: FailureView,
)
    requires
        0 <= g < gates.len(),
        0 <= row < t.rows,
        gate_row_failure(m, gates[g], t, row).contains(x),
    ensures
        gates_failures(m, gates, t).contains(x),
    decreases gates.len(),
{
    let before = gates.drop_last();
    if g < gates.len() - 1 {
        assert(before[g] == gates[g]);
        lemma_row_reported(m, before, t, g, row, x);
    } else {
        lemma_row_in_rows(m, gates.last(), t, t.rows, row, x);
    }
    lemma_either_part(gates_failures(m, before, t), gate_failures(m, gates.last(), t, t.rows), x);
}

/// What a gate reports of a row is among what it reports of the rows up to
/// any later one.
proof fn lemma_row_in_rows(m: nat, gate: GateView, t: TraceView, n: nat, row: int, x: FailureView)
    requires
        0 <= row < n,
        gate_row_failure(m, gate, t, row).contains(x),
    ensures
        gate_failures(m, gate, t, n).contains(x),
    decreases n,
{
    if row < n - 1 {
        lemma_row_in_rows(m, gate, t, (n - 1) as nat, row, x);
    }
    lemma_either_part(
        gate_failures(m, gate, t, (n - 1) as nat),
        gate_row_failure(m, gate, t, n - 1),
        x,
    );
}

/// What a binding reports is among what the bindings report.
proof fn lemma_binding_reported(
    t: TraceView,
    public: Seq<nat>,
    bindings: Seq<Binding>,
    i: int,
    x: FailureView,
)
    requires
        0 <= i < bindings.len(),
        binding_failure(t, public, bindings[i]).contains(x),
    ensures
        binding_failures(t, public, bindings).contains(x),
    decreases bindings.len(),
{
    let before = bindings.drop_last();
    if i < bindings.len() - 1 {
        assert(before[i] == bindings[i]);
        lemma_binding_reported(t, public, before, i, x);
    }
    lemma_either_part(
        binding_failures(t, public, before),
        binding_failure(t, public, bindings.last()),
        x,
    );
}

/// Gates are sound. Where validation finds nothing to report, the
/// polynomial of every gate evaluates to zero on every row on which the
/// selector of that gate is enabled.
pub proof fn lemma_gates_sound(
    m: nat,
    shape: ShapeView,
    t: TraceView,
    public: Seq<nat>,
    g: int,
    row: int,
)
    requires
        t.well_formed(),
        failures(m, shape, t, public).len() == 0,
        0 <= g < shape.gates.len(),
        0 <= row < t.rows,
        t.is_enabled(shape.gates[g].selector, row),
    ensures
        shape.gates[g].poly.eval(t, row, m) == Ok::<nat, Cell>(0),
{
    lemma_failures_exact(m, shape, t, public);
    assert(row_holds(m, shape.gates[g], t, row));
}

/// Gates decide. On a trace whose copy constraints and bindings hold,
/// validation finds nothing to report exactly where the polynomial of
/// every gate evaluates to zero on every row on which the selector of that
/// gate is enabled.
pub proof fn lemma_gates_decide(m: nat, shape: ShapeView, t: TraceView, public: Seq<nat>)
    requires
        t.well_formed(),
        copies_hold(t),
        bindings_hold(t, public),
    ensures
        failures(m, shape, t, public).len() == 0 <==> forall|g: int, row: int|
            0 <= g < shape.gates.len() && 0 <= row < t.rows && t.is_enabled(
                shape.gates[g].selector,
                row,
            ) ==> #[trigger] shape.gates[g].poly.eval(t, row, m) == Ok::<nat, Cell>(0),
{
    lemma_failures_exact(m, shape, t, public);
    if gates_hold(m, shape, t) {
        assert forall|g: int, row: int|
            0 <= g < shape.gates.len() && 0 <= row < t.rows && t.is_enabled(
                shape.gates[g].selector,
                row,
            ) implies #[trigger] shape.gates[g].poly.eval(t, row, m) == Ok::<nat, Cell>(0) by {
            assert(row_holds(m, shape.gates[g], t, row));
        }
    }
    if forall|g: int, row: int|
        0 <= g < shape.gates.len() && 0 <= row < t.rows && t.is_enabled(
            shape.gates[g].selector,
            row,
        ) ==> #[trigger] shape.gates[g].poly.eval(t, row, m) == Ok::<nat, Cell>(0) {
        assert forall|g: int, row: int|
            0 <= g < shape.gates.len() && 0 <= row < t.rows implies #[trigger] row_holds(
            m,
            shape.gates[g],
            t,
            row,
        ) by {
            if t.is_enabled(shape.gates[g].selector, row) {
                assert(shape.gates[g].poly.eval(t, row, m) == Ok::<nat, Cell>(0));
            }
        }
    }
}

/// Gates are complete. Where the polynomial of a gate evaluates to another
/// residue than zero on a row on which its selector is enabled, validation
/// reports that gate and that row as not satisfied.
pub proof fn lemma_gate_violation_reported(
    m: nat,
    shape: ShapeView,
    t: TraceView,
    public: Seq<nat>,
    g: int,
    row: int,
)
    requires
        0 <= g < shape.gates.len(),
        0 <= row < t.rows,
        t.is_enabled(shape.gates[g].selector, row),
        shape.gates[g].poly.eval(t, row, m) is Ok,
        shape.gates[g].poly.eval(t, row, m) != Ok::<nat, Cell>(0),
    ensures
        failures(m, shape, t, public).contains(
            FailureView::GateNotSatisfied { gate: shape.gates[g].name, row: row as usize },
        ),
{
    let x = FailureView::GateNotSatisfied { gate: shape.gates[g].name, row: row as usize };
    let part = gate_row_failure(m, shape.gates[g], t, row);
    assert(part[0] == x);
    lemma_row_reported(m, shape.gates, t, g, row, x);
    let a = gates_failures(m, shape.gates, t);
    let b = endpoint_failures(t, t.copies);
    let c = class_failures(t, cell_count(t));
    let d = binding_failures(t, public, t.bindings);
    lemma_either_part(a, b, x);
    lemma_either_part(a + b, c, x);
    lemma_either_part(a + b + c, d, x);
}

/// Whether a copy constraint relates the two cells, in either order.
pub open spec fn constrained(t: TraceView, a: Cell, b: Cell) -> bool {
    exists|e: int|
        0 <= e < t.copies.len() && (#[trigger] t.copies[e] == (a, b) || t.copies[e] == (b, a))
}

/// Copy constraints are transitive. Where one copy constraint relates `a`
/// and `b` and another relates `b` and `c`, and validation finds nothing to
/// report, `a` and `c` hold the same residue, though no copy constraint
/// may relate the two.
pub proof fn lemma_copies_transitive(
    m: nat,
    shape: ShapeView,
    t: TraceView,
    public: Seq<nat>,
    a: Cell,
    b: Cell,
    c: Cell,
)
    requires
        t.well_formed(),
        failures(m, shape, t, public).len() == 0,
        constrained(t, a, b),
        constrained(t, b, c),
    ensures
        t.known(a) is Some,
        t.known(a) == t.known(c),
{
    lemma_failures_exact(m, shape, t, public);
    lemma_class_equivalence(t.copies);
    let e1 = choose|e: int|
        0 <= e < t.copies.len() && (#[trigger] t.copies[e] == (a, b) || t.copies[e] == (b, a));
    let e2 = choose|e: int|
        0 <= e < t.copies.len() && (#[trigger] t.copies[e] == (b, c) || t.copies[e] == (c, b));
    lemma_class_joins(t.copies, e1);
    lemma_class_joins(t.copies, e2);
    assert(same_class(t.copies, a, b));
    assert(same_class(t.copies, b, c));
    assert(same_class(t.copies, a, c));
    assert(t.known(t.copies[e1].0) is Some && t.known(t.copies[e1].1) is Some);
    assert(t.known(t.copies[e2].0) is Some && t.known(t.copies[e2].1) is Some);
}

/// Bindings are sound. Where validation finds nothing to report, every
/// bound cell holds the public input that it is bound to.
pub proof fn lemma_bindings_sound(
    m: nat,
    shape: ShapeView,
    t: TraceView,
    public: Seq<nat>,
    i: int,
)
    requires
        t.well_formed(),
        failures(m, shape, t, public).len() == 0,
        0 <= i < t.bindings.len(),
    ensures
        t.bindings[i].index < public.len(),
        t.known(t.bindings[i].cell) == Some(public[t.bindings[i].index as int]),
{
    lemma_failures_exact(m, shape, t, public);
}

/// A binding is recorded without a look at any value or public input.
/// Binding a cell of the table through a declared column of public inputs
/// succeeds whatever the index is, adds that binding and changes nothing
/// else; and at validation the binding has nothing to report exactly where
/// the public input at its index was supplied and is what the cell holds.
pub proof fn lemma_binding_recorded(
    t: TraceView,
    cell: Cell,
    instance: Column,
    index: usize,
    public: Seq<nat>,
)
    requires
        t.declares(instance),
        instance.kind == ColumnKind::PublicInstance,
        t.holds(cell),
    ensures
        t.after_bind(cell, instance, index) == Ok::<TraceView, Error>(
            TraceView { bindings: t.bindings.push(Binding { cell, index }), ..t },
        ),
        binding_failure(
            t.after_bind(cell, instance, index).unwrap(),
            public,
            Binding { cell, index },
        ).len() == 0 <==> index < public.len() && t.known(cell) == Some(public[index as int]),
{
    let s = t.after_bind(cell, instance, index).unwrap();
    assert(s.known(cell) == t.known(cell));
}

/// Bindings decide. On a trace whose gates and copy constraints hold,
/// validation finds nothing to report exactly where every bound cell holds
/// the public input that it is bound to.
pub proof fn lemma_bindings_decide(m: nat, shape: ShapeView, t: TraceView, public: Seq<nat>)
    requires
        t.well_formed(),
        gates_hold(m, shape, t),
        copies_hold(t),
    ensures
        failures(m, shape, t, public).len() == 0 <==> forall|i: int|
            0 <= i < t.bindings.len() ==> (#[trigger] t.bindings[i]).index < public.len()
                && t.known(t.bindings[i].cell) == Some(public[t.bindings[i].index as int]),
{
    lemma_failures_exact(m, shape, t, public);
}

/// Bindings are complete. Where a cell is bound to a public input that was
/// supplied and does not hold it, validation reports the mismatch of that
/// cell and that input; where the input was not supplied, it reports the
/// index as out of range.
pub proof fn lemma_binding_violation_reported(
    m: nat,
    shape: ShapeView,
    t: TraceView,
    public: Seq<nat>,
    i: int,
)
    requires
        0 <= i < t.bindings.len(),
    ensures
        t.bindings[i].index < public.len() && t.known(t.bindings[i].cell) != Some(
            public[t.bindings[i].index as int],
        ) ==> failures(m, shape, t, public).contains(
            FailureView::InstanceMismatch { cell: t.bindings[i].cell, index: t.bindings[i].index },
        ),
        t.bindings[i].index >= public.len() ==> failures(m, shape, t, public).contains(
            FailureView::InstanceIndexOutOfRange {
                cell: t.bindings[i].cell,
                index: t.bindings[i].index,
            },
        ),
{
    let b = t.bindings[i];
    let part = binding_failure(t, public, b);
    if part.len() > 0 {
        let x = part[0];
        lemma_binding_reported(t, public, t.bindings, i, x);
        let a = gates_failures(m, shape.gates, t) + endpoint_failures(t, t.copies) + class_failures(
            t,
            cell_count(t),
        );
        lemma_either_part(a, binding_failures(t, public, t.bindings), x);
    }
}

} // verus!
