//! The trace: the table of assigned values, the rows on which each selector
//! is enabled, and the copy constraints and public-input bindings that were
//! recorded while the table was filled.

use vstd::prelude::*;
use crate::cell::{Cell, Column, ColumnKind, Selector};
use crate::error::Error;
use crate::field::Field;
use crate::region::{Op, OpView, Region, ops_view};
use crate::shape::{CircuitShape, ShapeView};
use crate::value::Value;

verus! {

/// The demand that a cell hold the public input at `index`.
#[derive(Clone, Copy, Debug, PartialEq, Eq, Structural)]
pub struct Binding {
    pub cell: Cell,
    pub index: usize,
}

/// A trace as a mathematical value. A slot of `cells` is `None` while it is
/// empty, `Some(None)` once a placeholder was assigned to it and
/// `Some(Some(v))` once the residue `v` was.
pub struct TraceView {
    pub rows: nat,
    pub kinds: Seq<ColumnKind>,
    pub equality: Seq<bool>,
    pub cells: Seq<Seq<Option<Option<nat>>>>,
    pub enabled: Seq<Seq<bool>>,
    pub copies: Seq<(Cell, Cell)>,
    pub bindings: Seq<Binding>,
}

impl TraceView {
    /// Whether the cell is a slot of the table.
    pub open spec fn holds(self, cell: Cell) -> bool {
        cell.column < self.kinds.len() && cell.row < self.rows
    }

    /// Whether the column is one of the table's, under its own kind.
    pub open spec fn declares(self, column: Column) -> bool {
        column.index < self.kinds.len() && self.kinds[column.index as int] == column.kind
    }

    /// What the cell's slot holds; nothing, for an address outside the table.
    pub open spec fn slot(self, cell: Cell) -> Option<Option<nat>> {
        if self.holds(cell) {
            self.cells[cell.column as int][cell.row as int]
        } else {
            None
        }
    }

    /// The residue in the cell, where one was assigned.
    pub open spec fn known(self, cell: Cell) -> Option<nat> {
        match self.slot(cell) {
            Some(Some(v)) => Some(v),
            _ => None,
        }
    }

    /// Whether the selector is enabled on the row.
    pub open spec fn is_enabled(self, selector: Selector, row: int) -> bool {
        selector.index < self.enabled.len() && 0 <= row < self.rows
            && self.enabled[selector.index as int][row]
    }

    /// Whether cells of the column may stand in copy constraints.
    pub open spec fn links(self, column: int) -> bool {
        0 <= column < self.equality.len() && self.equality[column]
    }

    /// The table is rectangular and small enough to be addressed, copy
    /// constraints relate cells of the table in columns that admit them, and
    /// bindings name cells of the table.
    pub open spec fn well_formed(self) -> bool {
        &&& self.cells.len() == self.kinds.len()
        &&& self.equality.len() == self.kinds.len()
        &&& self.kinds.len() <= usize::MAX
        &&& self.rows <= usize::MAX
        &&& self.kinds.len() * self.rows <= usize::MAX
        &&& forall|c: int| 0 <= c < self.cells.len() ==> (#[trigger] self.cells[c]).len() == self.rows
        &&& forall|s: int|
            0 <= s < self.enabled.len() ==> (#[trigger] self.enabled[s]).len() == self.rows
        &&& forall|i: int|
            0 <= i < self.copies.len() ==> {
                &&& self.holds((#[trigger] self.copies[i]).0)
                &&& self.holds(self.copies[i].1)
                &&& self.links(self.copies[i].0.column as int)
                &&& self.links(self.copies[i].1.column as int)
            }
        &&& forall|i: int| 0 <= i < self.bindings.len() ==> self.holds((#[trigger] self.bindings[i]).cell)
    }

    /// Why the cell is no slot of the table, if it is none.
    pub open spec fn misplaced(self, cell: Cell) -> Option<Error> {
        if cell.column >= self.kinds.len() {
            Some(Error::UndeclaredColumn)
        } else if cell.row >= self.rows {
            Some(Error::RowOutOfRange)
        } else {
            None
        }
    }

    /// What assigning `value` to the cell of `column` in `row` makes of the
    /// trace, or why it cannot be done.
    pub open spec fn after_assign(self, column: Column, row: usize, value: Option<nat>) -> Result<
        TraceView,
        Error,
    > {
        let cell = Cell { column: column.index, row };
        if !self.declares(column) {
            Err(Error::UndeclaredColumn)
        } else if row >= self.rows {
            Err(Error::RowOutOfRange)
        } else if self.cells[column.index as int][row as int] is Some {
            Err(Error::AssignmentConflict { cell })
        } else {
            Ok(
                TraceView {
                    cells: self.cells.update(
                        column.index as int,
                        self.cells[column.index as int].update(row as int, Some(value)),
                    ),
                    ..self
                },
            )
        }
    }

    /// What enabling `selector` on `row` makes of the trace, or why it
    /// cannot be done. Enabling what is enabled changes nothing.
    pub open spec fn after_enable(self, selector: Selector, row: usize) -> Result<TraceView, Error> {
        if selector.index >= self.enabled.len() {
            Err(Error::UndeclaredSelector)
        } else if row >= self.rows {
            Err(Error::RowOutOfRange)
        } else {
            Ok(
                TraceView {
                    enabled: self.enabled.update(
                        selector.index as int,
                        self.enabled[selector.index as int].update(row as int, true),
                    ),
                    ..self
                },
            )
        }
    }

    /// What the demand that `left` and `right` be equal makes of the trace,
    /// or why it cannot be made.
    pub open spec fn after_equal(self, left: Cell, right: Cell) -> Result<TraceView, Error> {
        if let Some(e) = self.misplaced(left) {
            Err(e)
        } else if let Some(e) = self.misplaced(right) {
            Err(e)
        } else if !self.links(left.column as int) || !self.links(right.column as int) {
            Err(Error::EqualityNotEnabled)
        } else {
            Ok(TraceView { copies: self.copies.push((left, right)), ..self })
        }
    }

    /// What binding `cell` to the public input at `index`, through the
    /// column `instance`, makes of the trace, or why it cannot be done.
    pub open spec fn after_bind(self, cell: Cell, instance: Column, index: usize) -> Result<
        TraceView,
        Error,
    > {
        if !self.declares(instance) {
            Err(Error::UndeclaredColumn)
        } else if instance.kind != ColumnKind::PublicInstance {
            Err(Error::NotAnInstanceColumn)
        } else if let Some(e) = self.misplaced(cell) {
            Err(e)
        } else {
            Ok(TraceView { bindings: self.bindings.push(Binding { cell, index }), ..self })
        }
    }

    /// What one step makes of the trace, or why it cannot be taken.
    pub open spec fn after(self, op: OpView) -> Result<TraceView, Error> {
        match op {
            OpView::Assign { column, row, value } => self.after_assign(column, row, value),
            OpView::Enable { selector, row } => self.after_enable(selector, row),
            OpView::Equal { left, right } => self.after_equal(left, right),
        }
    }

    /// What the steps, taken in order, make of the trace; or the error of
    /// the first step that cannot be taken.
    pub open spec fn after_all(self, ops: Seq<OpView>) -> Result<TraceView, Error>
        decreases ops.len(),
    {
        if ops.len() == 0 {
            Ok(self)
        } else {
            match self.after_all(ops.drop_last()) {
                Ok(t) => t.after(ops.last()),
                Err(e) => Err(e),
            }
        }
    }

    /// The structure of the trace: the trace with a placeholder in place of
    /// every assigned value.
    pub open spec fn skeleton(self) -> TraceView {
        TraceView {
            cells: Seq::new(
                self.cells.len(),
                |c: int| Seq::new(self.cells[c].len(), |r: int| blanked(self.cells[c][r])),
            ),
            ..self
        }
    }

    /// Whether one of the first `n` steps assigns to the cell.
    pub open spec fn staged(ops: Seq<OpView>, n: int, cell: Cell) -> bool {
        exists|j: int| 0 <= j < n && j < ops.len() && assigns_to(#[trigger] ops[j], cell)
    }
}

/// The slot with a placeholder in place of an assigned value.
pub open spec fn blanked(slot: Option<Option<nat>>) -> Option<Option<nat>> {
    match slot {
        Some(_) => Some(None),
        None => None,
    }
}

/// The step with a placeholder in place of an assigned value.
pub open spec fn erased(op: OpView) -> OpView {
    match op {
        OpView::Assign { column, row, value } => OpView::Assign { column, row, value: None },
        _ => op,
    }
}

/// The steps with a placeholder in place of every assigned value.
pub open spec fn all_erased(ops: Seq<OpView>) -> Seq<OpView> {
    Seq::new(ops.len(), |i: int| erased(ops[i]))
}

/// The outcome with a placeholder in place of every assigned value.
pub open spec fn outline(r: Result<TraceView, Error>) -> Result<TraceView, Error> {
    match r {
        Ok(t) => Ok(t.skeleton()),
        Err(e) => Err(e),
    }
}

/// Whether the step is an assignment to the cell.
pub open spec fn assigns_to(op: OpView, cell: Cell) -> bool {
    match op {
        OpView::Assign { column, row, value } => column.index == cell.column && row == cell.row,
        _ => false,
    }
}

/// What the steps make of the outcome of earlier steps.
pub open spec fn then_all(r: Result<TraceView, Error>, ops: Seq<OpView>) -> Result<
    TraceView,
    Error,
> {
    match r {
        Ok(t) => t.after_all(ops),
        Err(e) => Err(e),
    }
}

/// What a binding makes of the outcome of earlier steps.
pub open spec fn then_bind(
    r: Result<TraceView, Error>,
    cell: Cell,
    instance: Column,
    index: usize,
) -> Result<TraceView, Error> {
    match r {
        Ok(t) => t.after_bind(cell, instance, index),
        Err(e) => Err(e),
    }
}

/// The trace after an attempt to go on: what the attempt made of it, or
/// what there was where the attempt failed.
pub open spec fn held(r: Result<TraceView, Error>, fallback: TraceView) -> TraceView {
    match r {
        Ok(t) => t,
        Err(_) => fallback,
    }
}

/// The trace of a shape before anything is assigned.
pub open spec fn empty_trace(s: ShapeView) -> TraceView {
    TraceView {
        rows: s.rows,
        kinds: s.kinds,
        equality: s.equality,
        cells: Seq::new(s.kinds.len(), |c: int| Seq::new(s.rows, |r: int| None)),
        enabled: Seq::new(s.selectors, |c: int| Seq::new(s.rows, |r: int| false)),
        copies: Seq::empty(),
        bindings: Seq::empty(),
    }
}

/// A step that can be taken keeps the form of the table and the invariant
/// of the trace, and fills at most the cell that it assigns.
pub proof fn lemma_step_keeps_form(t: TraceView, op: OpView)
    requires
        t.well_formed(),
        t.after(op) is Ok,
    ensures
        t.after(op).unwrap().well_formed(),
        t.after(op).unwrap().rows == t.rows,
        t.after(op).unwrap().kinds == t.kinds,
        t.after(op).unwrap().equality == t.equality,
        t.after(op).unwrap().enabled.len() == t.enabled.len(),
        t.after(op).unwrap().bindings == t.bindings,
        forall|cell: Cell|
            t.holds(cell) ==> (#[trigger] t.after(op).unwrap().slot(cell) is Some <==> t.slot(
                cell,
            ) is Some || assigns_to(op, cell)),
{
    let s = t.after(op).unwrap();
    match op {
        OpView::Assign { column, row, value } => {
            assert forall|c: int| 0 <= c < s.cells.len() implies (#[trigger] s.cells[c]).len()
                == s.rows by {
                assert(t.cells[c].len() == t.rows);
            }
        },
        OpView::Enable { selector, row } => {
            assert forall|k: int| 0 <= k < s.enabled.len() implies (#[trigger] s.enabled[k]).len()
                == s.rows by {
                assert(t.enabled[k].len() == t.rows);
            }
        },
        OpView::Equal { left, right } => {
            assert forall|i: int| 0 <= i < s.copies.len() implies {
                &&& s.holds((#[trigger] s.copies[i]).0)
                &&& s.holds(s.copies[i].1)
                &&& s.links(s.copies[i].0.column as int)
                &&& s.links(s.copies[i].1.column as int)
            } by {
                if i < t.copies.len() {
                    assert(s.copies[i] == t.copies[i]);
                }
            }
        },
    }
}

/// The value that a step assigns.
pub open spec fn assigned_by(op: OpView) -> Option<nat> {
    match op {
        OpView::Assign { column, row, value } => value,
        _ => None,
    }
}

/// Whether the step enables the selector on the row.
pub open spec fn enables(op: OpView, selector: Selector, row: int) -> bool {
    match op {
        OpView::Enable { selector: s, row: r } => s == selector && r == row,
        _ => false,
    }
}

/// What a step that can be taken leaves to be seen: the cell that it
/// assigns holds the assigned value and every other cell what it held; the
/// selector that it enables is enabled on that row, and every other switch
/// stands as it stood; the pair that it relates is added to the copy
/// constraints; and the bindings are as they were.
pub proof fn lemma_step_seen(t: TraceView, op: OpView)
    requires
        t.well_formed(),
        t.after(op) is Ok,
    ensures
        forall|cell: Cell| #[trigger]
            t.after(op).unwrap().slot(cell) == if assigns_to(op, cell) {
                Some(assigned_by(op))
            } else {
                t.slot(cell)
            },
        forall|selector: Selector, row: int| #[trigger]
            t.after(op).unwrap().is_enabled(selector, row) == (t.is_enabled(selector, row)
                || enables(op, selector, row)),
        t.after(op).unwrap().copies == match op {
            OpView::Equal { left, right } => t.copies.push((left, right)),
            _ => t.copies,
        },
        t.after(op).unwrap().bindings == t.bindings,
        t.after(op).unwrap().rows == t.rows,
        t.after(op).unwrap().kinds == t.kinds,
        t.after(op).unwrap().equality == t.equality,
        t.after(op).unwrap().enabled.len() == t.enabled.len(),
        t.after(op).unwrap().well_formed(),
{
    lemma_step_keeps_form(t, op);
    let s = t.after(op).unwrap();
    assert forall|cell: Cell| #[trigger] s.slot(cell) == if assigns_to(op, cell) {
        Some(assigned_by(op))
    } else {
        t.slot(cell)
    } by {
        if t.holds(cell) {
            assert(t.cells[cell.column as int].len() == t.rows);
        }
    }
    assert forall|selector: Selector, row: int| #[trigger]
        s.is_enabled(selector, row) == (t.is_enabled(selector, row) || enables(
            op,
            selector,
            row,
        )) by {
        if selector.index < t.enabled.len() {
            assert(t.enabled[selector.index as int].len() == t.rows);
        }
    }
}

/// Taking one more step after a batch is taking the batch with that step
/// added.
pub proof fn lemma_one_more(t: TraceView, ops: Seq<OpView>, op: OpView)
    ensures
        t.after_all(ops.push(op)) == match t.after_all(ops) {
            Ok(s) => s.after(op),
            Err(e) => Err(e),
        },
{
    assert(ops.push(op).drop_last() =~= ops);
}

/// Whether a step can be taken, and what structure it leaves, does not
/// depend on the values that are assigned: a step on the structure of a
/// trace, with a placeholder for its value, gives the structure of what the
/// step gives on the trace, or the same error.
pub proof fn lemma_step_structure(t: TraceView, op: OpView)
    requires
        t.well_formed(),
    ensures
        t.skeleton().after(erased(op)) == outline(t.after(op)),
        t.skeleton().well_formed(),
{
    let k = t.skeleton();
    assert forall|c: int| 0 <= c < k.cells.len() implies (#[trigger] k.cells[c]).len()
        == k.rows by {
        assert(t.cells[c].len() == t.rows);
    }
    match op {
        OpView::Assign { column, row, value } => {
            if t.declares(column) && row < t.rows {
                assert(t.cells[column.index as int].len() == t.rows);
                if t.after(op) is Ok {
                    let s = t.after(op).unwrap();
                    let ks = k.after(erased(op)).unwrap();
                    assert forall|c: int| 0 <= c < s.cells.len() implies (#[trigger] s.cells[c]).len()
                        == t.cells[c].len() by {}
                    assert(ks.cells =~~= s.skeleton().cells);
                }
            }
        },
        OpView::Enable { selector, row } => {},
        OpView::Equal { left, right } => {},
    }
}

/// A binding can be recorded on a trace exactly where it can be on its
/// structure, and leaves the structure of what it leaves there.
pub proof fn lemma_bind_structure(t: TraceView, cell: Cell, instance: Column, index: usize)
    ensures
        t.skeleton().after_bind(cell, instance, index) == outline(
            t.after_bind(cell, instance, index),
        ),
{
}

/// Whether a batch can be taken, and what structure it leaves, does not
/// depend on the values that are assigned.
pub proof fn lemma_steps_structure(t: TraceView, ops: Seq<OpView>)
    requires
        t.well_formed(),
    ensures
        t.skeleton().after_all(all_erased(ops)) == outline(t.after_all(ops)),
    decreases ops.len(),
{
    if ops.len() > 0 {
        let before = ops.drop_last();
        assert(all_erased(ops).drop_last() =~= all_erased(before));
        assert(all_erased(ops).last() == erased(ops.last()));
        lemma_steps_structure(t, before);
        if t.after_all(before) is Ok {
            assert(before.take(before.len() as int) =~= before);
            lemma_steps_frame(t, before, before.len() as int);
            lemma_step_structure(t.after_all(before).unwrap(), ops.last());
        }
    }
}

/// Two runs that have the same structure so far, and go on with steps that
/// differ in the assigned values alone, have the same structure after
/// them, or stop with the same error.
pub proof fn lemma_then_all_structure(
    first: Result<TraceView, Error>,
    second: Result<TraceView, Error>,
    ops1: Seq<OpView>,
    ops2: Seq<OpView>,
)
    requires
        outline(first) == outline(second),
        first matches Ok(t) ==> t.well_formed(),
        second matches Ok(t) ==> t.well_formed(),
        all_erased(ops1) == all_erased(ops2),
    ensures
        outline(then_all(first, ops1)) == outline(then_all(second, ops2)),
        then_all(first, ops1) matches Ok(t) ==> t.well_formed(),
        then_all(second, ops2) matches Ok(t) ==> t.well_formed(),
{
    if let Ok(t) = first {
        lemma_steps_structure(t, ops1);
        if t.after_all(ops1) is Ok {
            assert(ops1.take(ops1.len() as int) =~= ops1);
            lemma_steps_frame(t, ops1, ops1.len() as int);
        }
    }
    if let Ok(t) = second {
        lemma_steps_structure(t, ops2);
        if t.after_all(ops2) is Ok {
            assert(ops2.take(ops2.len() as int) =~= ops2);
            lemma_steps_frame(t, ops2, ops2.len() as int);
        }
    }
}

/// Two runs that have the same structure so far have the same structure
/// after the same binding, or stop with the same error.
pub proof fn lemma_then_bind_structure(
    first: Result<TraceView, Error>,
    second: Result<TraceView, Error>,
    cell: Cell,
    instance: Column,
    index: usize,
)
    requires
        outline(first) == outline(second),
        first matches Ok(t) ==> t.well_formed(),
        second matches Ok(t) ==> t.well_formed(),
    ensures
        outline(then_bind(first, cell, instance, index)) == outline(
            then_bind(second, cell, instance, index),
        ),
        then_bind(first, cell, instance, index) matches Ok(t) ==> t.well_formed(),
        then_bind(second, cell, instance, index) matches Ok(t) ==> t.well_formed(),
{
    if let Ok(t) = first {
        lemma_bind_structure(t, cell, instance, index);
        lemma_bind_keeps_form(t, cell, instance, index);
    }
    if let Ok(t) = second {
        lemma_bind_structure(t, cell, instance, index);
        lemma_bind_keeps_form(t, cell, instance, index);
    }
}

/// A binding that can be recorded keeps the invariant of the trace.
pub proof fn lemma_bind_keeps_form(t: TraceView, cell: Cell, instance: Column, index: usize)
    requires
        t.well_formed(),
    ensures
        t.after_bind(cell, instance, index) matches Ok(s) ==> s.well_formed(),
{
    if let Ok(s) = t.after_bind(cell, instance, index) {
        assert forall|i: int| 0 <= i < s.bindings.len() implies s.holds(
            (#[trigger] s.bindings[i]).cell,
        ) by {
            if i < t.bindings.len() {
                assert(s.bindings[i] == t.bindings[i]);
            }
        }
    }
}

/// Steps that can be taken keep the form of the table and the invariant of
/// the trace, and fill the cells that they assign and no others.
pub proof fn lemma_steps_frame(t: TraceView, ops: Seq<OpView>, n: int)
    requires
        t.well_formed(),
        0 <= n <= ops.len(),
        t.after_all(ops.take(n)) is Ok,
    ensures
        t.after_all(ops.take(n)).unwrap().well_formed(),
        t.after_all(ops.take(n)).unwrap().rows == t.rows,
        t.after_all(ops.take(n)).unwrap().kinds == t.kinds,
        t.after_all(ops.take(n)).unwrap().equality == t.equality,
        t.after_all(ops.take(n)).unwrap().enabled.len() == t.enabled.len(),
        t.after_all(ops.take(n)).unwrap().bindings == t.bindings,
        forall|cell: Cell|
            t.holds(cell) ==> (#[trigger] t.after_all(ops.take(n)).unwrap().slot(cell) is Some
                <==> t.slot(cell) is Some || TraceView::staged(ops, n, cell)),
    decreases n,
{
    if n == 0 {
        assert(ops.take(0) =~= Seq::<OpView>::empty());
    } else {
        assert(ops.take(n).drop_last() =~= ops.take(n - 1));
        lemma_steps_frame(t, ops, n - 1);
        let before = t.after_all(ops.take(n - 1)).unwrap();
        let op = ops[n - 1];
        assert(ops.take(n).last() == op);
        lemma_step_keeps_form(before, op);
        let now = before.after(op).unwrap();
        assert forall|cell: Cell| t.holds(cell) implies (#[trigger] now.slot(cell) is Some
            <==> t.slot(cell) is Some || TraceView::staged(ops, n, cell)) by {
            assert(before.holds(cell));
            if TraceView::staged(ops, n, cell) {
                let j = choose|j: int| 0 <= j < n && j < ops.len() && assigns_to(#[trigger] ops[j], cell);
                if j < n - 1 {
                    assert(TraceView::staged(ops, n - 1, cell));
                }
            }
            if TraceView::staged(ops, n - 1, cell) {
                let j = choose|j: int|
                    0 <= j < n - 1 && j < ops.len() && assigns_to(#[trigger] ops[j], cell);
                assert(0 <= j < n && assigns_to(ops[j], cell));
            }
            if assigns_to(op, cell) {
                assert(assigns_to(ops[n - 1], cell));
            }
        }
    }
}

/// Where the first `k` steps cannot all be taken, neither can the whole
/// batch, and the error is the same.
pub proof fn lemma_first_error(t: TraceView, ops: Seq<OpView>, k: int)
    requires
        0 <= k <= ops.len(),
        t.after_all(ops.take(k)) is Err,
    ensures
        t.after_all(ops) == t.after_all(ops.take(k)),
    decreases ops.len() - k,
{
    if k == ops.len() {
        assert(ops.take(k) =~= ops);
    } else {
        assert(ops.drop_last().take(k) =~= ops.take(k));
        lemma_first_error(t, ops.drop_last(), k);
    }
}

/// Where a batch can be taken, so can its first `k` steps.
pub proof fn lemma_prefix_taken(t: TraceView, ops: Seq<OpView>, k: int)
    requires
        0 <= k <= ops.len(),
        t.after_all(ops) is Ok,
    ensures
        t.after_all(ops.take(k)) is Ok,
{
    if t.after_all(ops.take(k)) is Err {
        lemma_first_error(t, ops, k);
    }
}

/// A copy of a vector.
fn copy_of<T: Copy>(v: &Vec<T>) -> (r: Vec<T>)
    ensures
        r@ == v@,
{
    let mut r: Vec<T> = Vec::new();
    let mut i: usize = 0;
    while i < v.len()
        invariant
            i <= v@.len(),
            r@ == v@.take(i as int),
        decreases v@.len() - i,
    {
        r.push(v[i]);
        i += 1;
        assert(r@ =~= v@.take(i as int));
    }
    assert(v@.take(v@.len() as int) =~= v@);
    r
}

/// A table of `columns` columns and `rows` rows that holds `x` everywhere.
fn blank_table<T: Copy>(columns: usize, rows: usize, x: T) -> (r: Vec<Vec<T>>)
    ensures
        r@.len() == columns,
        forall|c: int| 0 <= c < columns ==> (#[trigger] r@[c])@ == Seq::new(rows as nat, |i: int| x),
{
    let mut table: Vec<Vec<T>> = Vec::new();
    let mut c: usize = 0;
    while c < columns
        invariant
            c <= columns,
            table@.len() == c,
            forall|k: int| 0 <= k < c ==> (#[trigger] table@[k])@ == Seq::new(rows as nat, |i: int| x),
        decreases columns - c,
    {
        let mut column: Vec<T> = Vec::new();
        let mut i: usize = 0;
        while i < rows
            invariant
                i <= rows,
                column@ == Seq::new(i as nat, |k: int| x),
            decreases rows - i,
        {
            column.push(x);
            i += 1;
            assert(column@ =~= Seq::new(i as nat, |k: int| x));
        }
        table.push(column);
        c += 1;
    }
    table
}

/// A slot of the table as a mathematical value.
pub open spec fn slot_view<F: Field>(slot: Option<Value<F>>) -> Option<Option<nat>> {
    match slot {
        None => None,
        Some(v) => Some(v@),
    }
}

/// The table of a filled or partly filled circuit.
#[derive(Debug, PartialEq, Eq)]
pub struct Trace<F> {
    rows: usize,
    kinds: Vec<ColumnKind>,
    equality: Vec<bool>,
    cells: Vec<Vec<Option<Value<F>>>>,
    enabled: Vec<Vec<bool>>,
    copies: Vec<(Cell, Cell)>,
    bindings: Vec<Binding>,
    namespaces: Vec<String>,
}

impl<F: Field> View for Trace<F> {
    type V = TraceView;

    closed spec fn view(&self) -> TraceView {
        TraceView {
            rows: self.rows as nat,
            kinds: self.kinds@,
            equality: self.equality@,
            cells: Seq::new(
                self.cells@.len(),
                |c: int| Seq::new(self.cells@[c]@.len(), |r: int| slot_view(self.cells@[c]@[r])),
            ),
            enabled: Seq::new(self.enabled@.len(), |s: int| self.enabled@[s]@),
            copies: self.copies@,
            bindings: self.bindings@,
        }
    }
}

impl<F: Field> Trace<F> {
    /// The invariant of a trace.
    pub open spec fn wf(&self) -> bool {
        self@.well_formed()
    }

    /// The labels of the namespaces that are open, outermost first. They
    /// serve diagnostics alone and are no part of what the trace holds.
    pub closed spec fn scope(&self) -> Seq<Seq<char>> {
        Seq::new(self.namespaces@.len(), |i: int| self.namespaces@[i]@)
    }

    /// Opens a namespace inside the ones that are open.
    pub fn enter_namespace(&mut self, label: &str)
        ensures
            final(self)@ == old(self)@,
            final(self).scope() == old(self).scope().push(label@),
    {
        self.namespaces.push(label.to_owned());
        assert(self.scope() =~= old(self).scope().push(label@));
        assert(self@.cells =~~= old(self)@.cells);
        assert(self@.enabled =~~= old(self)@.enabled);
    }

    /// Closes the innermost open namespace, if one is open.
    pub fn leave_namespace(&mut self)
        ensures
            final(self)@ == old(self)@,
            final(self).scope() == if old(self).scope().len() > 0 {
                old(self).scope().drop_last()
            } else {
                old(self).scope()
            },
    {
        let _ = self.namespaces.pop();
        proof {
            if old(self).scope().len() > 0 {
                assert(self.scope() =~= old(self).scope().drop_last());
            } else {
                assert(self.scope() =~= old(self).scope());
            }
            assert(self@.cells =~~= old(self)@.cells);
            assert(self@.enabled =~~= old(self)@.enabled);
        }
    }

    /// The labels of the namespaces that are open, outermost first.
    pub fn namespaces(&self) -> (r: &Vec<String>)
        ensures
            r@.len() == self.scope().len(),
            forall|i: int| 0 <= i < r@.len() ==> (#[trigger] r@[i])@ == self.scope()[i],
    {
        &self.namespaces
    }

    /// The trace of a shape before anything is assigned. There is none
    /// where the table would have more cells than can be addressed.
    pub fn new(shape: &CircuitShape<F>) -> (r: Result<Self, Error>)
        requires
            shape.wf(),
        ensures
            match r {
                Ok(t) => t.wf() && t@ == empty_trace(shape@) && t.scope() == Seq::<
                    Seq<char>,
                >::empty() && shape@.kinds.len() * shape@.rows <= usize::MAX,
                Err(e) => e == Error::TraceTooLarge && shape@.kinds.len() * shape@.rows
                    > usize::MAX,
            },
    {
        let rows = shape.rows();
        let kinds = copy_of(shape.kinds());
        let equality = copy_of(shape.equality());
        if kinds.len().checked_mul(rows).is_none() {
            return Err(Error::TraceTooLarge);
        }
        let cells = blank_table::<Option<Value<F>>>(kinds.len(), rows, None);
        let enabled = blank_table::<bool>(shape.selectors(), rows, false);
        let t = Trace {
            rows,
            kinds,
            equality,
            cells,
            enabled,
            copies: Vec::new(),
            bindings: Vec::new(),
            namespaces: Vec::new(),
        };
        proof {
            assert(t@.cells =~~= empty_trace(shape@).cells);
            assert(t@.enabled =~~= empty_trace(shape@).enabled);
            assert(t.scope() =~= Seq::<Seq<char>>::empty());
        }
        Ok(t)
    }

    /// Whether one of the first `n` steps assigns to the cell.
    fn staged(ops: &Vec<Op<F>>, n: usize, cell: Cell) -> (r: bool)
        requires
            n <= ops@.len(),
        ensures
            r == TraceView::staged(ops_view(ops@), n as int, cell),
    {
        let mut j: usize = 0;
        while j < n
            invariant
                j <= n <= ops@.len(),
                !TraceView::staged(ops_view(ops@), j as int, cell),
            decreases n - j,
        {
            match &ops[j] {
                Op::Assign { column, row, value } => {
                    if column.index == cell.column && *row == cell.row {
                        assert(assigns_to(ops_view(ops@)[j as int], cell));
                        return true;
                    }
                },
                _ => {},
            }
            j += 1;
        }
        false
    }

    /// Whether step `i` can be taken once the steps before it have been.
    fn check(&self, ops: &Vec<Op<F>>, i: usize) -> (r: Result<(), Error>)
        requires
            self.wf(),
            i < ops@.len(),
            self@.after_all(ops_view(ops@).take(i as int)) is Ok,
        ensures
            match self@.after_all(ops_view(ops@).take(i as int)).unwrap().after(ops@[i as int]@) {
                Ok(_) => r is Ok,
                Err(e) => r == Err::<(), Error>(e),
            },
    {
        proof {
            lemma_steps_frame(self@, ops_view(ops@), i as int);
        }
        let ghost now = self@.after_all(ops_view(ops@).take(i as int)).unwrap();
        match &ops[i] {
            Op::Assign { column, row, value } => {
                if !(column.index < self.kinds.len() && self.kinds[column.index] == column.kind) {
                    return Err(Error::UndeclaredColumn);
                }
                if *row >= self.rows {
                    return Err(Error::RowOutOfRange);
                }
                let cell = Cell { column: column.index, row: *row };
                assert(self@.holds(cell));
                assert(now.slot(cell) == now.cells[column.index as int][*row as int]);
                if self.get(cell).is_some() || Self::staged(ops, i, cell) {
                    return Err(Error::AssignmentConflict { cell });
                }
                Ok(())
            },
            Op::Enable { selector, row } => {
                if selector.index >= self.enabled.len() {
                    return Err(Error::UndeclaredSelector);
                }
                if *row >= self.rows {
                    return Err(Error::RowOutOfRange);
                }
                Ok(())
            },
            Op::Equal { left, right } => {
                if let Some(e) = self.misplaced(*left) {
                    return Err(e);
                }
                if let Some(e) = self.misplaced(*right) {
                    return Err(e);
                }
                if !self.equality[left.column] || !self.equality[right.column] {
                    return Err(Error::EqualityNotEnabled);
                }
                Ok(())
            },
        }
    }

    /// Why the cell is no slot of the table, if it is none.
    fn misplaced(&self, cell: Cell) -> (r: Option<Error>)
        ensures
            r == self@.misplaced(cell),
    {
        if cell.column >= self.kinds.len() {
            Some(Error::UndeclaredColumn)
        } else if cell.row >= self.rows {
            Some(Error::RowOutOfRange)
        } else {
            None
        }
    }

    /// Takes a step that can be taken.
    fn commit(&mut self, op: &Op<F>)
        requires
            old(self).wf(),
            old(self)@.after(op@) is Ok,
        ensures
            final(self).wf(),
            final(self)@ == old(self)@.after(op@).unwrap(),
            final(self).scope() == old(self).scope(),
    {
        proof {
            lemma_step_keeps_form(self@, op@);
        }
        match op {
            Op::Assign { column, row, value } => {
                assert(self@.cells[column.index as int].len() == self.rows);
                self.cells[column.index][*row] = Some(*value);
                assert(self@.cells =~~= old(self)@.after(op@).unwrap().cells);
                assert(self@.enabled =~~= old(self)@.enabled);
            },
            Op::Enable { selector, row } => {
                assert(self@.enabled[selector.index as int].len() == self.rows);
                self.enabled[selector.index][*row] = true;
                assert(self@.enabled =~~= old(self)@.after(op@).unwrap().enabled);
                assert(self@.cells =~~= old(self)@.cells);
            },
            Op::Equal { left, right } => {
                self.copies.push((*left, *right));
                assert(self@.cells =~~= old(self)@.cells);
                assert(self@.enabled =~~= old(self)@.enabled);
            },
        }
    }

    /// Takes the steps of a region, in order: all of them, or none. Where a
    /// step cannot be taken, the trace stays as it was and the error is that
    /// of the first such step.
    pub fn assign_region(&mut self, region: &Region<F>) -> (r: Result<(), Error>)
        requires
            old(self).wf(),
        ensures
            final(self).wf(),
            final(self).scope() == old(self).scope(),
            match old(self)@.after_all(region@) {
                Ok(t) => r is Ok && final(self)@ == t,
                Err(e) => r == Err::<(), Error>(e) && final(self)@ == old(self)@,
            },
    {
        let ops = region.ops();
        let n = ops.len();
        let mut i: usize = 0;
        assert(ops_view(ops@).take(0) =~= Seq::<OpView>::empty());
        while i < n
            invariant
                i <= n,
                n == ops@.len(),
                ops_view(ops@) == region@,
                self.wf(),
                *self == *old(self),
                self@.after_all(region@.take(i as int)) is Ok,
            decreases n - i,
        {
            assert(region@.take(i + 1).drop_last() =~= region@.take(i as int));
            match self.check(ops, i) {
                Err(e) => {
                    proof {
                        lemma_first_error(self@, region@, i + 1);
                    }
                    return Err(e);
                },
                Ok(()) => {},
            }
            i += 1;
        }
        assert(region@.take(n as int) =~= region@);
        let ghost base = self@;
        let mut i: usize = 0;
        assert(region@.take(0) =~= Seq::<OpView>::empty());
        while i < n
            invariant
                i <= n,
                n == ops@.len(),
                ops_view(ops@) == region@,
                self.wf(),
                base.after_all(region@) is Ok,
                base.after_all(region@.take(i as int)) == Ok::<TraceView, Error>(self@),
                self.scope() == old(self).scope(),
            decreases n - i,
        {
            proof {
                assert(region@.take(i + 1).drop_last() =~= region@.take(i as int));
                lemma_prefix_taken(base, region@, i + 1);
            }
            self.commit(&ops[i]);
            i += 1;
        }
        assert(region@.take(n as int) =~= region@);
        Ok(())
    }

    /// Records that the cell must hold the public input at `index`, named
    /// through the column `instance`. Nothing is compared yet: the public
    /// inputs are met at validation.
    pub fn constrain_instance(&mut self, cell: Cell, instance: Column, index: usize) -> (r: Result<
        (),
        Error,
    >)
        requires
            old(self).wf(),
        ensures
            final(self).wf(),
            final(self).scope() == old(self).scope(),
            match old(self)@.after_bind(cell, instance, index) {
                Ok(t) => r is Ok && final(self)@ == t,
                Err(e) => r == Err::<(), Error>(e) && final(self)@ == old(self)@,
            },
    {
        if !(instance.index < self.kinds.len() && self.kinds[instance.index] == instance.kind) {
            return Err(Error::UndeclaredColumn);
        }
        if instance.kind != ColumnKind::PublicInstance {
            return Err(Error::NotAnInstanceColumn);
        }
        if let Some(e) = self.misplaced(cell) {
            return Err(e);
        }
        self.bindings.push(Binding { cell, index });
        proof {
            assert(self@.cells =~~= old(self)@.cells);
            assert(self@.enabled =~~= old(self)@.enabled);
        }
        Ok(())
    }

    /// The copy constraints, in the order in which they were recorded.
    pub fn copies(&self) -> (r: &Vec<(Cell, Cell)>)
        ensures
            r@ == self@.copies,
    {
        &self.copies
    }

    /// The bindings to public inputs, in the order in which they were
    /// recorded.
    pub fn bindings(&self) -> (r: &Vec<Binding>)
        ensures
            r@ == self@.bindings,
    {
        &self.bindings
    }

    /// The number of rows.
    pub fn rows(&self) -> (r: usize)
        ensures
            r == self@.rows,
    {
        self.rows
    }

    /// The number of columns.
    pub fn columns(&self) -> (r: usize)
        ensures
            r == self@.kinds.len(),
    {
        self.kinds.len()
    }

    /// What was assigned to the cell, if anything was.
    pub fn get(&self, cell: Cell) -> (r: Option<Value<F>>)
        requires
            self.wf(),
        ensures
            slot_view(r) == self@.slot(cell),
    {
        if cell.column < self.cells.len() && cell.row < self.rows {
            self.cells[cell.column][cell.row]
        } else {
            None
        }
    }

    /// The element in the cell, where one was assigned.
    pub fn known(&self, cell: Cell) -> (r: Option<F>)
        requires
            self.wf(),
        ensures
            match r {
                Some(x) => self@.known(cell) == Some(x.value()),
                None => self@.known(cell) is None,
            },
    {
        match self.get(cell) {
            Some(Value::Known(x)) => Some(x),
            _ => None,
        }
    }

    /// Whether the selector is enabled on the row.
    pub fn is_enabled(&self, selector: Selector, row: usize) -> (r: bool)
        requires
            self.wf(),
        ensures
            r == self@.is_enabled(selector, row as int),
    {
        if selector.index < self.enabled.len() && row < self.rows {
            assert(self@.enabled[selector.index as int].len() == self.rows);
            self.enabled[selector.index][row]
        } else {
            false
        }
    }
}

} // verus!
