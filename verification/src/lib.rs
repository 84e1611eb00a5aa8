//! Arithmetic traces under constraints.
//!
//! A computation is written down as a table of field values, the trace,
//! together with what the table must satisfy: gates, which are polynomials
//! that must vanish on the rows where their selector is enabled; copy
//! constraints, which force cells to hold equal values; and bindings, which
//! force cells to hold public inputs. A circuit declares the shape of its
//! table once and fills the table from a witness; validation then holds the
//! filled table against every constraint and reports all that it violates.
//!
//! - `field`, `pasta`, `bn256`: the elements of the table.
//! - `cell`, `value`, `expr`: addresses, values that may be unknown, and
//!   the polynomials of gates.
//! - `shape`, `region`, `trace`: the registry of columns and gates, and the
//!   table that is filled region by region.
//! - `ledger`, `failure`, `validate`, `laws`: the classes of copy
//!   constraints, the violations, their collection, and what it means that
//!   there are none.
//! - `chip`, `circuit`, `prover`: the parts of a circuit, circuits, and the
//!   prover that lays a circuit out and validates it.
//! - `factor`, `fibonacci`, `general`: three circuits.

pub mod field;
pub mod pasta;
pub mod bn256;
pub mod cell;
pub mod value;
pub mod expr;
pub mod error;
pub mod shape;
pub mod region;
pub mod trace;
pub mod ledger;
pub mod failure;
pub mod validate;
pub mod laws;
pub mod chip;
pub mod circuit;
pub mod prover;
pub mod factor;
pub mod fibonacci;
pub mod general;
