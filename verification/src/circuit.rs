//! Circuits: descriptions that declare a shape once and, given a witness,
//! fill a trace of that shape.

use vstd::prelude::*;
use crate::error::Error;
use crate::field::Field;
use crate::shape::{CircuitShape, ShapeView};
use crate::trace::{Trace, TraceView, outline};

verus! {

/// A circuit over the field `F`. The value of the implementing type is the
/// witness; the shape depends on the type alone.
pub trait Circuit<F: Field>: Sized {
    /// The columns and selectors that configuration declares and synthesis
    /// fills.
    type Config;

    /// What configuration makes of a registry, and the handles that it
    /// returns; or the error that stops it.
    spec fn configured(before: ShapeView) -> Result<(ShapeView, Self::Config), Error>;

    /// The registry that configuration leaves, whether it succeeds or
    /// stops: where it stops, what it declared before it stopped is there.
    spec fn declared(before: ShapeView) -> ShapeView;

    /// What synthesis makes of a trace; or the error that stops it.
    spec fn synthesized(&self, config: Self::Config, before: TraceView) -> Result<TraceView, Error>;

    /// The trace that synthesis leaves, whether it succeeds or stops: where
    /// it stops, the regions and bindings before the one that failed are
    /// there.
    spec fn filled(&self, config: Self::Config, before: TraceView) -> TraceView;

    /// Whether the circuit holds the default in place of each part of its
    /// witness.
    spec fn blank(&self) -> bool;

    /// Whether the two circuits have the same shape: whether they differ in
    /// their witness at most.
    spec fn same_shape(&self, other: &Self) -> bool;

    /// The circuit with its witness left out. What does not belong to the
    /// witness is kept, so that synthesis gives the same structure: it stops
    /// with the same error, or fills the same cells, enables the same
    /// selectors on the same rows and records the same copy constraints and
    /// bindings.
    fn without_witnesses(&self) -> (r: Self)
        ensures
            r.blank(),
            r.same_shape(self),
            forall|config: Self::Config, before: TraceView|
                before.well_formed() ==> outline(#[trigger] r.synthesized(config, before))
                    == outline(self.synthesized(config, before)),
    ;

    /// Declares the columns, selectors and gates of the circuit.
    fn configure(meta: &mut CircuitShape<F>) -> (r: Result<Self::Config, Error>)
        requires
            old(meta).wf(),
        ensures
            final(meta).wf(),
            final(meta)@ == Self::declared(old(meta)@),
            match r {
                Ok(config) => Self::configured(old(meta)@) == Ok::<(ShapeView, Self::Config), Error>(
                    (final(meta)@, config),
                ),
                Err(e) => Self::configured(old(meta)@) == Err::<(ShapeView, Self::Config), Error>(e),
            },
    ;

    /// Fills the trace from the witness.
    fn synthesize(&self, config: Self::Config, trace: &mut Trace<F>) -> (r: Result<(), Error>)
        requires
            old(trace).wf(),
        ensures
            final(trace).wf(),
            final(trace)@ == self.filled(config, old(trace)@),
            match r {
                Ok(_) => self.synthesized(config, old(trace)@) == Ok::<TraceView, Error>(
                    final(trace)@,
                ),
                Err(e) => self.synthesized(config, old(trace)@) == Err::<TraceView, Error>(e),
            },
    ;
}

/// Whether a run of synthesis that started from `before` may have ended
/// with the result `r` and the trace `after`.
pub open spec fn synthesis_ends<F: Field, C: Circuit<F>>(
    circuit: C,
    config: C::Config,
    before: TraceView,
    r: Result<(), Error>,
    after: TraceView,
) -> bool {
    match r {
        Ok(_) => circuit.synthesized(config, before) == Ok::<TraceView, Error>(after),
        Err(e) => circuit.synthesized(config, before) == Err::<TraceView, Error>(e),
    }
}

/// Synthesis is deterministic. Two runs with the same witness, the same
/// handles and the same trace to start from end with the same result, and
/// where they succeed, with the same trace: the same values in the same
/// cells, the same selectors enabled, the same copy constraints and the
/// same bindings.
pub proof fn lemma_synthesis_deterministic<F: Field, C: Circuit<F>>(
    circuit: C,
    config: C::Config,
    before: TraceView,
    first: (Result<(), Error>, TraceView),
    second: (Result<(), Error>, TraceView),
)
    requires
        synthesis_ends(circuit, config, before, first.0, first.1),
        synthesis_ends(circuit, config, before, second.0, second.1),
    ensures
        first.0 == second.0,
        first.0 is Ok ==> first.1 == second.1,
{
    match (first.0, second.0) {
        (Ok(u), Ok(v)) => {
            assert(u == v);
        },
        _ => {},
    }
}

} // verus!
