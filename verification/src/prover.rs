//! The mock prover: it lays a circuit out on a table and checks the table
//! against every constraint, with no cryptography.

use vstd::prelude::*;
use vstd::arithmetic::power2::{pow2, lemma_pow2_unfold, lemma2_to64};
use crate::circuit::Circuit;
use crate::error::Error;
use crate::failure::{Failure, failures_view};
use crate::field::Field;
use crate::laws::satisfied;
use crate::shape::{CircuitShape, ShapeView, empty_shape};
use crate::trace::{Trace, TraceView, empty_trace};
use crate::validate::{failures, validate, values};

verus! {

/// What laying out a circuit on a table of `2^k` rows gives: the shape and
/// the filled trace, or the error that stops configuration or synthesis.
pub open spec fn layout<F: Field, C: Circuit<F>>(k: nat, circuit: C) -> Result<
    (ShapeView, TraceView),
    Error,
> {
    if pow2(k) > usize::MAX {
        Err(Error::TraceTooLarge)
    } else {
        match C::configured(empty_shape(pow2(k))) {
            Err(e) => Err(e),
            Ok((shape, config)) => if shape.kinds.len() * shape.rows > usize::MAX {
                Err(Error::TraceTooLarge)
            } else {
                match circuit.synthesized(config, empty_trace(shape)) {
                    Err(e) => Err(e),
                    Ok(trace) => Ok((shape, trace)),
                }
            },
        }
    }
}

/// Two to the power `k`, if the machine can hold it.
pub fn rows_for(k: u32) -> (r: Option<usize>)
    ensures
        match r {
            Some(n) => n == pow2(k as nat),
            None => pow2(k as nat) > usize::MAX,
        },
{
    let mut n: usize = 1;
    let mut i: u32 = 0;
    proof {
        lemma2_to64();
    }
    while i < k
        invariant
            i <= k,
            n == pow2(i as nat),
        decreases k - i,
    {
        proof {
            lemma_pow2_unfold((i + 1) as nat);
        }
        match n.checked_mul(2) {
            Some(d) => {
                n = d;
            },
            None => {
                proof {
                    lemma_pow2_grows((i + 1) as nat, k as nat);
                }
                return None;
            },
        }
        i += 1;
    }
    Some(n)
}

/// Powers of two grow with the exponent.
proof fn lemma_pow2_grows(a: nat, b: nat)
    requires
        a <= b,
    ensures
        pow2(a) <= pow2(b),
    decreases b - a,
{
    if a < b {
        lemma_pow2_grows(a, (b - 1) as nat);
        lemma_pow2_unfold(b);
    }
}

/// A circuit laid out on a table, together with the public inputs that it
/// is to be checked against.
#[derive(Debug, PartialEq, Eq)]
pub struct MockProver<F> {
    shape: CircuitShape<F>,
    trace: Trace<F>,
    public_inputs: Vec<F>,
}

/// A prover as a mathematical value.
pub struct ProverView {
    pub shape: ShapeView,
    pub trace: TraceView,
    pub public: Seq<nat>,
}

impl<F: Field> View for MockProver<F> {
    type V = ProverView;

    closed spec fn view(&self) -> ProverView {
        ProverView { shape: self.shape@, trace: self.trace@, public: values(self.public_inputs@) }
    }
}

impl<F: Field> MockProver<F> {
    /// The invariant of a prover: that of its trace.
    pub open spec fn wf(&self) -> bool {
        self@.trace.well_formed()
    }

    /// The shape of the circuit.
    pub fn shape(&self) -> (r: &CircuitShape<F>)
        ensures
            r@ == self@.shape,
    {
        &self.shape
    }

    /// The filled trace.
    pub fn trace(&self) -> (r: &Trace<F>)
        ensures
            r@ == self@.trace,
    {
        &self.trace
    }

    /// The public inputs.
    pub fn public_inputs(&self) -> (r: &Vec<F>)
        ensures
            values(r@) == self@.public,
    {
        &self.public_inputs
    }

    /// Configures the circuit for a table of `2^k` rows and fills the table
    /// from the witness.
    pub fn run<C: Circuit<F>>(k: u32, circuit: &C, public_inputs: Vec<F>) -> (r: Result<Self, Error>)
        ensures
            match r {
                Ok(p) => p.wf() && layout::<F, C>(k as nat, *circuit) == Ok::<
                    (ShapeView, TraceView),
                    Error,
                >((p@.shape, p@.trace)) && p@.public == values(public_inputs@),
                Err(e) => layout::<F, C>(k as nat, *circuit) == Err::<(ShapeView, TraceView), Error>(
                    e,
                ),
            },
    {
        let rows = match rows_for(k) {
            Some(n) => n,
            None => {
                return Err(Error::TraceTooLarge);
            },
        };
        let mut shape = CircuitShape::new(rows);
        let config = match C::configure(&mut shape) {
            Ok(c) => c,
            Err(e) => {
                return Err(e);
            },
        };
        let mut trace = match Trace::new(&shape) {
            Ok(t) => t,
            Err(e) => {
                return Err(e);
            },
        };
        match circuit.synthesize(config, &mut trace) {
            Ok(_) => {},
            Err(e) => {
                return Err(e);
            },
        }
        Ok(MockProver { shape, trace, public_inputs })
    }

    /// Checks the trace against every constraint, and returns every
    /// violation.
    pub fn verify(&self) -> (r: Result<(), Vec<Failure>>)
        requires
            self.wf(),
        ensures
            r is Ok <==> satisfied(F::modulus(), self@.shape, self@.trace, self@.public),
            match r {
                Ok(_) => failures(F::modulus(), self@.shape, self@.trace, self@.public).len() == 0,
                Err(list) => list@.len() > 0 && failures_view(list@) == failures(
                    F::modulus(),
                    self@.shape,
                    self@.trace,
                    self@.public,
                ),
            },
    {
        validate(&self.shape, &self.trace, &self.public_inputs)
    }
}

} // verus!
