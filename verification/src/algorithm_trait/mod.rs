//! Resumable computations and generators.
//!
//! A computation has an immutable context, a state that a step operator changes, and an
//! output that the state is turned into once the operator reports that it is done. A
//! generator is the same with a sequence of outputs. Both can be advanced one step at a
//! time, which makes them easy to interleave, to suspend and to cancel.

pub mod computation;
pub mod counter;
pub mod generator;

use crate::cancellation::{cancellation_text, cause_of, Cancellable};
use vstd::string::StringExecFns;
use cancel_this::Cancelled;
pub use computation::{
    ComputableIdentity, Computation, ComputationStep, ComputationStepAndConvert, Derived,
    IdentityStep, Manual,
};
pub use counter::{CounterStep, NumberStep};
pub use generator::{CollectorState, CollectorStep, Generator, GeneratorStep};
use vstd::prelude::*;
use vstd::std_specs::convert::FromSpecImpl;

verus! {

/// Why a value is not available yet.
#[derive(Debug, Clone, PartialEq, Eq)]
pub enum Incomplete {
    /// Progress was made; ask again.
    Working,
    /// The computation was cancelled, by the ambient signal or by a budget of its context.
    Cancelled(Cancelled),
}

/// A value that a resumable computation delivers eventually.
pub type Completable<T> = Result<T, Incomplete>;

impl Incomplete {
    /// What the value says, in words.
    pub fn message(&self) -> (r: String)
        ensures
            r@ == match *self {
                Incomplete::Working => "Computation not finished"@,
                Incomplete::Cancelled(cancelled) => "Operation cancelled (caused by `"@ + cause_of(cancelled) + "`)"@,
            },
    {
        match self {
            Incomplete::Working => String::from_str("Computation not finished"),
            Incomplete::Cancelled(cancelled) => cancellation_text(cancelled),
        }
    }
}

impl From<Cancelled> for Incomplete {
    fn from(value: Cancelled) -> (r: Self) {
        Incomplete::Cancelled(value)
    }
}

impl FromSpecImpl<Cancelled> for Incomplete {
    open spec fn obeys_from_spec() -> bool {
        true
    }

    open spec fn from_spec(value: Cancelled) -> Self {
        Incomplete::Cancelled(value)
    }
}

/// Something that arrives at one output by steps.
pub trait Computable<T>: Sized {
    /// The object can be advanced.
    spec fn ready(&self) -> bool;

    /// A bound on the number of steps that can still answer `Working`.
    spec fn effort(&self) -> nat;

    /// The outputs that the object may end with.
    spec fn ends_with(&self, output: &T) -> bool;

    /// Advance by one step. An output, once handed out, is what the object ends with, and
    /// no step widens the set of outputs that it may end with.
    fn try_compute(&mut self) -> (r: Completable<&T>)
        requires
            old(self).ready(),
        ensures
            final(self).ready(),
            forall|o: T| #[trigger] final(self).ends_with(&o) ==> old(self).ends_with(&o),
            r matches Ok(output) ==> final(self).ends_with(output),
            r == Err::<&T, Incomplete>(Incomplete::Working) ==> final(self).effort() < old(self).effort(),
    ;

    /// Advance to the end, unless cancelled.
    fn compute(self) -> (r: Cancellable<T>)
        requires
            self.ready(),
        ensures
            r matches Ok(output) ==> self.ends_with(&output),
    ;
}

/// Something that hands out a sequence of outputs by steps.
pub trait Generatable<T>: Sized {
    /// The object can be advanced.
    spec fn ready(&self) -> bool;

    /// A bound on the number of steps that can still answer `Working` or hand out an item.
    spec fn effort(&self) -> nat;

    /// The items that the object may still hand out.
    spec fn may_yield(&self, item: &T) -> bool;

    /// Nothing is left to hand out.
    spec fn ended(&self) -> bool;

    /// Advance by one step: `None` when the sequence has ended, else an item, `Working` or a
    /// cancellation. No step widens the set of items that may still come.
    fn try_next(&mut self) -> (r: Option<Completable<T>>)
        requires
            old(self).ready(),
        ensures
            final(self).ready(),
            forall|o: T| #[trigger] final(self).may_yield(&o) ==> old(self).may_yield(&o),
            r matches Some(Ok(item)) ==> old(self).may_yield(&item),
            r is None ==> final(self).ended(),
            (r matches Some(Ok(_))) || (r matches Some(Err(Incomplete::Working))) ==> final(self).effort() < old(self).effort(),
    ;

    /// Advance until an item comes, the sequence ends or the object is cancelled.
    fn next(&mut self) -> (r: Option<Cancellable<T>>)
        requires
            old(self).ready(),
        ensures
            final(self).ready(),
            forall|o: T| #[trigger] final(self).may_yield(&o) ==> old(self).may_yield(&o),
            r matches Some(Ok(item)) ==> old(self).may_yield(&item),
            r is None ==> final(self).ended(),
            r matches Some(Ok(_)) ==> final(self).effort() < old(self).effort(),
    ;
}

/// A computation that can be made from a context and an initial state.
pub trait Algorithm<CONTEXT, STATE, OUTPUT>: Computable<OUTPUT> {
    /// The contexts and initial states that the algorithm can start from.
    spec fn admits(context: &CONTEXT, state: &STATE) -> bool;

    /// The outputs that the algorithm may end with when started from the given state.
    spec fn promises(context: &CONTEXT, state: &STATE, output: &OUTPUT) -> bool;

    /// The computation that starts in the given state.
    fn configure(context: CONTEXT, initial_state: STATE) -> (r: Self)
        requires
            Self::admits(&context, &initial_state),
        ensures
            r.ready(),
            forall|o: OUTPUT| #[trigger] r.ends_with(&o) ==> Self::promises(&context, &initial_state, &o),
    ;
}

/// A generator that can be made from a context and an initial state.
pub trait GenAlgorithm<CONTEXT, STATE, OUTPUT>: Generatable<OUTPUT> {
    /// The contexts and initial states that the generator can start from.
    spec fn admits(context: &CONTEXT, state: &STATE) -> bool;

    /// The items that the generator may hand out when started from the given state.
    spec fn promises(context: &CONTEXT, state: &STATE, item: &OUTPUT) -> bool;

    /// The generator that starts in the given state.
    fn configure(context: CONTEXT, initial_state: STATE) -> (r: Self)
        requires
            Self::admits(&context, &initial_state),
        ensures
            r.ready(),
            forall|o: OUTPUT| #[trigger] r.may_yield(&o) ==> Self::promises(&context, &initial_state, &o),
    ;
}

impl<CONTEXT, STATE, OUTPUT, STRATEGY, STEP: ComputationStepAndConvert<CONTEXT, STATE, OUTPUT, STRATEGY>> Computable<OUTPUT> for Computation<CONTEXT, STATE, OUTPUT, STEP, STRATEGY> {
    open spec fn ready(&self) -> bool {
        self.wf()
    }

    open spec fn effort(&self) -> nat {
        self.fuel()
    }

    open spec fn ends_with(&self, output: &OUTPUT) -> bool {
        self.delivers(output)
    }

    fn try_compute(&mut self) -> (r: Completable<&OUTPUT>) {
        Computation::try_compute(self)
    }

    fn compute(self) -> (r: Cancellable<OUTPUT>)
        ensures
            self.computed(&r),
    {
        Computation::compute(self)
    }
}

impl<CONTEXT, STATE, OUTPUT, STRATEGY, STEP: ComputationStepAndConvert<CONTEXT, STATE, OUTPUT, STRATEGY>> Algorithm<CONTEXT, STATE, OUTPUT> for Computation<CONTEXT, STATE, OUTPUT, STEP, STRATEGY> {
    open spec fn admits(context: &CONTEXT, state: &STATE) -> bool {
        STEP::valid(context, state)
    }

    open spec fn promises(context: &CONTEXT, state: &STATE, output: &OUTPUT) -> bool {
        STEP::delivers(context, state, output)
    }

    fn configure(context: CONTEXT, initial_state: STATE) -> (r: Self) {
        Computation::from_parts(context, initial_state)
    }
}

impl<CONTEXT, STATE, OUTPUT, STEP: GeneratorStep<CONTEXT, STATE, OUTPUT>> Generatable<OUTPUT> for Generator<CONTEXT, STATE, OUTPUT, STEP> {
    open spec fn ready(&self) -> bool {
        self.wf()
    }

    open spec fn effort(&self) -> nat {
        self.fuel()
    }

    open spec fn may_yield(&self, item: &OUTPUT) -> bool {
        self.yields(item)
    }

    open spec fn ended(&self) -> bool {
        self.exhausted()
    }

    fn try_next(&mut self) -> (r: Option<Completable<OUTPUT>>)
        ensures
            STEP::stepped(&old(self).context_view(), &old(self).state_view(), &final(self).state_view(), &crate::algorithm_trait::generator::transposed(r)),
            final(self).context_view() == old(self).context_view(),
    {
        Generator::try_next(self)
    }

    fn next(&mut self) -> (r: Option<Cancellable<OUTPUT>>)
        ensures
            Generator::<CONTEXT, STATE, OUTPUT, STEP>::went(old(self), final(self), &r),
            final(self).context_view() == old(self).context_view(),
    {
        Generator::next(self)
    }
}

impl<CONTEXT, STATE, OUTPUT, STEP: GeneratorStep<CONTEXT, STATE, OUTPUT>> GenAlgorithm<CONTEXT, STATE, OUTPUT> for Generator<CONTEXT, STATE, OUTPUT, STEP> {
    open spec fn admits(context: &CONTEXT, state: &STATE) -> bool {
        STEP::valid(context, state)
    }

    open spec fn promises(context: &CONTEXT, state: &STATE, item: &OUTPUT) -> bool {
        STEP::yields(context, state, item)
    }

    fn configure(context: CONTEXT, initial_state: STATE) -> (r: Self) {
        Generator::from_parts(context, initial_state)
    }
}

} // verus!
