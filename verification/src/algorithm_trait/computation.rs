//! Computations of a single output.

use crate::algorithm_trait::{Completable, Incomplete};
use crate::cancellation::{check_cancelled, Cancellable};
use core::marker::PhantomData;
use vstd::prelude::*;

verus! {

/// `From::from` of a value for its own type, which std implements for every type: the
/// value comes back unchanged.
pub assume_specification<X>[ <X as core::convert::From<X>>::from ](t: X) -> (r: X)
    ensures
        r == t,
;

/// Marks an operator that says itself how a settled state is turned into the output.
pub struct Manual;

/// Marks an operator whose output is what the settled state converts to.
pub struct Derived;

/// A stateless operator that advances a `STATE` step by step and, once it is done, turns the
/// state into an `OUTPUT`. The `CONTEXT` is there to read.
pub trait ComputationStepAndConvert<CONTEXT, STATE, OUTPUT, STRATEGY = Manual> {
    /// The states that the operator can work on.
    spec fn valid(context: &CONTEXT, state: &STATE) -> bool;

    /// A bound on the number of steps that can still answer `Working`.
    spec fn fuel(context: &CONTEXT, state: &STATE) -> nat;

    /// The states in which the operator is done.
    spec fn settled(context: &CONTEXT, state: &STATE) -> bool;

    /// The outputs that a computation in this state may end with.
    spec fn delivers(context: &CONTEXT, state: &STATE, output: &OUTPUT) -> bool;

    /// What one step does: it takes the state `before` to the state `after` with the
    /// answer `r`.
    spec fn stepped(context: &CONTEXT, before: &STATE, after: &STATE, r: &Completable<()>) -> bool;

    /// Advance the computation by one step. `Ok` says that the state is settled. No step
    /// widens the set of outputs that the computation may end with.
    fn step(context: &CONTEXT, state: &mut STATE) -> (r: Completable<()>)
        requires
            Self::valid(context, old(state)),
        ensures
            Self::valid(context, final(state)),
            Self::stepped(context, old(state), final(state), &r),
            r is Ok ==> Self::settled(context, final(state)),
            r == Err::<(), Incomplete>(Incomplete::Working) ==> Self::fuel(context, final(state)) < Self::fuel(context, old(state)),
            forall|o: OUTPUT| #[trigger] Self::delivers(context, final(state), &o) ==> Self::delivers(context, old(state), &o),
    ;

    /// Turn a settled state into the output.
    fn output(context: &CONTEXT, state: STATE) -> (o: OUTPUT)
        requires
            Self::valid(context, &state),
            Self::settled(context, &state),
        ensures
            Self::delivers(context, &state, &o),
    ;
}

/// A stateless operator that advances a `STATE` step by step, for a state that converts
/// to the `OUTPUT` by itself once the operator is done.
pub trait ComputationStep<CONTEXT, STATE: Into<OUTPUT>, OUTPUT> {
    /// The states that the operator can work on.
    spec fn valid(context: &CONTEXT, state: &STATE) -> bool;

    /// A bound on the number of steps that can still answer `Working`.
    spec fn fuel(context: &CONTEXT, state: &STATE) -> nat;

    /// The states in which the operator is done.
    spec fn settled(context: &CONTEXT, state: &STATE) -> bool;

    /// The outputs that a computation in this state may end with.
    spec fn delivers(context: &CONTEXT, state: &STATE, output: &OUTPUT) -> bool;

    /// What one step does: it takes the state `before` to the state `after` with the
    /// answer `r`.
    spec fn stepped(context: &CONTEXT, before: &STATE, after: &STATE, r: &Completable<()>) -> bool;

    /// Advance the computation by one step. `Ok` says that the state is settled. No step
    /// widens the set of outputs that the computation may end with.
    fn step(context: &CONTEXT, state: &mut STATE) -> (r: Completable<()>)
        requires
            Self::valid(context, old(state)),
        ensures
            Self::valid(context, final(state)),
            Self::stepped(context, old(state), final(state), &r),
            r is Ok ==> Self::settled(context, final(state)),
            r == Err::<(), Incomplete>(Incomplete::Working) ==> Self::fuel(context, final(state)) < Self::fuel(context, old(state)),
            forall|o: OUTPUT| #[trigger] Self::delivers(context, final(state), &o) ==> Self::delivers(context, old(state), &o),
    ;

    /// What a settled state converts to is an output that the state delivers.
    proof fn converts(context: &CONTEXT, state: STATE)
        requires
            Self::valid(context, &state),
            Self::settled(context, &state),
        ensures
            forall|o: OUTPUT| call_ensures(<STATE as Into<OUTPUT>>::into, (state,), o) ==> Self::delivers(context, &state, &o),
    ;
}

impl<CONTEXT, STATE: Into<OUTPUT>, OUTPUT, T: ComputationStep<CONTEXT, STATE, OUTPUT>> ComputationStepAndConvert<CONTEXT, STATE, OUTPUT, Derived> for T {
    open spec fn valid(context: &CONTEXT, state: &STATE) -> bool {
        <T as ComputationStep<CONTEXT, STATE, OUTPUT>>::valid(context, state)
    }

    open spec fn fuel(context: &CONTEXT, state: &STATE) -> nat {
        <T as ComputationStep<CONTEXT, STATE, OUTPUT>>::fuel(context, state)
    }

    open spec fn settled(context: &CONTEXT, state: &STATE) -> bool {
        <T as ComputationStep<CONTEXT, STATE, OUTPUT>>::settled(context, state)
    }

    open spec fn delivers(context: &CONTEXT, state: &STATE, output: &OUTPUT) -> bool {
        <T as ComputationStep<CONTEXT, STATE, OUTPUT>>::delivers(context, state, output)
    }

    open spec fn stepped(context: &CONTEXT, before: &STATE, after: &STATE, r: &Completable<()>) -> bool {
        <T as ComputationStep<CONTEXT, STATE, OUTPUT>>::stepped(context, before, after, r)
    }

    fn step(context: &CONTEXT, state: &mut STATE) -> (r: Completable<()>) {
        <T as ComputationStep<CONTEXT, STATE, OUTPUT>>::step(context, state)
    }

    fn output(context: &CONTEXT, state: STATE) -> (o: OUTPUT)
        ensures
            call_ensures(<STATE as Into<OUTPUT>>::into, (state,), o),
    {
        proof {
            <T as ComputationStep<CONTEXT, STATE, OUTPUT>>::converts(context, state);
        }
        state.into()
    }
}

/// Drives a step operator until its state is settled, then keeps the output. `STRATEGY`
/// says where the output comes from: [`Derived`] for an operator that is a
/// [`ComputationStep`], [`Manual`] for one that is a [`ComputationStepAndConvert`] of its
/// own.
pub struct Computation<CONTEXT, STATE, OUTPUT, STEP: ComputationStepAndConvert<CONTEXT, STATE, OUTPUT, STRATEGY>, STRATEGY = Derived> {
    context: CONTEXT,
    state: Option<STATE>,
    output: Option<OUTPUT>,
    _marker: PhantomData<(STRATEGY, STEP)>,
}

impl<CONTEXT, STATE, OUTPUT, STRATEGY, STEP: ComputationStepAndConvert<CONTEXT, STATE, OUTPUT, STRATEGY>> Computation<CONTEXT, STATE, OUTPUT, STEP, STRATEGY> {
    /// The context of the computation.
    pub closed spec fn context_view(&self) -> CONTEXT {
        self.context
    }

    /// The state of the computation, until it is turned into the output.
    pub closed spec fn state_view(&self) -> Option<STATE> {
        self.state
    }

    /// The output of the computation, once it is there.
    pub closed spec fn output_view(&self) -> Option<OUTPUT> {
        self.output
    }

    /// The computation holds either a valid state or the output.
    pub open spec fn wf(&self) -> bool {
        match self.state_view() {
            Some(state) => STEP::valid(&self.context_view(), &state) && self.output_view() is None,
            None => self.output_view() is Some,
        }
    }

    /// A bound on the number of calls of `try_compute` that can still answer `Working`.
    pub open spec fn fuel(&self) -> nat {
        match self.state_view() {
            Some(state) => STEP::fuel(&self.context_view(), &state),
            None => 0,
        }
    }

    /// The outputs that this computation may end with.
    pub open spec fn delivers(&self, output: &OUTPUT) -> bool {
        match self.state_view() {
            Some(state) => STEP::delivers(&self.context_view(), &state, output),
            None => self.output_view() == Some(*output),
        }
    }

    /// A computation that starts in the given state.
    pub fn from_parts(context: CONTEXT, initial_state: STATE) -> (r: Self)
        ensures
            r.context_view() == context,
            r.state_view() == Some(initial_state),
            r.output_view() is None,
    {
        Computation { context, state: Some(initial_state), output: None, _marker: PhantomData }
    }

    /// A computation that starts in the state that `initial_state` converts to, with the
    /// context that `context` converts to.
    pub fn configure<I1: Into<CONTEXT>, I2: Into<STATE>>(context: I1, initial_state: I2) -> (r: Self)
        ensures
            r.output_view() is None,
            call_ensures(I1::into, (context,), r.context_view()),
            r.state_view() matches Some(state) && call_ensures(I2::into, (initial_state,), state),
    {
        Computation { context: context.into(), state: Some(initial_state.into()), output: None, _marker: PhantomData }
    }

    /// What the computation makes of the outcome of a step of its operator on the state
    /// that it holds. An error is handed on as it came, and the state stays as the
    /// operator left it. On `Ok` the state is given up for the output that the operator
    /// turns it into, which is kept and handed out.
    pub fn settle(&mut self, outcome: Completable<()>) -> (r: Completable<&OUTPUT>)
        requires
            old(self).wf(),
            old(self).state_view() is Some,
            outcome is Ok ==> STEP::settled(&old(self).context_view(), &old(self).state_view().unwrap()),
        ensures
            final(self).wf(),
            final(self).context_view() == old(self).context_view(),
            match outcome {
                Err(e) => *final(self) == *old(self) && (r matches Err(handed) && handed == e),
                Ok(_) => {
                    &&& final(self).state_view() is None
                    &&& r matches Ok(output) && final(self).output_view() == Some(*output)
                    &&& STEP::delivers(&old(self).context_view(), &old(self).state_view().unwrap(), &final(self).output_view().unwrap())
                    &&& call_ensures(STEP::output, (&old(self).context_view(), old(self).state_view().unwrap()), final(self).output_view().unwrap())
                },
            },
    {
        match outcome {
            Err(e) => Err(e),
            Ok(()) => {
                if let Some(state) = self.state.take() {
                    self.output = Some(STEP::output(&self.context, state));
                }
                Ok(self.output.as_ref().unwrap())
            },
        }
    }

    /// What one poll does to a computation that still holds a state: the operator takes one
    /// step from that state, which leaves the state `left` and has the answer `outcome`.
    /// An error is handed on, and the computation holds `left`. On `Ok` the computation
    /// gives up the state for the output that the operator turns `left` into.
    pub open spec fn polled(before: &Self, after: &Self, r: &Completable<&OUTPUT>) -> bool {
        before.state_view() matches Some(start) ==> exists|left: STATE, outcome: Completable<()>| {
            &&& #[trigger] STEP::stepped(&before.context_view(), &start, &left, &outcome)
            &&& match outcome {
                Err(e) => after.state_view() == Some(left) && (*r matches Err(handed) && handed == e),
                Ok(_) => after.state_view() is None && *r is Ok && (after.output_view() matches Some(o) && call_ensures(STEP::output, (&before.context_view(), left), o)),
            }
        }
    }

    /// A chain of steps of the operator: every state follows from the one before by one
    /// step with the given answer, and every answer but the last is `Working`.
    pub open spec fn chain(context: &CONTEXT, states: Seq<STATE>, results: Seq<Completable<()>>) -> bool {
        &&& states.len() == results.len() + 1
        &&& forall|i: int| 0 <= i < results.len() ==> STEP::stepped(context, &states[i], &states[i + 1], &#[trigger] results[i])
        &&& forall|i: int| 0 <= i < results.len() - 1 ==> (#[trigger] results[i] matches Err(Incomplete::Working))
    }

    /// What [`Computation::compute`] makes of a computation. One that holds its output
    /// hands it out. One that holds a state goes through a chain of steps of the operator
    /// from that state. With success the last step answered `Ok`, and the output is what
    /// the operator turns the last state into. A cancellation comes from the ambient
    /// signal, after steps that all answered `Working`, or is that of the last step.
    pub open spec fn computed(&self, r: &Cancellable<OUTPUT>) -> bool {
        match self.state_view() {
            None => *r matches Ok(o) ==> self.output_view() == Some(o),
            Some(start) => exists|states: Seq<STATE>, results: Seq<Completable<()>>| {
                &&& #[trigger] Self::chain(&self.context_view(), states, results)
                &&& states[0] == start
                &&& match *r {
                    Ok(o) => results.len() > 0 && results.last() is Ok && call_ensures(STEP::output, (&self.context_view(), states.last()), o),
                    Err(cancelled) => results.len() == 0 || (results.last() matches Err(Incomplete::Working)) || (results.last() matches Err(Incomplete::Cancelled(handed)) && handed == cancelled),
                }
            },
        }
    }

    /// Advance by one step. When the operator is done, the state is turned into the output,
    /// which is kept and handed out from then on.
    pub fn try_compute(&mut self) -> (r: Completable<&OUTPUT>)
        requires
            old(self).wf(),
        ensures
            Self::polled(old(self), final(self), &r),
            final(self).wf(),
            final(self).context_view() == old(self).context_view(),
            forall|o: OUTPUT| #[trigger] final(self).delivers(&o) ==> old(self).delivers(&o),
            r is Ok ==> final(self).state_view() is None && final(self).output_view() == Some(*r.unwrap()),
            r == Err::<&OUTPUT, Incomplete>(Incomplete::Working) ==> final(self).fuel() < old(self).fuel(),
            r is Err ==> final(self).state_view() is Some,
            old(self).state_view() is None ==> r is Ok && *final(self) == *old(self),
    {
        match self.state.as_mut() {
            None => Ok(self.output.as_ref().unwrap()),
            Some(state) => {
                let ghost start = *state;
                let outcome = STEP::step(&self.context, state);
                let ghost left = *state;
                let ghost seen = outcome;
                let r = self.settle(outcome);
                proof {
                    assert(STEP::stepped(&old(self).context_view(), &start, &left, &seen));
                }
                r
            },
        }
    }

    /// One turn of [`Computation::compute`], given what the ambient cancellation signal said
    /// before it: a cancellation is handed on and the computation stays as it is; else the
    /// computation is advanced by one step.
    pub fn heed(&mut self, signal: Cancellable<()>) -> (r: Completable<&OUTPUT>)
        requires
            old(self).wf(),
        ensures
            final(self).wf(),
            final(self).context_view() == old(self).context_view(),
            forall|o: OUTPUT| #[trigger] final(self).delivers(&o) ==> old(self).delivers(&o),
            match signal {
                Err(cancelled) => *final(self) == *old(self) && (r matches Err(Incomplete::Cancelled(handed)) && handed == cancelled),
                Ok(_) => {
                    &&& Self::polled(old(self), final(self), &r)
                    &&& r is Ok ==> final(self).state_view() is None && final(self).output_view() == Some(*r.unwrap())
                    &&& r == Err::<&OUTPUT, Incomplete>(Incomplete::Working) ==> final(self).fuel() < old(self).fuel()
                    &&& r is Err ==> final(self).state_view() is Some
                    &&& old(self).state_view() is None ==> r is Ok && *final(self) == *old(self)
                },
            },
    {
        match signal {
            Err(cancelled) => Err(Incomplete::Cancelled(cancelled)),
            Ok(()) => self.try_compute(),
        }
    }

    /// What [`Computation::compute`] makes of the outcome of a turn: `Working` lets it go
    /// on, which is `None`; a cancellation ends it with that cancellation; an output ends
    /// it with success.
    pub fn verdict(outcome: Completable<&OUTPUT>) -> (r: Option<Cancellable<()>>)
        ensures
            match outcome {
                Err(Incomplete::Working) => r is None,
                Err(Incomplete::Cancelled(cancelled)) => r matches Some(Err(handed)) && handed == cancelled,
                Ok(_) => r matches Some(Ok(_)),
            },
    {
        match outcome {
            Err(Incomplete::Working) => None,
            Err(Incomplete::Cancelled(cancelled)) => Some(Err(cancelled)),
            Ok(_) => Some(Ok(())),
        }
    }

    /// Advance until the output is there or the computation is cancelled. The ambient
    /// cancellation signal is asked before every step.
    pub fn compute(self) -> (r: Cancellable<OUTPUT>)
        requires
            self.wf(),
        ensures
            self.computed(&r),
            r is Ok ==> self.delivers(&r.unwrap()),
    {
        let mut running = self;
        let ghost context = self.context_view();
        let ghost mut states: Seq<STATE> = if self.state_view() is Some {
            seq![self.state_view().unwrap()]
        } else {
            Seq::empty()
        };
        let ghost mut results: Seq<Completable<()>> = Seq::empty();
        loop
            invariant_except_break
                self.state_view() is Some ==> {
                    &&& Self::chain(&context, states, results)
                    &&& states[0] == self.state_view().unwrap()
                    &&& running.state_view() == Some(states.last())
                    &&& forall|i: int| 0 <= i < results.len() ==> (#[trigger] results[i] matches Err(Incomplete::Working))
                },
            invariant
                running.wf(),
                forall|o: OUTPUT| #[trigger] running.delivers(&o) ==> self.delivers(&o),
                context == self.context_view(),
                running.context_view() == context,
                self.state_view() is None ==> running.state_view() is None && running.output_view() == self.output_view(),
            ensures
                running.state_view() is None,
                running.output_view() is Some,
                self.delivers(&running.output_view().unwrap()),
                context == self.context_view(),
                self.state_view() is None ==> running.output_view() == self.output_view(),
                self.state_view() is Some ==> {
                    &&& Self::chain(&context, states, results)
                    &&& states[0] == self.state_view().unwrap()
                    &&& results.len() > 0
                    &&& results.last() is Ok
                    &&& call_ensures(STEP::output, (&context, states.last()), running.output_view().unwrap())
                },
            decreases running.fuel(),
        {
            let signal = check_cancelled();
            let ghost heard = signal;
            let ghost from = running;
            let ghost earlier = states;
            let ghost answers = results;
            let turn = running.heed(signal);
            let ghost answered = turn;
            let verdict = Self::verdict(turn);
            proof {
                if heard is Ok && self.state_view() is Some {
                    assert(Self::polled(&from, &running, &answered));
                    let start = from.state_view().unwrap();
                    let (left, outcome) = choose|left: STATE, outcome: Completable<()>| {
                        &&& #[trigger] STEP::stepped(&from.context_view(), &start, &left, &outcome)
                        &&& match outcome {
                            Err(e) => running.state_view() == Some(left) && (answered matches Err(handed) && handed == e),
                            Ok(_) => running.state_view() is None && answered is Ok && (running.output_view() matches Some(o) && call_ensures(STEP::output, (&from.context_view(), left), o)),
                        }
                    };
                    states = earlier.push(left);
                    results = answers.push(outcome);
                    assert forall|i: int| 0 <= i < results.len() implies STEP::stepped(&context, &states[i], &states[i + 1], &#[trigger] results[i]) by {
                        if i < answers.len() {
                            assert(states[i] == earlier[i] && states[i + 1] == earlier[i + 1] && results[i] == answers[i]);
                        } else {
                            assert(states[i] == start && states[i + 1] == left && results[i] == outcome);
                        }
                    }
                    assert forall|i: int| 0 <= i < results.len() - 1 implies (#[trigger] results[i] matches Err(Incomplete::Working)) by {
                        assert(results[i] == answers[i]);
                    }
                    assert(Self::chain(&context, states, results));
                    assert(results.last() == outcome);
                    assert(states.last() == left);
                    assert(states[0] == earlier[0]);
                }
            }
            match verdict {
                None => {
                    proof {
                        if self.state_view() is Some {
                            assert forall|i: int| 0 <= i < results.len() implies (#[trigger] results[i] matches Err(Incomplete::Working)) by {
                                if i < answers.len() {
                                    assert(results[i] == answers[i]);
                                }
                            }
                        }
                    }
                },
                Some(Err(cancelled)) => {
                    proof {
                        assert(self.computed(&Err::<OUTPUT, cancel_this::Cancelled>(cancelled)));
                    }
                    return Err(cancelled);
                },
                Some(Ok(())) => {
                    assert(running.delivers(&running.output_view().unwrap()));
                    break;
                },
            }
        }
        let output = running.output.unwrap();
        proof {
            assert(self.computed(&Ok::<OUTPUT, cancel_this::Cancelled>(output)));
        }
        Ok(output)
    }

    /// Configure a computation and run it to its end.
    pub fn run<I1: Into<CONTEXT>, I2: Into<STATE>>(context: I1, initial_state: I2) -> (r: Cancellable<OUTPUT>)
        requires
            forall|c: CONTEXT, s: STATE| call_ensures(I1::into, (context,), c) && call_ensures(I2::into, (initial_state,), s) ==> STEP::valid(&c, &s),
        ensures
            r matches Ok(output) ==> exists|c: CONTEXT, s: STATE| call_ensures(I1::into, (context,), c) && call_ensures(I2::into, (initial_state,), s) && STEP::delivers(&c, &s, &output),
            exists|started: Self| {
                &&& call_ensures(I1::into, (context,), started.context_view())
                &&& started.state_view() matches Some(state) && call_ensures(I2::into, (initial_state,), state)
                &&& #[trigger] started.computed(&r)
            },
    {
        let started = Self::configure(context, initial_state);
        let r = started.compute();
        proof {
            assert(started.computed(&r));
        }
        r
    }

    /// The output, once it is there.
    pub fn output_ref(&self) -> (r: Option<&OUTPUT>)
        ensures
            r is Some == self.output_view() is Some,
            r is Some ==> *r.unwrap() == self.output_view().unwrap(),
    {
        self.output.as_ref()
    }

    /// Give up the computation for its output, if it is there.
    pub fn output(self) -> (r: Option<OUTPUT>)
        ensures
            r == self.output_view(),
    {
        self.output
    }

    /// The state, until it is turned into the output.
    pub fn state_ref(&self) -> (r: Option<&STATE>)
        ensures
            r is Some == self.state_view() is Some,
            r is Some ==> *r.unwrap() == self.state_view().unwrap(),
    {
        self.state.as_ref()
    }

    /// Give up the computation for its state, unless it was turned into the output.
    pub fn state(self) -> (r: Option<STATE>)
        ensures
            r == self.state_view(),
    {
        self.state
    }

    /// The context.
    pub fn context_ref(&self) -> (r: &CONTEXT)
        ensures
            *r == self.context_view(),
    {
        &self.context
    }
}

/// The operator of the computation that is done at once and hands back its state.
pub struct IdentityStep;

impl<T> ComputationStepAndConvert<(), T, T, Manual> for IdentityStep {
    open spec fn valid(context: &(), state: &T) -> bool {
        true
    }

    open spec fn fuel(context: &(), state: &T) -> nat {
        0
    }

    open spec fn settled(context: &(), state: &T) -> bool {
        true
    }

    open spec fn delivers(context: &(), state: &T, output: &T) -> bool {
        *output == *state
    }

    open spec fn stepped(context: &(), before: &T, after: &T, r: &Completable<()>) -> bool {
        *after == *before && *r is Ok
    }

    fn step(context: &(), state: &mut T) -> (r: Completable<()>)
        ensures
            r is Ok,
            *final(state) == *old(state),
    {
        Ok(())
    }

    fn output(context: &(), state: T) -> (o: T)
        ensures
            o == state,
    {
        state
    }
}

/// A computation whose output is the value it was made with.
pub type ComputableIdentity<T> = Computation<(), T, T, IdentityStep, Manual>;

} // verus!
