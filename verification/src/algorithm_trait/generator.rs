//! Generators of a sequence of outputs.

use crate::algorithm_trait::computation::{Computation, ComputationStepAndConvert, Manual};
use crate::algorithm_trait::{Completable, Incomplete};
use crate::cancellation::Cancellable;
use core::marker::PhantomData;
use vstd::prelude::*;

verus! {

/// A stateless operator that advances a `STATE` step by step and hands out an `OUTPUT` now
/// and then. The `CONTEXT` is there to read.
pub trait GeneratorStep<CONTEXT, STATE, OUTPUT> {
    /// The states that the operator can work on.
    spec fn valid(context: &CONTEXT, state: &STATE) -> bool;

    /// A bound on the number of steps that can still answer `Working` or hand out an item.
    spec fn fuel(context: &CONTEXT, state: &STATE) -> nat;

    /// The states in which nothing is left to hand out.
    spec fn exhausted(context: &CONTEXT, state: &STATE) -> bool;

    /// The items that a generator in this state may still hand out.
    spec fn yields(context: &CONTEXT, state: &STATE, item: &OUTPUT) -> bool;

    /// What one step does: it takes the state `before` to the state `after` with the
    /// answer `r`.
    spec fn stepped(context: &CONTEXT, before: &STATE, after: &STATE, r: &Completable<Option<OUTPUT>>) -> bool;

    /// Advance the generator by one step. `Ok(Some(..))` hands out an item, `Ok(None)` says
    /// that the sequence has ended. No step widens the set of items that may still come.
    fn step(context: &CONTEXT, state: &mut STATE) -> (r: Completable<Option<OUTPUT>>)
        requires
            Self::valid(context, old(state)),
        ensures
            Self::valid(context, final(state)),
            Self::stepped(context, old(state), final(state), &r),
            r matches Ok(Some(item)) ==> Self::yields(context, old(state), &item),
            r matches Ok(None) ==> Self::exhausted(context, final(state)),
            (r matches Ok(Some(_))) || (r matches Err(Incomplete::Working)) ==> Self::fuel(context, final(state)) < Self::fuel(context, old(state)),
            forall|o: OUTPUT| #[trigger] Self::yields(context, final(state), &o) ==> Self::yields(context, old(state), &o),
    ;
}

/// The answer of a step operator that a generator hands on as `r`.
pub open spec fn transposed<OUTPUT>(r: Option<Completable<OUTPUT>>) -> Completable<Option<OUTPUT>> {
    match r {
        None => Ok(None),
        Some(Ok(item)) => Ok(Some(item)),
        Some(Err(e)) => Err(e),
    }
}

/// What the collector has seen of its generator, as its answer `r` and what it has gathered
/// before and after tell: the end of the sequence if the answer is `Ok`; a cancellation if
/// that is the answer; with the answer `Working` an item, the last that is gathered, if
/// more is gathered than before, and else `Working`.
pub open spec fn seen<OUTPUT>(before: Seq<OUTPUT>, after: Seq<OUTPUT>, r: Completable<()>) -> Option<Completable<OUTPUT>> {
    match r {
        Ok(_) => None,
        Err(Incomplete::Cancelled(cancelled)) => Some(Err(Incomplete::Cancelled(cancelled))),
        Err(Incomplete::Working) => if after.len() > before.len() {
            Some(Ok(after.last()))
        } else {
            Some(Err(Incomplete::Working))
        },
    }
}

/// Drives a step operator and hands out the items that it produces.
pub struct Generator<CONTEXT, STATE, OUTPUT, STEP: GeneratorStep<CONTEXT, STATE, OUTPUT>> {
    context: CONTEXT,
    state: STATE,
    _output: PhantomData<OUTPUT>,
    _step: PhantomData<STEP>,
}

impl<CONTEXT, STATE, OUTPUT, STEP: GeneratorStep<CONTEXT, STATE, OUTPUT>> Generator<CONTEXT, STATE, OUTPUT, STEP> {
    /// The context of the generator.
    pub closed spec fn context_view(&self) -> CONTEXT {
        self.context
    }

    /// The state of the generator.
    pub closed spec fn state_view(&self) -> STATE {
        self.state
    }

    /// The generator holds a valid state.
    pub open spec fn wf(&self) -> bool {
        STEP::valid(&self.context_view(), &self.state_view())
    }

    /// A bound on the number of calls of `try_next` that can still answer `Working` or hand
    /// out an item.
    pub open spec fn fuel(&self) -> nat {
        STEP::fuel(&self.context_view(), &self.state_view())
    }

    /// The items that this generator may still hand out.
    pub open spec fn yields(&self, item: &OUTPUT) -> bool {
        STEP::yields(&self.context_view(), &self.state_view(), item)
    }

    /// Nothing is left to hand out.
    pub open spec fn exhausted(&self) -> bool {
        STEP::exhausted(&self.context_view(), &self.state_view())
    }

    /// A generator that starts in the given state.
    pub fn from_parts(context: CONTEXT, initial_state: STATE) -> (r: Self)
        ensures
            r.context_view() == context,
            r.state_view() == initial_state,
    {
        Generator { context, state: initial_state, _output: PhantomData, _step: PhantomData }
    }

    /// A generator that starts in the state that `initial_state` converts to, with the context
    /// that `context` converts to.
    pub fn configure<I1: Into<CONTEXT>, I2: Into<STATE>>(context: I1, initial_state: I2) -> (r: Self)
        ensures
            call_ensures(I1::into, (context,), r.context_view()),
            call_ensures(I2::into, (initial_state,), r.state_view()),
    {
        Generator { context: context.into(), state: initial_state.into(), _output: PhantomData, _step: PhantomData }
    }

    /// What the generator hands on of the outcome of a step of its operator: the end of
    /// the sequence as `None`, and an item, `Working` or a cancellation as it came.
    pub fn relay(outcome: Completable<Option<OUTPUT>>) -> (r: Option<Completable<OUTPUT>>)
        ensures
            r == match outcome {
                Ok(None) => None::<Completable<OUTPUT>>,
                Ok(Some(item)) => Some(Ok::<OUTPUT, Incomplete>(item)),
                Err(e) => Some(Err::<OUTPUT, Incomplete>(e)),
            },
    {
        match outcome {
            Ok(None) => None,
            Ok(Some(item)) => Some(Ok(item)),
            Err(e) => Some(Err(e)),
        }
    }

    /// Advance by one step: `None` when the sequence has ended, else an item, `Working` or a
    /// cancellation.
    pub fn try_next(&mut self) -> (r: Option<Completable<OUTPUT>>)
        requires
            old(self).wf(),
        ensures
            final(self).wf(),
            final(self).context_view() == old(self).context_view(),
            STEP::stepped(&old(self).context_view(), &old(self).state_view(), &final(self).state_view(), &transposed(r)),
            r matches Some(Ok(item)) ==> old(self).yields(&item),
            r is None ==> final(self).exhausted(),
            (r matches Some(Ok(_))) || (r matches Some(Err(Incomplete::Working))) ==> final(self).fuel() < old(self).fuel(),
            forall|o: OUTPUT| #[trigger] final(self).yields(&o) ==> old(self).yields(&o),
    {
        Self::relay(STEP::step(&self.context, &mut self.state))
    }

    /// What [`Generator::next`] makes of the outcome of a step: `Working` lets it go on,
    /// which is `None`; the end of the sequence, an item and a cancellation end it, and are
    /// handed on.
    pub fn verdict(outcome: Option<Completable<OUTPUT>>) -> (r: Option<Option<Cancellable<OUTPUT>>>)
        ensures
            match outcome {
                None => r == Some(None::<Cancellable<OUTPUT>>),
                Some(Ok(item)) => r matches Some(Some(Ok(handed))) && handed == item,
                Some(Err(Incomplete::Cancelled(cancelled))) => r matches Some(Some(Err(handed))) && handed == cancelled,
                Some(Err(Incomplete::Working)) => r is None,
            },
    {
        match outcome {
            None => Some(None),
            Some(Ok(item)) => Some(Some(Ok(item))),
            Some(Err(Incomplete::Cancelled(cancelled))) => Some(Some(Err(cancelled))),
            Some(Err(Incomplete::Working)) => None,
        }
    }

    /// A chain of steps of the operator: every state follows from the one before by one
    /// step with the given answer, and every answer but the last is `Working`.
    pub open spec fn chain(context: &CONTEXT, states: Seq<STATE>, results: Seq<Completable<Option<OUTPUT>>>) -> bool {
        &&& states.len() == results.len() + 1
        &&& forall|i: int| 0 <= i < results.len() ==> STEP::stepped(context, &states[i], &states[i + 1], &#[trigger] results[i])
        &&& forall|i: int| 0 <= i < results.len() - 1 ==> (#[trigger] results[i] matches Err(Incomplete::Working))
    }

    /// What [`Generator::next`] makes of the generator: its state goes through a chain of
    /// steps of the operator, of which the last is the first that does not answer
    /// `Working`; what that step answered is handed on.
    pub open spec fn went(before: &Self, after: &Self, r: &Option<Cancellable<OUTPUT>>) -> bool {
        exists|states: Seq<STATE>, results: Seq<Completable<Option<OUTPUT>>>| {
            &&& #[trigger] Self::chain(&before.context_view(), states, results)
            &&& states[0] == before.state_view()
            &&& states.last() == after.state_view()
            &&& results.len() > 0
            &&& match *r {
                None => results.last() matches Ok(None),
                Some(Ok(item)) => results.last() matches Ok(Some(handed)) && handed == item,
                Some(Err(cancelled)) => results.last() matches Err(Incomplete::Cancelled(handed)) && handed == cancelled,
            }
        }
    }

    /// Advance until an item comes, the sequence ends or the generator is cancelled.
    pub fn next(&mut self) -> (r: Option<Cancellable<OUTPUT>>)
        requires
            old(self).wf(),
        ensures
            Self::went(old(self), final(self), &r),
            final(self).wf(),
            final(self).context_view() == old(self).context_view(),
            r matches Some(Ok(item)) ==> old(self).yields(&item),
            r matches Some(Ok(_)) ==> final(self).fuel() < old(self).fuel(),
            r is None ==> final(self).exhausted(),
            forall|o: OUTPUT| #[trigger] final(self).yields(&o) ==> old(self).yields(&o),
    {
        let ghost context = self.context_view();
        let ghost mut states: Seq<STATE> = seq![self.state_view()];
        let ghost mut results: Seq<Completable<Option<OUTPUT>>> = Seq::empty();
        loop
            invariant
                self.wf(),
                self.context_view() == old(self).context_view(),
                context == old(self).context_view(),
                self.fuel() <= old(self).fuel(),
                forall|o: OUTPUT| #[trigger] self.yields(&o) ==> old(self).yields(&o),
                Self::chain(&context, states, results),
                states[0] == old(self).state_view(),
                states.last() == self.state_view(),
                forall|i: int| 0 <= i < results.len() ==> (#[trigger] results[i] matches Err(Incomplete::Working)),
            decreases self.fuel(),
        {
            let ghost from = self.state_view();
            let ghost earlier = states;
            let ghost answers = results;
            let outcome = self.try_next();
            let ghost answer = transposed(outcome);
            proof {
                states = earlier.push(self.state_view());
                results = answers.push(answer);
                assert forall|i: int| 0 <= i < results.len() implies STEP::stepped(&context, &states[i], &states[i + 1], &#[trigger] results[i]) by {
                    if i < answers.len() {
                        assert(states[i] == earlier[i] && states[i + 1] == earlier[i + 1] && results[i] == answers[i]);
                    } else {
                        assert(states[i] == from && states[i + 1] == self.state_view() && results[i] == answer);
                    }
                }
                assert forall|i: int| 0 <= i < results.len() - 1 implies (#[trigger] results[i] matches Err(Incomplete::Working)) by {
                    assert(results[i] == answers[i]);
                }
                assert(Self::chain(&context, states, results));
                assert(results.last() == answer);
                assert(states[0] == earlier[0]);
            }
            match Self::verdict(outcome) {
                Some(ended) => {
                    proof {
                        assert(Self::went(old(self), self, &ended));
                    }
                    return ended;
                },
                None => {
                    proof {
                        assert forall|i: int| 0 <= i < results.len() implies (#[trigger] results[i] matches Err(Incomplete::Working)) by {
                            if i < answers.len() {
                                assert(results[i] == answers[i]);
                            }
                        }
                    }
                },
            }
        }
    }

    /// The computation that gathers all items of this generator in a vector.
    pub fn computation(self) -> (r: CollectorComputation<CONTEXT, STATE, OUTPUT, STEP>)
        requires
            self.wf(),
        ensures
            r.wf(),
            r.output_view() is None,
            r.state_view() matches Some(state) && state.collector@ == Seq::<OUTPUT>::empty() && state.generator == self,
    {
        let state = CollectorState { collector: Vec::new(), generator: self };
        Computation::from_parts((), state)
    }
}

/// The computation that gathers the items of a generator.
pub type CollectorComputation<CONTEXT, STATE, OUTPUT, STEP> = Computation<
    (),
    CollectorState<CONTEXT, STATE, OUTPUT, STEP>,
    Vec<OUTPUT>,
    CollectorStep,
    Manual,
>;

/// The operator of the computation that gathers the items of a generator.
pub struct CollectorStep();

impl CollectorStep {
    /// What the collector makes of the outcome of a step of its generator. An item is put
    /// at the end of what is gathered, and the answer is `Working`; the end of the sequence
    /// ends the gathering; `Working` and a cancellation are handed on. The generator is
    /// not touched.
    pub fn gather<CONTEXT, STATE, OUTPUT, STEP: GeneratorStep<CONTEXT, STATE, OUTPUT>>(state: &mut CollectorState<CONTEXT, STATE, OUTPUT, STEP>, outcome: Option<Completable<OUTPUT>>) -> (r: Completable<()>)
        ensures
            final(state).generator == old(state).generator,
            match outcome {
                None => r is Ok && final(state).collector@ == old(state).collector@,
                Some(Ok(item)) => r == Err::<(), Incomplete>(Incomplete::Working) && final(state).collector@ == old(state).collector@.push(item),
                Some(Err(e)) => (r matches Err(handed) && handed == e) && final(state).collector@ == old(state).collector@,
            },
    {
        match outcome {
            None => Ok(()),
            Some(Ok(item)) => {
                state.collector.push(item);
                Err(Incomplete::Working)
            },
            Some(Err(e)) => Err(e),
        }
    }
}

/// A generator and the items gathered from it so far.
pub struct CollectorState<CONTEXT, STATE, OUTPUT, STEP: GeneratorStep<CONTEXT, STATE, OUTPUT>> {
    pub collector: Vec<OUTPUT>,
    pub generator: Generator<CONTEXT, STATE, OUTPUT, STEP>,
}

impl<CONTEXT, STATE, OUTPUT, STEP: GeneratorStep<CONTEXT, STATE, OUTPUT>> ComputationStepAndConvert<
    (),
    CollectorState<CONTEXT, STATE, OUTPUT, STEP>,
    Vec<OUTPUT>,
    Manual,
> for CollectorStep {
    open spec fn valid(context: &(), state: &CollectorState<CONTEXT, STATE, OUTPUT, STEP>) -> bool {
        state.generator.wf()
    }

    open spec fn fuel(context: &(), state: &CollectorState<CONTEXT, STATE, OUTPUT, STEP>) -> nat {
        state.generator.fuel()
    }

    open spec fn settled(context: &(), state: &CollectorState<CONTEXT, STATE, OUTPUT, STEP>) -> bool {
        state.generator.exhausted()
    }

    /// The output starts with the items gathered so far; every further item is one that the
    /// generator may still hand out.
    open spec fn delivers(context: &(), state: &CollectorState<CONTEXT, STATE, OUTPUT, STEP>, output: &Vec<OUTPUT>) -> bool {
        &&& state.collector@.is_prefix_of(output@)
        &&& forall|i: int| state.collector@.len() <= i < output@.len() ==> state.generator.yields(&#[trigger] output@[i])
    }

    /// The generator takes one step, and an item that it hands out is put at the end of
    /// what is gathered; nothing else is.
    open spec fn stepped(context: &(), before: &CollectorState<CONTEXT, STATE, OUTPUT, STEP>, after: &CollectorState<CONTEXT, STATE, OUTPUT, STEP>, r: &Completable<()>) -> bool {
        &&& after.generator.context_view() == before.generator.context_view()
        &&& STEP::stepped(
            &before.generator.context_view(),
            &before.generator.state_view(),
            &after.generator.state_view(),
            &transposed(seen(before.collector@, after.collector@, *r)),
        )
        &&& match seen(before.collector@, after.collector@, *r) {
            Some(Ok(item)) => after.collector@ == before.collector@.push(item),
            _ => after.collector@ == before.collector@,
        }
    }

    fn step(context: &(), state: &mut CollectorState<CONTEXT, STATE, OUTPUT, STEP>) -> (r: Completable<()>)
        ensures
            r is Ok ==> final(state).collector@ == old(state).collector@,
            r is Err ==> final(state).collector@.len() <= old(state).collector@.len() + 1,
    {
        let outcome = state.generator.try_next();
        let ghost seen = outcome;
        let ghost polled = state.generator;
        let r = Self::gather(state, outcome);
        proof {
            match seen {
                Some(Ok(item)) => {
                    assert forall|o: Vec<OUTPUT>| Self::delivers(context, state, &o) implies Self::delivers(context, old(state), &o) by {
                        assert(old(state).collector@ =~= state.collector@.subrange(0, old(state).collector@.len() as int));
                        assert forall|i: int| old(state).collector@.len() <= i < o@.len() implies old(state).generator.yields(&#[trigger] o@[i]) by {
                            if i == old(state).collector@.len() {
                                let gathered = state.collector@;
                                assert(gathered == o@.subrange(0, gathered.len() as int));
                                assert(gathered[i] == item);
                                assert(o@.subrange(0, gathered.len() as int)[i] == o@[i]);
                            }
                        }
                    }
                },
                _ => {},
            }
        }
        r
    }

    fn output(context: &(), state: CollectorState<CONTEXT, STATE, OUTPUT, STEP>) -> (o: Vec<OUTPUT>)
        ensures
            o == state.collector,
    {
        state.collector
    }
}

} // verus!
