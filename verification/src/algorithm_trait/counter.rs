//! Two small step operators on numbers: a counter and a generator of consecutive numbers.
//! They show how the protocol is used, and serve to try it out.

use crate::algorithm_trait::computation::ComputationStep;
use crate::algorithm_trait::generator::{CollectorComputation, CollectorState, CollectorStep, GeneratorStep};
use crate::cancellation::Cancellable;
use crate::algorithm_trait::{Completable, Incomplete};
use vstd::prelude::*;

verus! {

/// Counts the state up, one per step, until it reaches the limit that the context gives.
pub struct CounterStep;

/// Hands out the numbers that follow the state, one per step, up to [`LAST_NUMBER`].
pub struct NumberStep;

/// The last number that [`NumberStep`] hands out.
pub const LAST_NUMBER: usize = 100;

impl ComputationStep<usize, usize, usize> for CounterStep {
    open spec fn valid(context: &usize, state: &usize) -> bool {
        true
    }

    open spec fn fuel(context: &usize, state: &usize) -> nat {
        if *state < *context {
            (*context - *state) as nat
        } else {
            0
        }
    }

    open spec fn settled(context: &usize, state: &usize) -> bool {
        *state >= *context
    }

    /// The counter ends with the limit, or with the state if that is greater.
    open spec fn delivers(context: &usize, state: &usize, output: &usize) -> bool {
        *output == if *state < *context {
            *context
        } else {
            *state
        }
    }

    /// Below the limit the state goes up by one and the answer is `Working`; from there on
    /// the state stays and the counter is done.
    open spec fn stepped(context: &usize, before: &usize, after: &usize, r: &Completable<()>) -> bool {
        if *before >= *context {
            *after == *before && *r is Ok
        } else {
            *after == *before + 1 && *r == Err::<(), Incomplete>(Incomplete::Working)
        }
    }

    fn step(context: &usize, state: &mut usize) -> (r: Completable<()>)
        ensures
            *old(state) >= *context ==> r is Ok && *final(state) == *old(state),
            *old(state) < *context ==> r == Err::<(), Incomplete>(Incomplete::Working) && *final(state) == *old(state) + 1,
    {
        if *state >= *context {
            Ok(())
        } else {
            *state = *state + 1;
            Err(Incomplete::Working)
        }
    }

    proof fn converts(context: &usize, state: usize) {
    }
}

impl GeneratorStep<(), usize, usize> for NumberStep {
    open spec fn valid(context: &(), state: &usize) -> bool {
        true
    }

    open spec fn fuel(context: &(), state: &usize) -> nat {
        if *state < LAST_NUMBER {
            (LAST_NUMBER - *state) as nat
        } else {
            0
        }
    }

    open spec fn exhausted(context: &(), state: &usize) -> bool {
        *state >= LAST_NUMBER
    }

    /// The numbers above the state, up to the last one.
    open spec fn yields(context: &(), state: &usize, item: &usize) -> bool {
        *state < *item <= LAST_NUMBER
    }

    /// Below the last number the state goes up by one and is handed out; from there on
    /// the state stays and the end is reported.
    open spec fn stepped(context: &(), before: &usize, after: &usize, r: &Completable<Option<usize>>) -> bool {
        if *before >= LAST_NUMBER {
            *after == *before && *r == Ok::<Option<usize>, Incomplete>(None)
        } else {
            *after == *before + 1 && *r == Ok::<Option<usize>, Incomplete>(Some(*after))
        }
    }

    fn step(context: &(), state: &mut usize) -> (r: Completable<Option<usize>>)
        ensures
            *old(state) >= LAST_NUMBER ==> r == Ok::<Option<usize>, Incomplete>(None) && *final(state) == *old(state),
            *old(state) < LAST_NUMBER ==> r == Ok::<Option<usize>, Incomplete>(Some((*old(state) + 1) as usize)) && *final(state) == *old(state) + 1,
    {
        if *state >= LAST_NUMBER {
            Ok(None)
        } else {
            *state += 1;
            Ok(Some(*state))
        }
    }
}

/// The numbers that follow `from`, up to the last one, in their order.
pub open spec fn numbers_after(from: usize) -> Seq<usize> {
    if from < LAST_NUMBER {
        Seq::new((LAST_NUMBER - from) as nat, |i: int| (from + 1 + i) as usize)
    } else {
        Seq::empty()
    }
}

/// Along a chain of steps of the gathering of numbers that starts with nothing gathered,
/// after `k` steps the next `k` numbers are gathered, in their order, and the generator
/// stands at the last of them.
pub proof fn lemma_numbers_chain(states: Seq<CollectorState<(), usize, usize, NumberStep>>, results: Seq<Completable<()>>, from: usize, k: int)
    requires
        CollectorComputation::<(), usize, usize, NumberStep>::chain(&(), states, results),
        states[0].collector@.len() == 0,
        states[0].generator.state_view() == from,
        0 <= k <= results.len(),
        forall|i: int| 0 <= i < k ==> (#[trigger] results[i] matches Err(Incomplete::Working)),
    ensures
        from + k <= LAST_NUMBER || k == 0,
        states[k].generator.state_view() == from + k,
        states[k].collector@ == Seq::new(k as nat, |i: int| (from + 1 + i) as usize),
    decreases k,
{
    if k == 0 {
        assert(states[0].collector@ =~= Seq::new(0, |i: int| (from + 1 + i) as usize));
    } else {
        lemma_numbers_chain(states, results, from, k - 1);
        let before = states[k - 1];
        let after = states[k];
        assert(<CollectorStep as crate::algorithm_trait::computation::ComputationStepAndConvert<(), CollectorState<(), usize, usize, NumberStep>, Vec<usize>, crate::algorithm_trait::Manual>>::stepped(&(), &before, &after, &results[k - 1]));
        assert(after.collector@ =~= Seq::new(k as nat, |i: int| (from + 1 + i) as usize));
    }
}

/// To gather the numbers of a generator that stands at `from` gives the numbers that
/// follow `from`, up to the last one, each once and in their order.
pub proof fn law_numbers_gathered(start: CollectorComputation<(), usize, usize, NumberStep>, from: usize, gathered: Vec<usize>)
    requires
        start.state_view() matches Some(state) && state.collector@.len() == 0 && state.generator.state_view() == from,
        start.computed(&Ok::<Vec<usize>, cancel_this::Cancelled>(gathered)),
    ensures
        gathered@ == numbers_after(from),
{
    let first = start.state_view().unwrap();
    let r = Ok::<Vec<usize>, cancel_this::Cancelled>(gathered);
    let (states, results) = choose|states: Seq<CollectorState<(), usize, usize, NumberStep>>, results: Seq<Completable<()>>| {
        &&& #[trigger] CollectorComputation::<(), usize, usize, NumberStep>::chain(&start.context_view(), states, results)
        &&& states[0] == first
        &&& results.len() > 0 && results.last() is Ok && call_ensures(<CollectorStep as crate::algorithm_trait::computation::ComputationStepAndConvert<(), CollectorState<(), usize, usize, NumberStep>, Vec<usize>, crate::algorithm_trait::Manual>>::output, (&start.context_view(), states.last()), gathered)
    };
    let n = results.len() as int;
    lemma_numbers_chain(states, results, from, n - 1);
    let before = states[n - 1];
    let after = states[n];
    assert(<CollectorStep as crate::algorithm_trait::computation::ComputationStepAndConvert<(), CollectorState<(), usize, usize, NumberStep>, Vec<usize>, crate::algorithm_trait::Manual>>::stepped(&(), &before, &after, &results[n - 1]));
    assert(gathered@ =~= numbers_after(from));
}

} // verus!
