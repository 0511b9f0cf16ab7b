//! The procedure that adds what a round finds until a round finds nothing.

use crate::algorithm_trait::computation::ComputationStepAndConvert;
use crate::algorithm_trait::{Completable, Incomplete};
use crate::cancellation::{cancelled_because, cause_of, Cancellable};
use crate::reachability::{ReachabilityConfig, ReachabilityState, ReachabilityStep};
use crate::symbolic::{belongs, is_empty, members, node_count, symbolic_size, union, ColoredVertex};
use biodivine_lib_param_bn::symbolic_async_graph::GraphColoredVertices;
use core::marker::PhantomData;
use vstd::prelude::*;

verus! {

/// The number of iterations that the budget of the context still allows.
pub open spec fn iterations_left(context: &ReachabilityConfig, state: &ReachabilityState) -> nat {
    if state.iteration < context.max_iterations {
        (context.max_iterations - state.iteration) as nat
    } else {
        0
    }
}

/// Repeats the rounds of `S`, adding what each round finds to the set of the state.
pub struct IterativeUnion<S: ReachabilityStep>(pub PhantomData<S>);

impl<S: ReachabilityStep> IterativeUnion<S> {
    /// Take in what a round has come up with. A cancelled round is handed on. An empty
    /// find ends the procedure. Any other find is added to the set, and the procedure goes
    /// on unless the set has grown beyond the budget of the context.
    pub fn absorb(context: &ReachabilityConfig, state: &mut ReachabilityState, found: Cancellable<GraphColoredVertices>) -> (r: Completable<()>)
        requires
            belongs(old(state).set, context.graph),
            found matches Ok(set) ==> belongs(set, context.graph),
        ensures
            final(state).iteration == old(state).iteration,
            belongs(final(state).set, context.graph),
            match found {
                Err(cancelled) => *final(state) == *old(state) && r == Err::<(), Incomplete>(Incomplete::Cancelled(cancelled)),
                Ok(set) => if members(set).is_empty() {
                    *final(state) == *old(state) && r is Ok
                } else {
                    &&& members(final(state).set) == members(old(state).set).union(members(set))
                    &&& if node_count(final(state).set) > context.max_symbolic_size {
                        r matches Err(Incomplete::Cancelled(cancelled)) && cause_of(cancelled) == "max_symbolic_size"@
                    } else {
                        r == Err::<(), Incomplete>(Incomplete::Working)
                    }
                },
            },
    {
        match found {
            Err(cancelled) => Err(Incomplete::Cancelled(cancelled)),
            Ok(to_union) => {
                if is_empty(&to_union) {
                    Ok(())
                } else {
                    state.set = union(&state.set, &to_union);
                    if symbolic_size(&state.set) > context.max_symbolic_size {
                        return Err(Incomplete::Cancelled(cancelled_because("max_symbolic_size")));
                    }
                    Err(Incomplete::Working)
                }
            },
        }
    }
}

impl<S: ReachabilityStep> ComputationStepAndConvert<ReachabilityConfig, ReachabilityState, GraphColoredVertices> for IterativeUnion<S> {
    open spec fn valid(context: &ReachabilityConfig, state: &ReachabilityState) -> bool {
        context.wf() && belongs(state.set, context.graph)
    }

    open spec fn fuel(context: &ReachabilityConfig, state: &ReachabilityState) -> nat {
        iterations_left(context, state)
    }

    open spec fn settled(context: &ReachabilityConfig, state: &ReachabilityState) -> bool {
        S::found(context, members(state.set)).is_empty()
    }

    open spec fn delivers(context: &ReachabilityConfig, state: &ReachabilityState, output: &GraphColoredVertices) -> bool {
        belongs(*output, context.graph) && members(*output) == S::limit(context, members(state.set))
    }

    /// With the budget of iterations used up, the state stays and the step is cancelled
    /// for that reason. Else the iteration is counted; a round that finds nothing ends the
    /// procedure and leaves the set; where the answer is `Working`, the round found
    /// something, and the set is the union of the set before and what was found.
    open spec fn stepped(context: &ReachabilityConfig, before: &ReachabilityState, after: &ReachabilityState, r: &Completable<()>) -> bool {
        let found = S::found(context, members(before.set));
        if before.iteration >= context.max_iterations {
            *after == *before && (*r matches Err(Incomplete::Cancelled(cancelled)) && cause_of(cancelled) == "max_iterations"@)
        } else {
            &&& after.iteration == before.iteration + 1
            &&& *r is Ok ==> after.set == before.set
            &&& *r == Err::<(), Incomplete>(Incomplete::Working) ==> members(after.set) == members(before.set).union(found) && !found.is_empty()
        }
    }

    /// One iteration: cancelled where the iteration budget is used up, else one round of `S`
    /// whose find is taken in by [`IterativeUnion::absorb`].
    fn step(context: &ReachabilityConfig, state: &mut ReachabilityState) -> (r: Completable<()>)
        ensures
            old(state).iteration >= context.max_iterations ==> *final(state) == *old(state) && (r matches Err(Incomplete::Cancelled(cancelled)) && cause_of(cancelled) == "max_iterations"@),
            old(state).iteration < context.max_iterations ==> final(state).iteration == old(state).iteration + 1,
            r is Ok ==> final(state).set == old(state).set,
            r == Err::<(), Incomplete>(Incomplete::Working) ==> members(final(state).set) == members(old(state).set).union(S::found(context, members(old(state).set))) && !S::found(context, members(old(state).set)).is_empty(),
            members(old(state).set).subset_of(members(final(state).set)),
            S::limit(context, members(final(state).set)) == S::limit(context, members(old(state).set)),
    {
        if state.iteration >= context.max_iterations {
            return Err(Incomplete::Cancelled(cancelled_because("max_iterations")));
        } else {
            state.iteration += 1;
        }
        proof {
            S::limit_kept(context, members(state.set));
        }
        let found = S::step(context, &state.set);
        Self::absorb(context, state, found)
    }

    fn output(context: &ReachabilityConfig, state: ReachabilityState) -> (o: GraphColoredVertices)
        ensures
            o == state.set,
    {
        proof {
            S::limit_kept(context, members(state.set));
        }
        state.set
    }
}

} // verus!
