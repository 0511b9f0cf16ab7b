//! What holds of the reachability, trap and trimming procedures, whatever the graph and the
//! configuration. Every law speaks of the sets that the procedures end with.

use crate::algorithm_trait::computation::ComputationStepAndConvert;
use crate::algorithm_trait::Algorithm;
use crate::reachability::{
    direction, ReachabilityAlgorithm, ReachabilityConfig, ReachabilityState, ReachabilityStep,
};
use crate::relation::{
    closed, component, converse, kernel, lemma_component_is_meet, lemma_converse_twice,
    lemma_greatest_empty, lemma_greatest_inside, lemma_reach_closed, lemma_reach_empty,
    lemma_reach_holds_start, lemma_reach_of_closed, lemma_trap_closed, lively, reach, sustained,
    trap,
};
use crate::algorithm_trait::generator::GeneratorStep;
use crate::algorithm_trait::Completable;
use crate::attractor::itgr::{idle_outside, lemma_listed_step, ItgrState};
use crate::attractor::xie_beerel::{attractor_item, XieBeerelState, XieBeerelStep};
use crate::attractor::AttractorConfig;
use crate::reachability::reachability_config::{all_moves, listed, moves};
use crate::relation::{
    confined, connects, intact, lemma_closed_intact, lemma_closed_keeps_paths,
    lemma_connects_in_greater, lemma_connects_join, lemma_connects_step, lemma_links_in_greater,
    links, recurrent,
};
use crate::scc::chain::{ChainState, ChainStep};
use crate::scc::components::has_other;
use crate::scc::components::{found_in, nothing_lost, reportable, reported, slice_is};
use crate::scc::fwd_bwd::{FwdBwdState, FwdBwdStep};
use crate::scc::worklist::inner;
use crate::scc::SccConfig;
use crate::symbolic::{belongs, members, ColoredVertex};
use crate::trapping::{HasPredecessorSaturation, HasSuccessorSaturation};
use crate::trimming::{IterativeSubtraction, RelativeSinks, RelativeSinksAndSources, RelativeSources};
use biodivine_lib_param_bn::symbolic_async_graph::GraphColoredVertices;
use vstd::prelude::*;

verus! {

/// Initial inclusion: what a reachability algorithm ends with, forwards or backwards, by
/// saturation or breadth first, holds the set that it started from.
pub proof fn law_reach_holds_initial<A: ReachabilityAlgorithm>(context: &ReachabilityConfig, state: &ReachabilityState, output: &GraphColoredVertices)
    requires
        context.wf(),
        belongs(state.set, context.graph),
        A::promises(context, state, output),
    ensures
        members(state.set).subset_of(members(*output)),
{
    A::reaches(context, state);
    lemma_reach_holds_start(direction(A::forward(), context.moves()), members(state.set));
}

/// Initial inclusion: the forward and the backward trap set lie in the set that the
/// procedure started from.
pub proof fn law_trap_in_initial(context: &ReachabilityConfig, state: &ReachabilityState, output: &GraphColoredVertices)
    requires
        IterativeSubtraction::<HasSuccessorSaturation>::delivers(context, state, output) || IterativeSubtraction::<HasPredecessorSaturation>::delivers(context, state, output),
    ensures
        members(*output).subset_of(members(state.set)),
{
    lemma_greatest_inside(|c: Set<ColoredVertex>| closed(context.moves(), c), members(state.set));
    lemma_greatest_inside(|c: Set<ColoredVertex>| closed(converse(context.moves()), c), members(state.set));
}

/// Empty in, empty out: from the empty set, a reachability algorithm ends with the empty
/// set.
pub proof fn law_reach_of_empty<A: ReachabilityAlgorithm>(context: &ReachabilityConfig, state: &ReachabilityState, output: &GraphColoredVertices)
    requires
        context.wf(),
        belongs(state.set, context.graph),
        members(state.set).is_empty(),
        A::promises(context, state, output),
    ensures
        members(*output).is_empty(),
{
    A::reaches(context, state);
    assert(members(state.set) =~= Set::empty());
    lemma_reach_empty(direction(A::forward(), context.moves()));
}

/// Empty in, empty out: from the empty set, the trap set procedures and the trimming
/// procedures end with the empty set.
pub proof fn law_trap_and_trim_of_empty(context: &ReachabilityConfig, state: &ReachabilityState, output: &GraphColoredVertices)
    requires
        members(state.set).is_empty(),
        ({
            ||| IterativeSubtraction::<HasSuccessorSaturation>::delivers(context, state, output)
            ||| IterativeSubtraction::<HasPredecessorSaturation>::delivers(context, state, output)
            ||| IterativeSubtraction::<RelativeSinks>::delivers(context, state, output)
            ||| IterativeSubtraction::<RelativeSources>::delivers(context, state, output)
            ||| IterativeSubtraction::<RelativeSinksAndSources>::delivers(context, state, output)
        }),
    ensures
        members(*output).is_empty(),
{
    let r = context.moves();
    assert(members(state.set) =~= Set::empty());
    lemma_greatest_empty(|c: Set<ColoredVertex>| closed(r, c));
    lemma_greatest_empty(|c: Set<ColoredVertex>| closed(converse(r), c));
    lemma_greatest_empty(|c: Set<ColoredVertex>| sustained(r, c));
    lemma_greatest_empty(|c: Set<ColoredVertex>| sustained(converse(r), c));
    lemma_greatest_empty(|c: Set<ColoredVertex>| sustained(r, c) && sustained(converse(r), c));
}

/// Closure: no step leaves what forward reachability ends with, and no step enters what
/// backward reachability ends with.
pub proof fn law_reach_closed<A: ReachabilityAlgorithm>(context: &ReachabilityConfig, state: &ReachabilityState, output: &GraphColoredVertices)
    requires
        context.wf(),
        belongs(state.set, context.graph),
        A::promises(context, state, output),
    ensures
        A::forward() ==> closed(context.moves(), members(*output)),
        !A::forward() ==> closed(converse(context.moves()), members(*output)),
{
    A::reaches(context, state);
    lemma_reach_closed(direction(A::forward(), context.moves()), members(state.set));
}

/// Closure: no step leaves the forward trap set, and no step enters the backward trap set.
pub proof fn law_trap_closed(context: &ReachabilityConfig, state: &ReachabilityState, output: &GraphColoredVertices)
    ensures
        IterativeSubtraction::<HasSuccessorSaturation>::delivers(context, state, output) ==> closed(context.moves(), members(*output)),
        IterativeSubtraction::<HasPredecessorSaturation>::delivers(context, state, output) ==> closed(converse(context.moves()), members(*output)),
{
    lemma_trap_closed(context.moves(), members(state.set));
    lemma_trap_closed(converse(context.moves()), members(state.set));
}

/// What trimming leaves: every pair that is left after the removal of sinks has a successor
/// among the pairs that are left; after the removal of sources, a predecessor; after the
/// removal of both, both.
pub proof fn law_trimmed_sustained(context: &ReachabilityConfig, state: &ReachabilityState, output: &GraphColoredVertices)
    ensures
        IterativeSubtraction::<RelativeSinks>::delivers(context, state, output) ==> sustained(context.moves(), members(*output)),
        IterativeSubtraction::<RelativeSources>::delivers(context, state, output) ==> sustained(converse(context.moves()), members(*output)),
        IterativeSubtraction::<RelativeSinksAndSources>::delivers(context, state, output) ==> sustained(context.moves(), members(*output)) && sustained(converse(context.moves()), members(*output)),
{
    crate::relation::lemma_lively_sustained(context.moves(), members(state.set));
    crate::relation::lemma_lively_sustained(converse(context.moves()), members(state.set));
    crate::relation::lemma_kernel_sustained(context.moves(), members(state.set));
}

/// Idempotence: a reachability algorithm that starts from what it ended with ends with the
/// same set.
pub proof fn law_reach_twice<A: ReachabilityAlgorithm>(context: &ReachabilityConfig, first: &ReachabilityState, between: &GraphColoredVertices, second: &ReachabilityState, output: &GraphColoredVertices)
    requires
        context.wf(),
        belongs(first.set, context.graph),
        A::promises(context, first, between),
        second.set == *between,
        A::promises(context, second, output),
    ensures
        members(*output) == members(*between),
{
    let r = direction(A::forward(), context.moves());
    A::reaches(context, first);
    A::reaches(context, second);
    lemma_reach_closed(r, members(first.set));
    lemma_reach_of_closed(r, members(*between));
}

/// Symmetry: forward reachability in a graph whose steps are those of another graph turned
/// round ends with what backward reachability ends with in the other graph.
pub proof fn law_reversed<F: ReachabilityAlgorithm, B: ReachabilityAlgorithm>(reversed: &ReachabilityConfig, context: &ReachabilityConfig, start_reversed: &ReachabilityState, start: &ReachabilityState, forward: &GraphColoredVertices, backward: &GraphColoredVertices)
    requires
        F::forward(),
        !B::forward(),
        reversed.wf(),
        context.wf(),
        reversed.moves() == converse(context.moves()),
        belongs(start_reversed.set, reversed.graph),
        belongs(start.set, context.graph),
        members(start_reversed.set) == members(start.set),
        F::promises(reversed, start_reversed, forward),
        B::promises(context, start, backward),
    ensures
        members(*forward) == members(*backward),
{
    F::reaches(reversed, start_reversed);
    B::reaches(context, start);
}

/// The component of a vertex: what it reaches forwards, cut with what it reaches
/// backwards, is the set of the vertices that lie on a common cycle with it, and itself.
pub proof fn law_component<F: ReachabilityAlgorithm, B: ReachabilityAlgorithm>(context: &ReachabilityConfig, start: &ReachabilityState, vertex: ColoredVertex, forward: &GraphColoredVertices, backward: &GraphColoredVertices)
    requires
        F::forward(),
        !B::forward(),
        context.wf(),
        belongs(start.set, context.graph),
        members(start.set) == set![vertex],
        F::promises(context, start, forward),
        B::promises(context, start, backward),
    ensures
        members(*forward).intersect(members(*backward)) == component(context.moves(), vertex),
{
    F::reaches(context, start);
    B::reaches(context, start);
    lemma_component_is_meet(context.moves(), vertex);
}

/// Agreement: two reachability algorithms of one direction, such as saturation and breadth
/// first search, end with the same set.
pub proof fn law_same_reach<A: ReachabilityAlgorithm, B: ReachabilityAlgorithm>(context: &ReachabilityConfig, start: &ReachabilityState, first: &GraphColoredVertices, second: &GraphColoredVertices)
    requires
        A::forward() == B::forward(),
        context.wf(),
        belongs(start.set, context.graph),
        A::promises(context, start, first),
        B::promises(context, start, second),
    ensures
        members(*first) == members(*second),
{
    A::reaches(context, start);
    B::reaches(context, start);
}

/// The pair `x` lies in one of the first `n` results of a search.
pub open spec fn handed_out(results: Seq<Completable<Option<GraphColoredVertices>>>, n: int, x: ColoredVertex) -> bool {
    exists|i: int| 0 <= i < n && (#[trigger] results[i] matches Ok(Some(item)) && members(item).contains(x))
}

/// A run of the forward-backward search: every state follows from the one before by one
/// step with the given result.
pub open spec fn fwd_bwd_run<FWD: ReachabilityAlgorithm, BWD: ReachabilityAlgorithm>(context: &SccConfig, states: Seq<FwdBwdState<FWD, BWD>>, results: Seq<Completable<Option<GraphColoredVertices>>>) -> bool {
    &&& states.len() == results.len() + 1
    &&& forall|i: int| 0 <= i < results.len() ==> FwdBwdStep::<FWD, BWD>::advanced(context, &states[i], &states[i + 1], &#[trigger] results[i])
}

/// A run of the chain search: every state follows from the one before by one step with the
/// given result.
pub open spec fn chain_run<FWD: ReachabilityAlgorithm, BWD: ReachabilityAlgorithm>(context: &SccConfig, states: Seq<ChainState<FWD, BWD>>, results: Seq<Completable<Option<GraphColoredVertices>>>) -> bool {
    &&& states.len() == results.len() + 1
    &&& forall|i: int| 0 <= i < results.len() ==> ChainStep::<FWD, BWD>::advanced(context, &states[i], &states[i + 1], &#[trigger] results[i])
}

/// Along a run of the forward-backward search, the base universe stays, and a pair of the
/// first region that is worth reporting lies in the region after `n` steps or was handed
/// out in one of them.
pub proof fn lemma_fwd_bwd_kept<FWD: ReachabilityAlgorithm, BWD: ReachabilityAlgorithm>(context: &SccConfig, states: Seq<FwdBwdState<FWD, BWD>>, results: Seq<Completable<Option<GraphColoredVertices>>>, n: int, x: ColoredVertex)
    requires
        fwd_bwd_run(context, states, results),
        0 <= n <= results.len(),
        states[0].region().contains(x),
        reportable(context, states[0].base@, x),
    ensures
        states[n].base == states[0].base,
        states[n].region().contains(x) || handed_out(results, n, x),
    decreases n,
{
    if n > 0 {
        lemma_fwd_bwd_kept(context, states, results, n - 1, x);
        assert(FwdBwdStep::<FWD, BWD>::advanced(context, &states[n - 1], &states[n], &results[n - 1]));
        if handed_out(results, n - 1, x) {
            let i = choose|i: int| 0 <= i < n - 1 && (#[trigger] results[i] matches Ok(Some(item)) && members(item).contains(x));
            assert(0 <= i < n);
        } else if !states[n].region().contains(x) {
            assert(results[n - 1] matches Ok(Some(item)) && members(item).contains(x));
        }
    }
}

/// Along a run of the chain search, the base universe stays, and a pair of the first
/// region that is worth reporting lies in the region after `n` steps or was handed out in
/// one of them.
pub proof fn lemma_chain_kept<FWD: ReachabilityAlgorithm, BWD: ReachabilityAlgorithm>(context: &SccConfig, states: Seq<ChainState<FWD, BWD>>, results: Seq<Completable<Option<GraphColoredVertices>>>, n: int, x: ColoredVertex)
    requires
        chain_run(context, states, results),
        0 <= n <= results.len(),
        states[0].region().contains(x),
        reportable(context, states[0].base@, x),
    ensures
        states[n].base == states[0].base,
        states[n].region().contains(x) || handed_out(results, n, x),
    decreases n,
{
    if n > 0 {
        lemma_chain_kept(context, states, results, n - 1, x);
        assert(ChainStep::<FWD, BWD>::advanced(context, &states[n - 1], &states[n], &results[n - 1]));
        if handed_out(results, n - 1, x) {
            let i = choose|i: int| 0 <= i < n - 1 && (#[trigger] results[i] matches Ok(Some(item)) && members(item).contains(x));
            assert(0 <= i < n);
        } else if !states[n].region().contains(x) {
            assert(results[n - 1] matches Ok(Some(item)) && members(item).contains(x));
        }
    }
}

/// Along a run, the base universe stays.
pub proof fn lemma_fwd_bwd_base<FWD: ReachabilityAlgorithm, BWD: ReachabilityAlgorithm>(context: &SccConfig, states: Seq<FwdBwdState<FWD, BWD>>, results: Seq<Completable<Option<GraphColoredVertices>>>, n: int)
    requires
        fwd_bwd_run(context, states, results),
        0 <= n <= results.len(),
    ensures
        states[n].base == states[0].base,
    decreases n,
{
    if n > 0 {
        lemma_fwd_bwd_base(context, states, results, n - 1);
        assert(FwdBwdStep::<FWD, BWD>::advanced(context, &states[n - 1], &states[n], &results[n - 1]));
    }
}

/// Along a run, the base universe stays.
pub proof fn lemma_chain_base<FWD: ReachabilityAlgorithm, BWD: ReachabilityAlgorithm>(context: &SccConfig, states: Seq<ChainState<FWD, BWD>>, results: Seq<Completable<Option<GraphColoredVertices>>>, n: int)
    requires
        chain_run(context, states, results),
        0 <= n <= results.len(),
    ensures
        states[n].base == states[0].base,
    decreases n,
{
    if n > 0 {
        lemma_chain_base(context, states, results, n - 1);
        assert(ChainStep::<FWD, BWD>::advanced(context, &states[n - 1], &states[n], &results[n - 1]));
    }
}

/// The forward-backward search hands out exactly the components that are worth reporting.
/// In a run from a universe to the end: every pair that is handed out is worth reporting,
/// and the pairs of its colour in its item are its component in the graph of the universe;
/// and every pair of the universe that is worth reporting is handed out.
pub proof fn law_fwd_bwd_components<FWD: ReachabilityAlgorithm, BWD: ReachabilityAlgorithm>(context: &SccConfig, states: Seq<FwdBwdState<FWD, BWD>>, results: Seq<Completable<Option<GraphColoredVertices>>>, x: ColoredVertex)
    requires
        fwd_bwd_run(context, states, results),
        results.len() > 0,
        states[0].region() == states[0].base@,
        results.last() == Ok::<Option<GraphColoredVertices>, crate::algorithm_trait::Incomplete>(None),
    ensures
        handed_out(results, results.len() as int, x) <==> states[0].base@.contains(x) && reportable(context, states[0].base@, x),
        forall|i: int| 0 <= i < results.len() ==> (#[trigger] results[i] matches Ok(Some(item)) ==> reported(context, states[0].base@, members(item))),
{
    let base = states[0].base@;
    let n = results.len() as int;
    assert forall|i: int| 0 <= i < results.len() implies (#[trigger] results[i] matches Ok(Some(item)) ==> reported(context, base, members(item)) && members(item).subset_of(base)) by {
        lemma_fwd_bwd_base(context, states, results, i);
        assert(FwdBwdStep::<FWD, BWD>::advanced(context, &states[i], &states[i + 1], &results[i]));
        lemma_fwd_bwd_regions(context, states, results, 0, i);
    }
    if handed_out(results, n, x) {
        let i = choose|i: int| 0 <= i < n && (#[trigger] results[i] matches Ok(Some(item)) && members(item).contains(x));
        assert(results[i] matches Ok(Some(item)) ==> reported(context, base, members(item)) && members(item).subset_of(base));
    }
    if base.contains(x) && reportable(context, base, x) {
        lemma_fwd_bwd_kept(context, states, results, n - 1, x);
        assert(FwdBwdStep::<FWD, BWD>::advanced(context, &states[n - 1], &states[n], &results[n - 1]));
        let last = states[n - 1];
        assert(last.to_process@.len() == 0 && last.computing is Idle);
        assert(!last.region().contains(x));
        let i = choose|i: int| 0 <= i < n - 1 && (#[trigger] results[i] matches Ok(Some(item)) && members(item).contains(x));
        assert(0 <= i < n);
    }
}

/// Along a run, the region after a later step lies in the region after an earlier one.
pub proof fn lemma_fwd_bwd_regions<FWD: ReachabilityAlgorithm, BWD: ReachabilityAlgorithm>(context: &SccConfig, states: Seq<FwdBwdState<FWD, BWD>>, results: Seq<Completable<Option<GraphColoredVertices>>>, m: int, n: int)
    requires
        fwd_bwd_run(context, states, results),
        0 <= m <= n <= results.len(),
    ensures
        states[n].region().subset_of(states[m].region()),
    decreases n - m,
{
    if m < n {
        lemma_fwd_bwd_regions(context, states, results, m, n - 1);
        assert(FwdBwdStep::<FWD, BWD>::advanced(context, &states[n - 1], &states[n], &results[n - 1]));
    }
}

/// Empty in, empty out: the forward-backward search hands out nothing when it starts with an empty region.
pub proof fn law_fwd_bwd_of_empty<FWD: ReachabilityAlgorithm, BWD: ReachabilityAlgorithm>(context: &SccConfig, states: Seq<FwdBwdState<FWD, BWD>>, results: Seq<Completable<Option<GraphColoredVertices>>>, i: int)
    requires
        fwd_bwd_run(context, states, results),
        states[0].region().is_empty(),
        0 <= i < results.len(),
    ensures
        !(results[i] matches Ok(Some(_))),
{
    lemma_fwd_bwd_regions(context, states, results, 0, i);
    assert(FwdBwdStep::<FWD, BWD>::advanced(context, &states[i], &states[i + 1], &results[i]));
    assert(states[i].region() =~= Set::empty());
    match results[i] {
        Ok(Some(item)) => {
            let x = choose|x: ColoredVertex| members(item).contains(x);
            assert(states[i].region().contains(x));
        },
        _ => {},
    }
}

/// The forward-backward search hands out no pair twice: two items of one run have no pair in
/// common.
pub proof fn law_fwd_bwd_once<FWD: ReachabilityAlgorithm, BWD: ReachabilityAlgorithm>(context: &SccConfig, states: Seq<FwdBwdState<FWD, BWD>>, results: Seq<Completable<Option<GraphColoredVertices>>>, i: int, j: int, first: GraphColoredVertices, second: GraphColoredVertices)
    requires
        fwd_bwd_run(context, states, results),
        0 <= i < j < results.len(),
        results[i] matches Ok(Some(item)) && item == first,
        results[j] matches Ok(Some(item)) && item == second,
    ensures
        members(first).disjoint(members(second)),
{
    assert(FwdBwdStep::<FWD, BWD>::advanced(context, &states[i], &states[i + 1], &results[i]));
    assert(FwdBwdStep::<FWD, BWD>::advanced(context, &states[j], &states[j + 1], &results[j]));
    lemma_fwd_bwd_regions(context, states, results, i + 1, j);
    assert(members(second).subset_of(states[j].region()));
}

/// Along a run, the region after a later step lies in the region after an earlier one.
pub proof fn lemma_chain_regions<FWD: ReachabilityAlgorithm, BWD: ReachabilityAlgorithm>(context: &SccConfig, states: Seq<ChainState<FWD, BWD>>, results: Seq<Completable<Option<GraphColoredVertices>>>, m: int, n: int)
    requires
        chain_run(context, states, results),
        0 <= m <= n <= results.len(),
    ensures
        states[n].region().subset_of(states[m].region()),
    decreases n - m,
{
    if m < n {
        lemma_chain_regions(context, states, results, m, n - 1);
        assert(ChainStep::<FWD, BWD>::advanced(context, &states[n - 1], &states[n], &results[n - 1]));
    }
}

/// Empty in, empty out: the chain search hands out nothing when it starts with an empty region.
pub proof fn law_chain_of_empty<FWD: ReachabilityAlgorithm, BWD: ReachabilityAlgorithm>(context: &SccConfig, states: Seq<ChainState<FWD, BWD>>, results: Seq<Completable<Option<GraphColoredVertices>>>, i: int)
    requires
        chain_run(context, states, results),
        states[0].region().is_empty(),
        0 <= i < results.len(),
    ensures
        !(results[i] matches Ok(Some(_))),
{
    lemma_chain_regions(context, states, results, 0, i);
    assert(ChainStep::<FWD, BWD>::advanced(context, &states[i], &states[i + 1], &results[i]));
    assert(states[i].region() =~= Set::empty());
    match results[i] {
        Ok(Some(item)) => {
            let x = choose|x: ColoredVertex| members(item).contains(x);
            assert(states[i].region().contains(x));
        },
        _ => {},
    }
}

/// The chain search hands out no pair twice: two items of one run have no pair in
/// common.
pub proof fn law_chain_once<FWD: ReachabilityAlgorithm, BWD: ReachabilityAlgorithm>(context: &SccConfig, states: Seq<ChainState<FWD, BWD>>, results: Seq<Completable<Option<GraphColoredVertices>>>, i: int, j: int, first: GraphColoredVertices, second: GraphColoredVertices)
    requires
        chain_run(context, states, results),
        0 <= i < j < results.len(),
        results[i] matches Ok(Some(item)) && item == first,
        results[j] matches Ok(Some(item)) && item == second,
    ensures
        members(first).disjoint(members(second)),
{
    assert(ChainStep::<FWD, BWD>::advanced(context, &states[i], &states[i + 1], &results[i]));
    assert(ChainStep::<FWD, BWD>::advanced(context, &states[j], &states[j + 1], &results[j]));
    lemma_chain_regions(context, states, results, i + 1, j);
    assert(members(second).subset_of(states[j].region()));
}

/// The chain search hands out exactly the components that are worth reporting. In a run
/// from a universe to the end: every pair that is handed out is worth reporting, and the
/// pairs of its colour in its item are its component in the graph of the universe; and
/// every pair of the universe that is worth reporting is handed out.
pub proof fn law_chain_components<FWD: ReachabilityAlgorithm, BWD: ReachabilityAlgorithm>(context: &SccConfig, states: Seq<ChainState<FWD, BWD>>, results: Seq<Completable<Option<GraphColoredVertices>>>, x: ColoredVertex)
    requires
        chain_run(context, states, results),
        results.len() > 0,
        states[0].region() == states[0].base@,
        results.last() == Ok::<Option<GraphColoredVertices>, crate::algorithm_trait::Incomplete>(None),
    ensures
        handed_out(results, results.len() as int, x) <==> states[0].base@.contains(x) && reportable(context, states[0].base@, x),
        forall|i: int| 0 <= i < results.len() ==> (#[trigger] results[i] matches Ok(Some(item)) ==> reported(context, states[0].base@, members(item))),
{
    let base = states[0].base@;
    let n = results.len() as int;
    assert forall|i: int| 0 <= i < results.len() implies (#[trigger] results[i] matches Ok(Some(item)) ==> reported(context, base, members(item)) && members(item).subset_of(base)) by {
        lemma_chain_base(context, states, results, i);
        assert(ChainStep::<FWD, BWD>::advanced(context, &states[i], &states[i + 1], &results[i]));
        lemma_chain_regions(context, states, results, 0, i);
    }
    if handed_out(results, n, x) {
        let i = choose|i: int| 0 <= i < n && (#[trigger] results[i] matches Ok(Some(item)) && members(item).contains(x));
        assert(results[i] matches Ok(Some(item)) ==> reported(context, base, members(item)) && members(item).subset_of(base));
    }
    if base.contains(x) && reportable(context, base, x) {
        lemma_chain_kept(context, states, results, n - 1, x);
        assert(ChainStep::<FWD, BWD>::advanced(context, &states[n - 1], &states[n], &results[n - 1]));
        let last = states[n - 1];
        assert(last.to_process@.len() == 0 && last.computing is Idle);
        assert(!last.region().contains(x));
        let i = choose|i: int| 0 <= i < n - 1 && (#[trigger] results[i] matches Ok(Some(item)) && members(item).contains(x));
        assert(0 <= i < n);
    }
}

/// Agreement: the forward-backward search and the chain search, run to the end from one
/// universe under one configuration, hand out the same pairs, and each hands out, with a
/// pair, the component of the pair among the pairs of its colour.
pub proof fn law_same_components<F1: ReachabilityAlgorithm, B1: ReachabilityAlgorithm, F2: ReachabilityAlgorithm, B2: ReachabilityAlgorithm>(context: &SccConfig, states: Seq<FwdBwdState<F1, B1>>, results: Seq<Completable<Option<GraphColoredVertices>>>, chain_states: Seq<ChainState<F2, B2>>, chain_results: Seq<Completable<Option<GraphColoredVertices>>>, x: ColoredVertex)
    requires
        fwd_bwd_run(context, states, results),
        chain_run(context, chain_states, chain_results),
        results.len() > 0,
        chain_results.len() > 0,
        states[0].region() == states[0].base@,
        chain_states[0].region() == chain_states[0].base@,
        states[0].base@ == chain_states[0].base@,
        results.last() == Ok::<Option<GraphColoredVertices>, crate::algorithm_trait::Incomplete>(None),
        chain_results.last() == Ok::<Option<GraphColoredVertices>, crate::algorithm_trait::Incomplete>(None),
    ensures
        handed_out(results, results.len() as int, x) <==> handed_out(chain_results, chain_results.len() as int, x),
{
    law_fwd_bwd_components(context, states, results, x);
    law_chain_components(context, chain_states, chain_results, x);
}

/// A run of the attractor search: every state follows from the one before by one step with
/// the given result.
pub open spec fn attractor_run(context: &AttractorConfig, states: Seq<XieBeerelState>, results: Seq<Completable<Option<GraphColoredVertices>>>) -> bool {
    &&& states.len() == results.len() + 1
    &&& forall|i: int| 0 <= i < results.len() ==> XieBeerelStep::advanced(context, &states[i], &states[i + 1], &#[trigger] results[i])
}

/// Along a run of the attractor search from an intact set, what remains is intact and lies
/// in what remained first, and a recurrent pair of the first set still remains after `n`
/// steps or was handed out in one of them.
pub proof fn lemma_attractors_kept(context: &AttractorConfig, states: Seq<XieBeerelState>, results: Seq<Completable<Option<GraphColoredVertices>>>, n: int, x: ColoredVertex)
    requires
        attractor_run(context, states, results),
        0 <= n <= results.len(),
        intact(context.moves(), members(states[0].remaining)),
    ensures
        intact(context.moves(), members(states[n].remaining)),
        members(states[n].remaining).subset_of(members(states[0].remaining)),
        members(states[0].remaining).contains(x) && recurrent(context.moves(), x) ==> members(states[n].remaining).contains(x) || handed_out(results, n, x),
    decreases n,
{
    if n > 0 {
        lemma_attractors_kept(context, states, results, n - 1, x);
        assert(XieBeerelStep::advanced(context, &states[n - 1], &states[n], &results[n - 1]));
        if members(states[0].remaining).contains(x) && recurrent(context.moves(), x) {
            if handed_out(results, n - 1, x) {
                let i = choose|i: int| 0 <= i < n - 1 && (#[trigger] results[i] matches Ok(Some(item)) && members(item).contains(x));
                assert(0 <= i < n);
            } else if !members(states[n].remaining).contains(x) {
                assert(results[n - 1] matches Ok(Some(item)) && members(item).contains(x));
            }
        }
    }
}

/// Along a run of the attractor search, what remains after a later step lies in what
/// remained after an earlier one.
pub proof fn lemma_attractors_remaining(context: &AttractorConfig, states: Seq<XieBeerelState>, results: Seq<Completable<Option<GraphColoredVertices>>>, m: int, n: int)
    requires
        attractor_run(context, states, results),
        0 <= m <= n <= results.len(),
    ensures
        members(states[n].remaining).subset_of(members(states[m].remaining)),
    decreases n - m,
{
    if m < n {
        lemma_attractors_remaining(context, states, results, m, n - 1);
        assert(XieBeerelStep::advanced(context, &states[n - 1], &states[n], &results[n - 1]));
    }
}

/// Empty in, empty out: the attractor search hands out nothing when nothing remains at its
/// start.
pub proof fn law_attractors_of_empty(context: &AttractorConfig, states: Seq<XieBeerelState>, results: Seq<Completable<Option<GraphColoredVertices>>>, i: int)
    requires
        attractor_run(context, states, results),
        members(states[0].remaining).is_empty(),
        0 <= i < results.len(),
    ensures
        !(results[i] matches Ok(Some(_))),
{
    lemma_attractors_remaining(context, states, results, 0, i);
    assert(XieBeerelStep::advanced(context, &states[i], &states[i + 1], &results[i]));
    assert(members(states[i].remaining) =~= Set::empty());
    match results[i] {
        Ok(Some(item)) => {
            let x = choose|x: ColoredVertex| members(item).contains(x);
            assert(members(states[i].remaining).contains(x));
        },
        _ => {},
    }
}

/// The attractor search hands out no pair twice: two items of one run have no pair in
/// common.
pub proof fn law_attractors_once(context: &AttractorConfig, states: Seq<XieBeerelState>, results: Seq<Completable<Option<GraphColoredVertices>>>, i: int, j: int, first: GraphColoredVertices, second: GraphColoredVertices)
    requires
        attractor_run(context, states, results),
        0 <= i < j < results.len(),
        results[i] matches Ok(Some(item)) && item == first,
        results[j] matches Ok(Some(item)) && item == second,
    ensures
        members(first).disjoint(members(second)),
{
    assert(XieBeerelStep::advanced(context, &states[i], &states[i + 1], &results[i]));
    assert(XieBeerelStep::advanced(context, &states[j], &states[j + 1], &results[j]));
    lemma_attractors_remaining(context, states, results, i + 1, j);
    assert(members(second).subset_of(members(states[j].remaining)));
}

/// The attractor search hands out exactly the attractors. In a run to the end from a set
/// that is intact, say because no step leaves it: every item is made up of attractors, and
/// a pair is handed out exactly if it lies in the set and is recurrent.
pub proof fn law_attractors(context: &AttractorConfig, states: Seq<XieBeerelState>, results: Seq<Completable<Option<GraphColoredVertices>>>, x: ColoredVertex)
    requires
        attractor_run(context, states, results),
        results.len() > 0,
        intact(context.moves(), members(states[0].remaining)),
        results.last() == Ok::<Option<GraphColoredVertices>, crate::algorithm_trait::Incomplete>(None),
    ensures
        handed_out(results, results.len() as int, x) <==> members(states[0].remaining).contains(x) && recurrent(context.moves(), x),
        forall|i: int| 0 <= i < results.len() ==> (#[trigger] results[i] matches Ok(Some(item)) ==> attractor_item(context.moves(), members(item))),
{
    let n = results.len() as int;
    assert forall|i: int| 0 <= i < results.len() implies (#[trigger] results[i] matches Ok(Some(item)) ==> attractor_item(context.moves(), members(item)) && members(item).subset_of(members(states[0].remaining))) by {
        lemma_attractors_kept(context, states, results, i, x);
        assert(XieBeerelStep::advanced(context, &states[i], &states[i + 1], &results[i]));
    }
    if handed_out(results, n, x) {
        let i = choose|i: int| 0 <= i < n && (#[trigger] results[i] matches Ok(Some(item)) && members(item).contains(x));
        assert(results[i] matches Ok(Some(item)) ==> attractor_item(context.moves(), members(item)) && members(item).subset_of(members(states[0].remaining)));
    }
    if members(states[0].remaining).contains(x) && recurrent(context.moves(), x) {
        lemma_attractors_kept(context, states, results, n - 1, x);
        assert(XieBeerelStep::advanced(context, &states[n - 1], &states[n], &results[n - 1]));
        assert(members(states[n - 1].remaining).is_empty());
        assert(!members(states[n - 1].remaining).contains(x));
        let i = choose|i: int| 0 <= i < n - 1 && (#[trigger] results[i] matches Ok(Some(item)) && members(item).contains(x));
        assert(0 <= i < n);
    }
}

/// The attractors of a graph: in a run to the end of the attractor search from the unit set
/// of a graph, under a configuration that no step leads out of that set, a pair is handed
/// out exactly if it lies in the unit set and is recurrent, and every item is made up of
/// attractors. [`AttractorConfig::within_unit`] makes such a configuration of any graph.
pub proof fn law_attractors_of_graph(context: &AttractorConfig, states: Seq<XieBeerelState>, results: Seq<Completable<Option<GraphColoredVertices>>>, x: ColoredVertex)
    requires
        attractor_run(context, states, results),
        results.len() > 0,
        results.last() == Ok::<Option<GraphColoredVertices>, crate::algorithm_trait::Incomplete>(None),
        members(states[0].remaining) == crate::symbolic::unit_members(context.graph),
        closed(context.moves(), crate::symbolic::unit_members(context.graph)),
    ensures
        handed_out(results, results.len() as int, x) <==> crate::symbolic::unit_members(context.graph).contains(x) && recurrent(context.moves(), x),
        forall|i: int| 0 <= i < results.len() ==> (#[trigger] results[i] matches Ok(Some(item)) ==> attractor_item(context.moves(), members(item))),
{
    lemma_closed_intact(context.moves(), members(states[0].remaining));
    law_attractors(context, states, results, x);
}

/// A path from a closed set is a path of every relation that has the steps of the first
/// within the set.
pub proof fn lemma_path_agrees(r1: Set<(ColoredVertex, ColoredVertex)>, r2: Set<(ColoredVertex, ColoredVertex)>, s: Set<ColoredVertex>, a: ColoredVertex, b: ColoredVertex, k: nat)
    requires
        closed(r1, s),
        confined(r1, s).subset_of(r2),
        s.contains(a),
        links(r1, a, b, k),
    ensures
        links(r2, a, b, k),
        s.contains(b),
    decreases k,
{
    if k > 0 {
        let m = choose|m: ColoredVertex| links(r1, a, m, (k - 1) as nat) && #[trigger] r1.contains((m, b));
        lemma_path_agrees(r1, r2, s, a, m, (k - 1) as nat);
        assert(confined(r1, s).contains((m, b)));
    }
}

/// Two relations that have the same steps within a set that is closed under both connect
/// the same pairs from the set, and have the same recurrent pairs in it.
pub proof fn lemma_agree_within(r1: Set<(ColoredVertex, ColoredVertex)>, r2: Set<(ColoredVertex, ColoredVertex)>, s: Set<ColoredVertex>)
    requires
        closed(r1, s),
        closed(r2, s),
        confined(r1, s) == confined(r2, s),
    ensures
        forall|x: ColoredVertex, y: ColoredVertex| s.contains(x) ==> (#[trigger] connects(r1, x, y) <==> #[trigger] connects(r2, x, y)),
        forall|x: ColoredVertex| s.contains(x) ==> (#[trigger] recurrent(r1, x) <==> #[trigger] recurrent(r2, x)),
{
    assert(confined(r1, s).subset_of(r2));
    assert(confined(r2, s).subset_of(r1));
    assert forall|x: ColoredVertex, y: ColoredVertex| s.contains(x) implies (#[trigger] connects(r1, x, y) <==> #[trigger] connects(r2, x, y)) by {
        if connects(r1, x, y) {
            let k = choose|k: nat| links(r1, x, y, k);
            lemma_path_agrees(r1, r2, s, x, y, k);
        }
        if connects(r2, x, y) {
            let k = choose|k: nat| links(r2, x, y, k);
            lemma_path_agrees(r2, r1, s, x, y, k);
        }
    }
    assert forall|x: ColoredVertex| s.contains(x) implies (#[trigger] recurrent(r1, x) <==> #[trigger] recurrent(r2, x)) by {
        if recurrent(r1, x) {
            assert forall|y: ColoredVertex| #[trigger] connects(r2, x, y) implies connects(r2, y, x) by {
                assert(connects(r1, x, y));
                let k = choose|k: nat| links(r1, x, y, k);
                lemma_closed_keeps_paths(r1, s, x, y, k);
                assert(connects(r1, y, x));
            }
        }
        if recurrent(r2, x) {
            assert forall|y: ColoredVertex| #[trigger] connects(r1, x, y) implies connects(r1, y, x) by {
                assert(connects(r2, x, y));
                let k = choose|k: nat| links(r2, x, y, k);
                lemma_closed_keeps_paths(r2, s, x, y, k);
                assert(connects(r2, y, x));
            }
        }
    }
}

/// What the reduction leaves: within it, the active variables have all the steps of the
/// graph.
pub proof fn law_reduced_steps(context: &AttractorConfig, state: &ItgrState)
    requires
        state.wf(context.graph),
        state.sound(context.graph),
    ensures
        confined(moves(context.graph, listed(state.remaining_reachability.variables@)), members(state.remaining_set)) == confined(all_moves(context.graph), members(state.remaining_set)),
{
    let s = members(state.remaining_set);
    let act = moves(context.graph, listed(state.remaining_reachability.variables@));
    let all = all_moves(context.graph);
    assert forall|p: (ColoredVertex, ColoredVertex)| confined(all, s).contains(p) implies confined(act, s).contains(p) by {
        lemma_listed_step(context.graph, state.remaining_reachability.variables@, s, p.0, p.1);
    }
    assert forall|p: (ColoredVertex, ColoredVertex)| confined(act, s).contains(p) implies confined(all, s).contains(p) by {
        let v = choose|v: nat| listed(state.remaining_reachability.variables@).contains(v) && #[trigger] crate::symbolic::has_step(context.graph, v, p.0, p.1);
        let j = choose|j: int| 0 <= j < state.remaining_reachability.variables@.len() && #[trigger] state.remaining_reachability.variables@[j] == v;
        assert(crate::reachability::reachability_config::all_below(crate::symbolic::variable_count(context.graph)).contains(v));
    }
    assert(confined(act, s) =~= confined(all, s));
}

/// The configuration that the reduction leads to: one whose graph is the graph of the search
/// restricted to what the reduction left, with the variables that are still active. Its
/// moves are the steps of the graph within what is left, no step leaves what is left, and
/// what is left holds every recurrent pair of the universe that the reduction started
/// from. So the attractor search under it meets what
/// [`law_reduction_keeps_attractors`] asks of the reduced search.
pub proof fn law_reduced_configuration(context: &AttractorConfig, state: &ItgrState, reduced: &AttractorConfig)
    requires
        state.wf(context.graph),
        state.sound(context.graph),
        crate::symbolic::steps(reduced.graph) == crate::symbolic::steps_within(context.graph, members(state.remaining_set)),
        listed(reduced.active_variables@) == listed(state.remaining_reachability.variables@),
    ensures
        reduced.moves() == confined(all_moves(context.graph), members(state.remaining_set)),
        confined(reduced.moves(), members(state.remaining_set)) == confined(all_moves(context.graph), members(state.remaining_set)),
        closed(reduced.moves(), members(state.remaining_set)),
{
    let s = members(state.remaining_set);
    law_reduced_steps(context, state);
    crate::reachability::reachability_config::lemma_moves_of_restricted(context.graph, reduced.graph, listed(reduced.active_variables@), s);
    assert(confined(reduced.moves(), s) =~= reduced.moves());
}

/// Agreement: the attractor search on a universe that no step leaves, and the attractor
/// search on a part of the universe that no step leaves and that holds every recurrent
/// pair of the universe, under steps that are the same within the part, hand out the same
/// pairs. The reduction delivers such a part, and its active variables give such steps.
pub proof fn law_reduction_keeps_attractors(context: &AttractorConfig, states: Seq<XieBeerelState>, results: Seq<Completable<Option<GraphColoredVertices>>>, reduced_context: &AttractorConfig, reduced_states: Seq<XieBeerelState>, reduced_results: Seq<Completable<Option<GraphColoredVertices>>>, x: ColoredVertex)
    requires
        attractor_run(context, states, results),
        attractor_run(reduced_context, reduced_states, reduced_results),
        results.len() > 0,
        reduced_results.len() > 0,
        results.last() == Ok::<Option<GraphColoredVertices>, crate::algorithm_trait::Incomplete>(None),
        reduced_results.last() == Ok::<Option<GraphColoredVertices>, crate::algorithm_trait::Incomplete>(None),
        closed(context.moves(), members(states[0].remaining)),
        members(reduced_states[0].remaining).subset_of(members(states[0].remaining)),
        closed(context.moves(), members(reduced_states[0].remaining)),
        closed(reduced_context.moves(), members(reduced_states[0].remaining)),
        confined(reduced_context.moves(), members(reduced_states[0].remaining)) == confined(context.moves(), members(reduced_states[0].remaining)),
        forall|y: ColoredVertex| members(states[0].remaining).contains(y) && #[trigger] recurrent(context.moves(), y) ==> members(reduced_states[0].remaining).contains(y),
    ensures
        handed_out(results, results.len() as int, x) <==> handed_out(reduced_results, reduced_results.len() as int, x),
{
    let s = members(reduced_states[0].remaining);
    lemma_closed_intact(context.moves(), members(states[0].remaining));
    lemma_closed_intact(reduced_context.moves(), s);
    law_attractors(context, states, results, x);
    law_attractors(reduced_context, reduced_states, reduced_results, x);
    lemma_agree_within(context.moves(), reduced_context.moves(), s);
}

/// In a universe that no step leaves, a pair is recurrent exactly if no step leaves its
/// component.
pub proof fn lemma_bottom_component(r: Set<(ColoredVertex, ColoredVertex)>, u: Set<ColoredVertex>, x: ColoredVertex)
    requires
        closed(r, u),
        u.contains(x),
    ensures
        recurrent(r, x) <==> closed(r, component(confined(r, u), x)),
{
    let c = confined(r, u);
    assert(c.subset_of(r));
    let own = component(c, x);
    assert(closed(c, u));
    assert(confined(r, u) == confined(c, u)) by {
        assert(confined(r, u) =~= confined(c, u));
    }
    lemma_agree_within(r, c, u);
    crate::relation::lemma_connects_self(c, x);
    if recurrent(r, x) {
        assert forall|a: ColoredVertex, b: ColoredVertex| own.contains(a) && #[trigger] r.contains((a, b)) implies own.contains(b) by {
            lemma_connects_step(r, a, b);
            assert(connects(r, x, a));
            lemma_connects_join(r, x, a, b);
            assert(connects(r, b, x));
            let k = choose|k: nat| links(r, x, b, k);
            lemma_closed_keeps_paths(r, u, x, b, k);
            assert(connects(c, x, b));
            assert(connects(c, b, x));
        }
    }
    if closed(r, own) {
        assert forall|y: ColoredVertex| #[trigger] connects(r, x, y) implies connects(r, y, x) by {
            let k = choose|k: nat| links(r, x, y, k);
            lemma_closed_keeps_paths(r, own, x, y, k);
            assert(connects(c, y, x));
            lemma_connects_in_greater(c, r, y, x);
        }
    }
}

/// Agreement: among the pairs that the forward-backward search without the long-lived
/// filter hands out, those whose component no step leaves are the pairs that the attractor
/// search over all variables hands out and that have a companion in their component.
/// Both searches run to the end from one universe that no step of the graph leaves.
pub proof fn law_attractors_among_components<F: ReachabilityAlgorithm, B: ReachabilityAlgorithm>(scc_context: &SccConfig, scc_states: Seq<FwdBwdState<F, B>>, scc_results: Seq<Completable<Option<GraphColoredVertices>>>, context: &AttractorConfig, states: Seq<XieBeerelState>, results: Seq<Completable<Option<GraphColoredVertices>>>, x: ColoredVertex)
    requires
        fwd_bwd_run(scc_context, scc_states, scc_results),
        attractor_run(context, states, results),
        scc_results.len() > 0,
        results.len() > 0,
        scc_results.last() == Ok::<Option<GraphColoredVertices>, crate::algorithm_trait::Incomplete>(None),
        results.last() == Ok::<Option<GraphColoredVertices>, crate::algorithm_trait::Incomplete>(None),
        !scc_context.filter_long_lived,
        scc_context.graph == context.graph,
        context.moves() == all_moves(context.graph),
        scc_states[0].region() == scc_states[0].base@,
        scc_states[0].base@ == members(states[0].remaining),
        closed(all_moves(context.graph), members(states[0].remaining)),
    ensures
        handed_out(scc_results, scc_results.len() as int, x) && closed(all_moves(context.graph), component(inner(context.graph, scc_states[0].base@), x)) <==> handed_out(results, results.len() as int, x) && has_other(component(inner(context.graph, scc_states[0].base@), x), x),
{
    let base = scc_states[0].base@;
    let r = all_moves(context.graph);
    law_fwd_bwd_components(scc_context, scc_states, scc_results, x);
    lemma_closed_intact(r, base);
    law_attractors(context, states, results, x);
    crate::scc::components::lemma_inner_confined(context.graph, base, base);
    if base.contains(x) {
        lemma_bottom_component(r, base, x);
    }
}

} // verus!
