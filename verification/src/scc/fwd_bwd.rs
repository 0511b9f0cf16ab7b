//! The forward-backward search for strongly connected components.
//!
//! A universe is taken from the worklist and trimmed. A pivot is picked in what is left,
//! one vertex for every colour. What the pivot reaches and what reaches the pivot, within
//! the universe, meet in the component of the pivot. The rest of the universe falls into
//! three parts that no component straddles; they go back to the worklist.

use crate::algorithm_trait::generator::GeneratorStep;
use crate::algorithm_trait::{Completable, Incomplete};
use crate::reachability::{direction, ReachabilityAlgorithm, ReachabilityConfig, ReachabilityState};
use crate::relation::{converse, reach};
use crate::scc::worklist::{
    entry_weight, inner, lemma_rank_less, lemma_reach_inside, lemma_restricted_moves,
    apart, lemma_apart_pop, lemma_apart_push, lemma_three_parts, lemma_total_pop,
    lemma_total_push, meet, rank, stride, total_weight, union_all, with_part,
};
use crate::relation::whole;
use crate::scc::components::{
    found_in, lemma_filter_keeps_reportable, lemma_lasting, lemma_meet_by_color, lemma_parts,
    lemma_trimming, nothing_lost,
};
use crate::scc::{filter_scc, filtered, SccConfig};
use crate::space::{lemma_fits_finite, lemma_smaller};
use crate::symbolic::{
    belongs, clone_set, fits, graph_encoding, intersect, is_empty, members, minus,
    mk_empty_colored_vertices, mk_unit_colored_vertices, pick_vertex,
    picks_one_vertex_per_color, restrict, ColoredVertex,
};
use crate::trimming::{lemma_trimmed_inside, trimmed, TrimComputation};
use biodivine_lib_param_bn::symbolic_async_graph::{GraphColoredVertices, SymbolicAsyncGraph};
use core::marker::PhantomData;
use vstd::prelude::*;
use vstd::std_specs::convert::FromSpecImpl;

verus! {

/// The state of the forward-backward search: what is being computed, and the universes
/// that wait to be searched.
pub struct FwdBwdState<FWD: ReachabilityAlgorithm, BWD: ReachabilityAlgorithm> {
    pub computing: Step<FWD, BWD>,
    pub to_process: Vec<GraphColoredVertices>,
    /// The universe that the search started from.
    pub base: Ghost<Set<ColoredVertex>>,
}

/// The step operator of the forward-backward search, over a forward and a backward
/// reachability algorithm.
pub struct FwdBwdStep<FWD: ReachabilityAlgorithm, BWD: ReachabilityAlgorithm> {
    pub _phantom: PhantomData<(FWD, BWD)>,
}

/// What the search is computing.
pub enum Step<FWD: ReachabilityAlgorithm, BWD: ReachabilityAlgorithm> {
    /// Nothing: the next universe is to be taken from the worklist.
    Idle,
    /// The universe is being trimmed.
    Trimming(Step1),
    /// What reaches the pivot is being computed.
    Backward(Step2<BWD>),
    /// What the pivot reaches is being computed.
    Forward(Step3<FWD>),
}

/// A universe that is being trimmed.
pub struct Step1 {
    pub universe: TrimComputation,
    /// What trimming leaves of the universe.
    pub target: Ghost<Set<ColoredVertex>>,
}

/// A trimmed universe, its pivot, and the computation of what reaches the pivot.
pub struct Step2<BWD: ReachabilityAlgorithm> {
    pub pivot: GraphColoredVertices,
    pub universe: GraphColoredVertices,
    pub backward: BWD,
}

/// A trimmed universe, what reaches its pivot, and the computation of what the pivot reaches.
pub struct Step3<FWD: ReachabilityAlgorithm> {
    pub universe: GraphColoredVertices,
    pub backward: GraphColoredVertices,
    pub forward: FWD,
    /// The pivots that the backward set was computed for.
    pub pivot: Ghost<Set<ColoredVertex>>,
}

/// The outcome of the search of one universe.
pub struct IterationResult {
    pub universe: GraphColoredVertices,
    pub forward: GraphColoredVertices,
    pub backward: GraphColoredVertices,
    pub scc: Option<GraphColoredVertices>,
}

/// The sets of a list of symbolic sets.
pub open spec fn sets_of(list: Seq<GraphColoredVertices>) -> Seq<Set<ColoredVertex>> {
    Seq::new(list.len(), |i: int| members(list[i]))
}

/// Every symbolic set of the list belongs to the graph.
pub open spec fn all_belong(list: Seq<GraphColoredVertices>, graph: SymbolicAsyncGraph) -> bool {
    forall|i: int| 0 <= i < list.len() ==> belongs(#[trigger] list[i], graph)
}

impl Step1 {
    /// The trimming can be advanced, and it ends with the target, in a set of the graph.
    pub open spec fn wf(&self, context: &SccConfig) -> bool {
        &&& self.universe.wf()
        &&& fits(self.target@, graph_encoding(context.graph))
        &&& forall|o: GraphColoredVertices| #[trigger] self.universe.delivers(&o) ==> belongs(o, context.graph) && members(o) == self.target@
    }

    /// Start to trim `set`, as the configuration says.
    pub fn new(context: &SccConfig, set: GraphColoredVertices) -> (r: Step1)
        requires
            belongs(set, context.graph),
        ensures
            r.wf(context),
            r.target@ == trimmed(context.should_trim, context.graph, members(set)),
            r.target@.subset_of(members(set)),
    {
        proof {
            lemma_trimmed_inside(context.should_trim, context.graph, members(set));
        }
        let ghost target = trimmed(context.should_trim, context.graph, members(set));
        Step1 { universe: context.should_trim.build_computation(&context.graph, set), target: Ghost(target) }
    }

    /// Advance the trimming by one step. When it is done: the search of the universe ends
    /// with `None` if nothing is left of it after trimming and the long-lived filter; else
    /// a pivot is picked and the computation of what reaches it, within the universe, is
    /// set up.
    pub fn try_advance<BWD: ReachabilityAlgorithm>(&mut self, context: &SccConfig) -> (r: Completable<Option<Step2<BWD>>>)
        requires
            old(self).wf(context),
            !BWD::forward(),
        ensures
            final(self).wf(context),
            final(self).target == old(self).target,
            r == Err::<Option<Step2<BWD>>, Incomplete>(Incomplete::Working) ==> final(self).universe.fuel() < old(self).universe.fuel(),
            r matches Ok(Some(next)) ==> {
                &&& next.wf(context)
                &&& members(next.universe) == context.lasting(old(self).target@)
                &&& picks_one_vertex_per_color(members(next.pivot), members(next.universe))
            },
            r matches Ok(None) ==> context.lasting(old(self).target@).is_empty(),
    {
        let outcome = match self.universe.try_compute() {
            Ok(found) => {
                let trimmed = clone_set(found);
                assert(old(self).universe.delivers(&trimmed));
                Ok(trimmed)
            },
            Err(e) => Err(e),
        };
        Self::settle::<BWD>(context, outcome)
    }

    /// What the trimming phase makes of the outcome of a step of the trimming. An error is
    /// handed on. A trimmed universe goes through the long-lived filter; if nothing is left
    /// of it, the search of the universe ends with `None`; else a pivot is picked, one
    /// vertex for every colour of what is left, and the computation of what reaches it,
    /// within what is left, is set up.
    pub fn settle<BWD: ReachabilityAlgorithm>(context: &SccConfig, outcome: Completable<GraphColoredVertices>) -> (r: Completable<Option<Step2<BWD>>>)
        requires
            !BWD::forward(),
            outcome matches Ok(set) ==> belongs(set, context.graph),
        ensures
            match outcome {
                Err(e) => r matches Err(handed) && handed == e,
                Ok(trimmed) => r matches Ok(next) && match next {
                    None => context.lasting(members(trimmed)).is_empty(),
                    Some(next) => {
                        &&& next.wf(context)
                        &&& members(next.universe) == context.lasting(members(trimmed))
                        &&& picks_one_vertex_per_color(members(next.pivot), members(next.universe))
                    },
                },
            },
    {
        let trimmed = match outcome {
            Ok(trimmed) => trimmed,
            Err(e) => {
                return Err(e);
            },
        };
        if is_empty(&trimmed) {
            proof {
                assert(crate::scc::long_lived(context.graph, Set::empty()) =~= Set::empty());
                assert(members(trimmed) =~= Set::empty());
                assert(context.lasting(members(trimmed)).is_empty());
            }
            return Ok(None);
        }
        let universe = match context.apply_long_lived_filter(&trimmed) {
            Some(universe) => universe,
            None => {
                return Ok(None);
            },
        };
        let graph = restrict(&context.graph, &universe);
        let pivot = pick_vertex(&universe);
        let config = ReachabilityConfig::new(graph);
        let initial = ReachabilityState { iteration: 0, set: clone_set(&pivot) };
        proof {
            lemma_restricted_moves(context.graph, config.graph, members(universe));
            assert(members(pivot).subset_of(members(universe)));
            assert(belongs(pivot, config.graph));
            BWD::reaches(&config, &initial);
            let witness = choose|x: ColoredVertex| members(universe).contains(x);
            assert(crate::symbolic::colors_of(members(pivot)).contains(witness.1));
        }
        let backward = BWD::configure(config, initial);
        Ok(Some(Step2 { backward, universe, pivot }))
    }
}

/// The pairs of `p` are alone in their colour.
pub open spec fn one_per_color(p: Set<ColoredVertex>) -> bool {
    forall|a: ColoredVertex, b: ColoredVertex| #[trigger] p.contains(a) && #[trigger] p.contains(b) && a.1 == b.1 ==> a == b
}

impl<BWD: ReachabilityAlgorithm> Step2<BWD> {
    /// The pivot is not empty and lies in the universe, and the computation ends with what
    /// reaches the pivot within the universe.
    pub open spec fn wf(&self, context: &SccConfig) -> bool {
        &&& !BWD::forward()
        &&& belongs(self.pivot, context.graph)
        &&& belongs(self.universe, context.graph)
        &&& !members(self.pivot).is_empty()
        &&& members(self.pivot).subset_of(members(self.universe))
        &&& one_per_color(members(self.pivot))
        &&& self.backward.ready()
        &&& forall|o: GraphColoredVertices| #[trigger] self.backward.ends_with(&o) ==> belongs(o, context.graph) && members(o) == reach(converse(inner(context.graph, members(self.universe))), members(self.pivot))
    }

    /// Advance the backward computation by one step. When it is done, the computation of
    /// what the pivot reaches, within the universe, is set up.
    pub fn try_advance<FWD: ReachabilityAlgorithm>(&mut self, context: &SccConfig) -> (r: Completable<Step3<FWD>>)
        requires
            old(self).wf(context),
            FWD::forward(),
        ensures
            final(self).pivot == old(self).pivot,
            r is Err ==> final(self).wf(context) && final(self).universe == old(self).universe,
            r == Err::<Step3<FWD>, Incomplete>(Incomplete::Working) ==> final(self).backward.effort() < old(self).backward.effort(),
            r matches Ok(next) ==> {
                &&& next.universe == old(self).universe
                &&& next.pivot@ == members(old(self).pivot)
                &&& next.wf(context)
            },
    {
        let outcome = match self.backward.try_compute() {
            Ok(found) => {
                let backward = clone_set(found);
                assert(old(self).backward.ends_with(&backward));
                Ok(backward)
            },
            Err(e) => Err(e),
        };
        let ghost polled = *self;
        let r = self.settle::<FWD>(context, outcome);
        proof {
            if r is Err {
                assert(*self == polled);
            }
        }
        r
    }

    /// What the backward phase makes of the outcome of a step of its computation. An error
    /// is handed on and the phase stays as it is. The set that reaches the pivot ends the
    /// phase: with it, the universe and the pivot, the computation of what the pivot
    /// reaches within the universe is set up.
    pub fn settle<FWD: ReachabilityAlgorithm>(&mut self, context: &SccConfig, outcome: Completable<GraphColoredVertices>) -> (r: Completable<Step3<FWD>>)
        requires
            FWD::forward(),
            belongs(old(self).pivot, context.graph),
            belongs(old(self).universe, context.graph),
            !members(old(self).pivot).is_empty(),
            members(old(self).pivot).subset_of(members(old(self).universe)),
            one_per_color(members(old(self).pivot)),
            outcome matches Ok(set) ==> belongs(set, context.graph) && members(set) == reach(converse(inner(context.graph, members(old(self).universe))), members(old(self).pivot)),
        ensures
            final(self).pivot == old(self).pivot,
            match outcome {
                Err(e) => *final(self) == *old(self) && (r matches Err(handed) && handed == e),
                Ok(backward) => r matches Ok(next) && {
                    &&& next.universe == old(self).universe
                    &&& next.backward == backward
                    &&& next.pivot@ == members(old(self).pivot)
                    &&& next.wf(context)
                },
            },
    {
        let backward = match outcome {
            Ok(backward) => backward,
            Err(e) => {
                return Err(e);
            },
        };
        let graph = restrict(&context.graph, &self.universe);
        let config = ReachabilityConfig::new(graph);
        let initial = ReachabilityState { iteration: 0, set: clone_set(&self.pivot) };
        proof {
            lemma_restricted_moves(context.graph, config.graph, members(self.universe));
            assert(belongs(self.pivot, config.graph));
            FWD::reaches(&config, &initial);
        }
        let mut result = Step3 {
            forward: FWD::configure(config, initial),
            universe: mk_empty_colored_vertices(&context.graph),
            backward,
            pivot: Ghost(members(self.pivot)),
        };
        core::mem::swap(&mut result.universe, &mut self.universe);
        Ok(result)
    }
}

impl<FWD: ReachabilityAlgorithm> Step3<FWD> {
    /// The pivots are not empty and lie in the universe, the backward set is what reaches
    /// them within the universe, and the computation ends with what they reach within it.
    pub open spec fn wf(&self, context: &SccConfig) -> bool {
        &&& FWD::forward()
        &&& belongs(self.universe, context.graph)
        &&& belongs(self.backward, context.graph)
        &&& !self.pivot@.is_empty()
        &&& self.pivot@.subset_of(members(self.universe))
        &&& one_per_color(self.pivot@)
        &&& members(self.backward) == reach(converse(inner(context.graph, members(self.universe))), self.pivot@)
        &&& self.forward.ready()
        &&& forall|o: GraphColoredVertices| #[trigger] self.forward.ends_with(&o) ==> belongs(o, context.graph) && members(o) == reach(inner(context.graph, members(self.universe)), self.pivot@)
    }

    /// Advance the forward computation by one step. When it is done, the raw component is
    /// the meet of the forward and the backward set, and what is reported of it is what the
    /// filter leaves.
    pub fn try_advance(&mut self, context: &SccConfig) -> (r: Completable<IterationResult>)
        requires
            old(self).wf(context),
        ensures
            final(self).pivot == old(self).pivot,
            r is Err ==> final(self).wf(context) && final(self).universe == old(self).universe && final(self).backward == old(self).backward,
            r == Err::<IterationResult, Incomplete>(Incomplete::Working) ==> final(self).forward.effort() < old(self).forward.effort(),
            r matches Ok(result) ==> {
                &&& result.universe == old(self).universe
                &&& result.backward == old(self).backward
                &&& belongs(result.forward, context.graph)
                &&& members(result.forward) == reach(inner(context.graph, members(result.universe)), old(self).pivot@)
                &&& match result.scc {
                    Some(scc) => belongs(scc, context.graph) && !members(scc).is_empty() && members(scc) == filtered(context, meet(context.graph, members(result.universe), old(self).pivot@)),
                    None => filtered(context, meet(context.graph, members(result.universe), old(self).pivot@)).is_empty(),
                }
            },
    {
        let outcome = match self.forward.try_compute() {
            Ok(found) => {
                let forward = clone_set(found);
                assert(old(self).forward.ends_with(&forward));
                Ok(forward)
            },
            Err(e) => Err(e),
        };
        self.settle(context, outcome)
    }

    /// What the forward phase makes of the outcome of a step of its computation. An error
    /// is handed on and the phase stays as it is. The set that the pivot reaches ends the
    /// search of the universe: the raw component is the meet of that set and the backward
    /// set, and what is reported of it is what the filter leaves.
    pub fn settle(&mut self, context: &SccConfig, outcome: Completable<GraphColoredVertices>) -> (r: Completable<IterationResult>)
        requires
            belongs(old(self).universe, context.graph),
            belongs(old(self).backward, context.graph),
            outcome matches Ok(set) ==> belongs(set, context.graph),
        ensures
            final(self).pivot == old(self).pivot,
            final(self).forward == old(self).forward,
            match outcome {
                Err(e) => *final(self) == *old(self) && (r matches Err(handed) && handed == e),
                Ok(forward) => r matches Ok(result) && {
                    &&& result.universe == old(self).universe
                    &&& result.backward == old(self).backward
                    &&& result.forward == forward
                    &&& match result.scc {
                        Some(scc) => belongs(scc, context.graph) && !members(scc).is_empty() && members(scc) == filtered(context, members(forward).intersect(members(old(self).backward))),
                        None => filtered(context, members(forward).intersect(members(old(self).backward))).is_empty(),
                    }
                },
            },
    {
        let forward = match outcome {
            Ok(forward) => forward,
            Err(e) => {
                return Err(e);
            },
        };
        let scc = intersect(&forward, &self.backward);
        let mut result = IterationResult {
            universe: mk_empty_colored_vertices(&context.graph),
            backward: mk_empty_colored_vertices(&context.graph),
            scc: filter_scc(context, scc),
            forward,
        };
        core::mem::swap(&mut result.universe, &mut self.universe);
        core::mem::swap(&mut result.backward, &mut self.backward);
        Ok(result)
    }
}

impl<FWD: ReachabilityAlgorithm, BWD: ReachabilityAlgorithm> Step<FWD, BWD> {
    /// The phase is in order.
    pub open spec fn wf(&self, context: &SccConfig) -> bool {
        match self {
            Step::Idle => true,
            Step::Trimming(step) => step.wf(context),
            Step::Backward(step) => step.wf(context),
            Step::Forward(step) => step.wf(context),
        }
    }

    /// The pairs that the phase is still concerned with.
    pub open spec fn region(&self) -> Set<ColoredVertex> {
        match self {
            Step::Idle => Set::empty(),
            Step::Trimming(step) => step.target@,
            Step::Backward(step) => members(step.universe),
            Step::Forward(step) => members(step.universe),
        }
    }

    /// The weight of the phase: that of its universe, less from phase to phase.
    pub open spec fn weight(&self) -> nat {
        match self {
            Step::Idle => 0,
            Step::Trimming(step) => 16 * step.target@.len() + 3,
            Step::Backward(step) => 16 * members(step.universe).len() + 2,
            Step::Forward(step) => 16 * members(step.universe).len() + 1,
        }
    }

    /// The steps that the computation of the phase can still take.
    pub open spec fn steps(&self) -> nat {
        match self {
            Step::Idle => 0,
            Step::Trimming(step) => step.universe.fuel(),
            Step::Backward(step) => step.backward.effort(),
            Step::Forward(step) => step.forward.effort(),
        }
    }
}

impl<FWD: ReachabilityAlgorithm, BWD: ReachabilityAlgorithm> FwdBwdState<FWD, BWD> {
    /// The pairs that the search is still concerned with.
    pub open spec fn region(&self) -> Set<ColoredVertex> {
        union_all(sets_of(self.to_process@)).union(self.computing.region())
    }

    /// The weight of the work that is left.
    pub open spec fn weight(&self) -> nat {
        total_weight(sets_of(self.to_process@)) + self.computing.weight()
    }
}

/// Every set of the list lies in the base universe and is a union of its components.
pub open spec fn all_whole(list: Seq<GraphColoredVertices>, graph: SymbolicAsyncGraph, base: Set<ColoredVertex>) -> bool {
    forall|i: int| 0 <= i < list.len() ==> members(#[trigger] list[i]).subset_of(base) && whole(inner(graph, base), members(list[i]))
}

/// Put a part of a searched universe back on the worklist, unless it is empty.
pub(crate) fn enqueue(to_process: &mut Vec<GraphColoredVertices>, part: GraphColoredVertices, Ghost(graph): Ghost<SymbolicAsyncGraph>, Ghost(base): Ghost<Set<ColoredVertex>>)
    requires
        all_belong(old(to_process)@, graph),
        all_whole(old(to_process)@, graph, base),
        belongs(part, graph),
        members(part).subset_of(base),
        whole(inner(graph, base), members(part)),
        apart(sets_of(old(to_process)@)),
        union_all(sets_of(old(to_process)@)).disjoint(members(part)),
    ensures
        all_belong(final(to_process)@, graph),
        all_whole(final(to_process)@, graph, base),
        apart(sets_of(final(to_process)@)),
        members(part).is_empty() ==> final(to_process)@ == old(to_process)@,
        !members(part).is_empty() ==> final(to_process)@ == old(to_process)@.push(part),
        final(to_process)@.subrange(0, old(to_process)@.len() as int) == old(to_process)@,
        sets_of(final(to_process)@) == with_part(sets_of(old(to_process)@), members(part)),
        union_all(sets_of(final(to_process)@)) == union_all(sets_of(old(to_process)@)).union(members(part)),
        total_weight(sets_of(final(to_process)@)) <= total_weight(sets_of(old(to_process)@)) + 16 * members(part).len() + 4,
{
    if !is_empty(&part) {
        proof {
            lemma_total_push(sets_of(to_process@), members(part));
            lemma_apart_push(sets_of(to_process@), members(part));
            assert(sets_of(to_process@.push(part)) =~= sets_of(to_process@).push(members(part)));
        }
        to_process.push(part);
        assert(to_process@.subrange(0, old(to_process)@.len() as int) =~= old(to_process)@);
    } else {
        assert(union_all(sets_of(to_process@)).union(members(part)) =~= union_all(sets_of(to_process@)));
        assert(to_process@.subrange(0, old(to_process)@.len() as int) =~= old(to_process)@);
    }
}

/// Put the three parts of a searched universe beside the component of its pivot back on
/// the worklist: what only reaches the pivot, what the pivot only reaches, and the rest.
/// Empty parts are left out.
pub(crate) fn enqueue_parts(to_process: &mut Vec<GraphColoredVertices>, universe: &GraphColoredVertices, forward: &GraphColoredVertices, backward: &GraphColoredVertices, Ghost(graph): Ghost<SymbolicAsyncGraph>, Ghost(base): Ghost<Set<ColoredVertex>>, Ghost(pivot): Ghost<ColoredVertex>)
    requires
        all_belong(old(to_process)@, graph),
        all_whole(old(to_process)@, graph, base),
        belongs(*universe, graph),
        belongs(*forward, graph),
        belongs(*backward, graph),
        members(*universe).subset_of(base),
        members(*forward).subset_of(members(*universe)),
        members(*backward).subset_of(members(*universe)),
        members(*forward).contains(pivot),
        members(*backward).contains(pivot),
        whole(inner(graph, base), members(*backward).difference(members(*forward))),
        whole(inner(graph, base), members(*forward).difference(members(*backward))),
        whole(inner(graph, base), members(*universe).difference(members(*backward)).difference(members(*forward))),
        apart(sets_of(old(to_process)@)),
        union_all(sets_of(old(to_process)@)).disjoint(members(*universe)),
    ensures
        all_belong(final(to_process)@, graph),
        all_whole(final(to_process)@, graph, base),
        apart(sets_of(final(to_process)@)),
        union_all(sets_of(final(to_process)@)) == union_all(sets_of(old(to_process)@)).union(members(*universe).difference(members(*forward).intersect(members(*backward)))),
        final(to_process)@.subrange(0, old(to_process)@.len() as int) == old(to_process)@,
        sets_of(final(to_process)@) == with_part(with_part(with_part(sets_of(old(to_process)@), members(*backward).difference(members(*forward))), members(*forward).difference(members(*backward))), members(*universe).difference(members(*backward)).difference(members(*forward))),
        total_weight(sets_of(final(to_process)@)) + 4 <= total_weight(sets_of(old(to_process)@)) + 16 * members(*universe).len(),
{
    let ghost u = members(*universe);
    let ghost f = members(*forward);
    let ghost b = members(*backward);
    let ghost waiting = union_all(sets_of(to_process@));
    proof {
        lemma_fits_finite(u, graph_encoding(graph));
        lemma_three_parts(u, f, b, pivot);
    }
    let remaining_backward = minus(backward, forward);
    let remaining_forward = minus(forward, backward);
    let remaining_rest = minus(&minus(universe, backward), forward);
    enqueue(to_process, remaining_backward, Ghost(graph), Ghost(base));
    let ghost first = to_process@;
    enqueue(to_process, remaining_forward, Ghost(graph), Ghost(base));
    let ghost second = to_process@;
    enqueue(to_process, remaining_rest, Ghost(graph), Ghost(base));
    proof {
        let n = old(to_process)@.len() as int;
        assert(second.subrange(0, n) =~= second.subrange(0, first.len() as int).subrange(0, n));
        assert(to_process@.subrange(0, n) =~= to_process@.subrange(0, second.len() as int).subrange(0, n));
        assert(to_process@.subrange(0, n) =~= old(to_process)@);
        let parts = b.difference(f).union(f.difference(b)).union(u.difference(b).difference(f));
        assert(parts =~= u.difference(f.intersect(b)));
        assert(union_all(sets_of(to_process@)) =~= waiting.union(parts));
    }
}

impl<FWD: ReachabilityAlgorithm, BWD: ReachabilityAlgorithm> Step<FWD, BWD> {
    /// The universe of the phase lies in the base universe and is a union of its components.
    pub open spec fn rooted(&self, context: &SccConfig, base: Set<ColoredVertex>) -> bool {
        self.region().subset_of(base) && whole(inner(context.graph, base), self.region())
    }
}

impl<FWD: ReachabilityAlgorithm, BWD: ReachabilityAlgorithm> FwdBwdStep<FWD, BWD> {
    /// The state is in order: the directions of the two algorithms are right, the waiting
    /// universes belong to the graph, and so does what is being computed; and every
    /// universe, waiting or being searched, is a union of components of the base universe
    /// and has no pair in common with another.
    pub open spec fn in_order(context: &SccConfig, state: &FwdBwdState<FWD, BWD>) -> bool {
        &&& FWD::forward()
        &&& !BWD::forward()
        &&& all_belong(state.to_process@, context.graph)
        &&& all_whole(state.to_process@, context.graph, state.base@)
        &&& apart(sets_of(state.to_process@))
        &&& union_all(sets_of(state.to_process@)).disjoint(state.computing.region())
        &&& state.computing.wf(context)
        &&& state.computing.rooted(context, state.base@)
    }

    /// The measure of the work that is left.
    pub open spec fn measure(state: &FwdBwdState<FWD, BWD>) -> nat {
        rank(state.weight(), state.computing.steps())
    }

    /// What one step achieves: the state stays in order and the region does not grow; an
    /// item is made up of components of the base universe that are worth reporting and
    /// shares no pair with the region that is left; nothing that is worth reporting leaves
    /// the region except in an item; the phases follow one another in their order, and the
    /// worklist changes only when a universe is taken from it or when the search of a
    /// universe ends, which puts parts of the universe on top of it; the end is reported
    /// when nothing is left, and only then; from idle, the step takes the universe that was put on the worklist last and
    /// is not cancelled; and unless the step is cancelled or reports the end, the measure
    /// gets less.
    pub open spec fn advanced(context: &SccConfig, before: &FwdBwdState<FWD, BWD>, after: &FwdBwdState<FWD, BWD>, r: &Completable<Option<GraphColoredVertices>>) -> bool {
        &&& Self::in_order(context, after)
        &&& after.base == before.base
        &&& after.region().subset_of(before.region())
        &&& (r matches Ok(Some(item)) ==> found_in(context, before.base@, before.region(), &item) && members(*item).disjoint(after.region()))
        &&& nothing_lost(context, before.base@, before.region(), after.region(), match *r {
            Ok(Some(item)) => Some(item),
            _ => None,
        })
        &&& (r matches Ok(None) ==> after.computing == before.computing && after.to_process@ == before.to_process@ && before.computing is Idle && before.to_process@.len() == 0)
        &&& (before.computing is Trimming ==> after.to_process == before.to_process && (after.computing is Trimming || after.computing is Idle || after.computing is Backward))
        &&& (before.computing is Backward ==> after.to_process == before.to_process && (after.computing is Backward || after.computing is Forward))
        &&& (before.computing is Forward ==> (after.computing is Forward && after.to_process == before.to_process) || (after.computing is Idle && after.to_process@.len() >= before.to_process@.len() && after.to_process@.subrange(0, before.to_process@.len() as int) == before.to_process@))
        &&& (before.computing is Idle ==> if before.to_process@.len() == 0 {
            r matches Ok(None)
        } else {
            (r matches Err(Incomplete::Working)) && after.to_process@ == before.to_process@.drop_last()
        })
        &&& ((r matches Ok(Some(_))) || (r matches Err(Incomplete::Working)) ==> Self::measure(after) < Self::measure(before))
    }

    /// From idle: take the next universe from the worklist, apply the long-lived filter and
    /// start to trim what is left. With an empty worklist the search has ended.
    fn start_next(context: &SccConfig, state: &mut FwdBwdState<FWD, BWD>) -> (r: Completable<Option<GraphColoredVertices>>)
        requires
            Self::in_order(context, old(state)),
            old(state).computing is Idle,
        ensures
            Self::advanced(context, old(state), final(state), &r),
    {
        let ghost encoding = graph_encoding(context.graph);
        let ghost waiting = sets_of(state.to_process@);
        let ghost base = state.base@;
        let todo = match state.to_process.pop() {
            Some(todo) => todo,
            None => {
                return Ok(None);
            },
        };
        let ghost taken = members(todo);
        proof {
            lemma_total_pop(waiting);
            assert(sets_of(state.to_process@) =~= waiting.drop_last());
            assert(waiting.last() == taken);
            assert(todo == old(state).to_process@[old(state).to_process@.len() - 1]);
            lemma_fits_finite(taken, encoding);
            lemma_lasting(context, base, taken);
            lemma_apart_pop(waiting);
            assert(old(state).region() =~= union_all(waiting.drop_last()).union(taken));
        }
        let todo = match context.apply_long_lived_filter(&todo) {
            Some(kept) => kept,
            None => {
                // Nothing of the universe is long-lived.
                proof {
                    lemma_rank_less(old(state).weight(), 0, state.weight(), 0);
                    assert(state.region() =~= union_all(waiting.drop_last()));
                }
                return Err(Incomplete::Working);
            },
        };
        let ghost kept = members(todo);
        let trimming = Step1::new(context, todo);
        proof {
            trimming.universe.fuel_bounded();
            lemma_smaller(kept, taken);
            lemma_smaller(trimming.target@, kept);
            lemma_trimming(context, base, kept);
        }
        state.computing = Step::Trimming(trimming);
        proof {
            lemma_rank_less(old(state).weight(), 0, state.weight(), state.computing.steps());
            assert(state.region() =~= union_all(waiting.drop_last()).union(trimming.target@));
        }
        Err(Incomplete::Working)
    }

    /// While trimming: advance the trimming; when it is done, go on to the backward
    /// computation, or back to idle if nothing is left of the universe.
    fn advance_trimming(context: &SccConfig, state: &mut FwdBwdState<FWD, BWD>, step: Step1, Ghost(before): Ghost<FwdBwdState<FWD, BWD>>) -> (r: Completable<Option<GraphColoredVertices>>)
        requires
            Self::in_order(context, &before),
            before.computing == Step::<FWD, BWD>::Trimming(step),
            before.to_process == old(state).to_process,
            before.base == old(state).base,
            old(state).computing is Idle,
        ensures
            Self::advanced(context, &before, final(state), &r),
    {
        let mut step = step;
        let outcome = step.try_advance::<BWD>(context);
        Self::place_trimming(context, state, step, outcome, Ghost(before))
    }

    /// What the search makes of the outcome of a step of the trimming phase, `step` being
    /// the phase as that step left it and `before` the state before it. An error puts the
    /// phase back and is handed on. `None` says that nothing is left of the universe: the
    /// search is idle again. Else the backward phase follows. The answer is `Working` in
    /// both cases, and the worklist stays.
    pub fn place_trimming(context: &SccConfig, state: &mut FwdBwdState<FWD, BWD>, step: Step1, outcome: Completable<Option<Step2<BWD>>>, Ghost(before): Ghost<FwdBwdState<FWD, BWD>>) -> (r: Completable<Option<GraphColoredVertices>>)
        requires
            Self::in_order(context, &before),
            before.computing is Trimming,
            before.to_process == old(state).to_process,
            before.base == old(state).base,
            old(state).computing is Idle,
            step.wf(context),
            step.target == before.computing->Trimming_0.target,
            outcome == Err::<Option<Step2<BWD>>, Incomplete>(Incomplete::Working) ==> step.universe.fuel() < before.computing->Trimming_0.universe.fuel(),
            outcome matches Ok(Some(next)) ==> {
                &&& next.wf(context)
                &&& members(next.universe) == context.lasting(step.target@)
                &&& picks_one_vertex_per_color(members(next.pivot), members(next.universe))
            },
            outcome matches Ok(None) ==> context.lasting(step.target@).is_empty(),
        ensures
            Self::advanced(context, &before, final(state), &r),
            match outcome {
                Err(e) => Self::put_back(old(state), final(state), Step::Trimming(step), e, &r),
                Ok(None) => Self::moved_on(old(state), final(state), Step::Idle, &r),
                Ok(Some(next)) => Self::moved_on(old(state), final(state), Step::Backward(next), &r),
            },
    {
        let ghost target = step.target@;
        let ghost base = state.base@;
        proof {
            lemma_fits_finite(target, graph_encoding(context.graph));
            lemma_lasting(context, base, target);
        }
        match outcome {
            Err(e) => {
                proof {
                    step.universe.fuel_bounded();
                }
                state.computing = Step::Trimming(step);
                proof {
                    if e == Incomplete::Working {
                        lemma_rank_less(before.weight(), before.computing.steps(), state.weight(), state.computing.steps());
                    }
                }
                Err(e)
            },
            Ok(None) => {
                // Nothing is left of the universe.
                proof {
                    lemma_rank_less(before.weight(), before.computing.steps(), state.weight(), 0);
                }
                Err(Incomplete::Working)
            },
            Ok(Some(trimmed)) => {
                proof {
                    lemma_smaller(members(trimmed.universe), target);
                    trimmed.backward.effort_bounded();
                }
                state.computing = Step::Backward(trimmed);
                proof {
                    lemma_rank_less(before.weight(), before.computing.steps(), state.weight(), state.computing.steps());
                }
                Err(Incomplete::Working)
            },
        }
    }

    /// While computing backwards: advance the computation; when it is done, go on to the
    /// forward computation.
    fn advance_backward(context: &SccConfig, state: &mut FwdBwdState<FWD, BWD>, step: Step2<BWD>, Ghost(before): Ghost<FwdBwdState<FWD, BWD>>) -> (r: Completable<Option<GraphColoredVertices>>)
        requires
            Self::in_order(context, &before),
            before.computing == Step::<FWD, BWD>::Backward(step),
            before.to_process == old(state).to_process,
            before.base == old(state).base,
            old(state).computing is Idle,
        ensures
            Self::advanced(context, &before, final(state), &r),
    {
        let mut step = step;
        let outcome = step.try_advance::<FWD>(context);
        Self::place_backward(context, state, step, outcome, Ghost(before))
    }

    /// What the search makes of the outcome of a step of the backward phase, `step` being
    /// the phase as that step left it and `before` the state before it. An error puts the
    /// phase back and is handed on. Else the forward phase follows, and the answer is
    /// `Working`. The worklist stays.
    pub fn place_backward(context: &SccConfig, state: &mut FwdBwdState<FWD, BWD>, step: Step2<BWD>, outcome: Completable<Step3<FWD>>, Ghost(before): Ghost<FwdBwdState<FWD, BWD>>) -> (r: Completable<Option<GraphColoredVertices>>)
        requires
            Self::in_order(context, &before),
            before.computing is Backward,
            before.to_process == old(state).to_process,
            before.base == old(state).base,
            old(state).computing is Idle,
            step.pivot == before.computing->Backward_0.pivot,
            outcome is Err ==> step.wf(context) && step.universe == before.computing->Backward_0.universe,
            outcome == Err::<Step3<FWD>, Incomplete>(Incomplete::Working) ==> step.backward.effort() < before.computing->Backward_0.backward.effort(),
            outcome matches Ok(next) ==> {
                &&& next.universe == before.computing->Backward_0.universe
                &&& next.pivot@ == members(before.computing->Backward_0.pivot)
                &&& next.wf(context)
            },
        ensures
            Self::advanced(context, &before, final(state), &r),
            match outcome {
                Err(e) => Self::put_back(old(state), final(state), Step::Backward(step), e, &r),
                Ok(next) => Self::moved_on(old(state), final(state), Step::Forward(next), &r),
            },
    {
        match outcome {
            Err(e) => {
                proof {
                    step.backward.effort_bounded();
                }
                state.computing = Step::Backward(step);
                proof {
                    if e == Incomplete::Working {
                        lemma_rank_less(before.weight(), before.computing.steps(), state.weight(), state.computing.steps());
                    }
                }
                Err(e)
            },
            Ok(next) => {
                proof {
                    next.forward.effort_bounded();
                }
                state.computing = Step::Forward(next);
                proof {
                    lemma_rank_less(before.weight(), before.computing.steps(), state.weight(), state.computing.steps());
                }
                Err(Incomplete::Working)
            },
        }
    }

    /// What the end of the search of a universe makes of the state: the worklist is the one
    /// before with, on top of it and in this order, those that are not empty of what only
    /// reaches the pivot, what the pivot only reaches, and the rest of the universe; the
    /// phase is idle; and what the filter left of the component is handed out, or, if it
    /// left nothing, the answer is `Working`.
    pub open spec fn universe_finished(before: &FwdBwdState<FWD, BWD>, after: &FwdBwdState<FWD, BWD>, result: &IterationResult, r: &Completable<Option<GraphColoredVertices>>) -> bool {
        let u = members(result.universe);
        let f = members(result.forward);
        let b = members(result.backward);
        &&& after.computing is Idle
        &&& after.base == before.base
        &&& after.to_process@.subrange(0, before.to_process@.len() as int) == before.to_process@
        &&& sets_of(after.to_process@) == with_part(with_part(with_part(sets_of(before.to_process@), b.difference(f)), f.difference(b)), u.difference(b).difference(f))
        &&& match result.scc {
            Some(scc) => *r matches Ok(Some(item)) && item == scc,
            None => *r matches Err(Incomplete::Working),
        }
    }

    /// What a phase makes of an error of its computation: the phase is put back as the
    /// computation left it, the worklist stays, and the error is handed on.
    pub open spec fn put_back(before: &FwdBwdState<FWD, BWD>, after: &FwdBwdState<FWD, BWD>, phase: Step<FWD, BWD>, e: Incomplete, r: &Completable<Option<GraphColoredVertices>>) -> bool {
        &&& after.computing == phase
        &&& after.to_process == before.to_process
        &&& after.base == before.base
        &&& *r matches Err(handed) && handed == e
    }

    /// What a phase makes of the end of its computation when another phase follows: the
    /// next phase is set, the worklist stays, and the answer is `Working`.
    pub open spec fn moved_on(before: &FwdBwdState<FWD, BWD>, after: &FwdBwdState<FWD, BWD>, phase: Step<FWD, BWD>, r: &Completable<Option<GraphColoredVertices>>) -> bool {
        &&& after.computing == phase
        &&& after.to_process == before.to_process
        &&& after.base == before.base
        &&& *r matches Err(Incomplete::Working)
    }

    /// The search of a universe is over: put the three parts of the universe beside the
    /// component back on the worklist and report what the filter leaves of the component.
    pub fn finish_universe(context: &SccConfig, state: &mut FwdBwdState<FWD, BWD>, result: IterationResult, Ghost(before): Ghost<FwdBwdState<FWD, BWD>>, Ghost(x): Ghost<ColoredVertex>) -> (r: Completable<Option<GraphColoredVertices>>)
        requires
            FWD::forward(),
            !BWD::forward(),
            all_belong(old(state).to_process@, context.graph),
            all_whole(old(state).to_process@, context.graph, before.base@),
            apart(sets_of(old(state).to_process@)),
            union_all(sets_of(old(state).to_process@)).disjoint(members(result.universe)),
            old(state).computing is Idle,
            before.to_process == old(state).to_process,
            before.base == old(state).base,
            before.computing is Forward,
            before.computing.region() == members(result.universe),
            before.computing.weight() == 16 * members(result.universe).len() + 1,
            belongs(result.universe, context.graph),
            belongs(result.forward, context.graph),
            belongs(result.backward, context.graph),
            members(result.universe).subset_of(before.base@),
            members(result.forward).subset_of(members(result.universe)),
            members(result.backward).subset_of(members(result.universe)),
            members(result.forward).contains(x),
            members(result.backward).contains(x),
            whole(inner(context.graph, before.base@), members(result.backward).difference(members(result.forward))),
            whole(inner(context.graph, before.base@), members(result.forward).difference(members(result.backward))),
            whole(inner(context.graph, before.base@), members(result.universe).difference(members(result.backward)).difference(members(result.forward))),
            result.scc matches Some(scc) ==> found_in(context, before.base@, members(result.universe), &scc) && members(scc).subset_of(members(result.forward).intersect(members(result.backward))),
            nothing_lost(context, before.base@, members(result.forward).intersect(members(result.backward)), Set::empty(), result.scc),
        ensures
            Self::advanced(context, &before, final(state), &r),
            Self::universe_finished(old(state), final(state), &result, &r),
    {
        let ghost u = members(result.universe);
        let ghost waiting = sets_of(state.to_process@);
        // The rest of the universe goes back to the worklist.
        enqueue_parts(&mut state.to_process, &result.universe, &result.forward, &result.backward, Ghost(context.graph), Ghost(state.base@), Ghost(x));
        proof {
            let after = sets_of(state.to_process@);
            assert(state.computing.weight() == 0);
            assert(state.weight() == total_weight(after));
            assert(before.weight() == total_weight(waiting) + 16 * u.len() + 1);
            lemma_rank_less(before.weight(), before.computing.steps(), state.weight(), 0);
            assert(union_all(after).subset_of(union_all(waiting).union(u)));
            assert(state.region() =~= union_all(after));
            assert(before.region() == union_all(waiting).union(u));
        }
        match result.scc {
            Some(scc) => Ok(Some(scc)),
            None => Err(Incomplete::Working),
        }
    }

    /// While computing forwards: advance the computation; when it is done, the search of
    /// the universe is over.
    fn advance_forward(context: &SccConfig, state: &mut FwdBwdState<FWD, BWD>, step: Step3<FWD>, Ghost(before): Ghost<FwdBwdState<FWD, BWD>>) -> (r: Completable<Option<GraphColoredVertices>>)
        requires
            Self::in_order(context, &before),
            before.computing == Step::<FWD, BWD>::Forward(step),
            before.to_process == old(state).to_process,
            before.base == old(state).base,
            old(state).computing is Idle,
        ensures
            Self::advanced(context, &before, final(state), &r),
    {
        let mut step = step;
        let outcome = step.try_advance(context);
        Self::place_forward(context, state, step, outcome, Ghost(before))
    }

    /// What the search makes of the outcome of a step of the forward phase, `step` being
    /// the phase as that step left it and `before` the state before it. An error puts the
    /// phase back and is handed on. Else the search of the universe is over: see
    /// [`FwdBwdStep::universe_finished`].
    pub fn place_forward(context: &SccConfig, state: &mut FwdBwdState<FWD, BWD>, step: Step3<FWD>, outcome: Completable<IterationResult>, Ghost(before): Ghost<FwdBwdState<FWD, BWD>>) -> (r: Completable<Option<GraphColoredVertices>>)
        requires
            Self::in_order(context, &before),
            before.computing is Forward,
            before.to_process == old(state).to_process,
            before.base == old(state).base,
            old(state).computing is Idle,
            step.pivot == before.computing->Forward_0.pivot,
            outcome is Err ==> step.wf(context) && step.universe == before.computing->Forward_0.universe && step.backward == before.computing->Forward_0.backward,
            outcome == Err::<IterationResult, Incomplete>(Incomplete::Working) ==> step.forward.effort() < before.computing->Forward_0.forward.effort(),
            outcome matches Ok(result) ==> {
                &&& result.universe == before.computing->Forward_0.universe
                &&& result.backward == before.computing->Forward_0.backward
                &&& belongs(result.forward, context.graph)
                &&& members(result.forward) == reach(inner(context.graph, members(result.universe)), step.pivot@)
                &&& match result.scc {
                    Some(scc) => belongs(scc, context.graph) && !members(scc).is_empty() && members(scc) == filtered(context, meet(context.graph, members(result.universe), step.pivot@)),
                    None => filtered(context, meet(context.graph, members(result.universe), step.pivot@)).is_empty(),
                }
            },
        ensures
            Self::advanced(context, &before, final(state), &r),
            match outcome {
                Err(e) => Self::put_back(old(state), final(state), Step::Forward(step), e, &r),
                Ok(result) => Self::universe_finished(old(state), final(state), &result, &r),
            },
    {
        let ghost p = step.pivot@;
        match outcome {
            Err(e) => {
                proof {
                    step.forward.effort_bounded();
                }
                state.computing = Step::Forward(step);
                proof {
                    if e == Incomplete::Working {
                        lemma_rank_less(before.weight(), before.computing.steps(), state.weight(), state.computing.steps());
                    }
                }
                Err(e)
            },
            Ok(result) => {
                let ghost u = members(result.universe);
                let ghost x = choose|x: ColoredVertex| p.contains(x);
                proof {
                    let base = before.base@;
                    let raw = meet(context.graph, u, p);
                    lemma_reach_inside(context.graph, u, p);
                    lemma_parts(context.graph, base, u, p);
                    assert forall|y: ColoredVertex| raw.contains(y) implies #[trigger] crate::scc::components::slice_is(inner(context.graph, base), raw, y) by {
                        lemma_meet_by_color(context.graph, base, u, p, y);
                    }
                    lemma_filter_keeps_reportable(context, base, raw);
                    assert(filtered(context, raw).subset_of(raw)) by {
                        assert(crate::scc::non_trivial(raw).subset_of(raw));
                    }
                    assert(filtered(context, raw).subset_of(u));
                }
                Self::finish_universe(context, state, result, Ghost(before), Ghost(x))
            },
        }
    }
}

impl<FWD: ReachabilityAlgorithm, BWD: ReachabilityAlgorithm> GeneratorStep<SccConfig, FwdBwdState<FWD, BWD>, GraphColoredVertices> for FwdBwdStep<FWD, BWD> {
    open spec fn valid(context: &SccConfig, state: &FwdBwdState<FWD, BWD>) -> bool {
        Self::in_order(context, state)
    }

    open spec fn fuel(context: &SccConfig, state: &FwdBwdState<FWD, BWD>) -> nat {
        Self::measure(state)
    }

    open spec fn exhausted(context: &SccConfig, state: &FwdBwdState<FWD, BWD>) -> bool {
        state.computing is Idle && state.to_process@.len() == 0
    }

    /// An item lies in the region that the search is still concerned with and is made up
    /// of components, in the graph of the base universe, that are worth reporting.
    open spec fn yields(context: &SccConfig, state: &FwdBwdState<FWD, BWD>, item: &GraphColoredVertices) -> bool {
        found_in(context, state.base@, state.region(), item)
    }

    open spec fn stepped(context: &SccConfig, before: &FwdBwdState<FWD, BWD>, after: &FwdBwdState<FWD, BWD>, r: &Completable<Option<GraphColoredVertices>>) -> bool {
        Self::advanced(context, before, after, r)
    }

    /// One step of the search, by the phase that the state is in.
    fn step(context: &SccConfig, state: &mut FwdBwdState<FWD, BWD>) -> (r: Completable<Option<GraphColoredVertices>>)
        ensures
            Self::advanced(context, old(state), final(state), &r),
    {
        let mut computing = Step::Idle;
        core::mem::swap(&mut computing, &mut state.computing);
        match computing {
            Step::Idle => Self::start_next(context, state),
            Step::Trimming(step) => Self::advance_trimming(context, state, step, Ghost(*old(state))),
            Step::Backward(step) => Self::advance_backward(context, state, step, Ghost(*old(state))),
            Step::Forward(step) => Self::advance_forward(context, state, step, Ghost(*old(state))),
        }
    }
}

impl<'a, FWD: ReachabilityAlgorithm, BWD: ReachabilityAlgorithm> From<&'a SymbolicAsyncGraph> for FwdBwdState<FWD, BWD> {
    fn from(value: &'a SymbolicAsyncGraph) -> (r: Self)
        ensures
            r.computing is Idle,
            r.to_process@.len() == 1,
            belongs(r.to_process@[0], *value),
            members(r.to_process@[0]) == crate::symbolic::unit_members(*value),
            r.base@ == members(r.to_process@[0]),
    {
        let mut to_process: Vec<GraphColoredVertices> = Vec::new();
        let unit = mk_unit_colored_vertices(value);
        let ghost base = members(unit);
        to_process.push(unit);
        FwdBwdState { computing: Step::Idle, to_process, base: Ghost(base) }
    }
}

impl<'a, FWD: ReachabilityAlgorithm, BWD: ReachabilityAlgorithm> FromSpecImpl<&'a SymbolicAsyncGraph> for FwdBwdState<FWD, BWD> {
    open spec fn obeys_from_spec() -> bool {
        false
    }

    open spec fn from_spec(value: &'a SymbolicAsyncGraph) -> Self {
        arbitrary()
    }
}

impl<FWD: ReachabilityAlgorithm, BWD: ReachabilityAlgorithm> From<GraphColoredVertices> for FwdBwdState<FWD, BWD> {
    fn from(value: GraphColoredVertices) -> (r: Self)
        ensures
            r.computing is Idle,
            r.to_process@ == seq![value],
            r.base@ == members(value),
    {
        let mut to_process: Vec<GraphColoredVertices> = Vec::new();
        let ghost base = members(value);
        to_process.push(value);
        assert(to_process@ =~= seq![value]);
        FwdBwdState { computing: Step::Idle, to_process, base: Ghost(base) }
    }
}

impl<FWD: ReachabilityAlgorithm, BWD: ReachabilityAlgorithm> FromSpecImpl<GraphColoredVertices> for FwdBwdState<FWD, BWD> {
    open spec fn obeys_from_spec() -> bool {
        false
    }

    open spec fn from_spec(value: GraphColoredVertices) -> Self {
        arbitrary()
    }
}

impl<'a, FWD: ReachabilityAlgorithm, BWD: ReachabilityAlgorithm> From<&'a GraphColoredVertices> for FwdBwdState<FWD, BWD> {
    fn from(value: &'a GraphColoredVertices) -> (r: Self)
        ensures
            r.computing is Idle,
            r.to_process@ == seq![*value],
            r.base@ == members(*value),
    {
        let mut to_process: Vec<GraphColoredVertices> = Vec::new();
        to_process.push(clone_set(value));
        assert(to_process@ =~= seq![*value]);
        FwdBwdState { computing: Step::Idle, to_process, base: Ghost(members(*value)) }
    }
}

impl<'a, FWD: ReachabilityAlgorithm, BWD: ReachabilityAlgorithm> FromSpecImpl<&'a GraphColoredVertices> for FwdBwdState<FWD, BWD> {
    open spec fn obeys_from_spec() -> bool {
        false
    }

    open spec fn from_spec(value: &'a GraphColoredVertices) -> Self {
        arbitrary()
    }
}

/// The search starts in order from every set of the graph: the set is the base universe.
pub proof fn lemma_start_in_order<FWD: ReachabilityAlgorithm, BWD: ReachabilityAlgorithm>(context: &SccConfig, state: &FwdBwdState<FWD, BWD>)
    requires
        FWD::forward(),
        !BWD::forward(),
        state.computing is Idle,
        state.to_process@.len() == 1,
        belongs(state.to_process@[0], context.graph),
        state.base@ == members(state.to_process@[0]),
    ensures
        FwdBwdStep::<FWD, BWD>::in_order(context, state),
        state.region() == state.base@,
{
    crate::scc::components::lemma_universe_whole(context.graph, state.base@);
    assert(state.computing.region() =~= Set::empty());
    let sets = sets_of(state.to_process@);
    assert(sets[0] == state.base@);
    assert(state.region() =~= state.base@);
}

} // verus!
