//! The chain search for strongly connected components.
//!
//! A universe is taken from the worklist and trimmed. A pivot is picked, if possible among
//! the pairs that a hint names. The basin of the pivot is what reaches it within the
//! universe; the component of the pivot is what the pivot reaches within the basin. The
//! rest of the basin and the rest of the universe go back to the worklist, each with the
//! neighbours of the component as a hint for the next pivot.

use crate::algorithm_trait::generator::GeneratorStep;
use crate::algorithm_trait::{Completable, Incomplete};
use crate::reachability::step_operators::Probe;
use crate::reachability::{ReachabilityAlgorithm, ReachabilityConfig, ReachabilityState};
use crate::relation::{converse, reach};
use crate::relation::whole;
use crate::scc::components::{
    found_in, lemma_filter_keeps_reportable, lemma_lasting, lemma_meet_by_color, lemma_parts,
    lemma_trimming, nothing_lost, reportable, reported, slice_is,
};
use crate::scc::fwd_bwd::one_per_color;
use crate::scc::worklist::{
    apart, find_hint, hint_from, inner, lemma_apart_pop, lemma_apart_push, lemma_rank_less,
    lemma_reach_in_basin, lemma_reach_inside, lemma_restricted_moves, lemma_total_pop,
    lemma_total_push, lemma_two_parts, meet, rank, total_weight, union_all, with_part,
};
use crate::scc::{filter_scc, filtered, SccConfig};
use crate::space::{lemma_fits_finite, lemma_smaller};
use crate::symbolic::{
    belongs, clone_set, fits, graph_encoding, intersect, is_empty, members, minus,
    mk_empty_colored_vertices, mk_unit_colored_vertices, pick_vertex,
    picks_one_vertex_per_color, restrict, variable_count, ColoredVertex,
};
use crate::trimming::{lemma_trimmed_inside, TrimComputation};
use biodivine_lib_param_bn::symbolic_async_graph::{GraphColoredVertices, SymbolicAsyncGraph};
use core::marker::PhantomData;
use vstd::prelude::*;
use vstd::std_specs::convert::FromSpecImpl;

verus! {

/// The state of the chain search: what is being computed, and the universes that wait to
/// be searched.
pub struct ChainState<FWD: ReachabilityAlgorithm, BWD: ReachabilityAlgorithm> {
    pub computing: Step<FWD, BWD>,
    pub to_process: Vec<Step0>,
    /// The universe that the search started from.
    pub base: Ghost<Set<ColoredVertex>>,
}

/// The step operator of the chain search, over a forward and a backward reachability
/// algorithm.
pub struct ChainStep<FWD: ReachabilityAlgorithm, BWD: ReachabilityAlgorithm> {
    pub _phantom: PhantomData<(FWD, BWD)>,
}

/// What the search is computing.
pub enum Step<FWD: ReachabilityAlgorithm, BWD: ReachabilityAlgorithm> {
    /// Nothing: the next universe is to be taken from the worklist.
    Idle,
    /// The universe is being trimmed.
    Trimming(Step1),
    /// The basin of the pivot is being computed.
    Basin(Step2<BWD>),
    /// The component of the pivot is being computed.
    Scc(Step3<FWD>),
}

/// A universe that waits to be searched, with a hint for its pivot.
pub struct Step0 {
    pub full_universe: GraphColoredVertices,
    pub pivot_hint: GraphColoredVertices,
}

/// A universe that is being trimmed.
pub struct Step1 {
    pub full_universe: GraphColoredVertices,
    pub pivot_hint: GraphColoredVertices,
    pub universe: TrimComputation,
    /// What trimming leaves of the universe.
    pub target: Ghost<Set<ColoredVertex>>,
}

/// A trimmed universe, its pivot, and the computation of the basin of the pivot.
pub struct Step2<BWD: ReachabilityAlgorithm> {
    pub universe: GraphColoredVertices,
    pub pivot: GraphColoredVertices,
    pub basin: BWD,
}

/// A trimmed universe, the basin of its pivot, and the computation of the component.
pub struct Step3<FWD: ReachabilityAlgorithm> {
    pub universe: GraphColoredVertices,
    pub basin: GraphColoredVertices,
    pub scc: FWD,
    /// The pivots that the basin was computed for.
    pub pivot: Ghost<Set<ColoredVertex>>,
}

/// The outcome of the search of one universe.
pub struct IterationResult {
    pub universe: GraphColoredVertices,
    pub basin: GraphColoredVertices,
    pub raw_scc: GraphColoredVertices,
}

/// The universes of a list of worklist entries.
pub open spec fn universes_of(list: Seq<Step0>) -> Seq<Set<ColoredVertex>> {
    Seq::new(list.len(), |i: int| members(list[i].full_universe))
}

impl Step0 {
    /// The universe and the hint belong to the graph.
    pub open spec fn wf(&self, graph: SymbolicAsyncGraph) -> bool {
        belongs(self.full_universe, graph) && belongs(self.pivot_hint, graph)
    }

    /// Start to trim the universe, as the configuration says. The universe and the hint
    /// move on; empty sets are left behind.
    pub fn advance(&mut self, context: &SccConfig) -> (r: Step1)
        requires
            old(self).wf(context.graph),
        ensures
            r.wf(context),
            r.full_universe == old(self).full_universe,
            r.pivot_hint == old(self).pivot_hint,
            r.target@ == crate::trimming::trimmed(context.should_trim, context.graph, members(old(self).full_universe)),
            r.target@.subset_of(members(old(self).full_universe)),
    {
        proof {
            lemma_trimmed_inside(context.should_trim, context.graph, members(self.full_universe));
        }
        let ghost target = crate::trimming::trimmed(context.should_trim, context.graph, members(self.full_universe));
        let mut result = Step1 {
            target: Ghost(target),
            universe: context.should_trim.build_computation(&context.graph, clone_set(&self.full_universe)),
            full_universe: mk_empty_colored_vertices(&context.graph),
            pivot_hint: mk_empty_colored_vertices(&context.graph),
        };
        core::mem::swap(&mut result.full_universe, &mut self.full_universe);
        core::mem::swap(&mut result.pivot_hint, &mut self.pivot_hint);
        result
    }
}

/// Every entry of the list is in order.
pub open spec fn all_in_order(list: Seq<Step0>, graph: SymbolicAsyncGraph) -> bool {
    forall|i: int| 0 <= i < list.len() ==> (#[trigger] list[i]).wf(graph)
}

impl Step1 {
    /// The trimming can be advanced, and it ends with the target, in a set of the graph,
    /// as the untrimmed universe and the hint are.
    pub open spec fn wf(&self, context: &SccConfig) -> bool {
        &&& belongs(self.full_universe, context.graph)
        &&& belongs(self.pivot_hint, context.graph)
        &&& self.universe.wf()
        &&& fits(self.target@, graph_encoding(context.graph))
        &&& forall|o: GraphColoredVertices| #[trigger] self.universe.delivers(&o) ==> belongs(o, context.graph) && members(o) == self.target@
    }

    /// Advance the trimming by one step. When it is done: the search of the universe ends
    /// with `None` if nothing is left of it after trimming and the long-lived filter. Else
    /// the pivot is picked: among the hinted pairs that are left; if there are none, among
    /// the successors within the universe of what trimming removed; if there are none
    /// either, anywhere in the universe. Then the computation of its basin is set up.
    pub fn try_advance<BWD: ReachabilityAlgorithm>(&mut self, context: &SccConfig) -> (r: Completable<Option<Step2<BWD>>>)
        requires
            old(self).wf(context),
            !BWD::forward(),
        ensures
            final(self).wf(context),
            final(self).full_universe == old(self).full_universe,
            final(self).pivot_hint == old(self).pivot_hint,
            final(self).target == old(self).target,
            r == Err::<Option<Step2<BWD>>, Incomplete>(Incomplete::Working) ==> final(self).universe.fuel() < old(self).universe.fuel(),
            r matches Ok(Some(next)) ==> {
                &&& next.wf(context)
                &&& members(next.universe) == context.lasting(old(self).target@)
                &&& picks_one_vertex_per_color(members(next.pivot), pivot_candidates(context, members(old(self).full_universe), members(old(self).pivot_hint), members(next.universe)))
            },
            r matches Ok(None) ==> context.lasting(old(self).target@).is_empty(),
    {
        let outcome = match self.universe.try_compute() {
            Ok(found) => {
                let trimmed = clone_set(found);
                assert(old(self).universe.delivers(&trimmed));
                Ok(trimmed)
            },
            Err(e) => Err(e),
        };
        self.settle::<BWD>(context, outcome)
    }

    /// What the trimming phase makes of the outcome of a step of the trimming. An error is
    /// handed on. A trimmed universe goes through the long-lived filter; if nothing is left
    /// of it, the search of the universe ends with `None`. Else the pivot is picked, one
    /// vertex for every colour of the candidates: the hinted pairs that are left; if there
    /// are none, the successors within the universe of what trimming removed; if there are
    /// none either, all that is left. Then the computation of its basin is set up.
    pub fn settle<BWD: ReachabilityAlgorithm>(&self, context: &SccConfig, outcome: Completable<GraphColoredVertices>) -> (r: Completable<Option<Step2<BWD>>>)
        requires
            !BWD::forward(),
            belongs(self.full_universe, context.graph),
            belongs(self.pivot_hint, context.graph),
            outcome matches Ok(set) ==> belongs(set, context.graph),
        ensures
            match outcome {
                Err(e) => r matches Err(handed) && handed == e,
                Ok(trimmed) => r matches Ok(next) && match next {
                    None => context.lasting(members(trimmed)).is_empty(),
                    Some(next) => {
                        &&& next.wf(context)
                        &&& members(next.universe) == context.lasting(members(trimmed))
                        &&& picks_one_vertex_per_color(members(next.pivot), pivot_candidates(context, members(self.full_universe), members(self.pivot_hint), members(next.universe)))
                    },
                },
            },
    {
        let trimmed = match outcome {
            Ok(trimmed) => trimmed,
            Err(e) => {
                return Err(e);
            },
        };
        if is_empty(&trimmed) {
            proof {
                assert(crate::scc::long_lived(context.graph, Set::empty()) =~= Set::empty());
                assert(members(trimmed) =~= Set::empty());
                assert(context.lasting(members(trimmed)).is_empty());
            }
            return Ok(None);
        }
        let universe = match context.apply_long_lived_filter(&trimmed) {
            Some(universe) => universe,
            None => {
                return Ok(None);
            },
        };
        let mut pivot_hint = intersect(&universe, &self.pivot_hint);
        if is_empty(&pivot_hint) {
            // Trimming has removed all hinted pairs: look at the border of what it removed.
            let removed = minus(&self.full_universe, &universe);
            pivot_hint = find_hint(&Probe::Post, &context.graph, &removed, &universe);
        }
        let pivot = if is_empty(&pivot_hint) {
            pick_vertex(&universe)
        } else {
            pick_vertex(&pivot_hint)
        };
        let graph = restrict(&context.graph, &universe);
        let config = ReachabilityConfig::new(graph);
        let initial = ReachabilityState { iteration: 0, set: clone_set(&pivot) };
        proof {
            lemma_restricted_moves(context.graph, config.graph, members(universe));
            let candidates = pivot_candidates(context, members(self.full_universe), members(self.pivot_hint), members(universe));
            assert(candidates.subset_of(members(universe)));
            assert(!candidates.is_empty());
            assert(members(pivot).subset_of(members(universe)));
            assert(belongs(pivot, config.graph));
            BWD::reaches(&config, &initial);
            let witness = choose|x: ColoredVertex| candidates.contains(x);
            assert(crate::symbolic::colors_of(members(pivot)).contains(witness.1));
        }
        let basin = BWD::configure(config, initial);
        Ok(Some(Step2 { basin, universe, pivot }))
    }
}

/// The pairs among which the pivot of the trimmed universe `u` is picked: the hinted pairs
/// that are left; if there are none, the hint from the successors of what trimming removed
/// of `full`; if that is empty too, all of `u`.
pub open spec fn pivot_candidates(context: &SccConfig, full: Set<ColoredVertex>, hint: Set<ColoredVertex>, u: Set<ColoredVertex>) -> Set<ColoredVertex> {
    if !u.intersect(hint).is_empty() {
        u.intersect(hint)
    } else {
        let border = hint_from(Probe::Post, context.graph, full.difference(u), u, variable_count(context.graph));
        if !border.is_empty() {
            border
        } else {
            u
        }
    }
}

impl<BWD: ReachabilityAlgorithm> Step2<BWD> {
    /// The pivot is not empty and lies in the universe, and the computation ends with what
    /// reaches the pivot within the universe.
    pub open spec fn wf(&self, context: &SccConfig) -> bool {
        &&& !BWD::forward()
        &&& belongs(self.pivot, context.graph)
        &&& belongs(self.universe, context.graph)
        &&& !members(self.pivot).is_empty()
        &&& members(self.pivot).subset_of(members(self.universe))
        &&& one_per_color(members(self.pivot))
        &&& self.basin.ready()
        &&& forall|o: GraphColoredVertices| #[trigger] self.basin.ends_with(&o) ==> belongs(o, context.graph) && members(o) == reach(converse(inner(context.graph, members(self.universe))), members(self.pivot))
    }

    /// Advance the computation of the basin by one step. When it is done, the computation
    /// of what the pivot reaches within the basin is set up.
    pub fn try_advance<FWD: ReachabilityAlgorithm>(&mut self, context: &SccConfig) -> (r: Completable<Step3<FWD>>)
        requires
            old(self).wf(context),
            FWD::forward(),
        ensures
            final(self).pivot == old(self).pivot,
            r is Err ==> final(self).wf(context) && final(self).universe == old(self).universe,
            r == Err::<Step3<FWD>, Incomplete>(Incomplete::Working) ==> final(self).basin.effort() < old(self).basin.effort(),
            r matches Ok(next) ==> {
                &&& next.universe == old(self).universe
                &&& next.pivot@ == members(old(self).pivot)
                &&& next.wf(context)
            },
    {
        let outcome = match self.basin.try_compute() {
            Ok(found) => {
                let basin = clone_set(found);
                assert(old(self).basin.ends_with(&basin));
                Ok(basin)
            },
            Err(e) => Err(e),
        };
        self.settle::<FWD>(context, outcome)
    }

    /// What the basin phase makes of the outcome of a step of its computation. An error is
    /// handed on and the phase stays as it is. The basin ends the phase: with it, the
    /// universe and the pivot, the computation of what the pivot reaches within the basin
    /// is set up.
    pub fn settle<FWD: ReachabilityAlgorithm>(&mut self, context: &SccConfig, outcome: Completable<GraphColoredVertices>) -> (r: Completable<Step3<FWD>>)
        requires
            FWD::forward(),
            belongs(old(self).pivot, context.graph),
            belongs(old(self).universe, context.graph),
            !members(old(self).pivot).is_empty(),
            members(old(self).pivot).subset_of(members(old(self).universe)),
            one_per_color(members(old(self).pivot)),
            outcome matches Ok(set) ==> belongs(set, context.graph) && members(set) == reach(converse(inner(context.graph, members(old(self).universe))), members(old(self).pivot)),
        ensures
            final(self).pivot == old(self).pivot,
            match outcome {
                Err(e) => *final(self) == *old(self) && (r matches Err(handed) && handed == e),
                Ok(basin) => r matches Ok(next) && {
                    &&& next.universe == old(self).universe
                    &&& next.basin == basin
                    &&& next.pivot@ == members(old(self).pivot)
                    &&& next.wf(context)
                },
            },
    {
        let basin = match outcome {
            Ok(basin) => basin,
            Err(e) => {
                return Err(e);
            },
        };
        let basin_graph = restrict(&context.graph, &basin);
        let config = ReachabilityConfig::new(basin_graph);
        let initial = ReachabilityState { iteration: 0, set: clone_set(&self.pivot) };
        proof {
            lemma_restricted_moves(context.graph, config.graph, members(basin));
            lemma_reach_inside(context.graph, members(self.universe), members(self.pivot));
            lemma_reach_in_basin(context.graph, members(self.universe), members(self.pivot));
            assert(belongs(self.pivot, config.graph));
            FWD::reaches(&config, &initial);
        }
        let mut result = Step3 {
            scc: FWD::configure(config, initial),
            universe: mk_empty_colored_vertices(&context.graph),
            basin,
            pivot: Ghost(members(self.pivot)),
        };
        core::mem::swap(&mut result.universe, &mut self.universe);
        Ok(result)
    }
}

impl<FWD: ReachabilityAlgorithm> Step3<FWD> {
    /// The pivots are not empty and lie in the universe, the basin is what reaches them
    /// within the universe, and the computation ends with their raw component.
    pub open spec fn wf(&self, context: &SccConfig) -> bool {
        &&& FWD::forward()
        &&& belongs(self.universe, context.graph)
        &&& belongs(self.basin, context.graph)
        &&& !self.pivot@.is_empty()
        &&& self.pivot@.subset_of(members(self.universe))
        &&& one_per_color(self.pivot@)
        &&& members(self.basin) == reach(converse(inner(context.graph, members(self.universe))), self.pivot@)
        &&& self.scc.ready()
        &&& forall|o: GraphColoredVertices| #[trigger] self.scc.ends_with(&o) ==> belongs(o, context.graph) && members(o) == meet(context.graph, members(self.universe), self.pivot@)
    }

    /// Advance the computation of the component by one step. When it is done, the universe,
    /// the basin and the raw component are handed out.
    pub fn try_advance(&mut self, context: &SccConfig) -> (r: Completable<IterationResult>)
        requires
            old(self).wf(context),
        ensures
            final(self).pivot == old(self).pivot,
            r is Err ==> final(self).wf(context) && final(self).universe == old(self).universe && final(self).basin == old(self).basin,
            r == Err::<IterationResult, Incomplete>(Incomplete::Working) ==> final(self).scc.effort() < old(self).scc.effort(),
            r matches Ok(result) ==> {
                &&& result.universe == old(self).universe
                &&& result.basin == old(self).basin
                &&& belongs(result.raw_scc, context.graph)
                &&& members(result.raw_scc) == meet(context.graph, members(result.universe), old(self).pivot@)
            },
    {
        let outcome = match self.scc.try_compute() {
            Ok(found) => {
                let raw_scc = clone_set(found);
                assert(old(self).scc.ends_with(&raw_scc));
                Ok(raw_scc)
            },
            Err(e) => Err(e),
        };
        self.settle(context, outcome)
    }

    /// What the component phase makes of the outcome of a step of its computation. An
    /// error is handed on and the phase stays as it is. The raw component ends the search
    /// of the universe: it is handed out with the universe and the basin.
    pub fn settle(&mut self, context: &SccConfig, outcome: Completable<GraphColoredVertices>) -> (r: Completable<IterationResult>)
        ensures
            final(self).pivot == old(self).pivot,
            final(self).scc == old(self).scc,
            match outcome {
                Err(e) => *final(self) == *old(self) && (r matches Err(handed) && handed == e),
                Ok(raw_scc) => r matches Ok(result) && {
                    &&& result.universe == old(self).universe
                    &&& result.basin == old(self).basin
                    &&& result.raw_scc == raw_scc
                },
            },
    {
        let raw_scc = match outcome {
            Ok(raw_scc) => raw_scc,
            Err(e) => {
                return Err(e);
            },
        };
        let mut result = IterationResult {
            universe: mk_empty_colored_vertices(&context.graph),
            basin: mk_empty_colored_vertices(&context.graph),
            raw_scc,
        };
        core::mem::swap(&mut result.universe, &mut self.universe);
        core::mem::swap(&mut result.basin, &mut self.basin);
        Ok(result)
    }
}

impl<FWD: ReachabilityAlgorithm, BWD: ReachabilityAlgorithm> Step<FWD, BWD> {
    /// The phase is in order.
    pub open spec fn wf(&self, context: &SccConfig) -> bool {
        match self {
            Step::Idle => true,
            Step::Trimming(step) => step.wf(context),
            Step::Basin(step) => step.wf(context),
            Step::Scc(step) => step.wf(context),
        }
    }

    /// The pairs that the phase is still concerned with.
    pub open spec fn region(&self) -> Set<ColoredVertex> {
        match self {
            Step::Idle => Set::empty(),
            Step::Trimming(step) => step.target@,
            Step::Basin(step) => members(step.universe),
            Step::Scc(step) => members(step.universe),
        }
    }

    /// The weight of the phase: that of its universe, less from phase to phase.
    pub open spec fn weight(&self) -> nat {
        match self {
            Step::Idle => 0,
            Step::Trimming(step) => 16 * step.target@.len() + 3,
            Step::Basin(step) => 16 * members(step.universe).len() + 2,
            Step::Scc(step) => 16 * members(step.universe).len() + 1,
        }
    }

    /// The steps that the computation of the phase can still take.
    pub open spec fn steps(&self) -> nat {
        match self {
            Step::Idle => 0,
            Step::Trimming(step) => step.universe.fuel(),
            Step::Basin(step) => step.basin.effort(),
            Step::Scc(step) => step.scc.effort(),
        }
    }
}

impl<FWD: ReachabilityAlgorithm, BWD: ReachabilityAlgorithm> Step<FWD, BWD> {
    /// The universe of the phase lies in the base universe and is a union of its components.
    pub open spec fn rooted(&self, context: &SccConfig, base: Set<ColoredVertex>) -> bool {
        self.region().subset_of(base) && whole(inner(context.graph, base), self.region())
    }
}

/// Every universe of the list lies in the base universe and is a union of its components.
pub open spec fn all_rooted(list: Seq<Step0>, graph: SymbolicAsyncGraph, base: Set<ColoredVertex>) -> bool {
    forall|i: int| 0 <= i < list.len() ==> members((#[trigger] list[i]).full_universe).subset_of(base) && whole(inner(graph, base), members(list[i].full_universe))
}

/// Put a part of a searched universe back on the worklist, unless it is empty. Its hint is
/// taken from the neighbours of the component: the answers to the probe for the component,
/// cut down to the part.
pub(crate) fn enqueue(to_process: &mut Vec<Step0>, part: GraphColoredVertices, kind: &Probe, raw_scc: &GraphColoredVertices, graph: &SymbolicAsyncGraph, Ghost(base): Ghost<Set<ColoredVertex>>)
    requires
        all_in_order(old(to_process)@, *graph),
        all_rooted(old(to_process)@, *graph, base),
        belongs(part, *graph),
        belongs(*raw_scc, *graph),
        members(part).subset_of(base),
        whole(inner(*graph, base), members(part)),
        apart(universes_of(old(to_process)@)),
        union_all(universes_of(old(to_process)@)).disjoint(members(part)),
    ensures
        all_in_order(final(to_process)@, *graph),
        all_rooted(final(to_process)@, *graph, base),
        apart(universes_of(final(to_process)@)),
        final(to_process)@.subrange(0, old(to_process)@.len() as int) == old(to_process)@,
        universes_of(final(to_process)@) == with_part(universes_of(old(to_process)@), members(part)),
        members(part).is_empty() ==> final(to_process)@ == old(to_process)@,
        !members(part).is_empty() ==> final(to_process)@.len() == old(to_process)@.len() + 1 && final(to_process)@.drop_last() == old(to_process)@ && final(to_process)@.last().full_universe == part && members(final(to_process)@.last().pivot_hint) == hint_from(*kind, *graph, members(*raw_scc), members(part), variable_count(*graph)),
        union_all(universes_of(final(to_process)@)) == union_all(universes_of(old(to_process)@)).union(members(part)),
        total_weight(universes_of(final(to_process)@)) <= total_weight(universes_of(old(to_process)@)) + 16 * members(part).len() + 4,
{
    if !is_empty(&part) {
        let hint = find_hint(kind, graph, raw_scc, &part);
        let entry = Step0 { full_universe: part, pivot_hint: hint };
        proof {
            lemma_total_push(universes_of(to_process@), members(part));
            lemma_apart_push(universes_of(to_process@), members(part));
            assert(universes_of(to_process@.push(entry)) =~= universes_of(to_process@).push(members(part)));
            assert(to_process@.push(entry).drop_last() =~= to_process@);
            assert(to_process@.push(entry).subrange(0, to_process@.len() as int) =~= to_process@);
        }
        to_process.push(entry);
    } else {
        assert(to_process@.subrange(0, to_process@.len() as int) =~= to_process@);
        assert(union_all(universes_of(to_process@)).union(members(part)) =~= union_all(universes_of(to_process@)));
    }
}

/// The entries of the list from position `from` on have the hints that the component `raw`
/// gives them: a part of the basin the first answer, from the greatest variable down, of
/// the predecessors of the component outside it, cut down to the part; another part the
/// same of the successors.
pub open spec fn hinted(list: Seq<Step0>, from: int, graph: SymbolicAsyncGraph, raw: Set<ColoredVertex>, basin: Set<ColoredVertex>) -> bool {
    forall|k: int| from <= k < list.len() ==> members((#[trigger] list[k]).pivot_hint) == hint_from(
        if members(list[k].full_universe).subset_of(basin) {
            Probe::PreOut
        } else {
            Probe::PostOut
        },
        graph,
        raw,
        members(list[k].full_universe),
        variable_count(graph),
    )
}

/// Put the two parts of a searched universe beside the component of its pivot back on the
/// worklist: the rest of the basin, hinted by the predecessors of the component, and the
/// rest of the universe, hinted by the successors of the component.
pub(crate) fn enqueue_parts(to_process: &mut Vec<Step0>, result: &IterationResult, graph: &SymbolicAsyncGraph, Ghost(base): Ghost<Set<ColoredVertex>>, Ghost(pivot): Ghost<ColoredVertex>)
    requires
        all_in_order(old(to_process)@, *graph),
        all_rooted(old(to_process)@, *graph, base),
        belongs(result.universe, *graph),
        belongs(result.basin, *graph),
        belongs(result.raw_scc, *graph),
        members(result.universe).subset_of(base),
        members(result.basin).subset_of(members(result.universe)),
        members(result.raw_scc).subset_of(members(result.basin)),
        members(result.raw_scc).contains(pivot),
        whole(inner(*graph, base), members(result.basin).difference(members(result.raw_scc))),
        whole(inner(*graph, base), members(result.universe).difference(members(result.basin))),
        apart(universes_of(old(to_process)@)),
        union_all(universes_of(old(to_process)@)).disjoint(members(result.universe)),
    ensures
        all_in_order(final(to_process)@, *graph),
        all_rooted(final(to_process)@, *graph, base),
        apart(universes_of(final(to_process)@)),
        union_all(universes_of(final(to_process)@)) == union_all(universes_of(old(to_process)@)).union(members(result.universe).difference(members(result.raw_scc))),
        final(to_process)@.subrange(0, old(to_process)@.len() as int) == old(to_process)@,
        universes_of(final(to_process)@) == with_part(with_part(universes_of(old(to_process)@), members(result.basin).difference(members(result.raw_scc))), members(result.universe).difference(members(result.basin))),
        hinted(final(to_process)@, old(to_process)@.len() as int, *graph, members(result.raw_scc), members(result.basin)),
        total_weight(universes_of(final(to_process)@)) + 8 <= total_weight(universes_of(old(to_process)@)) + 16 * members(result.universe).len(),
{
    let ghost u = members(result.universe);
    let ghost b = members(result.basin);
    let ghost c = members(result.raw_scc);
    let ghost waiting = union_all(universes_of(to_process@));
    proof {
        lemma_fits_finite(u, graph_encoding(*graph));
        lemma_two_parts(u, b, c, pivot);
    }
    let remaining_basin = minus(&result.basin, &result.raw_scc);
    let remaining_rest = minus(&result.universe, &result.basin);
    enqueue(to_process, remaining_basin, &Probe::PreOut, &result.raw_scc, graph, Ghost(base));
    let ghost first = to_process@;
    enqueue(to_process, remaining_rest, &Probe::PostOut, &result.raw_scc, graph, Ghost(base));
    proof {
        let n = old(to_process)@.len() as int;
        assert(to_process@.subrange(0, n) =~= to_process@.subrange(0, first.len() as int).subrange(0, n));
        assert(to_process@.subrange(0, n) =~= old(to_process)@);
        assert forall|k: int| n <= k < to_process@.len() implies members((#[trigger] to_process@[k]).pivot_hint) == hint_from(
            if members(to_process@[k].full_universe).subset_of(b) {
                Probe::PreOut
            } else {
                Probe::PostOut
            },
            *graph,
            c,
            members(to_process@[k].full_universe),
            variable_count(*graph),
        ) by {
            if k < first.len() {
                assert(to_process@.subrange(0, first.len() as int)[k] == to_process@[k]);
                assert(first[k] == first.last());
                assert(members(first[k].full_universe) == b.difference(c));
            } else {
                assert(to_process@[k] == to_process@.last());
                let part = u.difference(b);
                assert(members(to_process@[k].full_universe) == part);
                let w = choose|w: ColoredVertex| part.contains(w);
                assert(!b.contains(w));
            }
        }
        let parts = b.difference(c).union(u.difference(b));
        assert(parts =~= u.difference(c));
        assert(union_all(universes_of(to_process@)) =~= waiting.union(parts));
    }
}

impl<FWD: ReachabilityAlgorithm, BWD: ReachabilityAlgorithm> ChainState<FWD, BWD> {
    /// The pairs that the search is still concerned with.
    pub open spec fn region(&self) -> Set<ColoredVertex> {
        union_all(universes_of(self.to_process@)).union(self.computing.region())
    }

    /// The weight of the work that is left.
    pub open spec fn weight(&self) -> nat {
        total_weight(universes_of(self.to_process@)) + self.computing.weight()
    }
}

impl<FWD: ReachabilityAlgorithm, BWD: ReachabilityAlgorithm> ChainStep<FWD, BWD> {
    /// The state is in order: the directions of the two algorithms are right, the waiting
    /// entries belong to the graph, and so does what is being computed; and every
    /// universe, waiting or being searched, is a union of components of the base universe
    /// and has no pair in common with another.
    pub open spec fn in_order(context: &SccConfig, state: &ChainState<FWD, BWD>) -> bool {
        &&& FWD::forward()
        &&& !BWD::forward()
        &&& all_in_order(state.to_process@, context.graph)
        &&& all_rooted(state.to_process@, context.graph, state.base@)
        &&& apart(universes_of(state.to_process@))
        &&& union_all(universes_of(state.to_process@)).disjoint(state.computing.region())
        &&& state.computing.wf(context)
        &&& state.computing.rooted(context, state.base@)
    }

    /// The measure of the work that is left.
    pub open spec fn measure(state: &ChainState<FWD, BWD>) -> nat {
        rank(state.weight(), state.computing.steps())
    }

    /// What one step achieves: the state stays in order and the region does not grow; an
    /// item is made up of components of the base universe that are worth reporting and
    /// shares no pair with the region that is left; nothing that is worth reporting leaves
    /// the region except in an item; the phases follow one another in their order, and the
    /// worklist changes only when a universe is taken from it or when the search of a
    /// universe ends, which puts parts of the universe on top of it; the end is reported
    /// when nothing is left, and only then; from idle, the step takes the universe that was put on the worklist last and
    /// is not cancelled; and unless the step is cancelled or reports the end, the measure
    /// gets less.
    pub open spec fn advanced(context: &SccConfig, before: &ChainState<FWD, BWD>, after: &ChainState<FWD, BWD>, r: &Completable<Option<GraphColoredVertices>>) -> bool {
        &&& Self::in_order(context, after)
        &&& after.base == before.base
        &&& after.region().subset_of(before.region())
        &&& (r matches Ok(Some(item)) ==> found_in(context, before.base@, before.region(), &item) && members(*item).disjoint(after.region()))
        &&& nothing_lost(context, before.base@, before.region(), after.region(), match *r {
            Ok(Some(item)) => Some(item),
            _ => None,
        })
        &&& (r matches Ok(None) ==> after.computing == before.computing && after.to_process@ == before.to_process@ && before.computing is Idle && before.to_process@.len() == 0)
        &&& (before.computing is Trimming ==> after.to_process == before.to_process && (after.computing is Trimming || after.computing is Idle || after.computing is Basin))
        &&& (before.computing is Basin ==> after.to_process == before.to_process && (after.computing is Basin || after.computing is Scc))
        &&& (before.computing is Scc ==> (after.computing is Scc && after.to_process == before.to_process) || (after.computing is Idle && after.to_process@.len() >= before.to_process@.len() && after.to_process@.subrange(0, before.to_process@.len() as int) == before.to_process@))
        &&& (before.computing is Idle ==> if before.to_process@.len() == 0 {
            r matches Ok(None)
        } else {
            (r matches Err(Incomplete::Working)) && after.to_process@ == before.to_process@.drop_last()
        })
        &&& ((r matches Ok(Some(_))) || (r matches Err(Incomplete::Working)) ==> Self::measure(after) < Self::measure(before))
    }

    /// From idle: take the next entry from the worklist, apply the long-lived filter to its
    /// universe and start to trim what is left. With an empty worklist the search has ended.
    fn start_next(context: &SccConfig, state: &mut ChainState<FWD, BWD>) -> (r: Completable<Option<GraphColoredVertices>>)
        requires
            Self::in_order(context, old(state)),
            old(state).computing is Idle,
        ensures
            Self::advanced(context, old(state), final(state), &r),
    {
        let ghost encoding = graph_encoding(context.graph);
        let ghost waiting = universes_of(state.to_process@);
        let ghost base = state.base@;
        let mut todo = match state.to_process.pop() {
            Some(todo) => todo,
            None => {
                return Ok(None);
            },
        };
        let ghost taken = members(todo.full_universe);
        proof {
            lemma_total_pop(waiting);
            assert(universes_of(state.to_process@) =~= waiting.drop_last());
            assert(waiting.last() == taken);
            assert(todo == old(state).to_process@[old(state).to_process@.len() - 1]);
            lemma_fits_finite(taken, encoding);
            lemma_lasting(context, base, taken);
            lemma_apart_pop(waiting);
            assert(old(state).region() =~= union_all(waiting.drop_last()).union(taken));
        }
        let full_universe = match context.apply_long_lived_filter(&todo.full_universe) {
            Some(kept) => kept,
            None => {
                // Nothing of the universe is long-lived.
                proof {
                    lemma_rank_less(old(state).weight(), 0, state.weight(), 0);
                    assert(state.region() =~= union_all(waiting.drop_last()));
                }
                return Err(Incomplete::Working);
            },
        };
        let ghost kept = members(full_universe);
        todo.full_universe = full_universe;
        let trimming = todo.advance(context);
        proof {
            trimming.universe.fuel_bounded();
            lemma_smaller(kept, taken);
            lemma_smaller(trimming.target@, kept);
            lemma_trimming(context, base, kept);
        }
        state.computing = Step::Trimming(trimming);
        proof {
            lemma_rank_less(old(state).weight(), 0, state.weight(), state.computing.steps());
            assert(state.region() =~= union_all(waiting.drop_last()).union(trimming.target@));
        }
        Err(Incomplete::Working)
    }

    /// While trimming: advance the trimming; when it is done, go on to the basin, or back
    /// to idle if nothing is left of the universe.
    fn advance_trimming(context: &SccConfig, state: &mut ChainState<FWD, BWD>, step: Step1, Ghost(before): Ghost<ChainState<FWD, BWD>>) -> (r: Completable<Option<GraphColoredVertices>>)
        requires
            Self::in_order(context, &before),
            before.computing == Step::<FWD, BWD>::Trimming(step),
            before.to_process == old(state).to_process,
            before.base == old(state).base,
            old(state).computing is Idle,
        ensures
            Self::advanced(context, &before, final(state), &r),
    {
        let mut step = step;
        let outcome = step.try_advance::<BWD>(context);
        Self::place_trimming(context, state, step, outcome, Ghost(before))
    }

    /// What the search makes of the outcome of a step of the trimming phase, `step` being
    /// the phase as that step left it and `before` the state before it. An error puts the
    /// phase back and is handed on. `None` says that nothing is left of the universe: the
    /// search is idle again. Else the basin phase follows. The answer is `Working` in both
    /// cases, and the worklist stays.
    pub fn place_trimming(context: &SccConfig, state: &mut ChainState<FWD, BWD>, step: Step1, outcome: Completable<Option<Step2<BWD>>>, Ghost(before): Ghost<ChainState<FWD, BWD>>) -> (r: Completable<Option<GraphColoredVertices>>)
        requires
            Self::in_order(context, &before),
            before.computing is Trimming,
            before.to_process == old(state).to_process,
            before.base == old(state).base,
            old(state).computing is Idle,
            step.wf(context),
            step.target == before.computing->Trimming_0.target,
            outcome == Err::<Option<Step2<BWD>>, Incomplete>(Incomplete::Working) ==> step.universe.fuel() < before.computing->Trimming_0.universe.fuel(),
            outcome matches Ok(Some(next)) ==> next.wf(context) && members(next.universe) == context.lasting(step.target@),
            outcome matches Ok(None) ==> context.lasting(step.target@).is_empty(),
        ensures
            Self::advanced(context, &before, final(state), &r),
            match outcome {
                Err(e) => Self::put_back(old(state), final(state), Step::Trimming(step), e, &r),
                Ok(None) => Self::moved_on(old(state), final(state), Step::Idle, &r),
                Ok(Some(next)) => Self::moved_on(old(state), final(state), Step::Basin(next), &r),
            },
    {
        let ghost target = step.target@;
        let ghost base = state.base@;
        proof {
            lemma_fits_finite(target, graph_encoding(context.graph));
            lemma_lasting(context, base, target);
        }
        match outcome {
            Err(e) => {
                proof {
                    step.universe.fuel_bounded();
                }
                state.computing = Step::Trimming(step);
                proof {
                    if e == Incomplete::Working {
                        lemma_rank_less(before.weight(), before.computing.steps(), state.weight(), state.computing.steps());
                    }
                }
                Err(e)
            },
            Ok(None) => {
                // Nothing is left of the universe.
                proof {
                    lemma_rank_less(before.weight(), before.computing.steps(), state.weight(), 0);
                }
                Err(Incomplete::Working)
            },
            Ok(Some(trimmed)) => {
                proof {
                    lemma_smaller(members(trimmed.universe), target);
                    trimmed.basin.effort_bounded();
                }
                state.computing = Step::Basin(trimmed);
                proof {
                    lemma_rank_less(before.weight(), before.computing.steps(), state.weight(), state.computing.steps());
                }
                Err(Incomplete::Working)
            },
        }
    }

    /// While computing the basin: advance the computation; when it is done, go on to the
    /// component.
    fn advance_basin(context: &SccConfig, state: &mut ChainState<FWD, BWD>, step: Step2<BWD>, Ghost(before): Ghost<ChainState<FWD, BWD>>) -> (r: Completable<Option<GraphColoredVertices>>)
        requires
            Self::in_order(context, &before),
            before.computing == Step::<FWD, BWD>::Basin(step),
            before.to_process == old(state).to_process,
            before.base == old(state).base,
            old(state).computing is Idle,
        ensures
            Self::advanced(context, &before, final(state), &r),
    {
        let mut step = step;
        let outcome = step.try_advance::<FWD>(context);
        Self::place_basin(context, state, step, outcome, Ghost(before))
    }

    /// What the search makes of the outcome of a step of the basin phase, `step` being the
    /// phase as that step left it and `before` the state before it. An error puts the
    /// phase back and is handed on. Else the component phase follows, and the answer is
    /// `Working`. The worklist stays.
    pub fn place_basin(context: &SccConfig, state: &mut ChainState<FWD, BWD>, step: Step2<BWD>, outcome: Completable<Step3<FWD>>, Ghost(before): Ghost<ChainState<FWD, BWD>>) -> (r: Completable<Option<GraphColoredVertices>>)
        requires
            Self::in_order(context, &before),
            before.computing is Basin,
            before.to_process == old(state).to_process,
            before.base == old(state).base,
            old(state).computing is Idle,
            step.pivot == before.computing->Basin_0.pivot,
            outcome is Err ==> step.wf(context) && step.universe == before.computing->Basin_0.universe,
            outcome == Err::<Step3<FWD>, Incomplete>(Incomplete::Working) ==> step.basin.effort() < before.computing->Basin_0.basin.effort(),
            outcome matches Ok(next) ==> {
                &&& next.universe == before.computing->Basin_0.universe
                &&& next.pivot@ == members(before.computing->Basin_0.pivot)
                &&& next.wf(context)
            },
        ensures
            Self::advanced(context, &before, final(state), &r),
            match outcome {
                Err(e) => Self::put_back(old(state), final(state), Step::Basin(step), e, &r),
                Ok(next) => Self::moved_on(old(state), final(state), Step::Scc(next), &r),
            },
    {
        match outcome {
            Err(e) => {
                proof {
                    step.basin.effort_bounded();
                }
                state.computing = Step::Basin(step);
                proof {
                    if e == Incomplete::Working {
                        lemma_rank_less(before.weight(), before.computing.steps(), state.weight(), state.computing.steps());
                    }
                }
                Err(e)
            },
            Ok(next) => {
                proof {
                    next.scc.effort_bounded();
                }
                state.computing = Step::Scc(next);
                proof {
                    lemma_rank_less(before.weight(), before.computing.steps(), state.weight(), state.computing.steps());
                }
                Err(Incomplete::Working)
            },
        }
    }

    /// What the end of the search of a universe makes of the state: the worklist is the one
    /// before with, on top of it and in this order, those that are not empty of the rest of
    /// the basin and the rest of the universe, each with the hint that the component gives
    /// it; the phase is idle; and what the filter leaves of the component is handed out,
    /// or, if it leaves nothing, the answer is `Working`.
    pub open spec fn universe_finished(context: &SccConfig, before: &ChainState<FWD, BWD>, after: &ChainState<FWD, BWD>, result: &IterationResult, r: &Completable<Option<GraphColoredVertices>>) -> bool {
        let u = members(result.universe);
        let b = members(result.basin);
        let c = members(result.raw_scc);
        &&& after.computing is Idle
        &&& after.base == before.base
        &&& after.to_process@.subrange(0, before.to_process@.len() as int) == before.to_process@
        &&& universes_of(after.to_process@) == with_part(with_part(universes_of(before.to_process@), b.difference(c)), u.difference(b))
        &&& hinted(after.to_process@, before.to_process@.len() as int, context.graph, c, b)
        &&& match *r {
            Ok(Some(item)) => belongs(item, context.graph) && members(item) == filtered(context, c) && !members(item).is_empty(),
            Err(Incomplete::Working) => filtered(context, c).is_empty(),
            _ => false,
        }
    }

    /// What a phase makes of an error of its computation: the phase is put back as the
    /// computation left it, the worklist stays, and the error is handed on.
    pub open spec fn put_back(before: &ChainState<FWD, BWD>, after: &ChainState<FWD, BWD>, phase: Step<FWD, BWD>, e: Incomplete, r: &Completable<Option<GraphColoredVertices>>) -> bool {
        &&& after.computing == phase
        &&& after.to_process == before.to_process
        &&& after.base == before.base
        &&& *r matches Err(handed) && handed == e
    }

    /// What a phase makes of the end of its computation when another phase follows: the
    /// next phase is set, the worklist stays, and the answer is `Working`.
    pub open spec fn moved_on(before: &ChainState<FWD, BWD>, after: &ChainState<FWD, BWD>, phase: Step<FWD, BWD>, r: &Completable<Option<GraphColoredVertices>>) -> bool {
        &&& after.computing == phase
        &&& after.to_process == before.to_process
        &&& after.base == before.base
        &&& *r matches Err(Incomplete::Working)
    }

    /// The search of a universe is over: put the two parts of the universe beside the
    /// component back on the worklist and report what the filter leaves of the component.
    pub fn finish_universe(context: &SccConfig, state: &mut ChainState<FWD, BWD>, result: IterationResult, Ghost(before): Ghost<ChainState<FWD, BWD>>, Ghost(x): Ghost<ColoredVertex>) -> (r: Completable<Option<GraphColoredVertices>>)
        requires
            FWD::forward(),
            !BWD::forward(),
            all_in_order(old(state).to_process@, context.graph),
            all_rooted(old(state).to_process@, context.graph, before.base@),
            apart(universes_of(old(state).to_process@)),
            union_all(universes_of(old(state).to_process@)).disjoint(members(result.universe)),
            old(state).computing is Idle,
            before.to_process == old(state).to_process,
            before.base == old(state).base,
            before.computing is Scc,
            before.computing.region() == members(result.universe),
            before.computing.weight() == 16 * members(result.universe).len() + 1,
            belongs(result.universe, context.graph),
            belongs(result.basin, context.graph),
            belongs(result.raw_scc, context.graph),
            members(result.universe).subset_of(before.base@),
            members(result.basin).subset_of(members(result.universe)),
            members(result.raw_scc).subset_of(members(result.basin)),
            members(result.raw_scc).contains(x),
            whole(inner(context.graph, before.base@), members(result.basin).difference(members(result.raw_scc))),
            whole(inner(context.graph, before.base@), members(result.universe).difference(members(result.basin))),
            reported(context, before.base@, filtered(context, members(result.raw_scc))),
            forall|y: ColoredVertex| members(result.raw_scc).contains(y) && #[trigger] reportable(context, before.base@, y) ==> filtered(context, members(result.raw_scc)).contains(y),
        ensures
            Self::advanced(context, &before, final(state), &r),
            Self::universe_finished(context, old(state), final(state), &result, &r),
    {
        let ghost u = members(result.universe);
        let ghost raw = members(result.raw_scc);
        let ghost waiting = universes_of(state.to_process@);
        // The rest of the universe goes back to the worklist.
        enqueue_parts(&mut state.to_process, &result, &context.graph, Ghost(state.base@), Ghost(x));
        proof {
            let after = universes_of(state.to_process@);
            assert(state.computing.weight() == 0);
            assert(state.weight() == total_weight(after));
            assert(before.weight() == total_weight(waiting) + 16 * u.len() + 1);
            lemma_rank_less(before.weight(), before.computing.steps(), state.weight(), 0);
            assert(union_all(after).subset_of(union_all(waiting).union(u)));
            assert(state.region() =~= union_all(after));
            assert(before.region() == union_all(waiting).union(u));
            assert(filtered(context, raw).subset_of(raw)) by {
                assert(crate::scc::non_trivial(raw).subset_of(raw));
            }
        }
        // Remove the colours in which the component is a single vertex.
        match filter_scc(context, result.raw_scc) {
            Some(scc) => Ok(Some(scc)),
            None => Err(Incomplete::Working),
        }
    }

    /// While computing the component: advance the computation; when it is done, the search
    /// of the universe is over.
    fn advance_scc(context: &SccConfig, state: &mut ChainState<FWD, BWD>, step: Step3<FWD>, Ghost(before): Ghost<ChainState<FWD, BWD>>) -> (r: Completable<Option<GraphColoredVertices>>)
        requires
            Self::in_order(context, &before),
            before.computing == Step::<FWD, BWD>::Scc(step),
            before.to_process == old(state).to_process,
            before.base == old(state).base,
            old(state).computing is Idle,
        ensures
            Self::advanced(context, &before, final(state), &r),
    {
        let mut step = step;
        let outcome = step.try_advance(context);
        Self::place_scc(context, state, step, outcome, Ghost(before))
    }

    /// What the search makes of the outcome of a step of the component phase, `step` being
    /// the phase as that step left it and `before` the state before it. An error puts the
    /// phase back and is handed on. Else the search of the universe is over: see
    /// [`ChainStep::universe_finished`].
    pub fn place_scc(context: &SccConfig, state: &mut ChainState<FWD, BWD>, step: Step3<FWD>, outcome: Completable<IterationResult>, Ghost(before): Ghost<ChainState<FWD, BWD>>) -> (r: Completable<Option<GraphColoredVertices>>)
        requires
            Self::in_order(context, &before),
            before.computing is Scc,
            before.to_process == old(state).to_process,
            before.base == old(state).base,
            old(state).computing is Idle,
            step.pivot == before.computing->Scc_0.pivot,
            outcome is Err ==> step.wf(context) && step.universe == before.computing->Scc_0.universe && step.basin == before.computing->Scc_0.basin,
            outcome == Err::<IterationResult, Incomplete>(Incomplete::Working) ==> step.scc.effort() < before.computing->Scc_0.scc.effort(),
            outcome matches Ok(result) ==> {
                &&& result.universe == before.computing->Scc_0.universe
                &&& result.basin == before.computing->Scc_0.basin
                &&& belongs(result.raw_scc, context.graph)
                &&& members(result.raw_scc) == meet(context.graph, members(result.universe), step.pivot@)
            },
        ensures
            Self::advanced(context, &before, final(state), &r),
            match outcome {
                Err(e) => Self::put_back(old(state), final(state), Step::Scc(step), e, &r),
                Ok(result) => Self::universe_finished(context, old(state), final(state), &result, &r),
            },
    {
        let ghost p = step.pivot@;
        match outcome {
            Err(e) => {
                proof {
                    step.scc.effort_bounded();
                }
                state.computing = Step::Scc(step);
                proof {
                    if e == Incomplete::Working {
                        lemma_rank_less(before.weight(), before.computing.steps(), state.weight(), state.computing.steps());
                    }
                }
                Err(e)
            },
            Ok(result) => {
                let ghost u = members(result.universe);
                let ghost x = choose|x: ColoredVertex| p.contains(x);
                proof {
                    let base = before.base@;
                    let raw = meet(context.graph, u, p);
                    lemma_reach_inside(context.graph, u, p);
                    lemma_parts(context.graph, base, u, p);
                    assert forall|y: ColoredVertex| raw.contains(y) implies #[trigger] slice_is(inner(context.graph, base), raw, y) by {
                        lemma_meet_by_color(context.graph, base, u, p, y);
                    }
                    lemma_filter_keeps_reportable(context, base, raw);
                }
                Self::finish_universe(context, state, result, Ghost(before), Ghost(x))
            },
        }
    }
}

impl<FWD: ReachabilityAlgorithm, BWD: ReachabilityAlgorithm> GeneratorStep<SccConfig, ChainState<FWD, BWD>, GraphColoredVertices> for ChainStep<FWD, BWD> {
    open spec fn valid(context: &SccConfig, state: &ChainState<FWD, BWD>) -> bool {
        Self::in_order(context, state)
    }

    open spec fn fuel(context: &SccConfig, state: &ChainState<FWD, BWD>) -> nat {
        Self::measure(state)
    }

    open spec fn exhausted(context: &SccConfig, state: &ChainState<FWD, BWD>) -> bool {
        state.computing is Idle && state.to_process@.len() == 0
    }

    /// An item lies in the region that the search is still concerned with and is made up
    /// of components, in the graph of the base universe, that are worth reporting.
    open spec fn yields(context: &SccConfig, state: &ChainState<FWD, BWD>, item: &GraphColoredVertices) -> bool {
        found_in(context, state.base@, state.region(), item)
    }

    open spec fn stepped(context: &SccConfig, before: &ChainState<FWD, BWD>, after: &ChainState<FWD, BWD>, r: &Completable<Option<GraphColoredVertices>>) -> bool {
        Self::advanced(context, before, after, r)
    }

    /// One step of the search, by the phase that the state is in.
    fn step(context: &SccConfig, state: &mut ChainState<FWD, BWD>) -> (r: Completable<Option<GraphColoredVertices>>)
        ensures
            Self::advanced(context, old(state), final(state), &r),
    {
        let mut computing = Step::Idle;
        core::mem::swap(&mut computing, &mut state.computing);
        match computing {
            Step::Idle => Self::start_next(context, state),
            Step::Trimming(step) => Self::advance_trimming(context, state, step, Ghost(*old(state))),
            Step::Basin(step) => Self::advance_basin(context, state, step, Ghost(*old(state))),
            Step::Scc(step) => Self::advance_scc(context, state, step, Ghost(*old(state))),
        }
    }
}

impl<'a, FWD: ReachabilityAlgorithm, BWD: ReachabilityAlgorithm> From<&'a SymbolicAsyncGraph> for ChainState<FWD, BWD> {
    fn from(value: &'a SymbolicAsyncGraph) -> (r: Self)
        ensures
            r.computing is Idle,
            r.to_process@.len() == 1,
            r.to_process@[0].wf(*value),
            members(r.to_process@[0].full_universe) == crate::symbolic::unit_members(*value),
            members(r.to_process@[0].pivot_hint).is_empty(),
            r.base@ == members(r.to_process@[0].full_universe),
    {
        let mut to_process: Vec<Step0> = Vec::new();
        let unit = mk_unit_colored_vertices(value);
        let ghost base = members(unit);
        to_process.push(Step0 { full_universe: unit, pivot_hint: mk_empty_colored_vertices(value) });
        ChainState { computing: Step::Idle, to_process, base: Ghost(base) }
    }
}

impl<'a, FWD: ReachabilityAlgorithm, BWD: ReachabilityAlgorithm> FromSpecImpl<&'a SymbolicAsyncGraph> for ChainState<FWD, BWD> {
    open spec fn obeys_from_spec() -> bool {
        false
    }

    open spec fn from_spec(value: &'a SymbolicAsyncGraph) -> Self {
        arbitrary()
    }
}

/// The search starts in order from every set of the graph: the set is the base universe.
pub proof fn lemma_start_in_order<FWD: ReachabilityAlgorithm, BWD: ReachabilityAlgorithm>(context: &SccConfig, state: &ChainState<FWD, BWD>)
    requires
        FWD::forward(),
        !BWD::forward(),
        state.computing is Idle,
        state.to_process@.len() == 1,
        state.to_process@[0].wf(context.graph),
        state.base@ == members(state.to_process@[0].full_universe),
    ensures
        ChainStep::<FWD, BWD>::in_order(context, state),
        state.region() == state.base@,
{
    crate::scc::components::lemma_universe_whole(context.graph, state.base@);
    assert(state.computing.region() =~= Set::empty());
    let sets = universes_of(state.to_process@);
    assert(sets[0] == state.base@);
    assert(state.region() =~= state.base@);
}

} // verus!
