//! The rounds of the trimming procedures.

use crate::cancellation::{check_cancelled, Cancellable};
use crate::reachability::step_operators::{lemma_listed_moves, probe, union_from, visit, Probe};
use crate::reachability::{ReachabilityConfig, ReachabilityStep};
use crate::relation::{
    converse, has_next, kernel, lemma_kernel_round, lemma_lively_round, lively, sustained,
};
use crate::symbolic::{
    belongs, has_step, is_empty, is_subset, members, minus, mk_empty_colored_vertices, union,
    ColoredVertex,
};
use biodivine_lib_param_bn::symbolic_async_graph::GraphColoredVertices;
use vstd::prelude::*;

verus! {

/// The pairs of the current set that have no successor in it.
pub struct RelativeSinks;

/// The pairs of the current set that have no predecessor in it.
pub struct RelativeSources;

/// The sources of the current set if it has any, else its sinks.
pub struct RelativeSinksAndSources;

/// The pairs of `s` that have no successor in `s` under any active variable.
pub open spec fn sinks(context: &ReachabilityConfig, s: Set<ColoredVertex>) -> Set<ColoredVertex> {
    s.difference(union_from(Probe::CanPostWithin, context.graph, context.variables@, s, 0))
}

/// The pairs of `s` that have no predecessor in `s` under any active variable.
pub open spec fn sources(context: &ReachabilityConfig, s: Set<ColoredVertex>) -> Set<ColoredVertex> {
    s.difference(union_from(Probe::CanPreWithin, context.graph, context.variables@, s, 0))
}

/// Go through the active variables from the greatest down and take the answers together.
/// The ambient cancellation signal is asked before every variable, so with no active
/// variable the round cannot be cancelled.
pub fn gather_round(kind: &Probe, context: &ReachabilityConfig, state: &GraphColoredVertices) -> (r: Cancellable<GraphColoredVertices>)
    requires
        context.wf(),
        belongs(*state, context.graph),
    ensures
        r matches Ok(set) ==> belongs(set, context.graph) && members(set) == union_from(*kind, context.graph, context.variables@, members(*state), 0),
        context.variables@.len() == 0 ==> r is Ok,
{
    let mut gathered = mk_empty_colored_vertices(&context.graph);
    let mut i = context.variables.len();
    assert(members(gathered) =~= union_from(*kind, context.graph, context.variables@, members(*state), i as int));
    while i > 0
        invariant
            i <= context.variables@.len(),
            context.wf(),
            belongs(*state, context.graph),
            belongs(gathered, context.graph),
            members(gathered) == union_from(*kind, context.graph, context.variables@, members(*state), i as int),
        decreases i,
    {
        i -= 1;
        let answer = match visit(kind, context, state, i, check_cancelled()) {
            Ok(answer) => answer,
            Err(cancelled) => {
                return Err(cancelled);
            },
        };
        let ghost before = members(gathered);
        if !is_subset(&answer, &gathered) {
            gathered = union(&gathered, &answer);
        }
        assert(members(gathered) =~= union_from(*kind, context.graph, context.variables@, members(*state), i as int)) by {
            let tail = union_from(*kind, context.graph, context.variables@, members(*state), i + 1);
            let all = union_from(*kind, context.graph, context.variables@, members(*state), i as int);
            assert(members(gathered) =~= before.union(members(answer)));
            assert forall|x: ColoredVertex| all.contains(x) implies before.union(members(answer)).contains(x) by {
                let j = choose|j: int| i <= j < context.variables@.len() && #[trigger] probe(*kind, context.graph, context.variables@[j] as nat, members(*state)).contains(x);
                if j != i {
                    assert(tail.contains(x));
                }
            }
        }
    }
    Ok(gathered)
}

/// A sink has no successor in the set; a set without sinks is sustained.
pub proof fn lemma_sinks(context: &ReachabilityConfig, s: Set<ColoredVertex>)
    ensures
        sinks(context, s).subset_of(s),
        forall|x: ColoredVertex| #[trigger] sinks(context, s).contains(x) ==> !has_next(context.moves(), s, x),
        sinks(context, s).is_empty() ==> sustained(context.moves(), s),
{
    let r = context.moves();
    let fed = union_from(Probe::CanPostWithin, context.graph, context.variables@, s, 0);
    assert forall|x: ColoredVertex| #[trigger] sinks(context, s).contains(x) implies !has_next(r, s, x) by {
        if has_next(r, s, x) {
            let b = choose|b: ColoredVertex| s.contains(b) && #[trigger] r.contains((x, b));
            let v = choose|v: nat| context.active().contains(v) && #[trigger] has_step(context.graph, v, x, b);
            let j = choose|j: int| 0 <= j < context.variables@.len() && #[trigger] context.variables@[j] == v;
            assert(probe(Probe::CanPostWithin, context.graph, context.variables@[j] as nat, s).contains(x));
            assert(fed.contains(x));
        }
    }
    if sinks(context, s).is_empty() {
        assert forall|a: ColoredVertex| s.contains(a) implies #[trigger] has_next(r, s, a) by {
            if !fed.contains(a) {
                assert(sinks(context, s).contains(a));
            }
            let j = choose|j: int| 0 <= j < context.variables@.len() && #[trigger] probe(Probe::CanPostWithin, context.graph, context.variables@[j] as nat, s).contains(a);
            let b = choose|b: ColoredVertex| s.contains(b) && #[trigger] has_step(context.graph, context.variables@[j] as nat, a, b);
            lemma_listed_moves(context, j, a, b);
        }
    }
}

/// A source has no predecessor in the set; a set without sources is sustained backwards.
pub proof fn lemma_sources(context: &ReachabilityConfig, s: Set<ColoredVertex>)
    ensures
        sources(context, s).subset_of(s),
        forall|x: ColoredVertex| #[trigger] sources(context, s).contains(x) ==> !has_next(converse(context.moves()), s, x),
        sources(context, s).is_empty() ==> sustained(converse(context.moves()), s),
{
    let r = converse(context.moves());
    let fed = union_from(Probe::CanPreWithin, context.graph, context.variables@, s, 0);
    assert forall|x: ColoredVertex| #[trigger] sources(context, s).contains(x) implies !has_next(r, s, x) by {
        if has_next(r, s, x) {
            let a = choose|a: ColoredVertex| s.contains(a) && #[trigger] r.contains((x, a));
            assert(context.moves().contains((a, x)));
            let v = choose|v: nat| context.active().contains(v) && #[trigger] has_step(context.graph, v, a, x);
            let j = choose|j: int| 0 <= j < context.variables@.len() && #[trigger] context.variables@[j] == v;
            assert(probe(Probe::CanPreWithin, context.graph, context.variables@[j] as nat, s).contains(x));
            assert(fed.contains(x));
        }
    }
    if sources(context, s).is_empty() {
        assert forall|b: ColoredVertex| s.contains(b) implies #[trigger] has_next(r, s, b) by {
            if !fed.contains(b) {
                assert(sources(context, s).contains(b));
            }
            let j = choose|j: int| 0 <= j < context.variables@.len() && #[trigger] probe(Probe::CanPreWithin, context.graph, context.variables@[j] as nat, s).contains(b);
            let a = choose|a: ColoredVertex| s.contains(a) && #[trigger] has_step(context.graph, context.variables@[j] as nat, a, b);
            lemma_listed_moves(context, j, a, b);
            assert(r.contains((b, a)));
        }
    }
}

impl ReachabilityStep for RelativeSinks {
    open spec fn found(context: &ReachabilityConfig, s: Set<ColoredVertex>) -> Set<ColoredVertex> {
        sinks(context, s)
    }

    /// The greatest subset in which every pair has a successor.
    open spec fn limit(context: &ReachabilityConfig, s: Set<ColoredVertex>) -> Set<ColoredVertex> {
        lively(context.moves(), s)
    }

    fn step(context: &ReachabilityConfig, state: &GraphColoredVertices) -> (r: Cancellable<GraphColoredVertices>)
        ensures
            context.variables@.len() == 0 ==> r is Ok,
    {
        // The sinks are what is left when the pairs with a successor are taken away.
        match gather_round(&Probe::CanPostWithin, context, state) {
            Ok(has_successor) => {
                let without = minus(state, &has_successor);
                assert(members(without).subset_of(members(*state)));
                assert(belongs(without, context.graph));
                assert(members(without) == sinks(context, members(*state)));
                assert(members(without) == Self::found(context, members(*state)));
                Ok(without)
            },
            Err(cancelled) => Err(cancelled),
        }
    }

    proof fn limit_kept(context: &ReachabilityConfig, s: Set<ColoredVertex>) {
        lemma_sinks(context, s);
        lemma_lively_round(context.moves(), s, sinks(context, s));
    }
}

impl ReachabilityStep for RelativeSources {
    open spec fn found(context: &ReachabilityConfig, s: Set<ColoredVertex>) -> Set<ColoredVertex> {
        sources(context, s)
    }

    /// The greatest subset in which every pair has a predecessor.
    open spec fn limit(context: &ReachabilityConfig, s: Set<ColoredVertex>) -> Set<ColoredVertex> {
        lively(converse(context.moves()), s)
    }

    fn step(context: &ReachabilityConfig, state: &GraphColoredVertices) -> (r: Cancellable<GraphColoredVertices>)
        ensures
            context.variables@.len() == 0 ==> r is Ok,
    {
        // The sources are what is left when the pairs with a predecessor are taken away.
        match gather_round(&Probe::CanPreWithin, context, state) {
            Ok(has_predecessor) => {
                let without = minus(state, &has_predecessor);
                assert(members(without).subset_of(members(*state)));
                assert(belongs(without, context.graph));
                assert(members(without) == sources(context, members(*state)));
                assert(members(without) == Self::found(context, members(*state)));
                Ok(without)
            },
            Err(cancelled) => Err(cancelled),
        }
    }

    proof fn limit_kept(context: &ReachabilityConfig, s: Set<ColoredVertex>) {
        lemma_sources(context, s);
        lemma_lively_round(converse(context.moves()), s, sources(context, s));
    }
}

impl ReachabilityStep for RelativeSinksAndSources {
    open spec fn found(context: &ReachabilityConfig, s: Set<ColoredVertex>) -> Set<ColoredVertex> {
        if !sources(context, s).is_empty() {
            sources(context, s)
        } else {
            sinks(context, s)
        }
    }

    /// The greatest subset in which every pair has a successor and a predecessor.
    open spec fn limit(context: &ReachabilityConfig, s: Set<ColoredVertex>) -> Set<ColoredVertex> {
        kernel(context.moves(), s)
    }

    fn step(context: &ReachabilityConfig, state: &GraphColoredVertices) -> (r: Cancellable<GraphColoredVertices>)
        ensures
            context.variables@.len() == 0 ==> r is Ok,
    {
        match RelativeSources::step(context, state) {
            Err(cancelled) => Err(cancelled),
            Ok(sources) => {
                if !is_empty(&sources) {
                    Ok(sources)
                } else {
                    RelativeSinks::step(context, state)
                }
            },
        }
    }

    proof fn limit_kept(context: &ReachabilityConfig, s: Set<ColoredVertex>) {
        lemma_sinks(context, s);
        lemma_sources(context, s);
        lemma_kernel_round(context.moves(), s, Self::found(context, s));
    }
}

} // verus!
