//! The rounds of the trap set procedures.

use crate::cancellation::Cancellable;
use crate::reachability::step_operators::{
    last_nonempty, lemma_last_nonempty_is_answer, lemma_last_nonempty_none, lemma_listed_moves,
    probe, saturation_round, Probe,
};
use crate::reachability::{ReachabilityConfig, ReachabilityStep};
use crate::relation::{closed, converse, lemma_trap_round, trap};
use crate::symbolic::{has_step, ColoredVertex};
use biodivine_lib_param_bn::symbolic_async_graph::GraphColoredVertices;
use vstd::prelude::*;

verus! {

/// The pairs of the current set that have a successor outside it, under the greatest active
/// variable for which there are any.
pub struct HasSuccessorSaturation;

/// The pairs of the current set that have a predecessor outside it, under the greatest
/// active variable for which there are any.
pub struct HasPredecessorSaturation;

/// Where no pair of the set has a successor outside it, no step leaves the set.
pub proof fn lemma_no_escape_closed(context: &ReachabilityConfig, s: Set<ColoredVertex>)
    requires
        forall|j: int| 0 <= j < context.variables@.len() ==> (#[trigger] probe(Probe::CanPostOut, context.graph, context.variables@[j] as nat, s)).is_empty(),
    ensures
        closed(context.moves(), s),
{
    assert forall|a: ColoredVertex, b: ColoredVertex| s.contains(a) && #[trigger] context.moves().contains((a, b)) implies s.contains(b) by {
        let v = choose|v: nat| context.active().contains(v) && #[trigger] has_step(context.graph, v, a, b);
        let j = choose|j: int| 0 <= j < context.variables@.len() && #[trigger] context.variables@[j] == v;
        let answer = probe(Probe::CanPostOut, context.graph, context.variables@[j] as nat, s);
        assert(answer.is_empty());
        if !s.contains(b) {
            assert(s.complement().contains(b));
            assert(answer.contains(a));
        }
    }
}

/// Where no pair of the set has a predecessor outside it, no step enters the set.
pub proof fn lemma_no_entry_closed(context: &ReachabilityConfig, s: Set<ColoredVertex>)
    requires
        forall|j: int| 0 <= j < context.variables@.len() ==> (#[trigger] probe(Probe::CanPreOut, context.graph, context.variables@[j] as nat, s)).is_empty(),
    ensures
        closed(converse(context.moves()), s),
{
    assert forall|b: ColoredVertex, a: ColoredVertex| s.contains(b) && #[trigger] converse(context.moves()).contains((b, a)) implies s.contains(a) by {
        assert(context.moves().contains((a, b)));
        let v = choose|v: nat| context.active().contains(v) && #[trigger] has_step(context.graph, v, a, b);
        let j = choose|j: int| 0 <= j < context.variables@.len() && #[trigger] context.variables@[j] == v;
        let answer = probe(Probe::CanPreOut, context.graph, context.variables@[j] as nat, s);
        assert(answer.is_empty());
        if !s.contains(a) {
            assert(s.complement().contains(a));
            assert(answer.contains(b));
        }
    }
}

impl ReachabilityStep for HasSuccessorSaturation {
    open spec fn found(context: &ReachabilityConfig, s: Set<ColoredVertex>) -> Set<ColoredVertex> {
        last_nonempty(Probe::CanPostOut, context.graph, context.variables@, s, context.variables@.len())
    }

    /// The greatest subset that no step leaves.
    open spec fn limit(context: &ReachabilityConfig, s: Set<ColoredVertex>) -> Set<ColoredVertex> {
        trap(context.moves(), s)
    }

    fn step(context: &ReachabilityConfig, state: &GraphColoredVertices) -> (r: Cancellable<GraphColoredVertices>)
        ensures
            context.variables@.len() == 0 ==> r is Ok,
    {
        saturation_round(&Probe::CanPostOut, context, state)
    }

    proof fn limit_kept(context: &ReachabilityConfig, s: Set<ColoredVertex>) {
        let n = context.variables@.len();
        let f = Self::found(context, s);
        let r = context.moves();
        lemma_last_nonempty_is_answer(Probe::CanPostOut, context.graph, context.variables@, s, n);
        if !f.is_empty() {
            let j = choose|j: int| 0 <= j < n && f == #[trigger] probe(Probe::CanPostOut, context.graph, context.variables@[j] as nat, s);
            let v = context.variables@[j] as nat;
            assert forall|x: ColoredVertex| #[trigger] f.contains(x) implies exists|b: ColoredVertex| !s.contains(b) && #[trigger] r.contains((x, b)) by {
                let b = choose|b: ColoredVertex| s.complement().contains(b) && #[trigger] has_step(context.graph, v, x, b);
                lemma_listed_moves(context, j, x, b);
            }
        } else {
            lemma_last_nonempty_none(Probe::CanPostOut, context.graph, context.variables@, s, n);
            lemma_no_escape_closed(context, s);
        }
        lemma_trap_round(r, s, f);
    }
}

impl ReachabilityStep for HasPredecessorSaturation {
    open spec fn found(context: &ReachabilityConfig, s: Set<ColoredVertex>) -> Set<ColoredVertex> {
        last_nonempty(Probe::CanPreOut, context.graph, context.variables@, s, context.variables@.len())
    }

    /// The greatest subset that no step enters.
    open spec fn limit(context: &ReachabilityConfig, s: Set<ColoredVertex>) -> Set<ColoredVertex> {
        trap(converse(context.moves()), s)
    }

    fn step(context: &ReachabilityConfig, state: &GraphColoredVertices) -> (r: Cancellable<GraphColoredVertices>)
        ensures
            context.variables@.len() == 0 ==> r is Ok,
    {
        saturation_round(&Probe::CanPreOut, context, state)
    }

    proof fn limit_kept(context: &ReachabilityConfig, s: Set<ColoredVertex>) {
        let n = context.variables@.len();
        let f = Self::found(context, s);
        let r = converse(context.moves());
        lemma_last_nonempty_is_answer(Probe::CanPreOut, context.graph, context.variables@, s, n);
        if !f.is_empty() {
            let j = choose|j: int| 0 <= j < n && f == #[trigger] probe(Probe::CanPreOut, context.graph, context.variables@[j] as nat, s);
            let v = context.variables@[j] as nat;
            assert forall|x: ColoredVertex| #[trigger] f.contains(x) implies exists|b: ColoredVertex| !s.contains(b) && #[trigger] r.contains((x, b)) by {
                let a = choose|a: ColoredVertex| s.complement().contains(a) && #[trigger] has_step(context.graph, v, a, x);
                lemma_listed_moves(context, j, a, x);
                assert(r.contains((x, a)));
            }
        } else {
            lemma_last_nonempty_none(Probe::CanPreOut, context.graph, context.variables@, s, n);
            lemma_no_entry_closed(context, s);
        }
        lemma_trap_round(r, s, f);
    }
}

} // verus!
