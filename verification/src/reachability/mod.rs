//! Symbolic reachability.
//!
//! Forward and backward reachable sets of the asynchronous state-transition graph, each
//! computed either by saturation (one variable at a time) or breadth first (all variables
//! in every iteration).

pub mod iterative_union;
pub mod reachability_config;
pub mod reachability_state;
pub mod step_operators;

use crate::algorithm_trait::computation::{Computation, Manual};
use crate::algorithm_trait::Algorithm;
use crate::relation::{converse, reach};
use crate::cancellation::Cancellable;
use crate::symbolic::{belongs, members, ColoredVertex};
use biodivine_lib_param_bn::symbolic_async_graph::GraphColoredVertices;
pub use iterative_union::IterativeUnion;
pub use reachability_config::ReachabilityConfig;
pub use reachability_state::ReachabilityState;
pub use step_operators::{BfsPredecessors, BfsSuccessors, SaturationPredecessors, SaturationSuccessors};
use vstd::prelude::*;

verus! {

/// One round of a procedure that grows or shrinks a set until nothing changes.
///
/// `found` says which pairs a round comes up with, `limit` says which set the rounds aim at.
/// The procedures [`IterativeUnion`] and
/// [`IterativeSubtraction`](crate::trimming::IterativeSubtraction) add or remove what was
/// found; the law `limit_kept` says that neither changes the limit, and that a round
/// which finds nothing has arrived there.
pub trait ReachabilityStep {
    /// The pairs that one round finds for the set `s`.
    spec fn found(context: &ReachabilityConfig, s: Set<ColoredVertex>) -> Set<ColoredVertex>;

    /// The set that the rounds aim at when started on `s`.
    spec fn limit(context: &ReachabilityConfig, s: Set<ColoredVertex>) -> Set<ColoredVertex>;

    /// Perform one round. The ambient cancellation signal is asked between variables, and
    /// an `Err` hands on what it said.
    fn step(context: &ReachabilityConfig, state: &GraphColoredVertices) -> (r: Cancellable<GraphColoredVertices>)
        requires
            context.wf(),
            belongs(*state, context.graph),
        ensures
            r matches Ok(set) ==> belongs(set, context.graph) && members(set) == Self::found(context, members(*state)),
    ;

    /// Adding or removing what a round found keeps the limit; a round that finds nothing
    /// has reached it.
    proof fn limit_kept(context: &ReachabilityConfig, s: Set<ColoredVertex>)
        requires
            context.wf(),
        ensures
            Self::limit(context, s.union(Self::found(context, s))) == Self::limit(context, s),
            Self::limit(context, s.difference(Self::found(context, s))) == Self::limit(context, s),
            Self::found(context, s).is_empty() ==> Self::limit(context, s) == s,
    ;
}

/// The relation itself, or the relation turned round.
pub open spec fn direction(forward: bool, r: Set<(ColoredVertex, ColoredVertex)>) -> Set<(ColoredVertex, ColoredVertex)> {
    if forward {
        r
    } else {
        converse(r)
    }
}

/// An algorithm that computes what a set reaches, forwards or backwards, over a
/// reachability configuration.
pub trait ReachabilityAlgorithm: Algorithm<ReachabilityConfig, ReachabilityState, GraphColoredVertices> {
    /// Whether the algorithm follows the steps forwards.
    spec fn forward() -> bool;

    /// The algorithm starts from every set of the graph, and ends with what the set reaches.
    proof fn reaches(context: &ReachabilityConfig, state: &ReachabilityState)
        requires
            context.wf(),
            belongs(state.set, context.graph),
        ensures
            Self::admits(context, state),
            forall|o: GraphColoredVertices| #[trigger] Self::promises(context, state, &o) ==> belongs(o, context.graph) && members(o) == reach(direction(Self::forward(), context.moves()), members(state.set)),
    ;

    /// The number of steps that are left is a machine number.
    proof fn effort_bounded(&self)
        ensures
            self.effort() <= usize::MAX,
    ;
}

impl ReachabilityAlgorithm for ReachabilityComputation<IterativeUnion<SaturationSuccessors>> {
    open spec fn forward() -> bool {
        true
    }

    proof fn reaches(context: &ReachabilityConfig, state: &ReachabilityState) {
    }

    proof fn effort_bounded(&self) {
    }
}

impl ReachabilityAlgorithm for ReachabilityComputation<IterativeUnion<BfsSuccessors>> {
    open spec fn forward() -> bool {
        true
    }

    proof fn reaches(context: &ReachabilityConfig, state: &ReachabilityState) {
    }

    proof fn effort_bounded(&self) {
    }
}

impl ReachabilityAlgorithm for ReachabilityComputation<IterativeUnion<SaturationPredecessors>> {
    open spec fn forward() -> bool {
        false
    }

    proof fn reaches(context: &ReachabilityConfig, state: &ReachabilityState) {
    }

    proof fn effort_bounded(&self) {
    }
}

impl ReachabilityAlgorithm for ReachabilityComputation<IterativeUnion<BfsPredecessors>> {
    open spec fn forward() -> bool {
        false
    }

    proof fn reaches(context: &ReachabilityConfig, state: &ReachabilityState) {
    }

    proof fn effort_bounded(&self) {
    }
}

/// The successors under all active variables: another name of [`BfsSuccessors`].
pub type AllSuccessors = BfsSuccessors;

/// The predecessors under all active variables: another name of [`BfsPredecessors`].
pub type AllPredecessors = BfsPredecessors;

/// A computation over a reachability configuration and state.
pub type ReachabilityComputation<STEP> = Computation<ReachabilityConfig, ReachabilityState, GraphColoredVertices, STEP, Manual>;

/// Forward reachability by saturation: the recommended form.
pub type ForwardReachability = ReachabilityComputation<IterativeUnion<SaturationSuccessors>>;

/// Forward reachability that explores the graph breadth first: every iteration adds one
/// more layer of successors.
pub type ForwardReachabilityBfs = ReachabilityComputation<IterativeUnion<BfsSuccessors>>;

/// Backward reachability by saturation: the recommended form.
pub type BackwardReachability = ReachabilityComputation<IterativeUnion<SaturationPredecessors>>;

/// Backward reachability that explores the graph breadth first: every iteration adds one
/// more layer of predecessors.
pub type BackwardReachabilityBfs = ReachabilityComputation<IterativeUnion<BfsPredecessors>>;

} // verus!
