//! Trimming: the removal of pairs that cannot lie on a cycle because, within the set that
//! is left, they have no successor (sinks) or no predecessor (sources).

pub mod iterative_subtraction;
pub mod step_operators;

use crate::algorithm_trait::computation::{ComputableIdentity, Computation};
use crate::algorithm_trait::{Completable, Incomplete};
use crate::reachability::reachability_config::all_moves;
use crate::reachability::{ReachabilityComputation, ReachabilityConfig, ReachabilityState};
use crate::relation::{converse, kernel, lemma_greatest_inside, lively};
use crate::symbolic::{belongs, clone_graph, members, ColoredVertex};
use biodivine_lib_param_bn::symbolic_async_graph::{GraphColoredVertices, SymbolicAsyncGraph};
pub use iterative_subtraction::IterativeSubtraction;
pub use step_operators::{RelativeSinks, RelativeSinksAndSources, RelativeSources};
use vstd::prelude::*;

verus! {

/// Removes sinks until none is left.
pub type TrimSinks = ReachabilityComputation<IterativeSubtraction<RelativeSinks>>;

/// Removes sources until none is left.
pub type TrimSources = ReachabilityComputation<IterativeSubtraction<RelativeSources>>;

/// Removes sources and sinks until none is left.
pub type TrimSinksAndSources = ReachabilityComputation<IterativeSubtraction<RelativeSinksAndSources>>;

/// Which trivial pairs to remove before the search for components.
#[derive(Copy, Clone, PartialEq, Eq, Hash, Debug)]
pub enum TrimSetting {
    /// Remove sinks and sources.
    Both,
    /// Remove the pairs without a predecessor only.
    Sources,
    /// Remove the pairs without a successor only.
    Sinks,
    /// Remove nothing.
    Skip,
}

impl Default for TrimSetting {
    fn default() -> (r: Self)
        ensures
            r == TrimSetting::Both,
    {
        TrimSetting::Both
    }
}

/// What trimming by the setting leaves of the set `s`.
pub open spec fn trimmed(setting: TrimSetting, graph: SymbolicAsyncGraph, s: Set<ColoredVertex>) -> Set<ColoredVertex> {
    match setting {
        TrimSetting::Both => kernel(all_moves(graph), s),
        TrimSetting::Sources => lively(converse(all_moves(graph)), s),
        TrimSetting::Sinks => lively(all_moves(graph), s),
        TrimSetting::Skip => s,
    }
}

/// Trimming leaves a subset.
pub proof fn lemma_trimmed_inside(setting: TrimSetting, graph: SymbolicAsyncGraph, s: Set<ColoredVertex>)
    ensures
        trimmed(setting, graph, s).subset_of(s),
{
    let r = all_moves(graph);
    match setting {
        TrimSetting::Both => {
            lemma_greatest_inside(|c: Set<ColoredVertex>| crate::relation::sustained(r, c) && crate::relation::sustained(converse(r), c), s);
        },
        TrimSetting::Sources => {
            lemma_greatest_inside(|c: Set<ColoredVertex>| crate::relation::sustained(converse(r), c), s);
        },
        TrimSetting::Sinks => {
            lemma_greatest_inside(|c: Set<ColoredVertex>| crate::relation::sustained(r, c), s);
        },
        TrimSetting::Skip => {},
    }
}

/// The trimming computation that a setting selects.
pub enum TrimComputation {
    Both(TrimSinksAndSources),
    Sources(TrimSources),
    Sinks(TrimSinks),
    Identity(ComputableIdentity<GraphColoredVertices>),
}

impl TrimComputation {
    /// The computation can be advanced.
    pub open spec fn wf(&self) -> bool {
        match self {
            TrimComputation::Both(c) => c.wf(),
            TrimComputation::Sources(c) => c.wf(),
            TrimComputation::Sinks(c) => c.wf(),
            TrimComputation::Identity(c) => c.wf(),
        }
    }

    /// A bound on the number of steps that can still answer `Working`.
    pub open spec fn fuel(&self) -> nat {
        match self {
            TrimComputation::Both(c) => c.fuel(),
            TrimComputation::Sources(c) => c.fuel(),
            TrimComputation::Sinks(c) => c.fuel(),
            TrimComputation::Identity(c) => c.fuel(),
        }
    }

    /// The sets that the computation may end with.
    pub open spec fn delivers(&self, output: &GraphColoredVertices) -> bool {
        match self {
            TrimComputation::Both(c) => c.delivers(output),
            TrimComputation::Sources(c) => c.delivers(output),
            TrimComputation::Sinks(c) => c.delivers(output),
            TrimComputation::Identity(c) => c.delivers(output),
        }
    }

    /// The number of steps that are left is a machine number.
    pub proof fn fuel_bounded(&self)
        ensures
            self.fuel() <= usize::MAX,
    {
    }

    /// Advance the selected computation by one step.
    pub fn try_compute(&mut self) -> (r: Completable<&GraphColoredVertices>)
        requires
            old(self).wf(),
        ensures
            final(self).wf(),
            forall|o: GraphColoredVertices| #[trigger] final(self).delivers(&o) ==> old(self).delivers(&o),
            r matches Ok(output) ==> final(self).delivers(output),
            r == Err::<&GraphColoredVertices, Incomplete>(Incomplete::Working) ==> final(self).fuel() < old(self).fuel(),
    {
        match self {
            TrimComputation::Both(c) => c.try_compute(),
            TrimComputation::Sources(c) => c.try_compute(),
            TrimComputation::Sinks(c) => c.try_compute(),
            TrimComputation::Identity(c) => c.try_compute(),
        }
    }
}

impl TrimSetting {
    /// The computation that trims `set` in `graph` as the setting says, over all variables
    /// and without budgets. It ends with what trimming leaves of the set.
    pub fn build_computation(&self, graph: &SymbolicAsyncGraph, set: GraphColoredVertices) -> (r: TrimComputation)
        requires
            belongs(set, *graph),
        ensures
            r.wf(),
            match *self {
                TrimSetting::Both => r is Both,
                TrimSetting::Sources => r is Sources,
                TrimSetting::Sinks => r is Sinks,
                TrimSetting::Skip => r is Identity,
            },
            forall|o: GraphColoredVertices| #[trigger] r.delivers(&o) ==> belongs(o, *graph) && members(o) == trimmed(*self, *graph, members(set)),
    {
        match self {
            TrimSetting::Both => {
                let context = ReachabilityConfig::new(clone_graph(graph));
                TrimComputation::Both(Computation::from_parts(context, ReachabilityState { iteration: 0, set }))
            },
            TrimSetting::Sources => {
                let context = ReachabilityConfig::new(clone_graph(graph));
                TrimComputation::Sources(Computation::from_parts(context, ReachabilityState { iteration: 0, set }))
            },
            TrimSetting::Sinks => {
                let context = ReachabilityConfig::new(clone_graph(graph));
                TrimComputation::Sinks(Computation::from_parts(context, ReachabilityState { iteration: 0, set }))
            },
            TrimSetting::Skip => TrimComputation::Identity(Computation::from_parts((), set)),
        }
    }
}

} // verus!
