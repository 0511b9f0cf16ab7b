//! The state of the reachability procedures.

use crate::symbolic::clone_set;
use biodivine_lib_param_bn::symbolic_async_graph::GraphColoredVertices;
use vstd::prelude::*;
use vstd::std_specs::convert::FromSpecImpl;

verus! {

/// The set that a reachability procedure has arrived at, and the number of iterations that
/// it has started.
#[derive(PartialEq, Eq, Hash, Debug)]
pub struct ReachabilityState {
    pub iteration: usize,
    pub set: GraphColoredVertices,
}

impl Clone for ReachabilityState {
    fn clone(&self) -> (r: Self)
        ensures
            r == *self,
    {
        ReachabilityState { iteration: self.iteration, set: clone_set(&self.set) }
    }
}

impl From<GraphColoredVertices> for ReachabilityState {
    fn from(value: GraphColoredVertices) -> (r: Self)
        ensures
            r == (ReachabilityState { iteration: 0, set: value }),
    {
        ReachabilityState { iteration: 0, set: value }
    }
}

impl FromSpecImpl<GraphColoredVertices> for ReachabilityState {
    open spec fn obeys_from_spec() -> bool {
        true
    }

    open spec fn from_spec(value: GraphColoredVertices) -> Self {
        ReachabilityState { iteration: 0, set: value }
    }
}

impl<'a> From<&'a GraphColoredVertices> for ReachabilityState {
    fn from(value: &'a GraphColoredVertices) -> (r: Self)
        ensures
            r == (ReachabilityState { iteration: 0, set: *value }),
    {
        ReachabilityState { iteration: 0, set: clone_set(value) }
    }
}

impl<'a> FromSpecImpl<&'a GraphColoredVertices> for ReachabilityState {
    open spec fn obeys_from_spec() -> bool {
        true
    }

    open spec fn from_spec(value: &'a GraphColoredVertices) -> Self {
        ReachabilityState { iteration: 0, set: *value }
    }
}

impl From<ReachabilityState> for GraphColoredVertices {
    fn from(value: ReachabilityState) -> (r: Self)
        ensures
            r == value.set,
    {
        value.set
    }
}

impl FromSpecImpl<ReachabilityState> for GraphColoredVertices {
    open spec fn obeys_from_spec() -> bool {
        true
    }

    open spec fn from_spec(value: ReachabilityState) -> Self {
        value.set
    }
}

} // verus!
