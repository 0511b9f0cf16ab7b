//! The configuration of the component search.

use crate::scc::{long_lived, retain_long_lived};
use crate::symbolic::{belongs, clone_graph, clone_set, is_empty, members, ColoredVertex};
use crate::trimming::TrimSetting;
use biodivine_lib_param_bn::symbolic_async_graph::{GraphColoredVertices, SymbolicAsyncGraph};
use vstd::prelude::*;
use vstd::std_specs::convert::FromSpecImpl;

verus! {

/// A configuration of the search for strongly connected components.
pub struct SccConfig {
    /// The graph to search. Restricting it removes steps and may create components that the
    /// full graph does not have; to search a part of the graph, start from a smaller set.
    pub graph: SymbolicAsyncGraph,
    /// Which trivial pairs to trim away before every round of the search.
    pub should_trim: TrimSetting,
    /// Report long-lived components only: those that no update of a single variable can
    /// leave from every one of their vertices.
    pub filter_long_lived: bool,
}

impl SccConfig {
    /// What the long-lived filter of this configuration leaves of `s`.
    pub open spec fn lasting(&self, s: Set<ColoredVertex>) -> Set<ColoredVertex> {
        if self.filter_long_lived {
            long_lived(self.graph, s)
        } else {
            s
        }
    }

    /// A configuration that trims sinks and sources and does not filter.
    pub fn new(graph: SymbolicAsyncGraph) -> (r: SccConfig)
        ensures
            r.graph == graph,
            r.should_trim == TrimSetting::Both,
            !r.filter_long_lived,
    {
        SccConfig { graph, should_trim: TrimSetting::Both, filter_long_lived: false }
    }

    /// The configuration with another trim setting.
    pub fn should_trim(self, should_trim: TrimSetting) -> (r: SccConfig)
        ensures
            r.graph == self.graph,
            r.should_trim == should_trim,
            r.filter_long_lived == self.filter_long_lived,
    {
        SccConfig { graph: self.graph, should_trim, filter_long_lived: self.filter_long_lived }
    }

    /// The configuration with the long-lived filter switched on or off.
    pub fn filter_long_lived(self, filter_long_lived: bool) -> (r: SccConfig)
        ensures
            r.graph == self.graph,
            r.should_trim == self.should_trim,
            r.filter_long_lived == filter_long_lived,
    {
        SccConfig { graph: self.graph, should_trim: self.should_trim, filter_long_lived }
    }

    /// Apply the long-lived filter if it is switched on; else keep the set. `None` says that
    /// nothing is left.
    pub fn apply_long_lived_filter(&self, set: &GraphColoredVertices) -> (r: Option<GraphColoredVertices>)
        requires
            belongs(*set, self.graph),
        ensures
            match r {
                Some(kept) => belongs(kept, self.graph) && members(kept) == self.lasting(members(*set)) && !members(kept).is_empty(),
                None => self.lasting(members(*set)).is_empty(),
            },
    {
        let filtered = if self.filter_long_lived {
            retain_long_lived(&self.graph, set)
        } else {
            clone_set(set)
        };
        if is_empty(&filtered) {
            None
        } else {
            Some(filtered)
        }
    }
}

impl Clone for SccConfig {
    fn clone(&self) -> (r: Self)
        ensures
            r == *self,
    {
        SccConfig { graph: clone_graph(&self.graph), should_trim: self.should_trim, filter_long_lived: self.filter_long_lived }
    }
}

impl From<SymbolicAsyncGraph> for SccConfig {
    fn from(value: SymbolicAsyncGraph) -> (r: Self)
        ensures
            r == (SccConfig { graph: value, should_trim: TrimSetting::Both, filter_long_lived: false }),
    {
        SccConfig::new(value)
    }
}

impl FromSpecImpl<SymbolicAsyncGraph> for SccConfig {
    open spec fn obeys_from_spec() -> bool {
        true
    }

    open spec fn from_spec(value: SymbolicAsyncGraph) -> Self {
        SccConfig { graph: value, should_trim: TrimSetting::Both, filter_long_lived: false }
    }
}

impl<'a> From<&'a SymbolicAsyncGraph> for SccConfig {
    fn from(value: &'a SymbolicAsyncGraph) -> (r: Self)
        ensures
            r == (SccConfig { graph: *value, should_trim: TrimSetting::Both, filter_long_lived: false }),
    {
        SccConfig::new(clone_graph(value))
    }
}

impl<'a> FromSpecImpl<&'a SymbolicAsyncGraph> for SccConfig {
    open spec fn obeys_from_spec() -> bool {
        true
    }

    open spec fn from_spec(value: &'a SymbolicAsyncGraph) -> Self {
        SccConfig { graph: *value, should_trim: TrimSetting::Both, filter_long_lived: false }
    }
}

} // verus!
