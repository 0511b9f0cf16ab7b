//! The configuration of the attractor search.

use crate::reachability::reachability_config::{
    all_variables, clone_variables, listed, lemma_listed_all, lemma_moves_of_restricted, moves,
    ordered_below,
};
use crate::relation::confined;
use crate::reachability::ReachabilityConfig;
use crate::symbolic::{
    clone_graph, encoding, graph_encoding, members, restrict, steps, steps_within, unit_members,
    variable_count, ColoredVertex,
};
use biodivine_lib_param_bn::symbolic_async_graph::{GraphColoredVertices, SymbolicAsyncGraph};
use vstd::prelude::*;
use vstd::std_specs::convert::FromSpecImpl;

verus! {

/// A configuration of the search for attractors.
pub struct AttractorConfig {
    /// The graph to search.
    pub graph: SymbolicAsyncGraph,
    /// The variables that can change inside an attractor, in increasing order. Where it is
    /// known that only some variables can, the others can be left out.
    pub active_variables: Vec<usize>,
    /// The procedures that the search runs are cancelled when their set takes more diagram
    /// nodes than this.
    pub max_symbolic_size: usize,
}

/// Put a variable into an increasing list, unless it is there.
pub(crate) fn insert_variable(list: Vec<usize>, variable: usize, Ghost(bound): Ghost<nat>) -> (r: Vec<usize>)
    requires
        ordered_below(list@, bound),
        variable < bound,
    ensures
        ordered_below(r@, bound),
        listed(r@) == listed(list@).insert(variable as nat),
{
    let mut list = list;
    let ghost start = list@;
    let mut position: usize = 0;
    while position < list.len() && list[position] < variable
        invariant
            position <= list@.len(),
            list@ == start,
            forall|k: int| 0 <= k < position ==> #[trigger] list@[k] < variable,
        decreases list.len() - position,
    {
        position += 1;
    }
    if position < list.len() && list[position] == variable {
        proof {
            assert(listed(list@) =~= listed(start).insert(variable as nat));
        }
        return list;
    }
    list.insert(position, variable);
    proof {
        let after = list@;
        assert forall|i: int, j: int| 0 <= i < j < after.len() implies #[trigger] after[i] < #[trigger] after[j] by {
            if j < position {
                assert(after[i] == start[i] && after[j] == start[j]);
            } else if j == position {
                assert(after[i] == start[i]);
            } else if i < position {
                assert(after[i] == start[i] && after[j] == start[j - 1]);
                if i < j - 1 {
                    assert(start[i] < start[j - 1]);
                }
            } else if i == position {
                assert(after[j] == start[j - 1]);
                if position < j - 1 {
                    assert(start[position as int] < start[j - 1]);
                }
            } else {
                assert(after[i] == start[i - 1] && after[j] == start[j - 1]);
            }
        }
        assert forall|i: int| 0 <= i < after.len() implies #[trigger] after[i] < bound by {
            if i < position {
                assert(after[i] == start[i]);
            } else if i > position {
                assert(after[i] == start[i - 1]);
            }
        }
        assert forall|v: nat| listed(after).contains(v) <==> listed(start).insert(variable as nat).contains(v) by {
            if listed(after).contains(v) {
                let k = choose|k: int| 0 <= k < after.len() && #[trigger] after[k] == v;
                if k < position {
                    assert(start[k] == v);
                } else if k > position {
                    assert(start[k - 1] == v);
                }
            }
            if listed(start).contains(v) {
                let k = choose|k: int| 0 <= k < start.len() && #[trigger] start[k] == v;
                if k < position {
                    assert(after[k] == v);
                } else {
                    assert(after[k + 1] == v);
                }
            }
            if v == variable {
                assert(after[position as int] == v);
            }
        }
        assert(listed(after) =~= listed(start).insert(variable as nat));
    }
    list
}

impl AttractorConfig {
    /// The active variables are increasing, and all are variables of the graph.
    pub open spec fn wf(&self) -> bool {
        ordered_below(self.active_variables@, variable_count(self.graph))
    }

    /// The steps that the search follows: those of the active variables.
    pub open spec fn moves(&self) -> Set<(ColoredVertex, ColoredVertex)> {
        moves(self.graph, listed(self.active_variables@))
    }

    /// A configuration over the graph restricted to its own unit set, in which every
    /// variable is active. The restricted graph has the unit set of the given graph and
    /// its steps within that set, so no step leaves the unit set: the searches that start
    /// from it start from a set that is closed.
    pub fn within_unit(graph: &SymbolicAsyncGraph) -> (r: AttractorConfig)
        ensures
            r.wf(),
            graph_encoding(r.graph) == graph_encoding(*graph),
            unit_members(r.graph) == unit_members(*graph),
            steps(r.graph) == steps_within(*graph, unit_members(*graph)),
            r.active_variables@ == Seq::new(variable_count(*graph), |i: int| i as usize),
            r.max_symbolic_size == usize::MAX,
            r.moves() == crate::reachability::reachability_config::all_moves(r.graph),
            crate::relation::closed(r.moves(), unit_members(r.graph)),
    {
        let count = crate::symbolic::num_vars(graph);
        let unit = crate::symbolic::mk_unit_colored_vertices(graph);
        let r = AttractorConfig::new(restrict(graph, &unit));
        proof {
            crate::reachability::reachability_config::lemma_listed_all(count as nat);
            let moves = r.moves();
            let u = unit_members(r.graph);
            assert forall|a: ColoredVertex, b: ColoredVertex| u.contains(a) && #[trigger] moves.contains((a, b)) implies u.contains(b) by {
                let v = choose|v: nat| listed(r.active_variables@).contains(v) && #[trigger] crate::symbolic::has_step(r.graph, v, a, b);
                assert(steps(r.graph).contains((v, a.0, b.0, a.1)));
                assert(steps_within(*graph, u).contains((v, a.0, b.0, a.1)));
            }
        }
        r
    }

    /// A configuration in which every variable of the graph is active.
    pub fn new(graph: SymbolicAsyncGraph) -> (r: AttractorConfig)
        ensures
            r.wf(),
            r.graph == graph,
            r.active_variables@ == Seq::new(variable_count(graph), |i: int| i as usize),
            r.max_symbolic_size == usize::MAX,
    {
        AttractorConfig { active_variables: all_variables(&graph), graph, max_symbolic_size: usize::MAX }
    }

    /// The configuration confined to a set of the graph. The pairs outside the set stay in
    /// the graph, but the steps that leave the set or enter it are ignored.
    pub fn restrict_state_space(self, state_space: &GraphColoredVertices) -> (r: AttractorConfig)
        requires
            self.wf(),
            encoding(*state_space) == graph_encoding(self.graph),
        ensures
            r.wf(),
            graph_encoding(r.graph) == graph_encoding(self.graph),
            r.active_variables == self.active_variables,
            r.max_symbolic_size == self.max_symbolic_size,
            r.moves() == confined(self.moves(), members(*state_space)),
            steps(r.graph) == steps_within(self.graph, members(*state_space)),
            unit_members(r.graph) == members(*state_space),
    {
        let graph = restrict(&self.graph, state_space);
        proof {
            lemma_moves_of_restricted(self.graph, graph, listed(self.active_variables@), members(*state_space));
        }
        AttractorConfig { graph, active_variables: self.active_variables, max_symbolic_size: self.max_symbolic_size }
    }

    /// The configuration with the given active variables, if they are all variables of the
    /// graph; `None` if one is not. The order of the list and repetitions in it do not
    /// matter: the configuration holds the variables in increasing order, each once.
    pub fn try_restrict_variables(self, variables: &[usize]) -> (r: Option<AttractorConfig>)
        ensures
            match r {
                None => !crate::reachability::reachability_config::in_graph(self.graph, variables@),
                Some(config) => {
                    &&& crate::reachability::reachability_config::in_graph(self.graph, variables@)
                    &&& config.wf()
                    &&& config.graph == self.graph
                    &&& config.max_symbolic_size == self.max_symbolic_size
                    &&& listed(config.active_variables@) == listed(variables@)
                },
            },
    {
        if !crate::reachability::reachability_config::all_in_graph(&self.graph, variables) {
            return None;
        }
        Some(self.restrict_variables(variables))
    }

    /// The configuration with the given active variables, which must be variables of the
    /// graph. The order of the list and repetitions in it do not matter.
    pub fn restrict_variables(self, variables: &[usize]) -> (r: AttractorConfig)
        requires
            forall|i: int| 0 <= i < variables@.len() ==> #[trigger] variables@[i] < variable_count(self.graph),
        ensures
            r.wf(),
            r.graph == self.graph,
            r.max_symbolic_size == self.max_symbolic_size,
            listed(r.active_variables@) == listed(variables@),
    {
        let mut active: Vec<usize> = Vec::new();
        let mut i: usize = 0;
        assert(listed(active@) =~= listed(variables@.subrange(0, 0)));
        while i < variables.len()
            invariant
                i <= variables@.len(),
                forall|k: int| 0 <= k < variables@.len() ==> #[trigger] variables@[k] < variable_count(self.graph),
                ordered_below(active@, variable_count(self.graph)),
                listed(active@) == listed(variables@.subrange(0, i as int)),
            decreases variables.len() - i,
        {
            active = insert_variable(active, variables[i], Ghost(variable_count(self.graph)));
            proof {
                let before = variables@.subrange(0, i as int);
                let after = variables@.subrange(0, i + 1);
                assert(after =~= before.push(variables@[i as int]));
                assert forall|v: nat| listed(after).contains(v) <==> listed(before).insert(variables@[i as int] as nat).contains(v) by {
                    if listed(after).contains(v) {
                        let k = choose|k: int| 0 <= k < after.len() && #[trigger] after[k] == v;
                        if k < i {
                            assert(before[k] == v);
                        }
                    }
                    if listed(before).contains(v) {
                        let k = choose|k: int| 0 <= k < before.len() && #[trigger] before[k] == v;
                        assert(after[k] == v);
                    }
                    if v == variables@[i as int] {
                        assert(after[i as int] == v);
                    }
                }
                assert(listed(after) =~= listed(before).insert(variables@[i as int] as nat));
            }
            i += 1;
        }
        assert(variables@.subrange(0, i as int) =~= variables@);
        AttractorConfig { graph: self.graph, active_variables: active, max_symbolic_size: self.max_symbolic_size }
    }

    /// The reachability configuration with the graph, the active variables and the size
    /// budget of this configuration, and without an iteration budget.
    pub fn to_reachability(&self) -> (r: ReachabilityConfig)
        requires
            self.wf(),
        ensures
            r.wf(),
            r.graph == self.graph,
            r.variables@ == self.active_variables@,
            r.moves() == self.moves(),
            r.max_iterations == usize::MAX,
            r.max_symbolic_size == self.max_symbolic_size,
    {
        ReachabilityConfig {
            graph: clone_graph(&self.graph),
            variables: clone_variables(&self.active_variables),
            max_iterations: usize::MAX,
            max_symbolic_size: self.max_symbolic_size,
        }
    }
}

impl Clone for AttractorConfig {
    fn clone(&self) -> (r: Self)
        ensures
            r.graph == self.graph,
            r.active_variables@ == self.active_variables@,
            r.max_symbolic_size == self.max_symbolic_size,
    {
        AttractorConfig {
            graph: clone_graph(&self.graph),
            active_variables: clone_variables(&self.active_variables),
            max_symbolic_size: self.max_symbolic_size,
        }
    }
}

impl From<SymbolicAsyncGraph> for AttractorConfig {
    fn from(value: SymbolicAsyncGraph) -> (r: Self)
        ensures
            r.wf(),
            r.graph == value,
            r.active_variables@ == Seq::new(variable_count(value), |i: int| i as usize),
            r.max_symbolic_size == usize::MAX,
    {
        AttractorConfig::new(value)
    }
}

impl FromSpecImpl<SymbolicAsyncGraph> for AttractorConfig {
    open spec fn obeys_from_spec() -> bool {
        false
    }

    open spec fn from_spec(value: SymbolicAsyncGraph) -> Self {
        arbitrary()
    }
}

impl<'a> From<&'a SymbolicAsyncGraph> for AttractorConfig {
    fn from(value: &'a SymbolicAsyncGraph) -> (r: Self)
        ensures
            r.wf(),
            r.graph == *value,
            r.active_variables@ == Seq::new(variable_count(*value), |i: int| i as usize),
            r.max_symbolic_size == usize::MAX,
    {
        AttractorConfig::new(clone_graph(value))
    }
}

impl<'a> FromSpecImpl<&'a SymbolicAsyncGraph> for AttractorConfig {
    open spec fn obeys_from_spec() -> bool {
        false
    }

    open spec fn from_spec(value: &'a SymbolicAsyncGraph) -> Self {
        arbitrary()
    }
}

impl<'a> From<&'a AttractorConfig> for ReachabilityConfig {
    fn from(value: &'a AttractorConfig) -> (r: Self)
        ensures
            r.graph == value.graph,
            r.variables@ == value.active_variables@,
            r.max_iterations == usize::MAX,
            r.max_symbolic_size == value.max_symbolic_size,
    {
        ReachabilityConfig {
            graph: clone_graph(&value.graph),
            variables: clone_variables(&value.active_variables),
            max_iterations: usize::MAX,
            max_symbolic_size: value.max_symbolic_size,
        }
    }
}

impl<'a> FromSpecImpl<&'a AttractorConfig> for ReachabilityConfig {
    open spec fn obeys_from_spec() -> bool {
        false
    }

    open spec fn from_spec(value: &'a AttractorConfig) -> Self {
        arbitrary()
    }
}

} // verus!
