//! The configuration of the reachability procedures.

use crate::symbolic::{
    clone_graph, encoding, graph_encoding, has_step, members, num_vars, restrict, steps,
    steps_within, unit_members, variable_count, ColoredVertex,
};
use biodivine_lib_param_bn::symbolic_async_graph::GraphColoredVertices;
use biodivine_lib_param_bn::symbolic_async_graph::SymbolicAsyncGraph;
use crate::relation::confined;
use vstd::prelude::*;
use vstd::std_specs::convert::FromSpecImpl;

verus! {

/// The variables of a list, as a set.
pub open spec fn listed(variables: Seq<usize>) -> Set<nat> {
    Set::new(|v: nat| exists|i: int| 0 <= i < variables.len() && #[trigger] variables[i] == v)
}

/// The list is strictly increasing and every entry is below `bound`.
pub open spec fn ordered_below(variables: Seq<usize>, bound: nat) -> bool {
    &&& forall|i: int| 0 <= i < variables.len() ==> #[trigger] variables[i] < bound
    &&& forall|i: int, j: int| 0 <= i < j < variables.len() ==> #[trigger] variables[i] < #[trigger] variables[j]
}

/// The steps of the graph that update one of the given variables, as a relation.
pub open spec fn moves(graph: SymbolicAsyncGraph, variables: Set<nat>) -> Set<(ColoredVertex, ColoredVertex)> {
    Set::new(|p: (ColoredVertex, ColoredVertex)| exists|v: nat| variables.contains(v) && #[trigger] has_step(graph, v, p.0, p.1))
}

/// A graph restricted to `u` has, for any variables, the steps of the unrestricted graph
/// within `u`.
pub proof fn lemma_moves_of_restricted(graph: SymbolicAsyncGraph, restricted: SymbolicAsyncGraph, variables: Set<nat>, u: Set<ColoredVertex>)
    requires
        steps(restricted) == steps_within(graph, u),
    ensures
        moves(restricted, variables) == confined(moves(graph, variables), u),
{
    assert forall|p: (ColoredVertex, ColoredVertex)| moves(restricted, variables).contains(p) implies confined(moves(graph, variables), u).contains(p) by {
        let v = choose|v: nat| variables.contains(v) && #[trigger] has_step(restricted, v, p.0, p.1);
        let t = (v, p.0.0, p.1.0, p.0.1);
        assert(steps_within(graph, u).contains(t));
        assert((t.1, t.3) == p.0);
        assert((t.2, t.3) == p.1);
        assert(has_step(graph, v, p.0, p.1));
    }
    assert forall|p: (ColoredVertex, ColoredVertex)| confined(moves(graph, variables), u).contains(p) implies moves(restricted, variables).contains(p) by {
        let v = choose|v: nat| variables.contains(v) && #[trigger] has_step(graph, v, p.0, p.1);
        let t = (v, p.0.0, p.1.0, p.0.1);
        assert((t.1, t.3) == p.0);
        assert((t.2, t.3) == p.1);
        assert(steps_within(graph, u).contains(t));
        assert(has_step(restricted, v, p.0, p.1));
    }
    assert(moves(restricted, variables) =~= confined(moves(graph, variables), u));
}

/// All variables of a graph with `count` variables.
pub open spec fn all_below(count: nat) -> Set<nat> {
    Set::new(|v: nat| v < count)
}

/// All steps of the graph, as a relation.
pub open spec fn all_moves(graph: SymbolicAsyncGraph) -> Set<(ColoredVertex, ColoredVertex)> {
    moves(graph, all_below(variable_count(graph)))
}

/// The list `0, 1, ..` of all variables lists every variable.
pub proof fn lemma_listed_all(count: nat)
    requires
        count <= usize::MAX,
    ensures
        listed(Seq::new(count, |i: int| i as usize)) == all_below(count),
{
    let list = Seq::new(count, |i: int| i as usize);
    assert forall|v: nat| all_below(count).contains(v) implies listed(list).contains(v) by {
        assert(list[v as int] == v);
    }
    assert(listed(list) =~= all_below(count));
}

/// Every listed variable is a variable of the graph.
pub open spec fn in_graph(graph: SymbolicAsyncGraph, variables: Seq<usize>) -> bool {
    forall|i: int| 0 <= i < variables.len() ==> #[trigger] variables[i] < variable_count(graph)
}

/// Whether every listed variable is a variable of the graph.
pub fn all_in_graph(graph: &SymbolicAsyncGraph, variables: &[usize]) -> (r: bool)
    ensures
        r == in_graph(*graph, variables@),
{
    let count = num_vars(graph);
    let mut i: usize = 0;
    while i < variables.len()
        invariant
            i <= variables@.len(),
            count == variable_count(*graph),
            forall|k: int| 0 <= k < i ==> #[trigger] variables@[k] < count,
        decreases variables.len() - i,
    {
        if variables[i] >= count {
            return false;
        }
        i += 1;
    }
    true
}

/// A flat configuration of the reachability procedures.
pub struct ReachabilityConfig {
    /// The graph to explore. Restrict it to confine the procedure to a subset of its vertices.
    pub graph: SymbolicAsyncGraph,
    /// The variables that the procedure may update, in increasing order.
    pub variables: Vec<usize>,
    /// The procedure is cancelled when it would start an iteration beyond this number.
    pub max_iterations: usize,
    /// The procedure is cancelled when its set takes more diagram nodes than this.
    pub max_symbolic_size: usize,
}

impl ReachabilityConfig {
    /// The configuration with the given active variables, if they are all variables of the
    /// graph; `None` if one is not. The order of the list and repetitions in it do not
    /// matter: the configuration holds the variables in increasing order, each once.
    pub fn try_restrict_variables(self, variables: &[usize]) -> (r: Option<ReachabilityConfig>)
        ensures
            match r {
                None => !in_graph(self.graph, variables@),
                Some(config) => {
                    &&& in_graph(self.graph, variables@)
                    &&& config.wf()
                    &&& config.graph == self.graph
                    &&& config.max_iterations == self.max_iterations
                    &&& config.max_symbolic_size == self.max_symbolic_size
                    &&& listed(config.variables@) == listed(variables@)
                },
            },
    {
        if !all_in_graph(&self.graph, variables) {
            return None;
        }
        let ordered = crate::attractor::AttractorConfig { graph: self.graph, active_variables: Vec::new(), max_symbolic_size: self.max_symbolic_size }.restrict_variables(variables);
        Some(ReachabilityConfig { graph: ordered.graph, variables: ordered.active_variables, max_iterations: self.max_iterations, max_symbolic_size: self.max_symbolic_size })
    }

    /// The active variables are increasing, and all are variables of the graph.
    pub open spec fn wf(&self) -> bool {
        ordered_below(self.variables@, variable_count(self.graph))
    }

    /// The active variables.
    pub open spec fn active(&self) -> Set<nat> {
        listed(self.variables@)
    }

    /// The steps that the procedure may take.
    pub open spec fn moves(&self) -> Set<(ColoredVertex, ColoredVertex)> {
        moves(self.graph, self.active())
    }

    /// A configuration with all variables of the graph and without budgets.
    pub fn new(graph: SymbolicAsyncGraph) -> (r: ReachabilityConfig)
        ensures
            r.wf(),
            r.graph == graph,
            r.variables@ == Seq::new(variable_count(graph), |i: int| i as usize),
            r.moves() == all_moves(graph),
            r.max_iterations == usize::MAX,
            r.max_symbolic_size == usize::MAX,
    {
        let variables = all_variables(&graph);
        proof {
            lemma_listed_all(variable_count(graph));
        }
        ReachabilityConfig { variables, graph, max_iterations: usize::MAX, max_symbolic_size: usize::MAX }
    }

    /// The configuration confined to a set of the graph: the steps that leave the set or
    /// enter it are ignored.
    pub fn restrict_state_space(self, state_space: &GraphColoredVertices) -> (r: ReachabilityConfig)
        requires
            self.wf(),
            encoding(*state_space) == graph_encoding(self.graph),
        ensures
            r.wf(),
            graph_encoding(r.graph) == graph_encoding(self.graph),
            r.variables == self.variables,
            r.max_iterations == self.max_iterations,
            r.max_symbolic_size == self.max_symbolic_size,
            r.moves() == confined(self.moves(), members(*state_space)),
            steps(r.graph) == steps_within(self.graph, members(*state_space)),
            unit_members(r.graph) == members(*state_space),
    {
        let graph = restrict(&self.graph, state_space);
        proof {
            lemma_moves_of_restricted(self.graph, graph, self.active(), members(*state_space));
        }
        ReachabilityConfig { graph, variables: self.variables, max_iterations: self.max_iterations, max_symbolic_size: self.max_symbolic_size }
    }
}

/// The list of all variables of the graph.
pub fn all_variables(graph: &SymbolicAsyncGraph) -> (r: Vec<usize>)
    ensures
        r@ == Seq::new(variable_count(*graph), |i: int| i as usize),
        ordered_below(r@, variable_count(*graph)),
        variable_count(*graph) <= usize::MAX,
{
    let count = num_vars(graph);
    let mut variables: Vec<usize> = Vec::new();
    let mut i: usize = 0;
    while i < count
        invariant
            i <= count,
            count == variable_count(*graph),
            variables@ == Seq::new(i as nat, |k: int| k as usize),
        decreases count - i,
    {
        variables.push(i);
        i += 1;
        assert(variables@ =~= Seq::new(i as nat, |k: int| k as usize));
    }
    variables
}

/// A copy of a list of variables.
pub fn clone_variables(variables: &Vec<usize>) -> (r: Vec<usize>)
    ensures
        r@ == variables@,
{
    let mut copy: Vec<usize> = Vec::new();
    let mut i: usize = 0;
    while i < variables.len()
        invariant
            i <= variables.len(),
            copy@ == variables@.subrange(0, i as int),
        decreases variables.len() - i,
    {
        copy.push(variables[i]);
        i += 1;
        assert(copy@ =~= variables@.subrange(0, i as int));
    }
    assert(variables@.subrange(0, variables.len() as int) =~= variables@);
    copy
}

impl Clone for ReachabilityConfig {
    fn clone(&self) -> (r: Self)
        ensures
            r.graph == self.graph,
            r.variables@ == self.variables@,
            r.max_iterations == self.max_iterations,
            r.max_symbolic_size == self.max_symbolic_size,
    {
        ReachabilityConfig {
            graph: clone_graph(&self.graph),
            variables: clone_variables(&self.variables),
            max_iterations: self.max_iterations,
            max_symbolic_size: self.max_symbolic_size,
        }
    }
}

impl From<SymbolicAsyncGraph> for ReachabilityConfig {
    fn from(value: SymbolicAsyncGraph) -> (r: Self)
        ensures
            r.wf(),
            r.graph == value,
            r.moves() == all_moves(value),
            r.variables@ == Seq::new(variable_count(value), |i: int| i as usize),
            r.max_iterations == usize::MAX,
            r.max_symbolic_size == usize::MAX,
    {
        ReachabilityConfig::new(value)
    }
}

impl FromSpecImpl<SymbolicAsyncGraph> for ReachabilityConfig {
    open spec fn obeys_from_spec() -> bool {
        false
    }

    open spec fn from_spec(value: SymbolicAsyncGraph) -> Self {
        arbitrary()
    }
}

impl<'a> From<&'a SymbolicAsyncGraph> for ReachabilityConfig {
    fn from(value: &'a SymbolicAsyncGraph) -> (r: Self)
        ensures
            r.wf(),
            r.graph == *value,
            r.moves() == all_moves(*value),
            r.variables@ == Seq::new(variable_count(*value), |i: int| i as usize),
            r.max_iterations == usize::MAX,
            r.max_symbolic_size == usize::MAX,
    {
        ReachabilityConfig::new(clone_graph(value))
    }
}

impl<'a> FromSpecImpl<&'a SymbolicAsyncGraph> for ReachabilityConfig {
    open spec fn obeys_from_spec() -> bool {
        false
    }

    open spec fn from_spec(value: &'a SymbolicAsyncGraph) -> Self {
        arbitrary()
    }
}

} // verus!
