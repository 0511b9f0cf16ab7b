//! Networks and sets for experiments: a Boolean network can be built from the list of the
//! transitions that its asynchronous state-transition graph is to have, and a set of
//! vertices from the numbers of the vertices.

pub mod transition_builder;

use crate::reachability::reachability_config::{all_variables, ordered_below};
use crate::symbolic::{
    belongs, intersect, is_empty, members, mk_empty_colored_vertices, num_vars, union,
    unit_members, variable_count, ColoredVertex,
};
use crate::test_utils::transition_builder::{get_variable_value, max_state, value_of};
use biodivine_lib_param_bn::symbolic_async_graph::{GraphColoredVertices, SymbolicAsyncGraph};
use biodivine_lib_param_bn::VariableId;
use vstd::prelude::*;

verus! {

/// The pairs of `s` whose vertex has the listed values for the listed variables.
pub open spec fn subspace(s: Set<ColoredVertex>, values: Seq<(usize, bool)>) -> Set<ColoredVertex> {
    Set::new(|x: ColoredVertex| s.contains(x) && forall|i: int| 0 <= i < values.len() ==> x.0[(#[trigger] values[i]).0 as int] == values[i].1)
}

/// `SymbolicAsyncGraph::mk_subspace`: the pairs of the unit set whose vertex has the listed
/// values for the listed variables. No variable is listed twice: of two values for one
/// variable the symbolic library takes the last.
#[verifier::external_body]
fn mk_subspace(graph: &SymbolicAsyncGraph, values: &Vec<(usize, bool)>) -> (r: GraphColoredVertices)
    requires
        forall|i: int| 0 <= i < values@.len() ==> (#[trigger] values@[i]).0 < variable_count(*graph),
        forall|i: int, j: int| 0 <= i < j < values@.len() ==> (#[trigger] values@[i]).0 != (#[trigger] values@[j]).0,
    ensures
        belongs(r, *graph),
        members(r) == subspace(unit_members(*graph), values@),
{
    let pairs: Vec<(VariableId, bool)> = values.iter().map(|it| (VariableId::from_index(it.0), it.1)).collect();
    graph.mk_subspace(&pairs)
}

/// The variables of the graph, in ascending order.
pub fn variable_order(graph: &SymbolicAsyncGraph) -> (r: Vec<usize>)
    ensures
        r@ == Seq::new(variable_count(*graph), |i: int| i as usize),
        ordered_below(r@, variable_count(*graph)),
{
    all_variables(graph)
}

/// The vertex with the number `state`: the first variable has the most significant bit.
pub open spec fn vertex_of(state: u32, num_vars: usize) -> Seq<bool> {
    Seq::new(num_vars as nat, |i: int| value_of(state, i as usize, num_vars))
}

/// The pairs of the unit set of the graph whose vertex has the number `state`.
pub open spec fn state_pairs(graph: SymbolicAsyncGraph, state: u32) -> Set<ColoredVertex> {
    Set::new(|x: ColoredVertex| unit_members(graph).contains(x) && x.0 == vertex_of(state, variable_count(graph) as usize))
}

/// The pairs of the unit set of the graph whose vertex has one of the numbers.
pub open spec fn states_pairs(graph: SymbolicAsyncGraph, states: Seq<u32>) -> Set<ColoredVertex> {
    Set::new(|x: ColoredVertex| exists|i: int| 0 <= i < states.len() && #[trigger] state_pairs(graph, states[i]).contains(x))
}

/// The set of the vertex with the number `state`, in every colour of the graph.
pub fn mk_state(graph: &SymbolicAsyncGraph, state: u32) -> (r: GraphColoredVertices)
    requires
        variable_count(*graph) < 32,
        state <= max_state(variable_count(*graph) as usize),
    ensures
        belongs(r, *graph),
        members(r) == state_pairs(*graph, state),
{
    let count = num_vars(graph);
    let mut assignments: Vec<(usize, bool)> = Vec::new();
    let mut i: usize = 0;
    while i < count
        invariant
            i <= count < 32,
            assignments@.len() == i,
            forall|k: int| 0 <= k < i ==> #[trigger] assignments@[k] == (k as usize, value_of(state, k as usize, count)),
        decreases count - i,
    {
        let value = get_variable_value(state, i, count);
        assignments.push((i, value));
        i += 1;
    }
    let r = mk_subspace(graph, &assignments);
    proof {
        assert forall|x: ColoredVertex| members(r).contains(x) <==> state_pairs(*graph, state).contains(x) by {
            if members(r).contains(x) {
                assert(x.0.len() == count);
                assert forall|k: int| 0 <= k < count implies x.0[k] == vertex_of(state, count)[k] by {
                    assert(x.0[assignments@[k].0 as int] == assignments@[k].1);
                }
                assert(x.0 =~= vertex_of(state, count));
            }
            if state_pairs(*graph, state).contains(x) {
                assert forall|k: int| 0 <= k < assignments@.len() implies x.0[(#[trigger] assignments@[k]).0 as int] == assignments@[k].1 by {
                    assert(vertex_of(state, count)[k] == value_of(state, k as usize, count));
                }
            }
        }
        assert(members(r) =~= state_pairs(*graph, state));
    }
    r
}

/// The set of the vertices with the given numbers, in every colour of the graph.
pub fn mk_states(graph: &SymbolicAsyncGraph, states: &[u32]) -> (r: GraphColoredVertices)
    requires
        variable_count(*graph) < 32,
        forall|i: int| 0 <= i < states@.len() ==> #[trigger] states@[i] <= max_state(variable_count(*graph) as usize),
    ensures
        belongs(r, *graph),
        members(r) == states_pairs(*graph, states@),
{
    let mut result = mk_empty_colored_vertices(graph);
    let mut i: usize = 0;
    assert(members(result) =~= states_pairs(*graph, states@.take(0)));
    while i < states.len()
        invariant
            i <= states@.len(),
            variable_count(*graph) < 32,
            forall|k: int| 0 <= k < states@.len() ==> #[trigger] states@[k] <= max_state(variable_count(*graph) as usize),
            belongs(result, *graph),
            members(result) == states_pairs(*graph, states@.take(i as int)),
        decreases states@.len() - i,
    {
        let one = mk_state(graph, states[i]);
        let ghost before = members(result);
        result = union(&result, &one);
        proof {
            let earlier = states@.take(i as int);
            let now = states@.take(i + 1);
            assert forall|x: ColoredVertex| members(result).contains(x) <==> states_pairs(*graph, now).contains(x) by {
                if before.contains(x) {
                    let k = choose|k: int| 0 <= k < earlier.len() && #[trigger] state_pairs(*graph, earlier[k]).contains(x);
                    assert(state_pairs(*graph, now[k]).contains(x));
                }
                if members(one).contains(x) {
                    assert(state_pairs(*graph, now[i as int]).contains(x));
                }
                if states_pairs(*graph, now).contains(x) {
                    let k = choose|k: int| 0 <= k < now.len() && #[trigger] state_pairs(*graph, now[k]).contains(x);
                    if k < i {
                        assert(state_pairs(*graph, earlier[k]).contains(x));
                    }
                }
            }
            assert(members(result) =~= states_pairs(*graph, now));
        }
        i += 1;
    }
    assert(states@.take(i as int) =~= states@);
    result
}

/// The numbers of the vertices that occur in `set`, in ascending order. `num_vars` is the
/// number of variables of the graph.
pub fn collect_state_numbers(graph: &SymbolicAsyncGraph, set: &GraphColoredVertices, num_vars: usize) -> (r: Vec<u32>)
    requires
        num_vars <= 20,
        num_vars == variable_count(*graph),
        belongs(*set, *graph),
    ensures
        forall|s: u32| r@.contains(s) <==> s <= max_state(num_vars) && !state_pairs(*graph, s).disjoint(members(*set)),
        forall|i: int, j: int| 0 <= i < j < r@.len() ==> r@[i] < r@[j],
{
    let mut found: Vec<u32> = Vec::new();
    assert(num_vars <= 20 ==> (1u32 << (num_vars as u32)) >= 1 && (1u32 << (num_vars as u32)) <= 0x100000) by (bit_vector);
    let last: u32 = (1u32 << (num_vars as u32)) - 1;
    let mut state: u32 = 0;
    while state <= last
        invariant
            state <= last + 1,
            last == max_state(num_vars),
            last < 0x100000,
            num_vars == variable_count(*graph),
            num_vars <= 20,
            belongs(*set, *graph),
            forall|s: u32| found@.contains(s) <==> s < state && !state_pairs(*graph, s).disjoint(members(*set)),
            forall|i: int, j: int| 0 <= i < j < found@.len() ==> found@[i] < found@[j],
        decreases last + 1 - state,
    {
        let state_set = mk_state(graph, state);
        let common = intersect(&state_set, set);
        let ghost before = found@;
        if !is_empty(&common) {
            found.push(state);
            proof {
                let x = choose|x: ColoredVertex| members(common).contains(x);
                assert(state_pairs(*graph, state).contains(x) && members(*set).contains(x));
                assert(found@.last() == state);
                assert forall|s: u32| found@.contains(s) <==> s < state + 1 && !state_pairs(*graph, s).disjoint(members(*set)) by {
                    if found@.contains(s) {
                        let k = choose|k: int| 0 <= k < found@.len() && found@[k] == s;
                        if k < before.len() {
                            assert(before[k] == s);
                            assert(before.contains(s));
                        }
                    }
                    if s < state && !state_pairs(*graph, s).disjoint(members(*set)) {
                        assert(before.contains(s));
                        let k = choose|k: int| 0 <= k < before.len() && before[k] == s;
                        assert(found@[k] == s);
                    }
                    if s == state {
                        assert(found@[found@.len() - 1] == s);
                    }
                }
                assert forall|i: int, j: int| 0 <= i < j < found@.len() implies found@[i] < found@[j] by {
                    if j == found@.len() - 1 {
                        assert(before[i] == found@[i]);
                        assert(before.contains(found@[i]));
                    } else {
                        assert(before[i] == found@[i] && before[j] == found@[j]);
                    }
                }
            }
        } else {
            proof {
                assert(state_pairs(*graph, state).disjoint(members(*set))) by {
                    assert forall|x: ColoredVertex| !(state_pairs(*graph, state).contains(x) && members(*set).contains(x)) by {
                        if state_pairs(*graph, state).contains(x) && members(*set).contains(x) {
                            assert(members(common).contains(x));
                        }
                    }
                }
            }
        }
        state += 1;
    }
    found
}

} // verus!
