use biodivine_algo_bdd_scc::test_utils::transition_builder::{from_transitions, Transition, TransitionError};
use biodivine_algo_bdd_scc::test_utils::{collect_state_numbers, mk_state};
use biodivine_lib_param_bn::biodivine_std::traits::Set as SymbolicSet;
use biodivine_lib_param_bn::symbolic_async_graph::{GraphColoredVertices, SymbolicAsyncGraph};

/// Verify that all declared transitions exist in the graph.
fn verify_transitions(graph: &SymbolicAsyncGraph, transitions: &[Transition], num_vars: usize) {
    for &(from_state, to_state) in transitions {
        let from = mk_state(graph, from_state);
        let to = mk_state(graph, to_state);
        let successors = graph.post(&from);
        assert!(
            to.is_subset(&successors),
            "Transition {} → {} not found in graph. Successors of {}: {:?}",
            from_state,
            to_state,
            from_state,
            collect_state_numbers(graph, &successors, num_vars)
        );
    }
}

/// Verify that the graph has exactly the declared transitions.
fn verify_exact_transitions(graph: &SymbolicAsyncGraph, transitions: &[Transition], num_vars: usize) {
    let max_state = (1u32 << num_vars) - 1;
    for state in 0..=max_state {
        let state_set = mk_state(graph, state);
        let actual = collect_state_numbers(graph, &graph.post(&state_set), num_vars);
        let mut expected: Vec<u32> = transitions.iter().filter(|(from, _)| *from == state).map(|(_, to)| *to).collect();
        expected.sort();
        expected.dedup();
        assert_eq!(actual, expected, "State {} has unexpected successors", state);
    }
}

#[test]
fn test_simple_2var_cycle() {
    let transitions = vec![(0b00, 0b10), (0b10, 0b11), (0b11, 0b01), (0b01, 0b00)];
    let bn = from_transitions(2, &transitions).expect("Failed to create network");
    assert_eq!(bn.num_vars(), 2);
    let graph = SymbolicAsyncGraph::new(&bn).expect("Failed to create graph");
    assert_eq!(graph.mk_unit_colored_vertices().exact_cardinality(), 4u32.into());
    verify_transitions(&graph, &transitions, 2);
    verify_exact_transitions(&graph, &transitions, 2);
}

#[test]
fn test_fixed_point() {
    let transitions = vec![(0b01, 0b00)];
    let bn = from_transitions(2, &transitions).expect("Failed to create network");
    let graph = SymbolicAsyncGraph::new(&bn).expect("Failed to create graph");
    verify_transitions(&graph, &transitions, 2);
    verify_exact_transitions(&graph, &transitions, 2);
    let s00 = mk_state(&graph, 0b00);
    let successors = graph.post(&s00);
    assert!(successors.is_empty(), "State 00 should be a fixed point");
}

#[test]
fn test_invalid_multiple_variables() {
    let transitions = vec![(0b00, 0b11)];
    let result = from_transitions(2, &transitions);
    assert!(result.is_err());
    match result.unwrap_err() {
        TransitionError::MultipleVariablesChanged { .. } => {}
        _ => panic!("Expected MultipleVariablesChanged error"),
    }
}

#[test]
fn test_invalid_state_range() {
    let transitions = vec![(0b100, 0b101)];
    let result = from_transitions(2, &transitions);
    assert!(result.is_err());
    match result.unwrap_err() {
        TransitionError::InvalidState { .. } => {}
        _ => panic!("Expected InvalidState error"),
    }
}

#[test]
fn test_self_loop() {
    let transitions = vec![(0b00, 0b00)];
    let result = from_transitions(2, &transitions);
    assert!(result.is_err());
    match result.unwrap_err() {
        TransitionError::NoVariableChanged { .. } => {}
        _ => panic!("Expected NoVariableChanged error"),
    }
}

#[test]
fn test_3var_example() {
    let transitions = vec![(0b000, 0b100), (0b100, 0b110), (0b110, 0b111)];
    let bn = from_transitions(3, &transitions).expect("Failed to create network");
    assert_eq!(bn.num_vars(), 3);
    let graph = SymbolicAsyncGraph::new(&bn).expect("Failed to create graph");
    assert_eq!(graph.mk_unit_colored_vertices().exact_cardinality(), 8u32.into());
    verify_transitions(&graph, &transitions, 3);
    verify_exact_transitions(&graph, &transitions, 3);
}

#[test]
fn invalid_state_reports_the_first_offender() {
    let transitions = vec![(0b01, 0b00), (0b01, 0b111), (0b1000, 0b00)];
    assert_eq!(from_transitions(2, &transitions).unwrap_err(), TransitionError::InvalidState { state: 0b111, num_vars: 2 });
    let transitions = vec![(0b00, 0b11), (0b100, 0b00)];
    assert_eq!(from_transitions(2, &transitions).unwrap_err(), TransitionError::InvalidState { state: 0b100, num_vars: 2 });
    let transitions = vec![(0b01, 0b01), (0b00, 0b11)];
    assert_eq!(from_transitions(2, &transitions).unwrap_err(), TransitionError::NoVariableChanged { state: 0b01 });
    let transitions = vec![(0b00, 0b11), (0b01, 0b01)];
    assert_eq!(from_transitions(2, &transitions).unwrap_err(), TransitionError::MultipleVariablesChanged { from: 0b00, to: 0b11 });
}
