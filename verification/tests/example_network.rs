#![allow(dead_code, unused_imports, unused_variables, unused_mut)]

use biodivine_algo_bdd_scc::test_utils::{collect_state_numbers, mk_state, mk_states};
use biodivine_algo_bdd_scc::test_utils::transition_builder::from_transitions;
use biodivine_lib_param_bn::biodivine_std::traits::Set as SymbolicSet;
use biodivine_lib_param_bn::symbolic_async_graph::{GraphColoredVertices, SymbolicAsyncGraph};
use cancel_this::Cancellable;
use std::collections::HashSet;


/// State `000`: fixed point, attractor 1.
const S000: u32 = 0b000;
/// State `001`: strong basin of attractor 1.
const S001: u32 = 0b001;
/// State `010`: strong basin of attractor 1.
const S010: u32 = 0b010;
/// State `011`: weak basin, a source.
const S011: u32 = 0b011;
/// State `100`: weak basin, a source.
const S100: u32 = 0b100;
/// State `101`: strong basin of attractor 2, a source.
const S101: u32 = 0b101;
/// State `110`: part of attractor 2.
const S110: u32 = 0b110;
/// State `111`: part of attractor 2.
const S111: u32 = 0b111;

const ATTRACTOR_1: &[u32] = &[S000];
const ATTRACTOR_2: &[u32] = &[S110, S111];
const STRONG_BASIN_ATTR1: &[u32] = &[S001, S010];
const STRONG_BASIN_ATTR2: &[u32] = &[S101];
const WEAK_BASIN: &[u32] = &[S011, S100];
const SOURCE_STATES: &[u32] = &[S011, S100, S101];
const CAN_REACH_ATTR1: &[u32] = &[S000, S001, S010, S011, S100];
const CAN_REACH_ATTR2: &[u32] = &[S011, S100, S101, S110, S111];
const ALL_STATES: &[u32] = &[S000, S001, S010, S011, S100, S101, S110, S111];

/// The example network with two attractors, `{000}` and `{110, 111}`.
fn create_test_network() -> SymbolicAsyncGraph {
    let transitions = vec![
        (0b001, 0b000),
        (0b010, 0b000),
        (0b011, 0b001),
        (0b011, 0b010),
        (0b011, 0b111),
        (0b100, 0b000),
        (0b100, 0b110),
        (0b101, 0b111),
        (0b110, 0b111),
        (0b111, 0b110),
    ];
    let bn = from_transitions(3, &transitions).expect("Failed to create network from transitions");
    SymbolicAsyncGraph::new(&bn).expect("Failed to create symbolic graph")
}

/// Initialize the logger for tests. Safe to call multiple times.
fn init_logger() {
    let _ = env_logger::Builder::from_default_env()
        .filter_level(log::LevelFilter::Trace)
        .is_test(true)
        .try_init();
}

/// Convert symbolic sets to sets of state numbers, sorted by size and then by content.
fn symbolic_sets_to_sorted_sets(graph: &SymbolicAsyncGraph, sets: &[GraphColoredVertices], num_vars: usize) -> Vec<HashSet<u32>> {
    let mut result: Vec<HashSet<u32>> = sets
        .iter()
        .map(|set| collect_state_numbers(graph, set, num_vars).into_iter().collect())
        .collect();
    result.sort_by_cached_key(|s| {
        let mut v: Vec<u32> = s.iter().copied().collect();
        v.sort();
        (v.len(), v)
    });
    result
}

/// Convert components to sets of state numbers, sorted by size and then by content.
fn sccs_to_sorted_sets(graph: &SymbolicAsyncGraph, sccs: &[GraphColoredVertices], num_vars: usize) -> Vec<HashSet<u32>> {
    symbolic_sets_to_sorted_sets(graph, sccs, num_vars)
}

/// Verify that the test network has exactly 8 states (no parameters).
#[test]
fn llm_example_network_test_network_has_8_states() {
    let graph = create_test_network();
    let all = graph.mk_unit_colored_vertices();
    assert_eq!(all.exact_cardinality(), 8u32.into());
}

/// Verify that state 000 is a fixed point (no outgoing transitions).
#[test]
fn llm_example_network_test_state_000_is_fixed_point() {
    let graph = create_test_network();
    let s000 = mk_state(&graph, S000);

    let post = graph.post(&s000);
    assert!(
        post.is_empty(),
        "State 000 should have no successors (fixed point)"
    );
}

/// Verify that states 110 and 111 form a 2-cycle.
#[test]
fn llm_example_network_test_attractor_2_is_cycle() {
    let graph = create_test_network();
    let s110 = mk_state(&graph, S110);
    let s111 = mk_state(&graph, S111);

    // 110 should have exactly one successor: 111
    let post_110 = graph.post(&s110);
    assert_eq!(
        post_110, s111,
        "State 110 should have exactly successor 111"
    );

    // 111 should have exactly one successor: 110
    let post_111 = graph.post(&s111);
    assert_eq!(
        post_111, s110,
        "State 111 should have exactly successor 110"
    );
}

/// Verify the complete edge structure of the transition graph.
#[test]
fn llm_example_network_test_complete_transition_structure() {
    let graph = create_test_network();

    // Expected successors for each state (as documented)
    let expected_successors: [(u32, &[u32]); 8] = [
        (S000, &[]),                 // Fixed point
        (S001, &[S000]),             // → 000
        (S010, &[S000]),             // → 000
        (S011, &[S001, S010, S111]), // → 001, 010, 111 (three successors!)
        (S100, &[S000, S110]),       // → 000, 110 (non-deterministic)
        (S101, &[S111]),             // → 111
        (S110, &[S111]),             // → 111
        (S111, &[S110]),             // → 110
    ];

    for (state, expected) in expected_successors {
        let s = mk_state(&graph, state);
        let post = graph.post(&s);
        let expected_set = mk_states(&graph, expected);

        assert_eq!(
            post, expected_set,
            "State {:03b} should have successors {:?}, but got different result",
            state, expected
        );
    }
}

/// Verify that weak basin states have multiple successors (nondeterminism).
#[test]
fn llm_example_network_test_weak_basin_has_nondeterminism() {
    let graph = create_test_network();

    // State 011 should have 3 successors (001, 010, 111)
    let s011 = mk_state(&graph, S011);
    let post_011 = graph.post(&s011);
    assert_eq!(
        post_011.exact_cardinality(),
        3u32.into(),
        "State 011 should have exactly 3 successors"
    );

    // State 100 should have 2 successors (000, 110)
    let s100 = mk_state(&graph, S100);
    let post_100 = graph.post(&s100);
    assert_eq!(
        post_100.exact_cardinality(),
        2u32.into(),
        "State 100 should have exactly 2 successors"
    );
}

/// Verify the source states (no predecessors).
#[test]
fn llm_example_network_test_source_states() {
    let graph = create_test_network();

    // Source states should have no predecessors
    for state in [S011, S100, S101] {
        let s = mk_state(&graph, state);
        let pre = graph.pre(&s);
        assert!(
            pre.is_empty(),
            "State {:03b} should be a source (no predecessors)",
            state
        );
    }

    // Non-source states should have predecessors
    for state in [S000, S001, S010, S110, S111] {
        let s = mk_state(&graph, state);
        let pre = graph.pre(&s);
        assert!(
            !pre.is_empty(),
            "State {:03b} should have predecessors",
            state
        );
    }
}
