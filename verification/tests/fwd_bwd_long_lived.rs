#![allow(dead_code, unused_imports, unused_variables, unused_mut)]

use biodivine_algo_bdd_scc::test_utils::{collect_state_numbers, mk_state, mk_states};
use biodivine_algo_bdd_scc::test_utils::transition_builder::from_transitions;
use biodivine_lib_param_bn::biodivine_std::traits::Set as SymbolicSet;
use biodivine_lib_param_bn::symbolic_async_graph::{GraphColoredVertices, SymbolicAsyncGraph};
use cancel_this::Cancellable;
use std::collections::HashSet;
use biodivine_algo_bdd_scc::scc::{FwdBwdScc, SccConfig};

/// State `000`: fixed point, attractor 1.
const S000: u32 = 0b000;
/// State `001`: strong basin of attractor 1.
const S001: u32 = 0b001;
/// State `010`: strong basin of attractor 1.
const S010: u32 = 0b010;
/// State `011`: weak basin, a source.
const S011: u32 = 0b011;
/// State `100`: weak basin, a source.
const S100: u32 = 0b100;
/// State `101`: strong basin of attractor 2, a source.
const S101: u32 = 0b101;
/// State `110`: part of attractor 2.
const S110: u32 = 0b110;
/// State `111`: part of attractor 2.
const S111: u32 = 0b111;

const ATTRACTOR_1: &[u32] = &[S000];
const ATTRACTOR_2: &[u32] = &[S110, S111];
const STRONG_BASIN_ATTR1: &[u32] = &[S001, S010];
const STRONG_BASIN_ATTR2: &[u32] = &[S101];
const WEAK_BASIN: &[u32] = &[S011, S100];
const SOURCE_STATES: &[u32] = &[S011, S100, S101];
const CAN_REACH_ATTR1: &[u32] = &[S000, S001, S010, S011, S100];
const CAN_REACH_ATTR2: &[u32] = &[S011, S100, S101, S110, S111];
const ALL_STATES: &[u32] = &[S000, S001, S010, S011, S100, S101, S110, S111];

/// The example network with two attractors, `{000}` and `{110, 111}`.
fn create_test_network() -> SymbolicAsyncGraph {
    let transitions = vec![
        (0b001, 0b000),
        (0b010, 0b000),
        (0b011, 0b001),
        (0b011, 0b010),
        (0b011, 0b111),
        (0b100, 0b000),
        (0b100, 0b110),
        (0b101, 0b111),
        (0b110, 0b111),
        (0b111, 0b110),
    ];
    let bn = from_transitions(3, &transitions).expect("Failed to create network from transitions");
    SymbolicAsyncGraph::new(&bn).expect("Failed to create symbolic graph")
}

/// Initialize the logger for tests. Safe to call multiple times.
fn init_logger() {
    let _ = env_logger::Builder::from_default_env()
        .filter_level(log::LevelFilter::Trace)
        .is_test(true)
        .try_init();
}

/// Convert symbolic sets to sets of state numbers, sorted by size and then by content.
fn symbolic_sets_to_sorted_sets(graph: &SymbolicAsyncGraph, sets: &[GraphColoredVertices], num_vars: usize) -> Vec<HashSet<u32>> {
    let mut result: Vec<HashSet<u32>> = sets
        .iter()
        .map(|set| collect_state_numbers(graph, set, num_vars).into_iter().collect())
        .collect();
    result.sort_by_cached_key(|s| {
        let mut v: Vec<u32> = s.iter().copied().collect();
        v.sort();
        (v.len(), v)
    });
    result
}

/// Convert components to sets of state numbers, sorted by size and then by content.
fn sccs_to_sorted_sets(graph: &SymbolicAsyncGraph, sccs: &[GraphColoredVertices], num_vars: usize) -> Vec<HashSet<u32>> {
    symbolic_sets_to_sorted_sets(graph, sccs, num_vars)
}

/// Create a test network with two non-trivial SCCs:
/// - Long-lived SCC: {000, 100} - a 2-cycle with no escape
/// - Short-lived SCC: {011, 111} - a 2-cycle where ALL states can escape via x1
///   (011 → 001 and 111 → 101)
///
/// States 001 and 101 are fixed points (sinks).
fn create_long_lived_test_network() -> SymbolicAsyncGraph {
    let transitions = vec![
        // Long-lived SCC: {000, 100} - no escape
        (0b000, 0b100), // 000 → 100 (x0 flips)
        (0b100, 0b000), // 100 → 000 (x0 flips)
        // Short-lived SCC: {011, 111} - ALL states can escape via x1
        (0b011, 0b111), // 011 → 111 (x0 flips) - cycle
        (0b111, 0b011), // 111 → 011 (x0 flips) - cycle
        (0b011, 0b001), // 011 → 001 (x1 flips) - ESCAPE via x1
        (0b111, 0b101), // 111 → 101 (x1 flips) - ESCAPE via x1
    ];

    let bn = from_transitions(3, &transitions).expect("Failed to create network");
    SymbolicAsyncGraph::new(&bn).expect("Failed to create graph")
}

/// Test that without long-lived filtering, both SCCs are reported.
#[test]
fn test_without_long_lived_filter_reports_both_sccs() {
    init_logger();
    let graph = create_long_lived_test_network();

    // Default config: filter_long_lived = false
    let config = SccConfig::new(graph.clone());
    assert!(!config.filter_long_lived, "Default should be false");

    let mut generator = FwdBwdScc::configure(config, &graph);
    let mut found_sccs = Vec::new();

    while let Some(result) = generator.next() {
        found_sccs.push(result.unwrap());
    }

    // Should find exactly two SCCs
    assert_eq!(
        found_sccs.len(),
        2,
        "Expected 2 SCCs without long-lived filtering, but found {}",
        found_sccs.len()
    );

    // Verify the SCCs are the expected ones
    let found_sets = sccs_to_sorted_sets(&graph, &found_sccs, 3);

    let expected_long_lived: HashSet<u32> = [0b000, 0b100].iter().copied().collect();
    let expected_short_lived: HashSet<u32> = [0b011, 0b111].iter().copied().collect();

    assert!(
        found_sets.contains(&expected_long_lived),
        "Expected to find long-lived SCC {{000, 100}}, found: {:?}",
        found_sets
    );
    assert!(
        found_sets.contains(&expected_short_lived),
        "Expected to find short-lived SCC {{011, 111}}, found: {:?}",
        found_sets
    );
}

/// Test that with long-lived filtering, only the long-lived SCC is reported.
#[test]
fn test_with_long_lived_filter_reports_only_long_lived_scc() {
    init_logger();
    let graph = create_long_lived_test_network();

    // Enable long-lived filtering
    let config = SccConfig::new(graph.clone()).filter_long_lived(true);
    assert!(config.filter_long_lived, "Should be enabled");

    let mut generator = FwdBwdScc::configure(config, &graph);
    let mut found_sccs = Vec::new();

    while let Some(result) = generator.next() {
        found_sccs.push(result.unwrap());
    }

    // Should find exactly one SCC (the long-lived one)
    assert_eq!(
        found_sccs.len(),
        1,
        "Expected 1 SCC with long-lived filtering, but found {}",
        found_sccs.len()
    );

    // Verify it's the long-lived SCC
    let found_sets = sccs_to_sorted_sets(&graph, &found_sccs, 3);

    let expected_long_lived: HashSet<u32> = [0b000, 0b100].iter().copied().collect();

    assert_eq!(
        found_sets[0], expected_long_lived,
        "Expected long-lived SCC {{000, 100}}, found: {:?}",
        found_sets[0]
    );
}
