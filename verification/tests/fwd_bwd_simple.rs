#![allow(dead_code, unused_imports, unused_variables, unused_mut)]

use biodivine_algo_bdd_scc::test_utils::{collect_state_numbers, mk_state, mk_states};
use biodivine_algo_bdd_scc::test_utils::transition_builder::from_transitions;
use biodivine_lib_param_bn::biodivine_std::traits::Set as SymbolicSet;
use biodivine_lib_param_bn::symbolic_async_graph::{GraphColoredVertices, SymbolicAsyncGraph};
use cancel_this::Cancellable;
use std::collections::HashSet;
use biodivine_algo_bdd_scc::scc::{FwdBwdScc, SccConfig};

/// State `000`: fixed point, attractor 1.
const S000: u32 = 0b000;
/// State `001`: strong basin of attractor 1.
const S001: u32 = 0b001;
/// State `010`: strong basin of attractor 1.
const S010: u32 = 0b010;
/// State `011`: weak basin, a source.
const S011: u32 = 0b011;
/// State `100`: weak basin, a source.
const S100: u32 = 0b100;
/// State `101`: strong basin of attractor 2, a source.
const S101: u32 = 0b101;
/// State `110`: part of attractor 2.
const S110: u32 = 0b110;
/// State `111`: part of attractor 2.
const S111: u32 = 0b111;

const ATTRACTOR_1: &[u32] = &[S000];
const ATTRACTOR_2: &[u32] = &[S110, S111];
const STRONG_BASIN_ATTR1: &[u32] = &[S001, S010];
const STRONG_BASIN_ATTR2: &[u32] = &[S101];
const WEAK_BASIN: &[u32] = &[S011, S100];
const SOURCE_STATES: &[u32] = &[S011, S100, S101];
const CAN_REACH_ATTR1: &[u32] = &[S000, S001, S010, S011, S100];
const CAN_REACH_ATTR2: &[u32] = &[S011, S100, S101, S110, S111];
const ALL_STATES: &[u32] = &[S000, S001, S010, S011, S100, S101, S110, S111];

/// The example network with two attractors, `{000}` and `{110, 111}`.
fn create_test_network() -> SymbolicAsyncGraph {
    let transitions = vec![
        (0b001, 0b000),
        (0b010, 0b000),
        (0b011, 0b001),
        (0b011, 0b010),
        (0b011, 0b111),
        (0b100, 0b000),
        (0b100, 0b110),
        (0b101, 0b111),
        (0b110, 0b111),
        (0b111, 0b110),
    ];
    let bn = from_transitions(3, &transitions).expect("Failed to create network from transitions");
    SymbolicAsyncGraph::new(&bn).expect("Failed to create symbolic graph")
}

/// Initialize the logger for tests. Safe to call multiple times.
fn init_logger() {
    let _ = env_logger::Builder::from_default_env()
        .filter_level(log::LevelFilter::Trace)
        .is_test(true)
        .try_init();
}

/// Convert symbolic sets to sets of state numbers, sorted by size and then by content.
fn symbolic_sets_to_sorted_sets(graph: &SymbolicAsyncGraph, sets: &[GraphColoredVertices], num_vars: usize) -> Vec<HashSet<u32>> {
    let mut result: Vec<HashSet<u32>> = sets
        .iter()
        .map(|set| collect_state_numbers(graph, set, num_vars).into_iter().collect())
        .collect();
    result.sort_by_cached_key(|s| {
        let mut v: Vec<u32> = s.iter().copied().collect();
        v.sort();
        (v.len(), v)
    });
    result
}

/// Convert components to sets of state numbers, sorted by size and then by content.
fn sccs_to_sorted_sets(graph: &SymbolicAsyncGraph, sccs: &[GraphColoredVertices], num_vars: usize) -> Vec<HashSet<u32>> {
    symbolic_sets_to_sorted_sets(graph, sccs, num_vars)
}

#[test]
fn simple_scc() {
    init_logger();
    let graph = create_test_network();
    let mut generator = FwdBwdScc::configure(graph.clone(), &graph);
    let scc = generator.next().unwrap().unwrap();

    // The first SCC is the oscillating attractor:
    let attractor_2 = mk_states(&graph, ATTRACTOR_2);
    assert_eq!(attractor_2, scc);

    // There is only one SCC
    assert!(generator.next().is_none());
}
