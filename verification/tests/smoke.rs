use biodivine_algo_bdd_scc::attractor::{AttractorConfig, InterleavedTransitionGuidedReduction, ItgrState, XieBeerelAttractors, XieBeerelState};
use biodivine_algo_bdd_scc::reachability_utils::Reachability;
use biodivine_algo_bdd_scc::reachability::{BackwardReachability, ForwardReachability, ForwardReachabilityBfs};
use biodivine_algo_bdd_scc::scc::{ChainScc, FwdBwdScc, SccConfig};
use biodivine_algo_bdd_scc::trapping::ForwardTrap;
use biodivine_algo_bdd_scc::trimming::TrimSinksAndSources;
use biodivine_lib_param_bn::biodivine_std::traits::Set as SymbolicSet;
use biodivine_lib_param_bn::symbolic_async_graph::{GraphColoredVertices, SymbolicAsyncGraph};
use biodivine_lib_param_bn::BooleanNetwork;

fn network() -> SymbolicAsyncGraph {
    let aeon_model = r#"
        x0 -> x0
        x1 -> x0
        x2 -> x0
        x0 -> x1
        x0 -> x2
        x1 -? x2
        x2 -? x2
        $x0: (x0 & x1) | (x1 & x2) | (x0 & x2)
        $x1: x0
        $x2: x0 & ((x1 & !x2) | (!x1 & x2))
    "#;
    let bn = BooleanNetwork::try_from(aeon_model).expect("Invalid AEON model");
    SymbolicAsyncGraph::new(&bn).expect("Failed to create symbolic graph")
}

fn state(graph: &SymbolicAsyncGraph, state: u8) -> GraphColoredVertices {
    let vars: Vec<_> = graph.variables().collect();
    graph.mk_subspace(&[
        (vars[0], (state >> 2) & 1 == 1),
        (vars[1], (state >> 1) & 1 == 1),
        (vars[2], state & 1 == 1),
    ])
}

fn states(graph: &SymbolicAsyncGraph, list: &[u8]) -> GraphColoredVertices {
    let mut result = graph.mk_empty_colored_vertices();
    for s in list {
        result = result.union(&state(graph, *s));
    }
    result
}

#[test]
fn smoke_forward_from_001() {
    let graph = network();
    let result = ForwardReachability::run(&graph, state(&graph, 0b001)).unwrap();
    assert_eq!(result, states(&graph, &[0b000, 0b001]));
}

#[test]
fn smoke_forward_from_100() {
    let graph = network();
    let result = ForwardReachability::run(&graph, state(&graph, 0b100)).unwrap();
    assert_eq!(result, states(&graph, &[0b000, 0b100, 0b110, 0b111]));
    let result = ForwardReachabilityBfs::run(&graph, state(&graph, 0b100)).unwrap();
    assert_eq!(result, states(&graph, &[0b000, 0b100, 0b110, 0b111]));
}

#[test]
fn smoke_backward_to_110() {
    let graph = network();
    let result = BackwardReachability::run(&graph, state(&graph, 0b110)).unwrap();
    assert_eq!(result, states(&graph, &[0b011, 0b100, 0b101, 0b110, 0b111]));
}

#[test]
fn smoke_trap_and_trim() {
    let graph = network();
    let result = ForwardTrap::run(&graph, states(&graph, &[0b001, 0b110, 0b111])).unwrap();
    assert_eq!(result, states(&graph, &[0b110, 0b111]));
    let result = TrimSinksAndSources::run(&graph, graph.mk_unit_colored_vertices()).unwrap();
    assert_eq!(result, states(&graph, &[0b110, 0b111]));
}

#[test]
fn smoke_scc() {
    let graph = network();
    let mut generator = FwdBwdScc::configure(SccConfig::new(graph.clone()), graph.mk_unit_colored_vertices());
    let mut found = Vec::new();
    while let Some(item) = generator.next() {
        found.push(item.unwrap());
    }
    assert_eq!(found, vec![states(&graph, &[0b110, 0b111])]);
    let mut generator = ChainScc::configure(SccConfig::new(graph.clone()), &graph);
    let mut found = Vec::new();
    while let Some(item) = generator.next() {
        found.push(item.unwrap());
    }
    assert_eq!(found, vec![states(&graph, &[0b110, 0b111])]);
}

#[test]
fn smoke_attractors() {
    let graph = network();
    let mut generator = XieBeerelAttractors::configure(AttractorConfig::new(graph.clone()), XieBeerelState::from(&graph));
    let mut found = Vec::new();
    while let Some(item) = generator.next() {
        found.push(item.unwrap());
    }
    assert_eq!(found.len(), 2);
    assert!(found.contains(&states(&graph, &[0b000])));
    assert!(found.contains(&states(&graph, &[0b110, 0b111])));
}

#[test]
fn smoke_itgr() {
    let graph = network();
    let config = AttractorConfig::new(graph.clone());
    let state = ItgrState::new(&graph, &graph.mk_unit_colored_vertices());
    let mut itgr = InterleavedTransitionGuidedReduction::configure(config.clone(), state);
    let mut steps = 0;
    let reduced = loop {
        steps += 1;
        assert!(steps < 10_000);
        match itgr.try_compute() {
            Ok(reduced) => break reduced.clone(),
            Err(_) => {}
        }
    };
    assert!(states(&graph, &[0b000, 0b110, 0b111]).is_subset(&reduced));
    let config = config.restrict_state_space(&reduced);
    let mut generator = XieBeerelAttractors::configure(config, XieBeerelState::from(&reduced));
    let mut found = Vec::new();
    while let Some(item) = generator.next() {
        found.push(item.unwrap());
    }
    assert_eq!(found.len(), 2);
}

#[test]
fn smoke_naive() {
    let graph = network();
    let result = Reachability::reach_forward_naive(&graph, state(&graph, 0b100)).unwrap();
    assert_eq!(result, states(&graph, &[0b000, 0b100, 0b110, 0b111]));
    let result = Reachability::reach_backward_naive(&graph, state(&graph, 0b110)).unwrap();
    assert_eq!(result, states(&graph, &[0b011, 0b100, 0b101, 0b110, 0b111]));
    let result = Reachability::trap_forward_naive(&graph, states(&graph, &[0b001, 0b110, 0b111])).unwrap();
    assert_eq!(result, states(&graph, &[0b110, 0b111]));
    let result = Reachability::trap_backward_naive(&graph, states(&graph, &[0b000, 0b011, 0b100])).unwrap();
    assert_eq!(result, states(&graph, &[0b011, 0b100]));
}
