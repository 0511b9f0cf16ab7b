//! Strongly connected components of the asynchronous state-transition graph.
//!
//! Two generators enumerate the non-trivial components: the forward-backward algorithm and
//! the chain algorithm. Both report, for every colour, only components with more than one
//! vertex, and on demand only the long-lived ones.

pub mod chain;
pub mod components;
pub mod fwd_bwd;
pub mod scc_config;
pub mod worklist;

use crate::algorithm_trait::{GenAlgorithm, Generator};
use crate::reachability::step_operators::{probe, Probe};
use crate::reachability::{
    BackwardReachability, BackwardReachabilityBfs, ForwardReachability, ForwardReachabilityBfs,
};
use crate::symbolic::{
    belongs, clone_set, colors, colors_in, colors_of, intersect_color_sets, intersect_colors,
    is_empty, members, minus, mk_empty_colored_vertices, no_colors, num_vars, pick_vertex,
    picks_one_vertex_per_color, same_set, single_color, var_can_post_out, variable_count,
    with_colors, ColoredVertex,
};
use biodivine_lib_param_bn::symbolic_async_graph::{GraphColoredVertices, SymbolicAsyncGraph};
pub use chain::{ChainState, ChainStep};
pub use fwd_bwd::{FwdBwdState, FwdBwdStep};
pub use scc_config::SccConfig;
use vstd::prelude::*;

verus! {

/// A generator of components over a component search configuration.
pub trait SccAlgorithm<STATE>: GenAlgorithm<SccConfig, STATE, GraphColoredVertices> {
}

impl<STATE, T: GenAlgorithm<SccConfig, STATE, GraphColoredVertices>> SccAlgorithm<STATE> for T {
}

/// The forward-backward search: pick a pivot, compute what it reaches and what reaches it,
/// report their meet, and go on in the three parts that are left of the universe.
pub type FwdBwdScc = Generator<
    SccConfig,
    FwdBwdState<ForwardReachability, BackwardReachability>,
    GraphColoredVertices,
    FwdBwdStep<ForwardReachability, BackwardReachability>,
>;

/// The forward-backward search over breadth-first reachability. The rigid order is of no
/// use to the search; this form is there to compare with.
pub type FwdBwdSccBfs = Generator<
    SccConfig,
    FwdBwdState<ForwardReachabilityBfs, BackwardReachabilityBfs>,
    GraphColoredVertices,
    FwdBwdStep<ForwardReachabilityBfs, BackwardReachabilityBfs>,
>;

/// The chain search: pick a pivot near the component found last, compute its basin and,
/// within the basin, its component, and go on in the rest of the basin and the rest of the
/// universe.
pub type ChainScc = Generator<
    SccConfig,
    ChainState<ForwardReachability, BackwardReachability>,
    GraphColoredVertices,
    ChainStep<ForwardReachability, BackwardReachability>,
>;

/// The pairs of `s` that an update of variable `v` does not take out of `s`.
pub open spec fn stays(graph: SymbolicAsyncGraph, v: nat, s: Set<ColoredVertex>) -> Set<ColoredVertex> {
    s.difference(probe(Probe::CanPostOut, graph, v, s))
}

/// The colours of `s` under which, for each of the first `n` variables, some vertex of `s`
/// stays in `s` when the variable is updated.
pub open spec fn lasting_colors(graph: SymbolicAsyncGraph, s: Set<ColoredVertex>, n: nat) -> Set<Seq<bool>> {
    Set::new(|c: Seq<bool>| colors_of(s).contains(c) && forall|v: nat| v < n ==> #[trigger] colors_of(stays(graph, v, s)).contains(c))
}

/// The long-lived part of `s`: the pairs under whose colour no update of a single variable
/// takes every vertex of `s` out of `s`.
pub open spec fn long_lived(graph: SymbolicAsyncGraph, s: Set<ColoredVertex>) -> Set<ColoredVertex> {
    with_colors(s, lasting_colors(graph, s, variable_count(graph)))
}

/// The colours under which `s` holds more than one vertex.
pub open spec fn plural_colors(s: Set<ColoredVertex>) -> Set<Seq<bool>> {
    Set::new(|c: Seq<bool>| exists|x: ColoredVertex, y: ColoredVertex| #[trigger] s.contains(x) && #[trigger] s.contains(y) && x.1 == c && y.1 == c && x != y)
}

/// The pairs of `s` under whose colour `s` holds more than one vertex.
pub open spec fn non_trivial(s: Set<ColoredVertex>) -> Set<ColoredVertex> {
    with_colors(s, plural_colors(s))
}

/// What is reported of a raw component `s`: its non-trivial part, and of that the
/// long-lived part where the configuration asks for it.
pub open spec fn filtered(context: &SccConfig, s: Set<ColoredVertex>) -> Set<ColoredVertex> {
    context.lasting(non_trivial(s))
}

/// Taking one vertex per colour away leaves the colours with more than one vertex.
pub proof fn lemma_plural_colors(p: Set<ColoredVertex>, s: Set<ColoredVertex>)
    requires
        picks_one_vertex_per_color(p, s),
    ensures
        colors_of(s.difference(p)) == plural_colors(s),
{
    let rest = s.difference(p);
    assert forall|c: Seq<bool>| colors_of(rest).contains(c) implies plural_colors(s).contains(c) by {
        let x = choose|x: ColoredVertex| #[trigger] rest.contains(x) && x.1 == c;
        assert(s.contains(x));
        assert(colors_of(p).contains(x.1));
        let y = choose|y: ColoredVertex| #[trigger] p.contains(y) && y.1 == x.1;
        assert(s.contains(y));
    }
    assert forall|c: Seq<bool>| plural_colors(s).contains(c) implies colors_of(rest).contains(c) by {
        let (x, y) = choose|x: ColoredVertex, y: ColoredVertex| #[trigger] s.contains(x) && #[trigger] s.contains(y) && x.1 == c && y.1 == c && x != y;
        if p.contains(x) && p.contains(y) {
            assert(x == y);
        }
        if !p.contains(x) {
            assert(rest.contains(x));
        } else {
            assert(rest.contains(y));
        }
    }
    assert(colors_of(rest) =~= plural_colors(s));
}

/// The long-lived part of a set: the colours are kept or dropped whole.
pub fn retain_long_lived(graph: &SymbolicAsyncGraph, set: &GraphColoredVertices) -> (r: GraphColoredVertices)
    requires
        belongs(*set, *graph),
    ensures
        belongs(r, *graph),
        members(r) == long_lived(*graph, members(*set)),
{
    let count = num_vars(graph);
    let ghost s = members(*set);
    let all_colors = colors(set);
    if single_color(&all_colors) {
        // With one colour, the set is short-lived as soon as one variable takes all of it out.
        let mut var: usize = 0;
        while var < count
            invariant
                var <= count,
                count == variable_count(*graph),
                belongs(*set, *graph),
                s == members(*set),
                forall|v: nat| v < var ==> #[trigger] probe(Probe::CanPostOut, *graph, v, s) != s,
            decreases count - var,
        {
            let can_post_out = var_can_post_out(graph, var, set);
            if same_set(&can_post_out, set) {
                proof {
                    assert(stays(*graph, var as nat, s) =~= Set::empty());
                    assert forall|c: Seq<bool>| !lasting_colors(*graph, s, count as nat).contains(c) by {
                        if lasting_colors(*graph, s, count as nat).contains(c) {
                            assert(colors_of(stays(*graph, var as nat, s)).contains(c));
                        }
                    }
                    assert(long_lived(*graph, s) =~= Set::empty());
                }
                return mk_empty_colored_vertices(graph);
            }
            var += 1;
        }
        proof {
            let only = choose|c: Seq<bool>| colors_in(all_colors) == set![c];
            assert forall|x: ColoredVertex| s.contains(x) implies x.1 == only by {
                assert(colors_of(s).contains(x.1));
            }
            assert forall|c: Seq<bool>| colors_of(s).contains(c) implies lasting_colors(*graph, s, count as nat).contains(c) by {
                assert forall|v: nat| v < count implies #[trigger] colors_of(stays(*graph, v, s)).contains(c) by {
                    let out = probe(Probe::CanPostOut, *graph, v, s);
                    assert(out != s);
                    if stays(*graph, v, s).is_empty() {
                        assert forall|x: ColoredVertex| s.contains(x) implies out.contains(x) by {
                            if !out.contains(x) {
                                assert(stays(*graph, v, s).contains(x));
                            }
                        }
                        assert(out =~= s);
                    }
                    let x = choose|x: ColoredVertex| stays(*graph, v, s).contains(x);
                    assert(s.contains(x));
                }
            }
            assert forall|x: ColoredVertex| s.contains(x) implies long_lived(*graph, s).contains(x) by {
                assert(colors_of(s).contains(x.1));
            }
            assert(long_lived(*graph, s) =~= s);
        }
        clone_set(set)
    } else {
        // A colour is safe if, for every variable, some vertex of the set stays inside.
        let mut safe_colors = all_colors;
        assert(colors_in(safe_colors) =~= lasting_colors(*graph, s, 0));
        let mut var: usize = 0;
        while var < count
            invariant
                var <= count,
                count == variable_count(*graph),
                belongs(*set, *graph),
                s == members(*set),
                crate::symbolic::color_encoding(safe_colors) == (crate::symbolic::encoding(*set).0, crate::symbolic::encoding(*set).2),
                colors_in(safe_colors) == lasting_colors(*graph, s, var as nat),
            decreases count - var,
        {
            let can_post_out = var_can_post_out(graph, var, set);
            let stays_inside = minus(set, &can_post_out);
            let staying_colors = colors(&stays_inside);
            safe_colors = intersect_color_sets(&safe_colors, &staying_colors);
            proof {
                assert(members(stays_inside) == stays(*graph, var as nat, s));
                assert(colors_in(safe_colors) =~= lasting_colors(*graph, s, (var + 1) as nat));
            }
            if no_colors(&safe_colors) {
                proof {
                    assert forall|c: Seq<bool>| !lasting_colors(*graph, s, count as nat).contains(c) by {
                        if lasting_colors(*graph, s, count as nat).contains(c) {
                            assert(lasting_colors(*graph, s, (var + 1) as nat).contains(c));
                        }
                    }
                    assert(long_lived(*graph, s) =~= Set::empty());
                }
                return mk_empty_colored_vertices(graph);
            }
            var += 1;
        }
        intersect_colors(set, &safe_colors)
    }
}

/// What is reported of a raw component: the colours in which it is trivial are removed, then
/// the short-lived colours where the configuration asks for it. `None` says that nothing is
/// left.
pub fn filter_scc(context: &SccConfig, scc: GraphColoredVertices) -> (r: Option<GraphColoredVertices>)
    requires
        belongs(scc, context.graph),
    ensures
        match r {
            Some(kept) => belongs(kept, context.graph) && members(kept) == filtered(context, members(scc)) && !members(kept).is_empty(),
            None => filtered(context, members(scc)).is_empty(),
        },
{
    // First, remove all colours in which the component is a single vertex.
    let pivots = pick_vertex(&scc);
    let rest = minus(&scc, &pivots);
    let valid_colors = colors(&rest);
    let non_trivial_scc = intersect_colors(&scc, &valid_colors);
    proof {
        lemma_plural_colors(members(pivots), members(scc));
    }
    if is_empty(&non_trivial_scc) {
        proof {
            assert(long_lived(context.graph, Set::empty()) =~= Set::empty());
        }
        return None;
    }
    let long_lived_scc = if context.filter_long_lived {
        retain_long_lived(&context.graph, &non_trivial_scc)
    } else {
        non_trivial_scc
    };
    if is_empty(&long_lived_scc) {
        return None;
    }
    Some(long_lived_scc)
}

} // verus!
