//! The plain fixed-point procedures: every round takes one step under all variables.

use crate::cancellation::{check_cancelled, pass, Cancellable};
use crate::reachability::reachability_config::{all_below, all_moves};
use crate::reachability_utils::Reachability;
use crate::relation::{
    closed, converse, lemma_connects_step, lemma_reach_absorbs, lemma_reach_holds_start,
    lemma_reach_of_closed, lemma_trap_round, reach, trap,
};
use crate::space::{lemma_fits_finite, lemma_smaller, lemma_space_finite, lemma_strictly_smaller, space};
use crate::symbolic::{
    belongs, can_post_out, can_pre_out, encoding, graph_encoding, has_step, is_empty, is_subset,
    members,
    minus, post, pre, predecessors, successors, union, var_predecessors, var_successors,
    variable_count, ColoredVertex,
};
use biodivine_lib_param_bn::symbolic_async_graph::{GraphColoredVertices, SymbolicAsyncGraph};
use vstd::prelude::*;

verus! {

/// The successors of a set are one step away from it, forwards; the predecessors backwards.
pub proof fn lemma_one_step(graph: SymbolicAsyncGraph, s: Set<ColoredVertex>)
    ensures
        successors(graph, s).subset_of(reach(all_moves(graph), s)),
        predecessors(graph, s).subset_of(reach(converse(all_moves(graph)), s)),
        successors(graph, s).subset_of(s) ==> closed(all_moves(graph), s),
        predecessors(graph, s).subset_of(s) ==> closed(converse(all_moves(graph)), s),
{
    reveal(reach);
    let r = all_moves(graph);
    let n = variable_count(graph);
    assert forall|b: ColoredVertex| successors(graph, s).contains(b) implies reach(r, s).contains(b) by {
        let v = choose|v: nat| v < n && #[trigger] var_successors(graph, v, s).contains(b);
        let a = choose|a: ColoredVertex| s.contains(a) && #[trigger] has_step(graph, v, a, b);
        assert(all_below(n).contains(v));
        let p = (a, b);
        assert(has_step(graph, v, p.0, p.1));
        assert(r.contains((a, b)));
        lemma_connects_step(r, a, b);
    }
    assert forall|a: ColoredVertex| predecessors(graph, s).contains(a) implies reach(converse(r), s).contains(a) by {
        let v = choose|v: nat| v < n && #[trigger] var_predecessors(graph, v, s).contains(a);
        let b = choose|b: ColoredVertex| s.contains(b) && #[trigger] has_step(graph, v, a, b);
        assert(all_below(n).contains(v));
        let p = (a, b);
        assert(has_step(graph, v, p.0, p.1));
        assert(r.contains((a, b)));
        assert(converse(r).contains((b, a)));
        lemma_connects_step(converse(r), b, a);
    }
    if successors(graph, s).subset_of(s) {
        assert forall|a: ColoredVertex, b: ColoredVertex| s.contains(a) && #[trigger] r.contains((a, b)) implies s.contains(b) by {
            let v = choose|v: nat| all_below(n).contains(v) && #[trigger] has_step(graph, v, a, b);
            assert(var_successors(graph, v, s).contains(b));
            assert(successors(graph, s).contains(b));
        }
    }
    if predecessors(graph, s).subset_of(s) {
        assert forall|b: ColoredVertex, a: ColoredVertex| s.contains(b) && #[trigger] converse(r).contains((b, a)) implies s.contains(a) by {
            assert(r.contains((a, b)));
            let v = choose|v: nat| all_below(n).contains(v) && #[trigger] has_step(graph, v, a, b);
            assert(var_predecessors(graph, v, s).contains(a));
            assert(predecessors(graph, s).contains(a));
        }
    }
}

/// The pairs of a set with a step out of it have a step out of it; if there are none, the
/// set is closed. The same backwards.
pub proof fn lemma_escapes(graph: SymbolicAsyncGraph, s: Set<ColoredVertex>)
    ensures
        forall|x: ColoredVertex| #[trigger] s.intersect(predecessors(graph, s.complement())).contains(x) ==> exists|b: ColoredVertex| !s.contains(b) && #[trigger] all_moves(graph).contains((x, b)),
        s.intersect(predecessors(graph, s.complement())).is_empty() ==> closed(all_moves(graph), s),
        forall|x: ColoredVertex| #[trigger] s.intersect(successors(graph, s.complement())).contains(x) ==> exists|b: ColoredVertex| !s.contains(b) && #[trigger] converse(all_moves(graph)).contains((x, b)),
        s.intersect(successors(graph, s.complement())).is_empty() ==> closed(converse(all_moves(graph)), s),
{
    let r = all_moves(graph);
    let n = variable_count(graph);
    let out = s.intersect(predecessors(graph, s.complement()));
    let into = s.intersect(successors(graph, s.complement()));
    assert forall|x: ColoredVertex| #[trigger] out.contains(x) implies exists|b: ColoredVertex| !s.contains(b) && #[trigger] r.contains((x, b)) by {
        let v = choose|v: nat| v < n && #[trigger] var_predecessors(graph, v, s.complement()).contains(x);
        let b = choose|b: ColoredVertex| s.complement().contains(b) && #[trigger] has_step(graph, v, x, b);
        assert(all_below(n).contains(v));
        let p = (x, b);
        assert(has_step(graph, v, p.0, p.1));
        assert(r.contains((x, b)));
    }
    assert forall|x: ColoredVertex| #[trigger] into.contains(x) implies exists|b: ColoredVertex| !s.contains(b) && #[trigger] converse(r).contains((x, b)) by {
        let v = choose|v: nat| v < n && #[trigger] var_successors(graph, v, s.complement()).contains(x);
        let a = choose|a: ColoredVertex| s.complement().contains(a) && #[trigger] has_step(graph, v, a, x);
        assert(all_below(n).contains(v));
        let p = (a, x);
        assert(has_step(graph, v, p.0, p.1));
        assert(r.contains((a, x)));
        assert(converse(r).contains((x, a)));
    }
    if out.is_empty() {
        assert forall|a: ColoredVertex, b: ColoredVertex| s.contains(a) && #[trigger] r.contains((a, b)) implies s.contains(b) by {
            let v = choose|v: nat| all_below(n).contains(v) && #[trigger] has_step(graph, v, a, b);
            if !s.contains(b) {
                assert(s.complement().contains(b));
                assert(var_predecessors(graph, v, s.complement()).contains(a));
                assert(predecessors(graph, s.complement()).contains(a));
                assert(out.contains(a));
            }
        }
    }
    if into.is_empty() {
        assert forall|b: ColoredVertex, a: ColoredVertex| s.contains(b) && #[trigger] converse(r).contains((b, a)) implies s.contains(a) by {
            assert(r.contains((a, b)));
            let v = choose|v: nat| all_below(n).contains(v) && #[trigger] has_step(graph, v, a, b);
            if !s.contains(a) {
                assert(s.complement().contains(a));
                assert(var_successors(graph, v, s.complement()).contains(b));
                assert(successors(graph, s.complement()).contains(b));
                assert(into.contains(b));
            }
        }
    }
}

impl Reachability {
    /// What becomes of `result` in a round of naive reachability that came up with `step`,
    /// given what the ambient cancellation signal said after the symbolic operation: a
    /// cancellation is handed on; `None` says that `step` holds nothing new, so the
    /// procedure is done; else the set with `step` added.
    pub fn grown(result: &GraphColoredVertices, step: &GraphColoredVertices, signal: Cancellable<()>) -> (r: Cancellable<Option<GraphColoredVertices>>)
        requires
            encoding(*result) == encoding(*step),
        ensures
            match signal {
                Err(cancelled) => r matches Err(handed) && handed == cancelled,
                Ok(_) => r matches Ok(next) && match next {
                    None => members(*step).subset_of(members(*result)),
                    Some(set) => !members(*step).subset_of(members(*result)) && encoding(set) == encoding(*result) && members(set) == members(*result).union(members(*step)),
                },
            },
    {
        match signal {
            Err(cancelled) => Err(cancelled),
            Ok(()) => {
                if is_subset(step, result) {
                    Ok(None)
                } else {
                    Ok(Some(union(result, step)))
                }
            },
        }
    }

    /// What becomes of `result` in a round of a naive trap set procedure that came up with
    /// `step`, given what the ambient cancellation signal said after the symbolic
    /// operation: a cancellation is handed on; `None` says that `step` is empty, so the
    /// procedure is done; else the set without `step`.
    pub fn shrunk(result: &GraphColoredVertices, step: &GraphColoredVertices, signal: Cancellable<()>) -> (r: Cancellable<Option<GraphColoredVertices>>)
        requires
            encoding(*result) == encoding(*step),
        ensures
            match signal {
                Err(cancelled) => r matches Err(handed) && handed == cancelled,
                Ok(_) => r matches Ok(next) && match next {
                    None => members(*step).is_empty(),
                    Some(set) => !members(*step).is_empty() && encoding(set) == encoding(*result) && members(set) == members(*result).difference(members(*step)),
                },
            },
    {
        match signal {
            Err(cancelled) => Err(cancelled),
            Ok(()) => {
                if is_empty(step) {
                    Ok(None)
                } else {
                    Ok(Some(minus(result, step)))
                }
            },
        }
    }

    /// The pairs that can be reached in the graph from the initial set: there is a path
    /// from an initial vertex that keeps to one colour. The ambient cancellation signal is
    /// asked after every symbolic operation.
    pub fn reach_forward_naive(graph: &SymbolicAsyncGraph, initial: GraphColoredVertices) -> (r: Cancellable<GraphColoredVertices>)
        requires
            belongs(initial, *graph),
        ensures
            r matches Ok(set) ==> belongs(set, *graph) && members(set) == reach(all_moves(*graph), members(initial)),
    {
        let ghost start = members(initial);
        let ghost e = graph_encoding(*graph);
        let ghost rel = all_moves(*graph);
        let mut result = initial;
        proof {
            lemma_reach_holds_start(rel, start);
            lemma_space_finite(e);
        }
        loop
            invariant
                belongs(result, *graph),
                start.subset_of(members(result)),
                members(result).subset_of(reach(rel, start)),
                e == graph_encoding(*graph),
                rel == all_moves(*graph),
                space(e).finite(),
            ensures
                belongs(result, *graph),
                members(result) == reach(rel, start),
            decreases space(e).difference(members(result)).len(),
        {
            let step = post(graph, &result);
            let next = match Self::grown(&result, &step, check_cancelled()) {
                Ok(next) => next,
                Err(cancelled) => {
                    return Err(cancelled);
                },
            };
            proof {
                lemma_one_step(*graph, members(result));
                lemma_reach_absorbs(rel, start, members(result));
            }
            let ghost before = members(result);
            result = match next {
                Some(next) => next,
                None => {
                    proof {
                        lemma_reach_of_closed(rel, members(result));
                    }
                    break;
                },
            };
            proof {
                let w = choose|w: ColoredVertex| members(step).contains(w) && !before.contains(w);
                lemma_fits_finite(members(step), e);
                lemma_smaller(space(e).difference(before), space(e));
                lemma_strictly_smaller(space(e).difference(members(result)), space(e).difference(before), w);
            }
            result = match pass(result, check_cancelled()) {
                Ok(result) => result,
                Err(cancelled) => {
                    return Err(cancelled);
                },
            };
        }
        Ok(result)
    }

    /// The pairs that can reach the initial set in the graph: there is a path into an
    /// initial vertex that keeps to one colour.
    pub fn reach_backward_naive(graph: &SymbolicAsyncGraph, initial: GraphColoredVertices) -> (r: Cancellable<GraphColoredVertices>)
        requires
            belongs(initial, *graph),
        ensures
            r matches Ok(set) ==> belongs(set, *graph) && members(set) == reach(converse(all_moves(*graph)), members(initial)),
    {
        let ghost start = members(initial);
        let ghost e = graph_encoding(*graph);
        let ghost rel = converse(all_moves(*graph));
        let mut result = initial;
        proof {
            lemma_reach_holds_start(rel, start);
            lemma_space_finite(e);
        }
        loop
            invariant
                belongs(result, *graph),
                start.subset_of(members(result)),
                members(result).subset_of(reach(rel, start)),
                e == graph_encoding(*graph),
                rel == converse(all_moves(*graph)),
                space(e).finite(),
            ensures
                belongs(result, *graph),
                members(result) == reach(rel, start),
            decreases space(e).difference(members(result)).len(),
        {
            let step = pre(graph, &result);
            let next = match Self::grown(&result, &step, check_cancelled()) {
                Ok(next) => next,
                Err(cancelled) => {
                    return Err(cancelled);
                },
            };
            proof {
                lemma_one_step(*graph, members(result));
                lemma_reach_absorbs(rel, start, members(result));
            }
            let ghost before = members(result);
            result = match next {
                Some(next) => next,
                None => {
                    proof {
                        lemma_reach_of_closed(rel, members(result));
                    }
                    break;
                },
            };
            proof {
                let w = choose|w: ColoredVertex| members(step).contains(w) && !before.contains(w);
                lemma_fits_finite(members(step), e);
                lemma_smaller(space(e).difference(before), space(e));
                lemma_strictly_smaller(space(e).difference(members(result)), space(e).difference(before), w);
            }
            result = match pass(result, check_cancelled()) {
                Ok(result) => result,
                Err(cancelled) => {
                    return Err(cancelled);
                },
            };
        }
        Ok(result)
    }

    /// The greatest subset of the initial set that no step leaves. Forward reachability
    /// from such a set gives the set again.
    pub fn trap_forward_naive(graph: &SymbolicAsyncGraph, initial: GraphColoredVertices) -> (r: Cancellable<GraphColoredVertices>)
        requires
            belongs(initial, *graph),
        ensures
            r matches Ok(set) ==> belongs(set, *graph) && members(set) == trap(all_moves(*graph), members(initial)),
    {
        let ghost start = members(initial);
        let ghost e = graph_encoding(*graph);
        let ghost rel = all_moves(*graph);
        let mut result = initial;
        proof {
            lemma_fits_finite(start, e);
        }
        loop
            invariant
                belongs(result, *graph),
                members(result).finite(),
                trap(rel, members(result)) == trap(rel, start),
                e == graph_encoding(*graph),
                rel == all_moves(*graph),
            ensures
                belongs(result, *graph),
                members(result) == trap(rel, start),
            decreases members(result).len(),
        {
            let step = can_post_out(graph, &result);
            let next = match Self::shrunk(&result, &step, check_cancelled()) {
                Ok(next) => next,
                Err(cancelled) => {
                    return Err(cancelled);
                },
            };
            proof {
                lemma_escapes(*graph, members(result));
                lemma_trap_round(rel, members(result), members(step));
            }
            let ghost before = members(result);
            result = match next {
                Some(next) => next,
                None => {
                    break;
                },
            };
            proof {
                let w = choose|w: ColoredVertex| members(step).contains(w);
                lemma_strictly_smaller(members(result), before, w);
            }
            result = match pass(result, check_cancelled()) {
                Ok(result) => result,
                Err(cancelled) => {
                    return Err(cancelled);
                },
            };
        }
        Ok(result)
    }

    /// The greatest subset of the initial set that no step enters. Backward reachability
    /// from such a set gives the set again.
    pub fn trap_backward_naive(graph: &SymbolicAsyncGraph, initial: GraphColoredVertices) -> (r: Cancellable<GraphColoredVertices>)
        requires
            belongs(initial, *graph),
        ensures
            r matches Ok(set) ==> belongs(set, *graph) && members(set) == trap(converse(all_moves(*graph)), members(initial)),
    {
        let ghost start = members(initial);
        let ghost e = graph_encoding(*graph);
        let ghost rel = converse(all_moves(*graph));
        let mut result = initial;
        proof {
            lemma_fits_finite(start, e);
        }
        loop
            invariant
                belongs(result, *graph),
                members(result).finite(),
                trap(rel, members(result)) == trap(rel, start),
                e == graph_encoding(*graph),
                rel == converse(all_moves(*graph)),
            ensures
                belongs(result, *graph),
                members(result) == trap(rel, start),
            decreases members(result).len(),
        {
            let step = can_pre_out(graph, &result);
            let next = match Self::shrunk(&result, &step, check_cancelled()) {
                Ok(next) => next,
                Err(cancelled) => {
                    return Err(cancelled);
                },
            };
            proof {
                lemma_escapes(*graph, members(result));
                lemma_trap_round(rel, members(result), members(step));
            }
            let ghost before = members(result);
            result = match next {
                Some(next) => next,
                None => {
                    break;
                },
            };
            proof {
                let w = choose|w: ColoredVertex| members(step).contains(w);
                lemma_strictly_smaller(members(result), before, w);
            }
            result = match pass(result, check_cancelled()) {
                Ok(result) => result,
                Err(cancelled) => {
                    return Err(cancelled);
                },
            };
        }
        Ok(result)
    }
}

} // verus!
