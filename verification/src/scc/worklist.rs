//! What the two component generators share: the graph within a universe, the raw
//! component of a pivot, and the measure by which the work that is left gets less.

use crate::reachability::reachability_config::{all_below, all_moves};
use crate::reachability::step_operators::{ask, probe, Probe};
use crate::relation::{
    closed, connects, converse, lemma_reach_closed, lemma_reach_holds_start, lemma_reach_least,
    links, reach,
};
use crate::symbolic::{belongs, intersect, is_empty, members, mk_empty_colored_vertices, num_vars};
use biodivine_lib_param_bn::symbolic_async_graph::GraphColoredVertices;
use crate::space::{lemma_parts, lemma_smaller};
use crate::symbolic::{
    graph_encoding, has_step, steps, steps_within, variable_count, ColoredVertex,
};
use biodivine_lib_param_bn::symbolic_async_graph::SymbolicAsyncGraph;
use vstd::prelude::*;

verus! {

/// The steps of the graph, under any variable, that start and end in `u`.
pub open spec fn inner(graph: SymbolicAsyncGraph, u: Set<ColoredVertex>) -> Set<(ColoredVertex, ColoredVertex)> {
    Set::new(|p: (ColoredVertex, ColoredVertex)| u.contains(p.0) && u.contains(p.1) && all_moves(graph).contains(p))
}

/// What lies on a common cycle with the pivots `p` inside the universe `u`: the pairs that
/// the pivots reach and that reach the pivots, by steps within `u`.
pub open spec fn meet(graph: SymbolicAsyncGraph, u: Set<ColoredVertex>, p: Set<ColoredVertex>) -> Set<ColoredVertex> {
    reach(inner(graph, u), p).intersect(reach(converse(inner(graph, u)), p))
}

/// A graph restricted to `u` has the steps of the unrestricted graph within `u`.
pub proof fn lemma_restricted_moves(graph: SymbolicAsyncGraph, restricted: SymbolicAsyncGraph, u: Set<ColoredVertex>)
    requires
        graph_encoding(restricted) == graph_encoding(graph),
        steps(restricted) == steps_within(graph, u),
    ensures
        all_moves(restricted) == inner(graph, u),
{
    let n = variable_count(graph);
    assert forall|p: (ColoredVertex, ColoredVertex)| all_moves(restricted).contains(p) implies inner(graph, u).contains(p) by {
        let v = choose|v: nat| all_below(n).contains(v) && #[trigger] has_step(restricted, v, p.0, p.1);
        let t = (v, p.0.0, p.1.0, p.0.1);
        assert(steps_within(graph, u).contains(t));
        assert((t.1, t.3) == p.0);
        assert((t.2, t.3) == p.1);
        assert(has_step(graph, v, p.0, p.1));
    }
    assert forall|p: (ColoredVertex, ColoredVertex)| inner(graph, u).contains(p) implies all_moves(restricted).contains(p) by {
        let v = choose|v: nat| all_below(n).contains(v) && #[trigger] has_step(graph, v, p.0, p.1);
        let t = (v, p.0.0, p.1.0, p.0.1);
        assert((t.1, t.3) == p.0);
        assert((t.2, t.3) == p.1);
        assert(steps_within(graph, u).contains(t));
        assert(has_step(restricted, v, p.0, p.1));
    }
    assert(all_moves(restricted) =~= inner(graph, u));
}

/// What is reached within a universe from inside it, forwards or backwards, lies in it.
pub proof fn lemma_reach_inside(graph: SymbolicAsyncGraph, u: Set<ColoredVertex>, p: Set<ColoredVertex>)
    requires
        p.subset_of(u),
    ensures
        p.subset_of(reach(inner(graph, u), p)),
        p.subset_of(reach(converse(inner(graph, u)), p)),
        reach(inner(graph, u), p).subset_of(u),
        reach(converse(inner(graph, u)), p).subset_of(u),
        p.subset_of(meet(graph, u, p)),
        meet(graph, u, p).subset_of(u),
{
    let r = inner(graph, u);
    assert(closed(r, u));
    assert(closed(converse(r), u));
    lemma_reach_least(r, p, u);
    lemma_reach_least(converse(r), p, u);
    lemma_reach_holds_start(r, p);
    lemma_reach_holds_start(converse(r), p);
}

/// A path within `u` that starts and ends in the set `b` of what reaches the pivots is a
/// path within `b`.
pub proof fn lemma_path_in_basin(graph: SymbolicAsyncGraph, u: Set<ColoredVertex>, p: Set<ColoredVertex>, a: ColoredVertex, y: ColoredVertex, k: nat)
    requires
        reach(converse(inner(graph, u)), p).contains(a),
        reach(converse(inner(graph, u)), p).contains(y),
        links(inner(graph, u), a, y, k),
    ensures
        links(inner(graph, reach(converse(inner(graph, u)), p)), a, y, k),
    decreases k,
{
    let r = inner(graph, u);
    let b = reach(converse(r), p);
    if k > 0 {
        let m = choose|m: ColoredVertex| links(r, a, m, (k - 1) as nat) && #[trigger] r.contains((m, y));
        lemma_reach_closed(converse(r), p);
        assert(converse(r).contains((y, m)));
        assert(b.contains(m));
        lemma_path_in_basin(graph, u, p, a, m, (k - 1) as nat);
        assert(inner(graph, b).contains((m, y)));
    }
}

/// A path within a part of `u` is a path within `u`.
pub proof fn lemma_path_in_greater(graph: SymbolicAsyncGraph, part: Set<ColoredVertex>, u: Set<ColoredVertex>, a: ColoredVertex, y: ColoredVertex, k: nat)
    requires
        part.subset_of(u),
        links(inner(graph, part), a, y, k),
    ensures
        links(inner(graph, u), a, y, k),
    decreases k,
{
    if k > 0 {
        let m = choose|m: ColoredVertex| links(inner(graph, part), a, m, (k - 1) as nat) && #[trigger] inner(graph, part).contains((m, y));
        lemma_path_in_greater(graph, part, u, a, m, (k - 1) as nat);
        assert(inner(graph, u).contains((m, y)));
    }
}

/// What is reached within a part of `u` is reached within `u`.
pub proof fn lemma_reach_in_part(graph: SymbolicAsyncGraph, part: Set<ColoredVertex>, u: Set<ColoredVertex>, p: Set<ColoredVertex>)
    requires
        part.subset_of(u),
    ensures
        reach(inner(graph, part), p).subset_of(reach(inner(graph, u), p)),
{
    reveal(reach);
    assert forall|y: ColoredVertex| reach(inner(graph, part), p).contains(y) implies reach(inner(graph, u), p).contains(y) by {
        let a = choose|a: ColoredVertex| p.contains(a) && #[trigger] connects(inner(graph, part), a, y);
        let k = choose|k: nat| links(inner(graph, part), a, y, k);
        lemma_path_in_greater(graph, part, u, a, y, k);
        assert(connects(inner(graph, u), a, y));
    }
}

/// What the pivots reach within `u` and what reaches them is reached within the set of
/// what reaches them.
pub proof fn lemma_meet_in_basin(graph: SymbolicAsyncGraph, u: Set<ColoredVertex>, p: Set<ColoredVertex>)
    requires
        p.subset_of(reach(converse(inner(graph, u)), p)),
    ensures
        meet(graph, u, p).subset_of(reach(inner(graph, reach(converse(inner(graph, u)), p)), p)),
{
    let r = inner(graph, u);
    let b = reach(converse(r), p);
    assert forall|y: ColoredVertex| meet(graph, u, p).contains(y) implies reach(inner(graph, b), p).contains(y) by {
        assert(reach(r, p).contains(y) && b.contains(y));
        reveal(reach);
        let a = choose|a: ColoredVertex| p.contains(a) && #[trigger] connects(r, a, y);
        let k = choose|k: nat| links(r, a, y, k);
        assert(b.contains(a));
        lemma_path_in_basin(graph, u, p, a, y, k);
        assert(connects(inner(graph, b), a, y));
    }
}

/// What the pivots reach within the set of what reaches them is their raw component.
pub proof fn lemma_reach_in_basin(graph: SymbolicAsyncGraph, u: Set<ColoredVertex>, p: Set<ColoredVertex>)
    requires
        p.subset_of(u),
    ensures
        reach(inner(graph, reach(converse(inner(graph, u)), p)), p) == meet(graph, u, p),
{
    let r = inner(graph, u);
    let b = reach(converse(r), p);
    let within = reach(inner(graph, b), p);
    lemma_reach_inside(graph, u, p);
    lemma_reach_inside(graph, b, p);
    lemma_reach_in_part(graph, b, u, p);
    lemma_meet_in_basin(graph, u, p);
    assert(within.subset_of(meet(graph, u, p)));
    assert(within =~= meet(graph, u, p));
}

/// The hint for the next pivot: among the first `n` variables, the answer to the probe for
/// the greatest variable whose answer has a pair in `within`, cut down to `within`; the
/// empty set if there is none.
pub open spec fn hint_from(kind: Probe, graph: SymbolicAsyncGraph, s: Set<ColoredVertex>, within: Set<ColoredVertex>, n: nat) -> Set<ColoredVertex>
    decreases n,
{
    if n == 0 {
        Set::empty()
    } else {
        let answer = probe(kind, graph, (n - 1) as nat, s).intersect(within);
        if !answer.is_empty() {
            answer
        } else {
            hint_from(kind, graph, s, within, (n - 1) as nat)
        }
    }
}

/// A hint lies in the set that it was cut down to.
pub proof fn lemma_hint_inside(kind: Probe, graph: SymbolicAsyncGraph, s: Set<ColoredVertex>, within: Set<ColoredVertex>, n: nat)
    ensures
        hint_from(kind, graph, s, within, n).subset_of(within),
    decreases n,
{
    if n > 0 {
        lemma_hint_inside(kind, graph, s, within, (n - 1) as nat);
    }
}

/// Go through all variables of the graph from the greatest down and hand back the first
/// answer to the probe for `source` that has a pair in `within`, cut down to `within`.
pub fn find_hint(kind: &Probe, graph: &SymbolicAsyncGraph, source: &GraphColoredVertices, within: &GraphColoredVertices) -> (r: GraphColoredVertices)
    requires
        belongs(*source, *graph),
        belongs(*within, *graph),
    ensures
        belongs(r, *graph),
        members(r) == hint_from(*kind, *graph, members(*source), members(*within), variable_count(*graph)),
        members(r).subset_of(members(*within)),
{
    let count = num_vars(graph);
    let mut var = count;
    proof {
        lemma_hint_inside(*kind, *graph, members(*source), members(*within), count as nat);
    }
    while var > 0
        invariant
            var <= count,
            count == variable_count(*graph),
            belongs(*source, *graph),
            belongs(*within, *graph),
            hint_from(*kind, *graph, members(*source), members(*within), var as nat) == hint_from(*kind, *graph, members(*source), members(*within), count as nat),
        decreases var,
    {
        var -= 1;
        let answer = intersect(&ask(kind, graph, var, source), within);
        if !is_empty(&answer) {
            return answer;
        }
    }
    mk_empty_colored_vertices(graph)
}

/// The weight of a universe that waits to be searched.
pub open spec fn entry_weight(s: Set<ColoredVertex>) -> nat {
    16 * s.len() + 4
}

/// The weight of all universes that wait to be searched.
pub open spec fn total_weight(list: Seq<Set<ColoredVertex>>) -> nat
    decreases list.len(),
{
    if list.len() == 0 {
        0
    } else {
        total_weight(list.drop_last()) + entry_weight(list.last())
    }
}

/// The pairs of all universes that wait to be searched.
pub open spec fn union_all(list: Seq<Set<ColoredVertex>>) -> Set<ColoredVertex> {
    Set::new(|x: ColoredVertex| exists|i: int| 0 <= i < list.len() && #[trigger] list[i].contains(x))
}

/// The list with the set put at its end, unless the set is empty.
pub open spec fn with_part(list: Seq<Set<ColoredVertex>>, part: Set<ColoredVertex>) -> Seq<Set<ColoredVertex>> {
    if part.is_empty() {
        list
    } else {
        list.push(part)
    }
}

/// The universes that wait to be searched have no pair in common.
pub open spec fn apart(list: Seq<Set<ColoredVertex>>) -> bool {
    forall|i: int, j: int| 0 <= i < j < list.len() ==> (#[trigger] list[i]).disjoint(#[trigger] list[j])
}

/// A universe that has no pair in common with those that wait can wait with them.
pub proof fn lemma_apart_push(list: Seq<Set<ColoredVertex>>, s: Set<ColoredVertex>)
    requires
        apart(list),
        union_all(list).disjoint(s),
    ensures
        apart(list.push(s)),
{
    assert forall|i: int, j: int| 0 <= i < j < list.push(s).len() implies (#[trigger] list.push(s)[i]).disjoint(#[trigger] list.push(s)[j]) by {
        if j < list.len() {
            assert(list[i].disjoint(list[j]));
        } else {
            assert forall|x: ColoredVertex| !(list[i].contains(x) && s.contains(x)) by {
                if list[i].contains(x) {
                    assert(union_all(list).contains(x));
                }
            }
        }
    }
}

/// The universe that is taken from those that wait has no pair in common with the rest.
pub proof fn lemma_apart_pop(list: Seq<Set<ColoredVertex>>)
    requires
        apart(list),
        list.len() > 0,
    ensures
        apart(list.drop_last()),
        union_all(list.drop_last()).disjoint(list.last()),
{
    let rest = list.drop_last();
    assert forall|i: int, j: int| 0 <= i < j < rest.len() implies (#[trigger] rest[i]).disjoint(#[trigger] rest[j]) by {
        assert(list[i].disjoint(list[j]));
    }
    assert forall|x: ColoredVertex| !(union_all(rest).contains(x) && list.last().contains(x)) by {
        if union_all(rest).contains(x) {
            let i = choose|i: int| 0 <= i < rest.len() && #[trigger] rest[i].contains(x);
            assert(list[i].disjoint(list[list.len() - 1]));
        }
    }
}

/// The number of steps that a computation inside a generator can take at most, plus one.
pub open spec fn stride() -> nat {
    usize::MAX as nat + 1
}

/// The measure of a generator: the weight first, then the steps left in the computation
/// that it is driving.
pub open spec fn rank(weight: nat, steps: nat) -> nat {
    weight * stride() + steps
}

/// The measure gets less when the weight does, or when the weight does not grow and the
/// steps left get fewer.
pub proof fn lemma_rank_less(w1: nat, f1: nat, w2: nat, f2: nat)
    requires
        f2 < stride(),
        w2 < w1 || (w2 == w1 && f2 < f1),
    ensures
        rank(w2, f2) < rank(w1, f1),
{
    if w2 < w1 {
        assert((w2 + 1) * stride() <= w1 * stride()) by (nonlinear_arith)
            requires
                w2 + 1 <= w1,
        ;
        assert((w2 + 1) * stride() == w2 * stride() + stride()) by (nonlinear_arith);
    }
}

pub proof fn lemma_total_push(list: Seq<Set<ColoredVertex>>, s: Set<ColoredVertex>)
    ensures
        total_weight(list.push(s)) == total_weight(list) + entry_weight(s),
        union_all(list.push(s)) == union_all(list).union(s),
{
    assert(list.push(s).drop_last() =~= list);
    assert forall|x: ColoredVertex| union_all(list.push(s)).contains(x) implies union_all(list).union(s).contains(x) by {
        let i = choose|i: int| 0 <= i < list.push(s).len() && #[trigger] list.push(s)[i].contains(x);
        if i < list.len() {
            assert(list[i].contains(x));
        }
    }
    assert forall|x: ColoredVertex| union_all(list).union(s).contains(x) implies union_all(list.push(s)).contains(x) by {
        if s.contains(x) {
            assert(list.push(s)[list.len() as int].contains(x));
        } else {
            let i = choose|i: int| 0 <= i < list.len() && #[trigger] list[i].contains(x);
            assert(list.push(s)[i].contains(x));
        }
    }
    assert(union_all(list.push(s)) =~= union_all(list).union(s));
}

pub proof fn lemma_total_pop(list: Seq<Set<ColoredVertex>>)
    requires
        list.len() > 0,
    ensures
        total_weight(list) == total_weight(list.drop_last()) + entry_weight(list.last()),
        union_all(list) == union_all(list.drop_last()).union(list.last()),
{
    assert(list =~= list.drop_last().push(list.last()));
    lemma_total_push(list.drop_last(), list.last());
}

/// The three parts that a universe `u` falls into beside the raw component of `f` and `b`
/// weigh less, as entries, than the universe did while it was searched.
pub proof fn lemma_three_parts(u: Set<ColoredVertex>, f: Set<ColoredVertex>, b: Set<ColoredVertex>, x: ColoredVertex)
    requires
        u.finite(),
        f.subset_of(u),
        b.subset_of(u),
        f.contains(x),
        b.contains(x),
    ensures
        b.difference(f).finite(),
        f.difference(b).finite(),
        u.difference(b).difference(f).finite(),
        16 * b.difference(f).len() + 16 * f.difference(b).len() + 16 * u.difference(b).difference(f).len() + 16 <= 16 * u.len(),
{
    let back_only = b.difference(f);
    let forth_only = f.difference(b);
    let neither = u.difference(b).difference(f);
    let m = f.intersect(b);
    lemma_parts(back_only, forth_only, u);
    lemma_parts(back_only.union(forth_only), neither, u);
    vstd::set_lib::lemma_set_disjoint_lens(back_only, forth_only);
    lemma_parts(back_only.union(forth_only).union(neither), m, u);
    vstd::set_lib::lemma_set_disjoint_lens(back_only.union(forth_only), neither);
    assert(m.contains(x));
    assert(m.len() > 0) by {
        if m.len() == 0 {
            m.lemma_len0_is_empty();
        }
    }
}

/// The two parts that a universe `u` falls into beside the component `c` of a basin `b`
/// weigh less, as entries, than the universe did while it was searched.
pub proof fn lemma_two_parts(u: Set<ColoredVertex>, b: Set<ColoredVertex>, c: Set<ColoredVertex>, x: ColoredVertex)
    requires
        u.finite(),
        b.subset_of(u),
        c.subset_of(b),
        c.contains(x),
    ensures
        b.difference(c).finite(),
        u.difference(b).finite(),
        16 * b.difference(c).len() + 16 * u.difference(b).len() + 16 <= 16 * u.len(),
{
    let in_basin = b.difference(c);
    let beyond = u.difference(b);
    lemma_parts(in_basin, beyond, u);
    vstd::set_lib::lemma_set_disjoint_lens(in_basin, beyond);
    lemma_parts(in_basin.union(beyond), c, u);
    assert(c.len() > 0) by {
        lemma_smaller(c, u);
        if c.len() == 0 {
            c.lemma_len0_is_empty();
        }
    }
}

} // verus!
