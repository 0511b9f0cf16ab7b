//! What the component generators report, stated over the graph of the initial universe:
//! the components that are worth reporting, and why the steps of the search neither lose
//! nor split them.

use crate::reachability::reachability_config::{all_below, all_moves, moves};
use crate::reachability::step_operators::{probe, Probe};
use crate::relation::{
    component, confined, connects, converse, has_next, kernel, lemma_component_class,
    lemma_component_confined, lemma_component_survives, lemma_component_sustained,
    lemma_connects_converse, lemma_connects_in_greater, lemma_connects_self,
    lemma_greatest_holds, lemma_links_in_greater, lemma_parts_whole, links, lively, reach,
    sustained, whole,
};
use crate::scc::worklist::{inner, lemma_reach_inside, meet};
use crate::scc::{
    filtered, lasting_colors, long_lived, non_trivial, plural_colors, stays, SccConfig,
};
use crate::symbolic::{
    belongs, colors_of, has_step, members, var_predecessors, variable_count, with_colors,
    ColoredVertex,
};
use biodivine_lib_param_bn::symbolic_async_graph::GraphColoredVertices;
use crate::trimming::{lemma_trimmed_inside, trimmed, TrimSetting};
use biodivine_lib_param_bn::symbolic_async_graph::SymbolicAsyncGraph;
use vstd::prelude::*;

verus! {

/// The pair `z` of `c` has no step under variable `v` that leaves `c`.
pub open spec fn stays_put(graph: SymbolicAsyncGraph, v: nat, c: Set<ColoredVertex>, z: ColoredVertex) -> bool {
    c.contains(z) && !(exists|w: ColoredVertex| !c.contains(w) && #[trigger] has_step(graph, v, z, w))
}

/// The set has a pair beside `x`.
pub open spec fn has_other(c: Set<ColoredVertex>, x: ColoredVertex) -> bool {
    exists|y: ColoredVertex| #[trigger] c.contains(y) && y != x
}

/// Some pair of the set stays in the set when variable `v` is updated.
pub open spec fn some_stays(graph: SymbolicAsyncGraph, v: nat, c: Set<ColoredVertex>) -> bool {
    exists|z: ColoredVertex| #[trigger] stays_put(graph, v, c, z)
}

/// For every variable, some pair of the set stays in the set when the variable is updated.
pub open spec fn lasts(graph: SymbolicAsyncGraph, c: Set<ColoredVertex>) -> bool {
    forall|v: nat| v < variable_count(graph) ==> #[trigger] some_stays(graph, v, c)
}

/// The component of `x` in the graph of the universe `base` is worth reporting: it has
/// more than one vertex and, where the configuration asks for long-lived components, no
/// update of a single variable takes all its vertices out of it.
pub open spec fn reportable(context: &SccConfig, base: Set<ColoredVertex>, x: ColoredVertex) -> bool {
    let c = component(inner(context.graph, base), x);
    has_other(c, x) && (context.filter_long_lived ==> lasts(context.graph, c))
}

/// Among the pairs of `s`, those of the colour of `x` are the component of `x`.
pub open spec fn slice_is(r: Set<(ColoredVertex, ColoredVertex)>, s: Set<ColoredVertex>, x: ColoredVertex) -> bool {
    forall|y: ColoredVertex| (s.contains(y) && y.1 == x.1) <==> #[trigger] component(r, x).contains(y)
}

/// The set holds, with every pair, exactly the component of the pair among the pairs of
/// its colour.
pub open spec fn by_components(r: Set<(ColoredVertex, ColoredVertex)>, s: Set<ColoredVertex>) -> bool {
    forall|x: ColoredVertex| s.contains(x) ==> #[trigger] slice_is(r, s, x)
}

/// What is reported as one item: a set of pairs that are worth reporting and that holds,
/// with every pair, exactly the component of the pair among the pairs of its colour.
pub open spec fn reported(context: &SccConfig, base: Set<ColoredVertex>, item: Set<ColoredVertex>) -> bool {
    &&& by_components(inner(context.graph, base), item)
    &&& forall|x: ColoredVertex| item.contains(x) ==> #[trigger] reportable(context, base, x)
}

/// An item of a search that started from `base`: a set of the graph that is not empty,
/// lies in the given region, and is made up of components that are worth reporting.
pub open spec fn found_in(context: &SccConfig, base: Set<ColoredVertex>, region: Set<ColoredVertex>, item: &GraphColoredVertices) -> bool {
    &&& belongs(*item, context.graph)
    &&& !members(*item).is_empty()
    &&& members(*item).subset_of(region)
    &&& reported(context, base, members(*item))
}

/// Nothing is lost between two regions of a search, given what was handed out: every pair
/// of the first region that is worth reporting lies in the second region or in the item.
pub open spec fn nothing_lost(context: &SccConfig, base: Set<ColoredVertex>, before: Set<ColoredVertex>, after: Set<ColoredVertex>, item: Option<GraphColoredVertices>) -> bool {
    forall|x: ColoredVertex| before.contains(x) && #[trigger] reportable(context, base, x) ==> after.contains(x) || (item matches Some(found) && members(found).contains(x))
}

/// The steps within `u` are the steps confined to `u`; within a part of `base` they are the
/// steps of `base` confined to the part.
pub proof fn lemma_inner_confined(graph: SymbolicAsyncGraph, base: Set<ColoredVertex>, u: Set<ColoredVertex>)
    requires
        u.subset_of(base),
    ensures
        inner(graph, u) == confined(all_moves(graph), u),
        inner(graph, u) == confined(inner(graph, base), u),
        inner(graph, u).subset_of(inner(graph, base)),
        inner(graph, u).subset_of(all_moves(graph)),
{
    assert(inner(graph, u) =~= confined(all_moves(graph), u));
    assert(inner(graph, u) =~= confined(inner(graph, base), u));
}

/// Paths keep the colour.
pub proof fn lemma_path_color(graph: SymbolicAsyncGraph, a: ColoredVertex, b: ColoredVertex, k: nat)
    requires
        links(all_moves(graph), a, b, k),
    ensures
        a.1 == b.1,
    decreases k,
{
    if k > 0 {
        let r = all_moves(graph);
        let m = choose|m: ColoredVertex| links(r, a, m, (k - 1) as nat) && #[trigger] r.contains((m, b));
        lemma_path_color(graph, a, m, (k - 1) as nat);
    }
}

/// What is connected within a universe has one colour.
pub proof fn lemma_connected_color(graph: SymbolicAsyncGraph, u: Set<ColoredVertex>, a: ColoredVertex, b: ColoredVertex)
    requires
        connects(inner(graph, u), a, b),
    ensures
        a.1 == b.1,
{
    let k = choose|k: nat| links(inner(graph, u), a, b, k);
    lemma_links_in_greater(inner(graph, u), all_moves(graph), a, b, k);
    lemma_path_color(graph, a, b, k);
}

/// A universe holds the components that are taken within it.
pub proof fn lemma_universe_whole(graph: SymbolicAsyncGraph, u: Set<ColoredVertex>)
    ensures
        whole(inner(graph, u), u),
{
    reveal(reach);
    let r = inner(graph, u);
    assert forall|x: ColoredVertex, y: ColoredVertex| u.contains(x) && #[trigger] component(r, x).contains(y) implies u.contains(y) by {
        lemma_reach_inside(graph, u, set![x]);
        assert(set![x].contains(x));
        assert(reach(r, set![x]).contains(y));
    }
}

/// A part of a union `u` of components that is a union of components within `u` is a
/// union of components.
pub proof fn lemma_whole_part(graph: SymbolicAsyncGraph, base: Set<ColoredVertex>, u: Set<ColoredVertex>, s: Set<ColoredVertex>)
    requires
        u.subset_of(base),
        whole(inner(graph, base), u),
        s.subset_of(u),
        whole(inner(graph, u), s),
    ensures
        whole(inner(graph, base), s),
{
    assert forall|x: ColoredVertex, y: ColoredVertex| s.contains(x) && #[trigger] component(inner(graph, base), x).contains(y) implies s.contains(y) by {
        lemma_inner_confined(graph, base, u);
        lemma_component_confined(inner(graph, base), u, x);
        assert(component(inner(graph, u), x).contains(y));
    }
}

/// The parts that a union `u` of components falls into beside the raw component of the
/// pivots `p` are unions of components: what only reaches the pivots, what the pivots
/// only reach, the rest, and also all that reaches the pivots and all that does not.
pub proof fn lemma_parts(graph: SymbolicAsyncGraph, base: Set<ColoredVertex>, u: Set<ColoredVertex>, p: Set<ColoredVertex>)
    requires
        u.subset_of(base),
        whole(inner(graph, base), u),
        p.subset_of(u),
    ensures
        whole(inner(graph, base), reach(converse(inner(graph, u)), p).difference(reach(inner(graph, u), p))),
        whole(inner(graph, base), reach(inner(graph, u), p).difference(reach(converse(inner(graph, u)), p))),
        whole(inner(graph, base), u.difference(reach(converse(inner(graph, u)), p)).difference(reach(inner(graph, u), p))),
        whole(inner(graph, base), reach(converse(inner(graph, u)), p).difference(meet(graph, u, p))),
        whole(inner(graph, base), u.difference(reach(converse(inner(graph, u)), p))),
{
    let r = inner(graph, u);
    let f = reach(r, p);
    let b = reach(converse(r), p);
    lemma_universe_whole(graph, u);
    lemma_parts_whole(r, u, p);
    lemma_reach_inside(graph, u, p);
    assert(u.intersect(b.difference(f)) =~= b.difference(f));
    assert(u.intersect(f.difference(b)) =~= f.difference(b));
    assert(b.difference(meet(graph, u, p)) =~= b.difference(f));
    lemma_whole_part(graph, base, u, b.difference(f));
    lemma_whole_part(graph, base, u, f.difference(b));
    lemma_whole_part(graph, base, u, u.difference(b).difference(f));
    lemma_whole_part(graph, base, u, u.difference(b));
}

/// The raw component of pivots that are alone in their colour is made up of the components
/// of the pivots.
pub proof fn lemma_meet_of_pivots(graph: SymbolicAsyncGraph, u: Set<ColoredVertex>, p: Set<ColoredVertex>, y: ColoredVertex)
    requires
        forall|a: ColoredVertex, b: ColoredVertex| #[trigger] p.contains(a) && #[trigger] p.contains(b) && a.1 == b.1 ==> a == b,
    ensures
        meet(graph, u, p).contains(y) <==> exists|o: ColoredVertex| p.contains(o) && #[trigger] component(inner(graph, u), o).contains(y),
{
    reveal(reach);
    let r = inner(graph, u);
    if meet(graph, u, p).contains(y) {
        let o = choose|o: ColoredVertex| p.contains(o) && #[trigger] connects(r, o, y);
        let q = choose|q: ColoredVertex| p.contains(q) && #[trigger] connects(converse(r), q, y);
        lemma_connects_converse(r, y, q);
        lemma_connected_color(graph, u, o, y);
        lemma_connected_color(graph, u, y, q);
        assert(o == q);
        assert(component(r, o).contains(y));
    }
    if exists|o: ColoredVertex| p.contains(o) && #[trigger] component(r, o).contains(y) {
        let o = choose|o: ColoredVertex| p.contains(o) && #[trigger] component(r, o).contains(y);
        lemma_connects_converse(r, y, o);
        assert(reach(r, p).contains(y));
        assert(reach(converse(r), p).contains(y));
    }
}

/// Within the raw component of pivots that are alone in their colour, the pairs of the
/// colour of a pair are the component of the pair in the graph of the base universe.
pub proof fn lemma_meet_by_color(graph: SymbolicAsyncGraph, base: Set<ColoredVertex>, u: Set<ColoredVertex>, p: Set<ColoredVertex>, x: ColoredVertex)
    requires
        u.subset_of(base),
        whole(inner(graph, base), u),
        p.subset_of(u),
        forall|a: ColoredVertex, b: ColoredVertex| #[trigger] p.contains(a) && #[trigger] p.contains(b) && a.1 == b.1 ==> a == b,
        meet(graph, u, p).contains(x),
    ensures
        u.contains(x),
        slice_is(inner(graph, base), meet(graph, u, p), x),
{
    let r = inner(graph, u);
    let r0 = inner(graph, base);
    lemma_reach_inside(graph, u, p);
    lemma_meet_of_pivots(graph, u, p, x);
    let o = choose|o: ColoredVertex| p.contains(o) && #[trigger] component(r, o).contains(x);
    lemma_component_class(r, o, x);
    lemma_inner_confined(graph, base, u);
    lemma_component_confined(r0, u, x);
    assert forall|y: ColoredVertex| (meet(graph, u, p).contains(y) && y.1 == x.1) <==> #[trigger] component(r0, x).contains(y) by {
        lemma_meet_of_pivots(graph, u, p, y);
        if meet(graph, u, p).contains(y) && y.1 == x.1 {
            let q = choose|q: ColoredVertex| p.contains(q) && #[trigger] component(r, q).contains(y);
            lemma_connected_color(graph, u, q, y);
            lemma_connected_color(graph, u, o, x);
            assert(q == o);
        }
        if component(r0, x).contains(y) {
            assert(component(r, o).contains(y));
            lemma_connected_color(graph, u, x, y);
        }
    }
}

/// The pairs that stay in a set under a variable are the pairs that have no step under the
/// variable out of the set.
pub proof fn lemma_stays(graph: SymbolicAsyncGraph, v: nat, s: Set<ColoredVertex>, z: ColoredVertex)
    ensures
        stays(graph, v, s).contains(z) <==> stays_put(graph, v, s, z),
{
    if s.contains(z) {
        if exists|w: ColoredVertex| !s.contains(w) && #[trigger] has_step(graph, v, z, w) {
            let w = choose|w: ColoredVertex| !s.contains(w) && #[trigger] has_step(graph, v, z, w);
            assert(s.complement().contains(w));
            assert(var_predecessors(graph, v, s.complement()).contains(z));
        }
        if var_predecessors(graph, v, s.complement()).contains(z) {
            let w = choose|w: ColoredVertex| s.complement().contains(w) && #[trigger] has_step(graph, v, z, w);
            assert(!s.contains(w));
        }
    }
}

/// A pair stays in a set of many colours exactly if it stays among the pairs of its colour.
pub proof fn lemma_stays_by_color(graph: SymbolicAsyncGraph, v: nat, s: Set<ColoredVertex>, c: Set<ColoredVertex>, z: ColoredVertex)
    requires
        c.contains(z),
        forall|y: ColoredVertex| (s.contains(y) && y.1 == z.1) <==> #[trigger] c.contains(y),
    ensures
        stays_put(graph, v, s, z) <==> stays_put(graph, v, c, z),
{
    if exists|w: ColoredVertex| !s.contains(w) && #[trigger] has_step(graph, v, z, w) {
        let w = choose|w: ColoredVertex| !s.contains(w) && #[trigger] has_step(graph, v, z, w);
        assert(!c.contains(w));
    }
    if exists|w: ColoredVertex| !c.contains(w) && #[trigger] has_step(graph, v, z, w) {
        let w = choose|w: ColoredVertex| !c.contains(w) && #[trigger] has_step(graph, v, z, w);
        assert(w.1 == z.1);
        assert(!s.contains(w));
    }
}

/// Where the pairs of one colour make up a component, the non-trivial part holds the
/// pairs whose component has more than one vertex, and is made up of components again.
pub proof fn lemma_non_trivial_part(r0: Set<(ColoredVertex, ColoredVertex)>, s: Set<ColoredVertex>)
    requires
        by_components(r0, s),
    ensures
        forall|x: ColoredVertex| s.contains(x) ==> (#[trigger] non_trivial(s).contains(x) <==> has_other(component(r0, x), x)),
        by_components(r0, non_trivial(s)),
{
    let nt = non_trivial(s);
    assert forall|x: ColoredVertex| s.contains(x) implies (#[trigger] nt.contains(x) <==> has_other(component(r0, x), x)) by {
        let c = component(r0, x);
        assert(slice_is(r0, s, x));
        if nt.contains(x) {
            let (a, b) = choose|a: ColoredVertex, b: ColoredVertex| #[trigger] s.contains(a) && #[trigger] s.contains(b) && a.1 == x.1 && b.1 == x.1 && a != b;
            assert(c.contains(a) && c.contains(b));
            if a != x {
                assert(c.contains(a) && a != x);
            } else {
                assert(c.contains(b) && b != x);
            }
        }
        if has_other(c, x) {
            let y = choose|y: ColoredVertex| #[trigger] c.contains(y) && y != x;
            assert(s.contains(y) && y.1 == x.1);
            assert(plural_colors(s).contains(x.1));
        }
    }
    assert forall|x: ColoredVertex| nt.contains(x) implies #[trigger] slice_is(r0, nt, x) by {
        assert(slice_is(r0, s, x));
        assert forall|y: ColoredVertex| (nt.contains(y) && y.1 == x.1) <==> #[trigger] component(r0, x).contains(y) by {
        }
    }
}

/// Where the pairs of one colour make up a component, the long-lived part holds the pairs
/// whose component lasts, and is made up of components again.
pub proof fn lemma_long_lived_part(graph: SymbolicAsyncGraph, r0: Set<(ColoredVertex, ColoredVertex)>, s: Set<ColoredVertex>)
    requires
        by_components(r0, s),
    ensures
        forall|x: ColoredVertex| s.contains(x) ==> (#[trigger] long_lived(graph, s).contains(x) <==> lasts(graph, component(r0, x))),
        by_components(r0, long_lived(graph, s)),
{
    let n = variable_count(graph);
    assert forall|x: ColoredVertex| s.contains(x) implies (#[trigger] long_lived(graph, s).contains(x) <==> lasts(graph, component(r0, x))) by {
        lemma_long_lived_pair(graph, r0, s, x);
    }
    assert forall|x: ColoredVertex| long_lived(graph, s).contains(x) implies #[trigger] slice_is(r0, long_lived(graph, s), x) by {
        assert(slice_is(r0, s, x));
        assert forall|y: ColoredVertex| (long_lived(graph, s).contains(y) && y.1 == x.1) <==> #[trigger] component(r0, x).contains(y) by {
        }
    }
}

/// Where the pairs of the colour of `x` make up the component of `x`, the long-lived part
/// holds `x` exactly if the component lasts.
pub proof fn lemma_long_lived_pair(graph: SymbolicAsyncGraph, r0: Set<(ColoredVertex, ColoredVertex)>, s: Set<ColoredVertex>, x: ColoredVertex)
    requires
        s.contains(x),
        slice_is(r0, s, x),
    ensures
        long_lived(graph, s).contains(x) <==> lasts(graph, component(r0, x)),
{
    let n = variable_count(graph);
    let c = component(r0, x);
    assert(c.contains(x));
    if long_lived(graph, s).contains(x) {
        assert forall|v: nat| v < n implies #[trigger] some_stays(graph, v, c) by {
            assert(colors_of(stays(graph, v, s)).contains(x.1));
            let z = choose|z: ColoredVertex| #[trigger] stays(graph, v, s).contains(z) && z.1 == x.1;
            lemma_stays(graph, v, s, z);
            assert(c.contains(z));
            lemma_stays_by_color(graph, v, s, c, z);
            assert(stays_put(graph, v, c, z));
        }
    }
    if lasts(graph, c) {
        assert forall|v: nat| v < n implies #[trigger] colors_of(stays(graph, v, s)).contains(x.1) by {
            assert(some_stays(graph, v, c));
            let z = choose|z: ColoredVertex| #[trigger] stays_put(graph, v, c, z);
            assert(s.contains(z) && z.1 == x.1);
            lemma_stays_by_color(graph, v, s, c, z);
            lemma_stays(graph, v, s, z);
        }
        assert(colors_of(s).contains(x.1));
        assert(lasting_colors(graph, s, n).contains(x.1));
    }
}

/// Of a set whose pairs of one colour always make up a component, the filter keeps the
/// pairs that are worth reporting.
pub proof fn lemma_filter_keeps_reportable(context: &SccConfig, base: Set<ColoredVertex>, s: Set<ColoredVertex>)
    requires
        by_components(inner(context.graph, base), s),
    ensures
        forall|x: ColoredVertex| #[trigger] filtered(context, s).contains(x) <==> s.contains(x) && reportable(context, base, x),
        reported(context, base, filtered(context, s)),
{
    let g = context.graph;
    let r0 = inner(g, base);
    let nt = non_trivial(s);
    lemma_non_trivial_part(r0, s);
    if context.filter_long_lived {
        lemma_long_lived_part(g, r0, nt);
    }
    assert forall|x: ColoredVertex| #[trigger] filtered(context, s).contains(x) <==> s.contains(x) && reportable(context, base, x) by {
        if s.contains(x) {
            assert(nt.contains(x) <==> has_other(component(r0, x), x));
            if nt.contains(x) && context.filter_long_lived {
                assert(long_lived(g, nt).contains(x) <==> lasts(g, component(r0, x)));
            }
        }
    }
}

/// The long-lived filter keeps, of a union of components, the pairs that are worth
/// reporting, and leaves a union of components.
pub proof fn lemma_lasting(context: &SccConfig, base: Set<ColoredVertex>, u: Set<ColoredVertex>)
    requires
        u.subset_of(base),
        whole(inner(context.graph, base), u),
    ensures
        context.lasting(u).subset_of(u),
        whole(inner(context.graph, base), context.lasting(u)),
        forall|x: ColoredVertex| u.contains(x) && #[trigger] reportable(context, base, x) ==> context.lasting(u).contains(x),
{
    let g = context.graph;
    let r0 = inner(g, base);
    let n = variable_count(g);
    if context.filter_long_lived {
        assert forall|x: ColoredVertex, y: ColoredVertex| context.lasting(u).contains(x) && #[trigger] component(r0, x).contains(y) implies context.lasting(u).contains(y) by {
            lemma_connected_color(g, base, x, y);
        }
        assert forall|x: ColoredVertex| u.contains(x) && #[trigger] reportable(context, base, x) implies context.lasting(u).contains(x) by {
            let c = component(r0, x);
            assert(c.subset_of(u));
            assert forall|v: nat| v < n implies #[trigger] colors_of(stays(g, v, u)).contains(x.1) by {
                assert(some_stays(g, v, c));
                let z = choose|z: ColoredVertex| #[trigger] stays_put(g, v, c, z);
                lemma_connected_color(g, base, x, z);
                if exists|w: ColoredVertex| !u.contains(w) && #[trigger] has_step(g, v, z, w) {
                    let w = choose|w: ColoredVertex| !u.contains(w) && #[trigger] has_step(g, v, z, w);
                    assert(!c.contains(w));
                }
                assert(stays_put(g, v, u, z));
                lemma_stays(g, v, u, z);
            }
            assert(colors_of(u).contains(x.1));
            assert(lasting_colors(g, u, n).contains(x.1));
        }
    }
}

/// Trimming keeps, of a union of components, the pairs that are worth reporting, and
/// leaves a union of components.
pub proof fn lemma_trimming(context: &SccConfig, base: Set<ColoredVertex>, u: Set<ColoredVertex>)
    requires
        u.subset_of(base),
        whole(inner(context.graph, base), u),
    ensures
        trimmed(context.should_trim, context.graph, u).subset_of(u),
        whole(inner(context.graph, base), trimmed(context.should_trim, context.graph, u)),
        forall|x: ColoredVertex| u.contains(x) && #[trigger] reportable(context, base, x) ==> trimmed(context.should_trim, context.graph, u).contains(x),
{
    let g = context.graph;
    let r0 = inner(g, base);
    let all = all_moves(g);
    let t = trimmed(context.should_trim, g, u);
    lemma_trimmed_inside(context.should_trim, g, u);
    lemma_inner_confined(g, base, base);
    assert forall|x: ColoredVertex| u.contains(x) && has_other(component(r0, x), x) implies component(r0, x).subset_of(t) by {
        let c = component(r0, x);
        let y = choose|y: ColoredVertex| #[trigger] c.contains(y) && y != x;
        lemma_component_sustained(r0, x, y);
        assert(c.subset_of(u));
        assert forall|z: ColoredVertex| c.contains(z) implies #[trigger] has_next(all, c, z) by {
            assert(has_next(r0, c, z));
            let w = choose|w: ColoredVertex| c.contains(w) && #[trigger] r0.contains((z, w));
            assert(all.contains((z, w)));
        }
        assert forall|z: ColoredVertex| c.contains(z) implies #[trigger] has_next(converse(all), c, z) by {
            assert(has_next(converse(r0), c, z));
            let w = choose|w: ColoredVertex| c.contains(w) && #[trigger] converse(r0).contains((z, w));
            assert(all.contains((w, z)));
            assert(converse(all).contains((z, w)));
        }
        match context.should_trim {
            TrimSetting::Both => {
                lemma_greatest_holds(|s: Set<ColoredVertex>| sustained(all, s) && sustained(converse(all), s), u, c);
            },
            TrimSetting::Sources => {
                lemma_greatest_holds(|s: Set<ColoredVertex>| sustained(converse(all), s), u, c);
            },
            TrimSetting::Sinks => {
                lemma_greatest_holds(|s: Set<ColoredVertex>| sustained(all, s), u, c);
            },
            TrimSetting::Skip => {},
        }
    }
    assert forall|x: ColoredVertex, y: ColoredVertex| t.contains(x) && #[trigger] component(r0, x).contains(y) implies t.contains(y) by {
        if y != x {
            assert(component(r0, x).contains(y) && y != x);
            assert(component(r0, x).subset_of(t));
        }
    }
    assert forall|x: ColoredVertex| u.contains(x) && #[trigger] reportable(context, base, x) implies t.contains(x) by {
        lemma_connects_self(r0, x);
        assert(component(r0, x).contains(x));
        assert(component(r0, x).subset_of(t));
    }
}

} // verus!
