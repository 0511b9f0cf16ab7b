//! The search for attractors after Xie and Beerel.
//!
//! A pivot is picked in what remains of the universe, one vertex for every colour. Its
//! basin is what reaches it within the remaining set. From the pivot the attractor grows
//! forwards, one round of saturation at a time. A colour under which the growth leaves the
//! basin cannot have an attractor there, and is dropped. When nothing is left to add, what
//! has grown is an attractor; its basin is taken away from what remains.

use crate::algorithm_trait::computation::Computation;
use crate::algorithm_trait::generator::GeneratorStep;
use crate::algorithm_trait::{Completable, Incomplete};
use crate::attractor::AttractorConfig;
use crate::reachability::reachability_config::{listed, moves};
use crate::reachability::step_operators::{
    last_nonempty, lemma_last_nonempty_is_answer, lemma_last_nonempty_none,
    lemma_no_post_out_closed, lemma_post_out_reached, probe, Probe,
};
use crate::reachability::{
    BackwardReachability, ReachabilityConfig, ReachabilityState, ReachabilityStep,
    SaturationSuccessors,
};
use crate::relation::{
    closed, confined, connects, converse, intact, lemma_closed_keeps_paths,
    lemma_connects_converse, lemma_connects_in_greater, lemma_connects_join,
    lemma_intact_without_basin, lemma_reach_absorbs, lemma_reach_closed,
    lemma_reach_holds_start, lemma_reach_least, lemma_recurrent_confined, links, reach,
    recurrent,
};
use crate::scc::fwd_bwd::one_per_color;
use crate::space::{lemma_fits_finite, lemma_smaller, lemma_space_finite, lemma_strictly_smaller, space};
use crate::cancellation::Cancellable;
use crate::symbolic::{
    belongs, clone_set, colors, colors_of, encoding, fits, graph_encoding, has_step, is_empty,
    is_subset, members, minus, minus_colors, mk_unit_colored_vertices, no_colors, pick_vertex,
    picks_one_vertex_per_color, union, with_colors, without_colors, ColoredVertex, Encoding,
};
use biodivine_lib_param_bn::symbolic_async_graph::{GraphColoredVertices, SymbolicAsyncGraph};
use vstd::prelude::*;
use vstd::std_specs::convert::FromSpecImpl;

verus! {

/// The state of the search: what is being computed, and what remains of the universe.
pub struct XieBeerelState {
    pub computing: Step,
    pub remaining: GraphColoredVertices,
}

/// The step operator of the search.
pub struct XieBeerelStep;

/// What the search is computing.
pub enum Step {
    /// Nothing: the next pivot is to be picked.
    Idle,
    /// The basin of the pivot is being computed.
    Basin(Step1),
    /// The attractor is growing from the pivot.
    Attractor(Step2),
}

/// A pivot and the computation of its basin.
pub struct Step1 {
    pub pivot: GraphColoredVertices,
    pub basin: BackwardReachability,
}

/// The basin of a pivot and the attractor as far as it has grown.
pub struct Step2 {
    pub basin: GraphColoredVertices,
    pub attractor_config: ReachabilityConfig,
    pub attractor: GraphColoredVertices,
    /// The pivots that the attractor grows from.
    pub pivot: Ghost<Set<ColoredVertex>>,
}

/// Paths keep the colour.
pub proof fn lemma_links_same_color(graph: SymbolicAsyncGraph, variables: Set<nat>, a: ColoredVertex, b: ColoredVertex, k: nat)
    requires
        links(moves(graph, variables), a, b, k),
    ensures
        a.1 == b.1,
    decreases k,
{
    if k > 0 {
        let r = moves(graph, variables);
        let m = choose|m: ColoredVertex| links(r, a, m, (k - 1) as nat) && #[trigger] r.contains((m, b));
        lemma_links_same_color(graph, variables, a, m, (k - 1) as nat);
    }
}

/// The pairs outside `a` whose colour occurs in `a`: the room that `a` has to grow.
pub open spec fn room(e: Encoding, a: Set<ColoredVertex>) -> Set<ColoredVertex> {
    Set::new(|x: ColoredVertex| space(e).contains(x) && !a.contains(x) && colors_of(a).contains(x.1))
}

/// What one round of growth makes of the attractor `a`, given what the round found and the
/// basin: the find is added, and the colours of what was found outside the basin are
/// dropped.
pub open spec fn grown(a: Set<ColoredVertex>, found: Set<ColoredVertex>, basin: Set<ColoredVertex>) -> Set<ColoredVertex> {
    without_colors(a.union(found), colors_of(found.difference(basin)))
}

/// A round of growth that finds something leaves less room.
pub proof fn lemma_growth_takes_room(e: Encoding, a: Set<ColoredVertex>, found: Set<ColoredVertex>, basin: Set<ColoredVertex>, w: ColoredVertex)
    requires
        fits(a, e),
        fits(found, e),
        found.disjoint(a),
        found.contains(w),
        colors_of(found).subset_of(colors_of(a)),
    ensures
        room(e, grown(a, found, basin)).finite(),
        room(e, a).finite(),
        room(e, grown(a, found, basin)).len() < room(e, a).len(),
{
    let next = grown(a, found, basin);
    let escaped = colors_of(found.difference(basin));
    lemma_space_finite(e);
    lemma_smaller(room(e, a), space(e));
    let lost = if escaped.is_empty() {
        w
    } else {
        let c = choose|c: Seq<bool>| escaped.contains(c);
        choose|x: ColoredVertex| #[trigger] found.difference(basin).contains(x) && x.1 == c
    };
    assert(found.contains(lost));
    assert(colors_of(found).contains(lost.1));
    assert(room(e, a).contains(lost));
    assert(!room(e, next).contains(lost)) by {
        if escaped.is_empty() {
            assert(!escaped.contains(lost.1));
            assert(next.contains(lost));
        } else {
            assert(escaped.contains(lost.1));
            if colors_of(next).contains(lost.1) {
                let y = choose|y: ColoredVertex| #[trigger] next.contains(y) && y.1 == lost.1;
                assert(false);
            }
        }
    }
    assert forall|x: ColoredVertex| room(e, next).contains(x) implies room(e, a).contains(x) by {
        let y = choose|y: ColoredVertex| #[trigger] next.contains(y) && y.1 == x.1;
        assert(!escaped.contains(x.1));
        if a.contains(x) {
            assert(next.contains(x));
        }
        if a.contains(y) {
            assert(colors_of(a).contains(x.1));
        } else {
            assert(found.contains(y));
            assert(colors_of(found).contains(y.1));
        }
    }
    lemma_strictly_smaller(room(e, next), room(e, a), lost);
}

/// The number by which the weight of a state counts in the measure: more than any number
/// of steps that a phase can take.
pub open spec fn stride(e: Encoding) -> nat {
    usize::MAX as nat + space(e).len() + 2
}

/// The measure gets less when the weight does, or when the weight stays and the steps
/// left get fewer.
pub proof fn lemma_measure_less(e: Encoding, w1: nat, f1: nat, w2: nat, f2: nat)
    requires
        f2 < stride(e),
        w2 < w1 || (w2 == w1 && f2 < f1),
    ensures
        w2 * stride(e) + f2 < w1 * stride(e) + f1,
{
    if w2 < w1 {
        assert((w2 + 1) * stride(e) <= w1 * stride(e)) by (nonlinear_arith)
            requires
                w2 + 1 <= w1,
        ;
        assert((w2 + 1) * stride(e) == w2 * stride(e) + stride(e)) by (nonlinear_arith);
    }
}

/// The set is made up of attractors: each of its pairs is recurrent, and the pairs of the
/// colour of a pair are exactly what the pair reaches.
pub open spec fn attractor_item(r: Set<(ColoredVertex, ColoredVertex)>, a: Set<ColoredVertex>) -> bool {
    forall|x: ColoredVertex| #[trigger] a.contains(x) ==> recurrent(r, x) && forall|y: ColoredVertex| (a.contains(y) && y.1 == x.1) <==> #[trigger] connects(r, x, y)
}

/// The pivot `q` reaches a pair outside the basin.
pub open spec fn escaped(r: Set<(ColoredVertex, ColoredVertex)>, basin: Set<ColoredVertex>, q: ColoredVertex) -> bool {
    exists|z: ColoredVertex| #[trigger] connects(r, q, z) && !basin.contains(z)
}

/// Every pivot lies in the attractor, or it reaches a pair outside the basin.
pub open spec fn pivots_accounted(r: Set<(ColoredVertex, ColoredVertex)>, basin: Set<ColoredVertex>, a: Set<ColoredVertex>, p: Set<ColoredVertex>) -> bool {
    forall|q: ColoredVertex| #[trigger] p.contains(q) ==> a.contains(q) || escaped(r, basin, q)
}

/// What is connected has one colour.
pub proof fn lemma_connects_same_color(graph: SymbolicAsyncGraph, variables: Set<nat>, a: ColoredVertex, b: ColoredVertex)
    requires
        connects(moves(graph, variables), a, b),
    ensures
        a.1 == b.1,
{
    let k = choose|k: nat| links(moves(graph, variables), a, b, k);
    lemma_links_same_color(graph, variables, a, b, k);
}

/// A closed set that was grown from pivots that are alone in their colour, holds the
/// pivots of its colours, and reaches its pivots, is made up of attractors.
pub proof fn lemma_attractor_exact(graph: SymbolicAsyncGraph, variables: Set<nat>, rem: Set<ColoredVertex>, a: Set<ColoredVertex>, p: Set<ColoredVertex>)
    requires
        closed(moves(graph, variables), a),
        one_per_color(p),
        with_colors(p, colors_of(a)).subset_of(a),
        a.subset_of(reach(moves(graph, variables), p)),
        a.subset_of(reach(converse(confined(moves(graph, variables), rem)), p)),
    ensures
        attractor_item(moves(graph, variables), a),
{
    let r = moves(graph, variables);
    let c = confined(r, rem);
    assert(c.subset_of(r));
    assert forall|x: ColoredVertex| #[trigger] a.contains(x) implies recurrent(r, x) && forall|y: ColoredVertex| (a.contains(y) && y.1 == x.1) <==> #[trigger] connects(r, x, y) by {
        lemma_pivot_of(graph, variables, rem, a, p, x);
        let o = choose|o: ColoredVertex| p.contains(o) && a.contains(o) && connects(r, o, x) && connects(r, x, o);
        assert forall|y: ColoredVertex| #[trigger] connects(r, x, y) implies connects(r, y, x) by {
            let k = choose|k: nat| links(r, x, y, k);
            lemma_closed_keeps_paths(r, a, x, y, k);
            lemma_pivot_of(graph, variables, rem, a, p, y);
            let q = choose|q: ColoredVertex| p.contains(q) && a.contains(q) && connects(r, q, y) && connects(r, y, q);
            lemma_connects_same_color(graph, variables, x, y);
            lemma_connects_same_color(graph, variables, q, y);
            lemma_connects_same_color(graph, variables, o, x);
            assert(q == o);
            lemma_connects_join(r, y, o, x);
        }
        assert forall|y: ColoredVertex| (a.contains(y) && y.1 == x.1) <==> #[trigger] connects(r, x, y) by {
            if a.contains(y) && y.1 == x.1 {
                lemma_pivot_of(graph, variables, rem, a, p, y);
                let q = choose|q: ColoredVertex| p.contains(q) && a.contains(q) && connects(r, q, y) && connects(r, y, q);
                lemma_connects_same_color(graph, variables, q, y);
                lemma_connects_same_color(graph, variables, o, x);
                assert(q == o);
                lemma_connects_join(r, x, o, y);
            }
            if connects(r, x, y) {
                let k = choose|k: nat| links(r, x, y, k);
                lemma_closed_keeps_paths(r, a, x, y, k);
                lemma_connects_same_color(graph, variables, x, y);
            }
        }
    }
}

/// A pair of a set that is reached from the pivots and reaches them has a pivot of its own,
/// to and fro.
pub proof fn lemma_pivot_of(graph: SymbolicAsyncGraph, variables: Set<nat>, rem: Set<ColoredVertex>, a: Set<ColoredVertex>, p: Set<ColoredVertex>, x: ColoredVertex)
    requires
        one_per_color(p),
        with_colors(p, colors_of(a)).subset_of(a),
        a.subset_of(reach(moves(graph, variables), p)),
        a.subset_of(reach(converse(confined(moves(graph, variables), rem)), p)),
        a.contains(x),
    ensures
        exists|o: ColoredVertex| p.contains(o) && a.contains(o) && connects(moves(graph, variables), o, x) && connects(moves(graph, variables), x, o),
{
    reveal(reach);
    let r = moves(graph, variables);
    let c = confined(r, rem);
    assert(c.subset_of(r));
    let o = choose|o: ColoredVertex| p.contains(o) && #[trigger] connects(r, o, x);
    let q = choose|q: ColoredVertex| p.contains(q) && #[trigger] connects(converse(c), q, x);
    lemma_connects_converse(c, x, q);
    lemma_connects_in_greater(c, r, x, q);
    lemma_connects_same_color(graph, variables, o, x);
    lemma_connects_same_color(graph, variables, x, q);
    assert(o == q);
    assert(colors_of(a).contains(o.1));
    assert(with_colors(p, colors_of(a)).contains(o));
    assert(p.contains(o) && a.contains(o) && connects(r, o, x) && connects(r, x, o));
}

/// A recurrent pair of the basin lies in the attractor that has stopped growing.
pub proof fn lemma_attractor_complete(r: Set<(ColoredVertex, ColoredVertex)>, rem: Set<ColoredVertex>, basin: Set<ColoredVertex>, a: Set<ColoredVertex>, p: Set<ColoredVertex>, x: ColoredVertex)
    requires
        intact(r, rem),
        basin == reach(converse(confined(r, rem)), p),
        closed(r, a),
        pivots_accounted(r, basin, a, p),
        rem.contains(x),
        basin.contains(x),
        recurrent(r, x),
    ensures
        a.contains(x),
{
    reveal(reach);
    let c = confined(r, rem);
    assert(c.subset_of(r));
    let o = choose|o: ColoredVertex| p.contains(o) && #[trigger] connects(converse(c), o, x);
    lemma_connects_converse(c, x, o);
    lemma_connects_in_greater(c, r, x, o);
    assert(connects(r, o, x));
    if a.contains(o) {
        let k = choose|k: nat| links(r, o, x, k);
        lemma_closed_keeps_paths(r, a, o, x, k);
    } else {
        assert(escaped(r, basin, o));
        let z = choose|z: ColoredVertex| #[trigger] connects(r, o, z) && !basin.contains(z);
        lemma_connects_join(r, x, o, z);
        assert(connects(r, z, x));
        lemma_connects_join(r, z, x, o);
        let k = choose|k: nat| links(r, z, o, k);
        lemma_recurrent_confined(r, rem, x, z, o, k);
        assert(connects(c, z, o));
        lemma_connects_converse(c, z, o);
        assert(basin.contains(z));
    }
}

/// A round of growth keeps the pivots accounted for: a pivot whose colour is dropped
/// reaches what was found outside the basin.
pub proof fn lemma_growth_accounts(graph: SymbolicAsyncGraph, variables: Set<nat>, basin: Set<ColoredVertex>, a: Set<ColoredVertex>, found: Set<ColoredVertex>, p: Set<ColoredVertex>)
    requires
        one_per_color(p),
        found.subset_of(reach(moves(graph, variables), p)),
        pivots_accounted(moves(graph, variables), basin, a, p),
    ensures
        pivots_accounted(moves(graph, variables), basin, grown(a, found, basin), p),
{
    reveal(reach);
    let r = moves(graph, variables);
    let next = grown(a, found, basin);
    assert forall|q: ColoredVertex| #[trigger] p.contains(q) implies next.contains(q) || escaped(r, basin, q) by {
        if a.contains(q) && !next.contains(q) {
            assert(colors_of(found.difference(basin)).contains(q.1));
            let z = choose|z: ColoredVertex| #[trigger] found.difference(basin).contains(z) && z.1 == q.1;
            let o = choose|o: ColoredVertex| p.contains(o) && #[trigger] connects(r, o, z);
            lemma_connects_same_color(graph, variables, o, z);
            assert(o == q);
            assert(connects(r, q, z) && !basin.contains(z));
        }
    }
}

impl Step1 {
    /// The pivot is not empty and lies in what remains, and the computation ends with its
    /// basin: what reaches it within what remains.
    pub open spec fn wf(&self, context: &AttractorConfig, remaining: Set<ColoredVertex>) -> bool {
        &&& belongs(self.pivot, context.graph)
        &&& !members(self.pivot).is_empty()
        &&& members(self.pivot).subset_of(remaining)
        &&& one_per_color(members(self.pivot))
        &&& self.basin.wf()
        &&& forall|o: GraphColoredVertices| #[trigger] self.basin.delivers(&o) ==> belongs(o, context.graph) && members(o) == reach(converse(confined(context.moves(), remaining)), members(self.pivot))
    }
}

impl Step2 {
    /// The reachability configuration is that of the search; the attractor lies in the
    /// basin and the basin in what remains; the basin is what reaches the pivots within
    /// what remains; the attractor is reached from the pivots and holds the pivots of its
    /// colours.
    pub open spec fn wf(&self, context: &AttractorConfig, remaining: Set<ColoredVertex>) -> bool {
        &&& self.attractor_config.wf()
        &&& self.attractor_config.graph == context.graph
        &&& self.attractor_config.variables@ == context.active_variables@
        &&& belongs(self.basin, context.graph)
        &&& belongs(self.attractor, context.graph)
        &&& !self.pivot@.is_empty()
        &&& self.pivot@.subset_of(members(self.basin))
        &&& self.pivot@.subset_of(remaining)
        &&& members(self.basin) == reach(converse(confined(context.moves(), remaining)), self.pivot@)
        &&& members(self.basin).subset_of(remaining)
        &&& members(self.attractor).subset_of(members(self.basin))
        &&& members(self.attractor).subset_of(reach(context.moves(), self.pivot@))
        &&& with_colors(self.pivot@, colors_of(members(self.attractor))).subset_of(members(self.attractor))
        &&& one_per_color(self.pivot@)
        &&& pivots_accounted(context.moves(), members(self.basin), members(self.attractor), self.pivot@)
    }
}

impl XieBeerelState {
    /// The weight of the work that is left: that of what remains, less from phase to phase.
    pub open spec fn weight(&self) -> nat {
        4 * members(self.remaining).len() + match self.computing {
            Step::Idle => 3nat,
            Step::Basin(_) => 2nat,
            Step::Attractor(_) => 1nat,
        }
    }

    /// The steps that the phase can still take.
    pub open spec fn steps(&self, e: Encoding) -> nat {
        match self.computing {
            Step::Idle => 0,
            Step::Basin(step) => step.basin.fuel(),
            Step::Attractor(step) => room(e, members(step.attractor)).len(),
        }
    }
}

impl XieBeerelStep {
    /// The state is in order.
    pub open spec fn in_order(context: &AttractorConfig, state: &XieBeerelState) -> bool {
        &&& context.wf()
        &&& belongs(state.remaining, context.graph)
        &&& match state.computing {
            Step::Idle => true,
            Step::Basin(step) => step.wf(context, members(state.remaining)),
            Step::Attractor(step) => step.wf(context, members(state.remaining)),
        }
    }

    /// The measure of the work that is left.
    pub open spec fn measure(context: &AttractorConfig, state: &XieBeerelState) -> nat {
        state.weight() * stride(graph_encoding(context.graph)) + state.steps(graph_encoding(context.graph))
    }

    /// An item is a set of the graph that is not empty, lies in the region and is made up
    /// of attractors.
    pub open spec fn item_in(context: &AttractorConfig, region: Set<ColoredVertex>, item: &GraphColoredVertices) -> bool {
        &&& belongs(*item, context.graph)
        &&& !members(*item).is_empty()
        &&& members(*item).subset_of(region)
        &&& attractor_item(context.moves(), members(*item))
    }

    /// Nothing is lost between two regions, given what was handed out: every recurrent pair
    /// of the first region lies in the second region or in the item.
    pub open spec fn nothing_lost(context: &AttractorConfig, before: Set<ColoredVertex>, after: Set<ColoredVertex>, item: Option<GraphColoredVertices>) -> bool {
        forall|x: ColoredVertex| before.contains(x) && #[trigger] recurrent(context.moves(), x) ==> after.contains(x) || (item matches Some(found) && members(found).contains(x))
    }

    /// What one step achieves: the state stays in order and what remains does not grow; an
    /// item is made up of attractors in what remained and shares no pair with what
    /// remains; where what remained was intact, what remains is intact and no recurrent
    /// pair left it except in an item; what remains changes only when an attractor is done,
    /// and then its basin is taken away; the end is reported when nothing remains, and only
    /// then; from idle with something remaining, the step sets up the computation of a
    /// basin and is not cancelled; and unless the step is cancelled or reports the end, the
    /// measure gets less.
    pub open spec fn advanced(context: &AttractorConfig, before: &XieBeerelState, after: &XieBeerelState, r: &Completable<Option<GraphColoredVertices>>) -> bool {
        &&& Self::in_order(context, after)
        &&& members(after.remaining).subset_of(members(before.remaining))
        &&& (r matches Ok(Some(item)) ==> Self::item_in(context, members(before.remaining), &item) && members(*item).disjoint(members(after.remaining)))
        &&& (intact(context.moves(), members(before.remaining)) ==> intact(context.moves(), members(after.remaining)) && Self::nothing_lost(context, members(before.remaining), members(after.remaining), match *r {
            Ok(Some(item)) => Some(item),
            _ => None,
        }))
        &&& (r matches Ok(None) ==> *after == *before && before.computing is Idle && members(before.remaining).is_empty())
        &&& (before.computing is Basin ==> after.remaining == before.remaining)
        &&& (before.computing matches Step::Attractor(growing) ==> after.remaining == before.remaining || (after.computing is Idle && members(after.remaining) == members(before.remaining).difference(members(growing.basin))))
        &&& (before.computing is Idle ==> after.remaining == before.remaining && if members(before.remaining).is_empty() {
            r matches Ok(None)
        } else {
            (r matches Err(Incomplete::Working)) && after.computing is Basin
        })
        &&& ((r matches Ok(Some(_))) || (r matches Err(Incomplete::Working)) ==> Self::measure(context, after) < Self::measure(context, before))
    }

    /// From idle: with nothing remaining the search has ended; else pick a pivot and set
    /// up the computation of its basin within what remains.
    fn start_next(context: &AttractorConfig, state: &mut XieBeerelState) -> (r: Completable<Option<GraphColoredVertices>>)
        requires
            Self::in_order(context, old(state)),
            old(state).computing is Idle,
        ensures
            Self::advanced(context, old(state), final(state), &r),
    {
        if is_empty(&state.remaining) {
            return Ok(None);
        }
        let pivot = pick_vertex(&state.remaining);
        let bwd_config = context.to_reachability().restrict_state_space(&state.remaining);
        let ghost e = graph_encoding(context.graph);
        proof {
            let witness = choose|x: ColoredVertex| members(state.remaining).contains(x);
            assert(colors_of(members(pivot)).contains(witness.1));
            assert(members(pivot).subset_of(members(state.remaining)));
            assert(belongs(pivot, bwd_config.graph));
        }
        let basin = Computation::from_parts(bwd_config, ReachabilityState { iteration: 0, set: clone_set(&pivot) });
        state.computing = Step::Basin(Step1 { basin, pivot });
        proof {
            lemma_measure_less(e, old(state).weight(), old(state).steps(e), state.weight(), state.steps(e));
        }
        Err(Incomplete::Working)
    }

    /// While computing the basin: advance the computation; when it is done, the attractor
    /// starts to grow from the pivot.
    fn advance_basin(context: &AttractorConfig, state: &mut XieBeerelState, step: Step1, Ghost(before): Ghost<XieBeerelState>) -> (r: Completable<Option<GraphColoredVertices>>)
        requires
            Self::in_order(context, &before),
            before.computing == Step::Basin(step),
            before.remaining == old(state).remaining,
            old(state).computing is Idle,
        ensures
            Self::advanced(context, &before, final(state), &r),
    {
        let mut step = step;
        let outcome = match step.basin.try_compute() {
            Ok(found) => {
                let basin = clone_set(found);
                assert(step.basin.delivers(&basin));
                Ok(basin)
            },
            Err(e) => Err(e),
        };
        Self::place_basin(context, state, step, outcome, Ghost(before))
    }

    /// What the search makes of the outcome of a step of the computation of the basin,
    /// `step` being the phase as that step left it and `before` the state before it. An
    /// error puts the phase back and is handed on. The basin ends the phase: the attractor
    /// phase follows, with that basin and with the pivot as the attractor to grow, under
    /// the variables of the search; the answer is `Working`. What remains stays.
    pub fn place_basin(context: &AttractorConfig, state: &mut XieBeerelState, step: Step1, outcome: Completable<GraphColoredVertices>, Ghost(before): Ghost<XieBeerelState>) -> (r: Completable<Option<GraphColoredVertices>>)
        requires
            Self::in_order(context, &before),
            before.computing is Basin,
            before.remaining == old(state).remaining,
            old(state).computing is Idle,
            step.pivot == before.computing->Basin_0.pivot,
            step.basin.wf(),
            forall|o: GraphColoredVertices| #[trigger] step.basin.delivers(&o) ==> before.computing->Basin_0.basin.delivers(&o),
            outcome == Err::<GraphColoredVertices, Incomplete>(Incomplete::Working) ==> step.basin.fuel() < before.computing->Basin_0.basin.fuel(),
            outcome matches Ok(set) ==> before.computing->Basin_0.basin.delivers(&set),
        ensures
            Self::advanced(context, &before, final(state), &r),
            final(state).remaining == old(state).remaining,
            match outcome {
                Err(e) => final(state).computing == Step::Basin(step) && (r matches Err(handed) && handed == e),
                Ok(basin) => (r matches Err(Incomplete::Working)) && (final(state).computing matches Step::Attractor(next) && {
                    &&& next.basin == basin
                    &&& next.attractor == step.pivot
                    &&& next.pivot@ == members(step.pivot)
                    &&& next.attractor_config.graph == context.graph
                    &&& next.attractor_config.variables@ == context.active_variables@
                    &&& next.attractor_config.max_iterations == usize::MAX
                    &&& next.attractor_config.max_symbolic_size == context.max_symbolic_size
                }),
            },
    {
        let ghost start = before.computing->Basin_0;
        let ghost e = graph_encoding(context.graph);
        let ghost rem = members(state.remaining);
        let basin = match outcome {
            Ok(basin) => basin,
            Err(incomplete) => {
                state.computing = Step::Basin(step);
                proof {
                    if incomplete == Incomplete::Working {
                        lemma_measure_less(e, before.weight(), before.steps(e), state.weight(), state.steps(e));
                    }
                }
                return Err(incomplete);
            },
        };
        proof {
            assert(start.basin.delivers(&basin));
            let p = members(step.pivot);
            let r = confined(context.moves(), rem);
            assert(closed(converse(r), rem));
            lemma_reach_least(converse(r), p, rem);
            lemma_reach_holds_start(converse(r), p);
            lemma_reach_holds_start(context.moves(), p);
            lemma_fits_finite(p, e);
            lemma_space_finite(e);
            lemma_smaller(room(e, p), space(e));
        }
        let attractor_config = context.to_reachability();
        let attractor = clone_set(&step.pivot);
        state.computing = Step::Attractor(Step2 { basin, attractor, attractor_config, pivot: Ghost(members(step.pivot)) });
        proof {
            lemma_measure_less(e, before.weight(), before.steps(e), state.weight(), state.steps(e));
        }
        Err(Incomplete::Working)
    }

    /// What the end of an attractor makes of the state: its basin is taken away from what
    /// remains, the search is idle, and the attractor is handed out, or, if it is empty,
    /// the answer is `Working`.
    pub open spec fn attractor_finished(before: &XieBeerelState, after: &XieBeerelState, step: Step2, r: &Completable<Option<GraphColoredVertices>>) -> bool {
        &&& after.computing is Idle
        &&& encoding(after.remaining) == encoding(before.remaining)
        &&& members(after.remaining) == members(before.remaining).difference(members(step.basin))
        &&& if members(step.attractor).is_empty() {
            *r matches Err(Incomplete::Working)
        } else {
            *r matches Ok(Some(item)) && item == step.attractor
        }
    }

    /// The attractor has stopped growing: take its basin away from what remains and report
    /// the attractor, unless all its colours were dropped.
    pub fn finish_attractor(context: &AttractorConfig, state: &mut XieBeerelState, step: Step2, Ghost(before): Ghost<XieBeerelState>) -> (r: Completable<Option<GraphColoredVertices>>)
        requires
            Self::in_order(context, &before),
            before.computing == Step::Attractor(step),
            before.remaining == old(state).remaining,
            old(state).computing is Idle,
            closed(context.moves(), members(step.attractor)),
        ensures
            Self::advanced(context, &before, final(state), &r),
            Self::attractor_finished(old(state), final(state), step, &r),
    {
        let ghost e = graph_encoding(context.graph);
        let ghost rem = members(state.remaining);
        let ghost a = members(step.attractor);
        let ghost p = step.pivot@;
        let attractor = step.attractor;
        state.remaining = minus(&state.remaining, &step.basin);
        proof {
            let x = choose|x: ColoredVertex| p.contains(x);
            lemma_fits_finite(rem, e);
            lemma_strictly_smaller(members(state.remaining), rem, x);
            lemma_measure_less(e, before.weight(), before.steps(e), state.weight(), 0);
            lemma_attractor_exact(context.graph, listed(context.active_variables@), rem, a, p);
            assert(a.subset_of(rem));
            if intact(context.moves(), rem) {
                lemma_intact_without_basin(context.moves(), rem, p);
                assert forall|y: ColoredVertex| rem.contains(y) && #[trigger] recurrent(context.moves(), y) implies members(state.remaining).contains(y) || a.contains(y) by {
                    if members(step.basin).contains(y) {
                        lemma_attractor_complete(context.moves(), rem, members(step.basin), a, p, y);
                    }
                }
            }
        }
        if is_empty(&attractor) {
            Err(Incomplete::Working)
        } else {
            Ok(Some(attractor))
        }
    }

    /// While the attractor grows: one round of saturation from the attractor. If nothing
    /// new is found, the attractor is done. Else what was found is added, and every colour
    /// under which something was found outside the basin is dropped from the attractor.
    fn advance_attractor(context: &AttractorConfig, state: &mut XieBeerelState, step: Step2, Ghost(before): Ghost<XieBeerelState>) -> (r: Completable<Option<GraphColoredVertices>>)
        requires
            Self::in_order(context, &before),
            before.computing == Step::Attractor(step),
            before.remaining == old(state).remaining,
            old(state).computing is Idle,
        ensures
            Self::advanced(context, &before, final(state), &r),
    {
        let found = SaturationSuccessors::step(&step.attractor_config, &step.attractor);
        Self::place_attractor(context, state, step, found, Ghost(before))
    }

    /// What the search makes of the outcome of a round of saturation from the attractor,
    /// `before` being the state before it. A cancellation puts the phase back and is handed
    /// on. Where the round found nothing, the attractor is done: its basin is taken away
    /// from what remains, the search is idle again, and the attractor is handed out, or,
    /// if all its colours were dropped, the answer is `Working`. Else what was found is
    /// added, every colour under which something was found outside the basin is dropped
    /// from the attractor, the phase goes on, and the answer is `Working`.
    pub fn place_attractor(context: &AttractorConfig, state: &mut XieBeerelState, step: Step2, found: Cancellable<GraphColoredVertices>, Ghost(before): Ghost<XieBeerelState>) -> (r: Completable<Option<GraphColoredVertices>>)
        requires
            Self::in_order(context, &before),
            before.computing == Step::Attractor(step),
            before.remaining == old(state).remaining,
            old(state).computing is Idle,
            found matches Ok(set) ==> belongs(set, context.graph) && members(set) == SaturationSuccessors::found(&step.attractor_config, members(step.attractor)),
        ensures
            Self::advanced(context, &before, final(state), &r),
            match found {
                Err(cancelled) => {
                    &&& final(state).computing == Step::Attractor(step)
                    &&& final(state).remaining == old(state).remaining
                    &&& r matches Err(Incomplete::Cancelled(handed)) && handed == cancelled
                },
                Ok(set) => if members(set).is_empty() {
                    Self::attractor_finished(old(state), final(state), step, &r)
                } else {
                    &&& final(state).remaining == old(state).remaining
                    &&& r matches Err(Incomplete::Working)
                    &&& final(state).computing matches Step::Attractor(next) && {
                        &&& next.basin == step.basin
                        &&& next.pivot == step.pivot
                        &&& next.attractor_config == step.attractor_config
                        &&& members(next.attractor) == grown(members(step.attractor), members(set), members(step.basin))
                    }
                },
            },
    {
        let mut step = step;
        let ghost e = graph_encoding(context.graph);
        let ghost rem = members(state.remaining);
        let ghost a = members(step.attractor);
        let ghost p = step.pivot@;
        let ghost config = step.attractor_config;
        let successors = match found {
            Ok(successors) => successors,
            Err(cancelled) => {
                state.computing = Step::Attractor(step);
                return Err(Incomplete::Cancelled(cancelled));
            },
        };
        let ghost found = members(successors);
        proof {
            assert(config.moves() == context.moves());
            lemma_last_nonempty_is_answer(Probe::PostOut, config.graph, config.variables@, a, config.variables@.len());
            assert(found.disjoint(a));
        }
        if is_subset(&successors, &step.attractor) {
            proof {
                assert(found =~= Set::empty());
                lemma_last_nonempty_none(Probe::PostOut, config.graph, config.variables@, a, config.variables@.len());
                lemma_no_post_out_closed(&config, a);
            }
            return Self::finish_attractor(context, state, step, Ghost(before));
        }
        proof {
            let j = choose|j: int| 0 <= j < config.variables@.len() && found == #[trigger] probe(Probe::PostOut, config.graph, config.variables@[j] as nat, a);
            lemma_post_out_reached(&config, a, j);
            assert forall|c: Seq<bool>| colors_of(found).contains(c) implies colors_of(a).contains(c) by {
                let y = choose|y: ColoredVertex| #[trigger] found.contains(y) && y.1 == c;
                let x = choose|x: ColoredVertex| a.contains(x) && #[trigger] has_step(config.graph, config.variables@[j] as nat, x, y);
                assert(a.contains(x) && x.1 == c);
            }
            let w = choose|w: ColoredVertex| found.contains(w) && !a.contains(w);
            lemma_growth_takes_room(e, a, found, members(step.basin), w);
            lemma_reach_closed(context.moves(), p);
            lemma_reach_least(context.moves(), a, reach(context.moves(), p));
            assert(found.subset_of(reach(context.moves(), p)));
            lemma_growth_accounts(context.graph, listed(context.active_variables@), members(step.basin), a, found, p);
        }
        step.attractor = union(&step.attractor, &successors);
        // Successors outside the basin: under their colours there is no attractor here.
        let escaped = colors(&minus(&successors, &step.basin));
        if !no_colors(&escaped) {
            step.attractor = minus_colors(&step.attractor, &escaped);
        } else {
            proof {
                assert(members(step.attractor) =~= grown(a, found, members(step.basin)));
            }
        }
        proof {
            let next = members(step.attractor);
            assert(next == grown(a, found, members(step.basin)));
            assert forall|x: ColoredVertex| next.contains(x) implies members(step.basin).contains(x) by {
                if !a.contains(x) {
                    if !members(step.basin).contains(x) {
                        assert(found.difference(members(step.basin)).contains(x));
                        assert(colors_of(found.difference(members(step.basin))).contains(x.1));
                    }
                }
            }
            assert forall|x: ColoredVertex| with_colors(p, colors_of(next)).contains(x) implies next.contains(x) by {
                let y = choose|y: ColoredVertex| #[trigger] next.contains(y) && y.1 == x.1;
                if a.contains(y) {
                    assert(colors_of(a).contains(x.1));
                } else {
                    assert(colors_of(found).contains(y.1));
                }
                assert(with_colors(p, colors_of(a)).contains(x));
            }
        }
        state.computing = Step::Attractor(step);
        proof {
            lemma_space_finite(e);
            lemma_smaller(room(e, members(step.attractor)), space(e));
            lemma_measure_less(e, before.weight(), before.steps(e), state.weight(), state.steps(e));
        }
        Err(Incomplete::Working)
    }
}

impl GeneratorStep<AttractorConfig, XieBeerelState, GraphColoredVertices> for XieBeerelStep {
    open spec fn valid(context: &AttractorConfig, state: &XieBeerelState) -> bool {
        Self::in_order(context, state)
    }

    open spec fn fuel(context: &AttractorConfig, state: &XieBeerelState) -> nat {
        Self::measure(context, state)
    }

    open spec fn exhausted(context: &AttractorConfig, state: &XieBeerelState) -> bool {
        state.computing is Idle && members(state.remaining).is_empty()
    }

    /// An item is an attractor grown from pivots in what remains.
    open spec fn yields(context: &AttractorConfig, state: &XieBeerelState, item: &GraphColoredVertices) -> bool {
        Self::item_in(context, members(state.remaining), item)
    }

    open spec fn stepped(context: &AttractorConfig, before: &XieBeerelState, after: &XieBeerelState, r: &Completable<Option<GraphColoredVertices>>) -> bool {
        Self::advanced(context, before, after, r)
    }

    /// One step of the search, by the phase that the state is in.
    fn step(context: &AttractorConfig, state: &mut XieBeerelState) -> (r: Completable<Option<GraphColoredVertices>>)
        ensures
            Self::advanced(context, old(state), final(state), &r),
    {
        let mut computing = Step::Idle;
        core::mem::swap(&mut computing, &mut state.computing);
        match computing {
            Step::Idle => Self::start_next(context, state),
            Step::Basin(step) => Self::advance_basin(context, state, step, Ghost(*old(state))),
            Step::Attractor(step) => Self::advance_attractor(context, state, step, Ghost(*old(state))),
        }
    }
}

impl<'a> From<&'a SymbolicAsyncGraph> for XieBeerelState {
    fn from(value: &'a SymbolicAsyncGraph) -> (r: Self)
        ensures
            r.computing is Idle,
            belongs(r.remaining, *value),
            members(r.remaining) == crate::symbolic::unit_members(*value),
    {
        XieBeerelState { computing: Step::Idle, remaining: mk_unit_colored_vertices(value) }
    }
}

impl<'a> FromSpecImpl<&'a SymbolicAsyncGraph> for XieBeerelState {
    open spec fn obeys_from_spec() -> bool {
        false
    }

    open spec fn from_spec(value: &'a SymbolicAsyncGraph) -> Self {
        arbitrary()
    }
}

impl<'a> From<&'a GraphColoredVertices> for XieBeerelState {
    fn from(value: &'a GraphColoredVertices) -> (r: Self)
        ensures
            r == (XieBeerelState { computing: Step::Idle, remaining: *value }),
    {
        XieBeerelState { computing: Step::Idle, remaining: clone_set(value) }
    }
}

impl<'a> FromSpecImpl<&'a GraphColoredVertices> for XieBeerelState {
    open spec fn obeys_from_spec() -> bool {
        true
    }

    open spec fn from_spec(value: &'a GraphColoredVertices) -> Self {
        XieBeerelState { computing: Step::Idle, remaining: *value }
    }
}

impl From<GraphColoredVertices> for XieBeerelState {
    fn from(value: GraphColoredVertices) -> (r: Self)
        ensures
            r == (XieBeerelState { computing: Step::Idle, remaining: value }),
    {
        XieBeerelState { computing: Step::Idle, remaining: value }
    }
}

impl FromSpecImpl<GraphColoredVertices> for XieBeerelState {
    open spec fn obeys_from_spec() -> bool {
        true
    }

    open spec fn from_spec(value: GraphColoredVertices) -> Self {
        XieBeerelState { computing: Step::Idle, remaining: value }
    }
}

} // verus!
