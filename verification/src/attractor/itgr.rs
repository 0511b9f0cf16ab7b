//! Interleaved transition-guided reduction: a preprocessing for the attractor search that
//! shrinks the universe and finds the variables that can no longer change in what is left.
//!
//! For every variable there is a chain of tasks. The forward set of the states that can
//! change the variable is computed; then, within it, the extended component of what can
//! still reach such a state. What reaches the forward set from outside, and what reaches
//! the rest of the forward set from the extended component, lies in no attractor and is
//! discarded. The tasks of all variables are interleaved, the smallest set first.

use crate::algorithm_trait::computation::ComputationStepAndConvert;
use crate::algorithm_trait::{Completable, Incomplete};
use crate::cancellation::{check_cancelled, Cancellable};
use crate::attractor::AttractorConfig;
use crate::reachability::reachability_config::{
    all_below, all_moves, clone_variables, lemma_moves_of_restricted, listed, moves,
    ordered_below,
};
use crate::relation::{
    closed, confined, connects, converse, lemma_closed_keeps_paths, lemma_connects_converse,
    lemma_connects_in_greater, lemma_connects_join, lemma_links_in_greater,
    lemma_reach_holds_start, links, reach, recurrent,
};
use crate::reachability::reachability_config::lemma_listed_all;
use crate::reachability::step_operators::{
    last_nonempty, lemma_last_nonempty_is_answer, lemma_last_nonempty_none,
    lemma_no_post_out_closed, lemma_no_pre_out_closed, probe, Probe,
};
use crate::reachability::{
    ReachabilityConfig, ReachabilityStep, SaturationPredecessors, SaturationSuccessors,
};
use crate::space::{lemma_fits_finite, lemma_smaller, lemma_strictly_smaller};
use crate::symbolic::{
    belongs, clone_set, encoding, fits, graph_encoding, has_step, intersect, is_empty, members,
    minus, node_count, num_vars, restrict, steps, steps_within, symbolic_size, union,
    var_can_post, var_can_post_within, var_predecessors, var_successors, variable_count,
    ColoredVertex,
};
use biodivine_lib_param_bn::symbolic_async_graph::{GraphColoredVertices, SymbolicAsyncGraph};
use vstd::prelude::*;
use vstd::seq_lib::group_to_multiset_ensures;

verus! {

/// The state of the reduction.
pub struct ItgrState {
    /// What is left of the universe: the result, once all tasks are done.
    pub remaining_set: GraphColoredVertices,
    /// The reachability configuration confined to what is left, with the variables that can
    /// still change there.
    pub remaining_reachability: ReachabilityConfig,
    /// What the next step is to remove from what is left.
    pub to_discard: Option<GraphColoredVertices>,
    /// The tasks that are left, each with its variable. The last one is worked on.
    pub reductions: Vec<(usize, Step)>,
}

/// The step operator of the reduction.
pub struct ItgrStep;

/// The forward set of a variable, growing.
pub struct StepForward {
    pub forward: GraphColoredVertices,
}

/// A forward set that is complete and, within it, the extended component, growing.
pub struct StepExtendedComponent {
    pub forward: GraphColoredVertices,
    pub extended_component: GraphColoredVertices,
    pub universe_forward: ReachabilityConfig,
}

/// A forward set and its basin, growing.
pub struct StepForwardBasin {
    pub forward: GraphColoredVertices,
    pub basin: GraphColoredVertices,
}

/// The bottom of a forward set, where the variable can no longer change, and its basin,
/// growing.
pub struct StepBottomBasin {
    pub bottom: GraphColoredVertices,
    pub basin: GraphColoredVertices,
}

/// A task of the reduction.
pub enum Step {
    Forward(StepForward),
    Extended(StepExtendedComponent),
    ForwardBasin(StepForwardBasin),
    BottomBasin(StepBottomBasin),
}

/// The pairs of `s` from which variable `v` can change.
pub open spec fn can_post(graph: SymbolicAsyncGraph, v: nat, s: Set<ColoredVertex>) -> Set<ColoredVertex> {
    s.intersect(var_predecessors(graph, v, Set::full()))
}

impl Step {
    /// The set of the task that grows.
    pub open spec fn growing(&self) -> GraphColoredVertices {
        match self {
            Step::Forward(x) => x.forward,
            Step::Extended(x) => x.extended_component,
            Step::ForwardBasin(x) => x.basin,
            Step::BottomBasin(x) => x.basin,
        }
    }

    /// The task is a basin task.
    pub open spec fn is_basin(&self) -> bool {
        self is ForwardBasin || self is BottomBasin
    }

    /// The sets of the task belong to the graph and lie in what is left `rem`; a forward
    /// set that still grows holds the pairs of `rem` from which the variable `var` can
    /// change; the configuration of an extended component is confined to the forward set.
    pub open spec fn wf(&self, graph: SymbolicAsyncGraph, var: nat, rem: Set<ColoredVertex>) -> bool {
        match self {
            Step::Forward(x) => {
                &&& belongs(x.forward, graph)
                &&& members(x.forward).subset_of(rem)
                &&& can_post(graph, var, rem).subset_of(members(x.forward))
            },
            Step::Extended(x) => {
                &&& belongs(x.forward, graph)
                &&& belongs(x.extended_component, graph)
                &&& members(x.forward).subset_of(rem)
                &&& members(x.extended_component).subset_of(members(x.forward))
                &&& x.universe_forward.wf()
                &&& graph_encoding(x.universe_forward.graph) == graph_encoding(graph)
                &&& steps(x.universe_forward.graph) == steps_within(graph, members(x.forward))
            },
            Step::ForwardBasin(x) => {
                &&& belongs(x.forward, graph)
                &&& belongs(x.basin, graph)
                &&& members(x.basin).subset_of(rem)
            },
            Step::BottomBasin(x) => {
                &&& belongs(x.bottom, graph)
                &&& belongs(x.basin, graph)
                &&& members(x.basin).subset_of(rem)
            },
        }
    }

    /// The cost of the task: a bound on the steps that the task and the tasks that follow
    /// from it can take, within what is left `rem`.
    pub open spec fn cost(&self, rem: Set<ColoredVertex>) -> nat {
        match self {
            Step::Forward(x) => 3 * rem.len() + 4 + rem.difference(members(x.forward)).len(),
            Step::Extended(x) => rem.len() + 2 + members(x.forward).difference(members(x.extended_component)).len(),
            Step::ForwardBasin(x) => rem.difference(members(x.basin)).len() + 1,
            Step::BottomBasin(x) => rem.difference(members(x.basin)).len() + 1,
        }
    }

    /// The weight by which the tasks are ordered: the number of diagram nodes of the set
    /// that grows.
    pub fn weight(&self) -> (r: usize)
        ensures
            r == node_count(self.growing()),
    {
        match self {
            Step::Forward(x) => symbolic_size(&x.forward),
            Step::Extended(x) => symbolic_size(&x.extended_component),
            Step::ForwardBasin(x) => symbolic_size(&x.basin),
            Step::BottomBasin(x) => symbolic_size(&x.basin),
        }
    }

    /// Whether the task is a basin task.
    pub fn takes_priority(&self) -> (r: bool)
        ensures
            r == self.is_basin(),
    {
        match self {
            Step::Forward(_) => false,
            Step::Extended(_) => false,
            Step::ForwardBasin(_) => true,
            Step::BottomBasin(_) => true,
        }
    }

    /// The task `after` is the task `before` cut down to the set `to`: its sets are those of
    /// `before` as far as they lie in `to`, and the configuration of an extended component
    /// is confined to `to`.
    pub open spec fn cut_to(before: Step, after: Step, to: GraphColoredVertices) -> bool {
        match (before, after) {
            (Step::Forward(x), Step::Forward(y)) => {
                &&& encoding(y.forward) == encoding(x.forward)
                &&& members(y.forward) == members(x.forward).intersect(members(to))
            },
            (Step::Extended(x), Step::Extended(y)) => {
                &&& encoding(y.forward) == encoding(x.forward)
                &&& encoding(y.extended_component) == encoding(x.extended_component)
                &&& members(y.forward) == members(x.forward).intersect(members(to))
                &&& members(y.extended_component) == members(x.extended_component).intersect(members(to))
                &&& y.universe_forward.variables == x.universe_forward.variables
                &&& y.universe_forward.max_iterations == x.universe_forward.max_iterations
                &&& y.universe_forward.max_symbolic_size == x.universe_forward.max_symbolic_size
                &&& graph_encoding(y.universe_forward.graph) == graph_encoding(x.universe_forward.graph)
                &&& steps(y.universe_forward.graph) == steps_within(x.universe_forward.graph, members(to))
            },
            (Step::ForwardBasin(x), Step::ForwardBasin(y)) => {
                &&& encoding(y.forward) == encoding(x.forward)
                &&& encoding(y.basin) == encoding(x.basin)
                &&& members(y.forward) == members(x.forward).intersect(members(to))
                &&& members(y.basin) == members(x.basin).intersect(members(to))
            },
            (Step::BottomBasin(x), Step::BottomBasin(y)) => {
                &&& encoding(y.bottom) == encoding(x.bottom)
                &&& encoding(y.basin) == encoding(x.basin)
                &&& members(y.bottom) == members(x.bottom).intersect(members(to))
                &&& members(y.basin) == members(x.basin).intersect(members(to))
            },
            _ => false,
        }
    }

    /// Cut the sets of the task down to `restrict_to`, and confine the configuration of an
    /// extended component to it.
    pub fn restrict_to(&mut self, restrict_to: &GraphColoredVertices)
        requires
            encoding(old(self).growing()) == encoding(*restrict_to),
            match *old(self) {
                Step::Forward(x) => true,
                Step::Extended(x) => encoding(x.forward) == encoding(*restrict_to) && graph_encoding(x.universe_forward.graph) == encoding(*restrict_to),
                Step::ForwardBasin(x) => encoding(x.forward) == encoding(*restrict_to),
                Step::BottomBasin(x) => encoding(x.bottom) == encoding(*restrict_to),
            },
        ensures
            Self::cut_to(*old(self), *final(self), *restrict_to),
    {
        match self {
            Step::Forward(x) => {
                x.forward = intersect(&x.forward, restrict_to);
            },
            Step::Extended(x) => {
                x.forward = intersect(&x.forward, restrict_to);
                x.extended_component = intersect(&x.extended_component, restrict_to);
                x.universe_forward.graph = restrict(&x.universe_forward.graph, restrict_to);
            },
            Step::ForwardBasin(x) => {
                x.forward = intersect(&x.forward, restrict_to);
                x.basin = intersect(&x.basin, restrict_to);
            },
            Step::BottomBasin(x) => {
                x.bottom = intersect(&x.bottom, restrict_to);
                x.basin = intersect(&x.basin, restrict_to);
            },
        }
    }
}

/// Variable `v` has no step from a pair of `s` to a pair of `s`.
pub open spec fn no_steps_within(graph: SymbolicAsyncGraph, v: nat, s: Set<ColoredVertex>) -> bool {
    forall|a: ColoredVertex, b: ColoredVertex| s.contains(a) && s.contains(b) ==> !#[trigger] has_step(graph, v, a, b)
}

/// The variables of the graph that are not listed have no step within `s`.
pub open spec fn idle_outside(graph: SymbolicAsyncGraph, variables: Seq<usize>, s: Set<ColoredVertex>) -> bool {
    forall|v: nat| v < variable_count(graph) && !listed(variables).contains(v) ==> #[trigger] no_steps_within(graph, v, s)
}

/// What is marked to be discarded can go: no step leaves what is left without it, and it
/// holds no recurrent pair.
pub open spec fn discard_ok(graph: SymbolicAsyncGraph, rem: Set<ColoredVertex>, to_discard: Option<GraphColoredVertices>) -> bool {
    to_discard matches Some(d) ==> closed(all_moves(graph), rem.difference(members(d))) && forall|x: ColoredVertex| members(d).contains(x) ==> !#[trigger] recurrent(all_moves(graph), x)
}

impl Step {
    /// What the task stands on: no step of the graph leaves a forward set that is complete,
    /// or a bottom; the variables that an extended component leaves out have no step within
    /// its forward set; and every pair of a basin reaches, within what is left, the set
    /// whose basin it is.
    pub open spec fn sound(&self, graph: SymbolicAsyncGraph, rem: Set<ColoredVertex>) -> bool {
        match self {
            Step::Forward(x) => true,
            Step::Extended(x) => closed(all_moves(graph), members(x.forward)) && idle_outside(graph, x.universe_forward.variables@, members(x.forward)),
            Step::ForwardBasin(x) => closed(all_moves(graph), members(x.forward)) && members(x.basin).subset_of(reach(converse(confined(all_moves(graph), rem)), members(x.forward))),
            Step::BottomBasin(x) => closed(all_moves(graph), members(x.bottom)) && members(x.basin).subset_of(reach(converse(confined(all_moves(graph), rem)), members(x.bottom))),
        }
    }
}

/// Every task of the list stands on firm ground.
pub open spec fn all_tasks_sound(list: Seq<(usize, Step)>, graph: SymbolicAsyncGraph, rem: Set<ColoredVertex>) -> bool {
    forall|i: int| 0 <= i < list.len() ==> (#[trigger] list[i]).1.sound(graph, rem)
}

/// Within a set outside of which the unlisted variables are idle, every step of the graph
/// is a step of a listed variable.
pub proof fn lemma_listed_step(graph: SymbolicAsyncGraph, variables: Seq<usize>, s: Set<ColoredVertex>, a: ColoredVertex, b: ColoredVertex)
    requires
        idle_outside(graph, variables, s),
        s.contains(a),
        s.contains(b),
        all_moves(graph).contains((a, b)),
    ensures
        confined(moves(graph, listed(variables)), s).contains((a, b)),
{
    let v = choose|v: nat| all_below(variable_count(graph)).contains(v) && #[trigger] has_step(graph, v, a, b);
    if !listed(variables).contains(v) {
        assert(no_steps_within(graph, v, s));
    }
    let p = (a, b);
    assert(has_step(graph, v, p.0, p.1));
    assert(moves(graph, listed(variables)).contains((a, b)));
}

/// A set within a closed set that no step of the listed variables leaves within that set
/// is closed, where the unlisted variables are idle.
pub proof fn lemma_closed_within(graph: SymbolicAsyncGraph, variables: Seq<usize>, rem: Set<ColoredVertex>, f: Set<ColoredVertex>)
    requires
        closed(all_moves(graph), rem),
        idle_outside(graph, variables, rem),
        f.subset_of(rem),
        closed(confined(moves(graph, listed(variables)), rem), f),
    ensures
        closed(all_moves(graph), f),
{
    assert forall|a: ColoredVertex, b: ColoredVertex| f.contains(a) && #[trigger] all_moves(graph).contains((a, b)) implies f.contains(b) by {
        assert(rem.contains(b));
        lemma_listed_step(graph, variables, rem, a, b);
    }
}

/// What is left of a closed set beside a part that no listed step enters within the set is
/// closed, where the unlisted variables are idle within the set.
pub proof fn lemma_bottom_closed(graph: SymbolicAsyncGraph, variables: Seq<usize>, f: Set<ColoredVertex>, ec: Set<ColoredVertex>)
    requires
        closed(all_moves(graph), f),
        idle_outside(graph, variables, f),
        closed(converse(confined(moves(graph, listed(variables)), f)), ec),
    ensures
        closed(all_moves(graph), f.difference(ec)),
{
    let c = confined(moves(graph, listed(variables)), f);
    assert forall|a: ColoredVertex, b: ColoredVertex| f.difference(ec).contains(a) && #[trigger] all_moves(graph).contains((a, b)) implies f.difference(ec).contains(b) by {
        assert(f.contains(b));
        if ec.contains(b) {
            lemma_listed_step(graph, variables, f, a, b);
            assert(converse(c).contains((b, a)));
        }
    }
}

/// A complete basin of a closed set can go but for the set: no step leaves what is left
/// without it, and none of its pairs outside the set is recurrent.
pub proof fn lemma_basin_discarded(graph: SymbolicAsyncGraph, variables: Seq<usize>, rem: Set<ColoredVertex>, basin: Set<ColoredVertex>, inside: Set<ColoredVertex>)
    requires
        closed(all_moves(graph), rem),
        idle_outside(graph, variables, rem),
        closed(all_moves(graph), inside),
        closed(converse(confined(moves(graph, listed(variables)), rem)), basin),
        basin.subset_of(reach(converse(confined(all_moves(graph), rem)), inside)),
    ensures
        closed(all_moves(graph), rem.difference(basin.difference(inside))),
        forall|x: ColoredVertex| basin.difference(inside).contains(x) ==> !#[trigger] recurrent(all_moves(graph), x),
{
    reveal(reach);
    let r = all_moves(graph);
    let c = confined(moves(graph, listed(variables)), rem);
    let d = basin.difference(inside);
    assert forall|a: ColoredVertex, b: ColoredVertex| rem.difference(d).contains(a) && #[trigger] r.contains((a, b)) implies rem.difference(d).contains(b) by {
        assert(rem.contains(b));
        if d.contains(b) {
            lemma_listed_step(graph, variables, rem, a, b);
            assert(converse(c).contains((b, a)));
            assert(basin.contains(a));
            assert(inside.contains(a));
        }
    }
    assert forall|x: ColoredVertex| d.contains(x) implies !#[trigger] recurrent(r, x) by {
        let f = choose|f: ColoredVertex| inside.contains(f) && #[trigger] connects(converse(confined(r, rem)), f, x);
        lemma_connects_converse(confined(r, rem), x, f);
        assert(confined(r, rem).subset_of(r));
        lemma_connects_in_greater(confined(r, rem), r, x, f);
        if recurrent(r, x) {
            let k = choose|k: nat| links(r, f, x, k);
            lemma_closed_keeps_paths(r, inside, f, x, k);
        }
    }
}

/// A path that starts in a closed part of `u` is a path within the part.
pub proof fn lemma_path_in_closed(r: Set<(ColoredVertex, ColoredVertex)>, u: Set<ColoredVertex>, part: Set<ColoredVertex>, a: ColoredVertex, b: ColoredVertex, k: nat)
    requires
        closed(r, part),
        part.contains(a),
        links(confined(r, u), a, b, k),
    ensures
        links(confined(r, part), a, b, k),
        part.contains(b),
    decreases k,
{
    if k > 0 {
        let c = confined(r, u);
        let m = choose|m: ColoredVertex| links(c, a, m, (k - 1) as nat) && #[trigger] c.contains((m, b));
        lemma_path_in_closed(r, u, part, a, m, (k - 1) as nat);
        assert(confined(r, part).contains((m, b)));
    }
}

/// A task that is cut down to a closed part of what is left stands on firm ground as before.
pub proof fn lemma_task_sound_restricted(graph: SymbolicAsyncGraph, before: Step, after: Step, rem: Set<ColoredVertex>, part: Set<ColoredVertex>)
    requires
        before.sound(graph, rem),
        closed(all_moves(graph), part),
        part.subset_of(rem),
        match (before, after) {
            (Step::Forward(x), Step::Forward(y)) => true,
            (Step::Extended(x), Step::Extended(y)) => {
                &&& members(y.forward) == members(x.forward).intersect(part)
                &&& y.universe_forward.variables == x.universe_forward.variables
            },
            (Step::ForwardBasin(x), Step::ForwardBasin(y)) => {
                &&& members(y.forward) == members(x.forward).intersect(part)
                &&& members(y.basin) == members(x.basin).intersect(part)
            },
            (Step::BottomBasin(x), Step::BottomBasin(y)) => {
                &&& members(y.bottom) == members(x.bottom).intersect(part)
                &&& members(y.basin) == members(x.basin).intersect(part)
            },
            _ => false,
        },
    ensures
        after.sound(graph, part),
{
    reveal(reach);
    let r = all_moves(graph);
    match (before, after) {
        (Step::Extended(x), Step::Extended(y)) => {
            assert forall|v: nat| v < variable_count(graph) && !listed(y.universe_forward.variables@).contains(v) implies #[trigger] no_steps_within(graph, v, members(y.forward)) by {
                assert(no_steps_within(graph, v, members(x.forward)));
            }
        },
        (Step::ForwardBasin(x), Step::ForwardBasin(y)) => {
            lemma_basin_restricted(r, rem, part, members(x.basin), members(x.forward));
        },
        (Step::BottomBasin(x), Step::BottomBasin(y)) => {
            lemma_basin_restricted(r, rem, part, members(x.basin), members(x.bottom));
        },
        _ => {},
    }
}

/// Where every pair of a basin reaches a set within `rem`, every pair of the basin in a
/// closed part of `rem` reaches the set within the part.
pub proof fn lemma_basin_restricted(r: Set<(ColoredVertex, ColoredVertex)>, rem: Set<ColoredVertex>, part: Set<ColoredVertex>, basin: Set<ColoredVertex>, inside: Set<ColoredVertex>)
    requires
        closed(r, part),
        basin.subset_of(reach(converse(confined(r, rem)), inside)),
    ensures
        basin.intersect(part).subset_of(reach(converse(confined(r, part)), inside.intersect(part))),
{
    reveal(reach);
    assert forall|x: ColoredVertex| basin.intersect(part).contains(x) implies reach(converse(confined(r, part)), inside.intersect(part)).contains(x) by {
        let f = choose|f: ColoredVertex| inside.contains(f) && #[trigger] connects(converse(confined(r, rem)), f, x);
        lemma_connects_converse(confined(r, rem), x, f);
        let k = choose|k: nat| links(confined(r, rem), x, f, k);
        lemma_path_in_closed(r, rem, part, x, f, k);
        assert(connects(confined(r, part), x, f));
        lemma_connects_converse(confined(r, part), x, f);
        assert(inside.intersect(part).contains(f));
    }
}

/// After a discard, the variables that are kept are those that still have a step within
/// what is left: the others are idle there.
pub proof fn lemma_pruned_idle(graph: SymbolicAsyncGraph, confined_graph: SymbolicAsyncGraph, before: Seq<usize>, after: Seq<usize>, rem: Set<ColoredVertex>, part: Set<ColoredVertex>)
    requires
        idle_outside(graph, before, rem),
        part.subset_of(rem),
        steps(confined_graph) == steps_within(graph, part),
        forall|v: nat| listed(after).contains(v) <==> listed(before).contains(v) && !probe(Probe::CanPostWithin, confined_graph, v, part).is_empty(),
    ensures
        idle_outside(graph, after, part),
{
    assert forall|v: nat| v < variable_count(graph) && !listed(after).contains(v) implies #[trigger] no_steps_within(graph, v, part) by {
        if !listed(before).contains(v) {
            assert(no_steps_within(graph, v, rem));
        } else {
            let answer = probe(Probe::CanPostWithin, confined_graph, v, part);
            assert(answer.is_empty());
            assert forall|a: ColoredVertex, b: ColoredVertex| part.contains(a) && part.contains(b) implies !#[trigger] has_step(graph, v, a, b) by {
                if has_step(graph, v, a, b) {
                    let s = (v, a.0, b.0, a.1);
                    assert((s.1, s.3) == a);
                    assert((s.2, s.3) == b);
                    assert(steps_within(graph, part).contains(s));
                    assert(has_step(confined_graph, v, a, b));
                    assert(var_predecessors(confined_graph, v, part).contains(a));
                    assert(answer.contains(a));
                }
            }
        }
    }
}

/// What a round of backward saturation within `rem` adds to a basin reaches, within `rem`,
/// the set whose basin it is.
pub proof fn lemma_basin_grows(graph: SymbolicAsyncGraph, config: &ReachabilityConfig, rem: Set<ColoredVertex>, basin: Set<ColoredVertex>, inside: Set<ColoredVertex>)
    requires
        steps(config.graph) == steps_within(graph, rem),
        graph_encoding(config.graph) == graph_encoding(graph),
        config.wf(),
        basin.subset_of(reach(converse(confined(all_moves(graph), rem)), inside)),
    ensures
        basin.union(SaturationPredecessors::found(config, basin)).subset_of(reach(converse(confined(all_moves(graph), rem)), inside)),
{
    reveal(reach);
    let n = config.variables@.len();
    let found = SaturationPredecessors::found(config, basin);
    let c = confined(all_moves(graph), rem);
    lemma_last_nonempty_is_answer(Probe::PreOut, config.graph, config.variables@, basin, n);
    if !found.is_empty() {
        let j = choose|j: int| 0 <= j < n && found == #[trigger] probe(Probe::PreOut, config.graph, config.variables@[j] as nat, basin);
        let v = config.variables@[j] as nat;
        assert forall|x: ColoredVertex| found.contains(x) implies reach(converse(c), inside).contains(x) by {
            let y = choose|y: ColoredVertex| basin.contains(y) && #[trigger] has_step(config.graph, v, x, y);
            let s = (v, x.0, y.0, x.1);
            assert(steps_within(graph, rem).contains(s));
            assert((s.1, s.3) == x);
            assert((s.2, s.3) == y);
            assert(has_step(graph, v, x, y));
            assert(all_below(variable_count(graph)).contains(v));
            let p = (x, y);
            assert(has_step(graph, v, p.0, p.1));
            assert(all_moves(graph).contains((x, y)));
            assert(c.contains((x, y)));
            assert(converse(c).contains((y, x)));
            let f = choose|f: ColoredVertex| inside.contains(f) && #[trigger] connects(converse(c), f, y);
            crate::relation::lemma_connects_step(converse(c), y, x);
            lemma_connects_join(converse(c), f, y, x);
        }
    }
}

/// The cost of all tasks of a list.
pub open spec fn total_cost(list: Seq<(usize, Step)>, rem: Set<ColoredVertex>) -> nat
    decreases list.len(),
{
    if list.len() == 0 {
        0
    } else {
        total_cost(list.drop_last(), rem) + list.last().1.cost(rem)
    }
}

/// Every task of the list is in order, and its variable is a variable of the graph.
pub open spec fn all_tasks_wf(list: Seq<(usize, Step)>, graph: SymbolicAsyncGraph, rem: Set<ColoredVertex>) -> bool {
    forall|i: int| 0 <= i < list.len() ==> (#[trigger] list[i]).0 < variable_count(graph) && list[i].1.wf(graph, list[i].0 as nat, rem)
}

pub proof fn lemma_total_remove(list: Seq<(usize, Step)>, i: int, rem: Set<ColoredVertex>)
    requires
        0 <= i < list.len(),
    ensures
        total_cost(list, rem) == total_cost(list.remove(i), rem) + list[i].1.cost(rem),
    decreases list.len(),
{
    if i == list.len() - 1 {
        assert(list.remove(i) =~= list.drop_last());
    } else {
        assert(list.remove(i).drop_last() =~= list.drop_last().remove(i));
        assert(list.remove(i).last() == list.last());
        lemma_total_remove(list.drop_last(), i, rem);
    }
}

pub proof fn lemma_total_insert(list: Seq<(usize, Step)>, i: int, entry: (usize, Step), rem: Set<ColoredVertex>)
    requires
        0 <= i <= list.len(),
    ensures
        total_cost(list.insert(i, entry), rem) == total_cost(list, rem) + entry.1.cost(rem),
{
    assert(list.insert(i, entry).remove(i) =~= list);
    lemma_total_remove(list.insert(i, entry), i, rem);
}

pub proof fn lemma_total_push(list: Seq<(usize, Step)>, entry: (usize, Step), rem: Set<ColoredVertex>)
    ensures
        total_cost(list.push(entry), rem) == total_cost(list, rem) + entry.1.cost(rem),
{
    assert(list.push(entry).drop_last() =~= list);
}

pub proof fn lemma_total_pointwise(a: Seq<(usize, Step)>, rem_a: Set<ColoredVertex>, b: Seq<(usize, Step)>, rem_b: Set<ColoredVertex>)
    requires
        a.len() == b.len(),
        forall|k: int| 0 <= k < a.len() ==> (#[trigger] b[k]).1.cost(rem_b) <= a[k].1.cost(rem_a),
    ensures
        total_cost(b, rem_b) <= total_cost(a, rem_a),
    decreases a.len(),
{
    if a.len() > 0 {
        assert(b.last() == b[b.len() - 1]);
        lemma_total_pointwise(a.drop_last(), rem_a, b.drop_last(), rem_b);
    }
}

/// The steps of a graph that is confined to `u1`, within a part `u2` of `u1`, are the
/// steps of the unrestricted graph within `u2`.
pub proof fn lemma_steps_within_twice(graph: SymbolicAsyncGraph, confined: SymbolicAsyncGraph, u1: Set<ColoredVertex>, u2: Set<ColoredVertex>)
    requires
        steps(confined) == steps_within(graph, u1),
    ensures
        steps_within(confined, u2) == steps_within(graph, u1.intersect(u2)),
{
    assert(steps_within(confined, u2) =~= steps_within(graph, u1.intersect(u2)));
}

/// In a graph confined to `u`, what a round of saturation finds for `s` lies in `u` and
/// outside `s`.
pub proof fn lemma_found_inside(graph: SymbolicAsyncGraph, config: &ReachabilityConfig, u: Set<ColoredVertex>, s: Set<ColoredVertex>, forward: bool)
    requires
        steps(config.graph) == steps_within(graph, u),
    ensures
        forward ==> SaturationSuccessors::found(config, s).subset_of(u) && SaturationSuccessors::found(config, s).disjoint(s),
        !forward ==> SaturationPredecessors::found(config, s).subset_of(u) && SaturationPredecessors::found(config, s).disjoint(s),
{
    let n = config.variables@.len();
    if forward {
        let f = SaturationSuccessors::found(config, s);
        lemma_last_nonempty_is_answer(Probe::PostOut, config.graph, config.variables@, s, n);
        if !f.is_empty() {
            let j = choose|j: int| 0 <= j < n && f == #[trigger] probe(Probe::PostOut, config.graph, config.variables@[j] as nat, s);
            let v = config.variables@[j] as nat;
            assert forall|y: ColoredVertex| f.contains(y) implies u.contains(y) by {
                let x = choose|x: ColoredVertex| s.contains(x) && #[trigger] has_step(config.graph, v, x, y);
                let t = (v, x.0, y.0, x.1);
                assert(steps_within(graph, u).contains(t));
                assert((t.2, t.3) == y);
            }
        }
    } else {
        let f = SaturationPredecessors::found(config, s);
        lemma_last_nonempty_is_answer(Probe::PreOut, config.graph, config.variables@, s, n);
        if !f.is_empty() {
            let j = choose|j: int| 0 <= j < n && f == #[trigger] probe(Probe::PreOut, config.graph, config.variables@[j] as nat, s);
            let v = config.variables@[j] as nat;
            assert forall|x: ColoredVertex| f.contains(x) implies u.contains(x) by {
                let y = choose|y: ColoredVertex| s.contains(y) && #[trigger] has_step(config.graph, v, x, y);
                let t = (v, x.0, y.0, x.1);
                assert(steps_within(graph, u).contains(t));
                assert((t.1, t.3) == x);
            }
        }
    }
}

/// A task that is cut down to a part of what is left stays in order and costs no more.
pub proof fn lemma_task_restricted(graph: SymbolicAsyncGraph, var: nat, before: Step, after: Step, rem: Set<ColoredVertex>, part: Set<ColoredVertex>)
    requires
        before.wf(graph, var, rem),
        fits(rem, graph_encoding(graph)),
        part.subset_of(rem),
        match (before, after) {
            (Step::Forward(x), Step::Forward(y)) => {
                &&& encoding(y.forward) == encoding(x.forward)
                &&& members(y.forward) == members(x.forward).intersect(part)
            },
            (Step::Extended(x), Step::Extended(y)) => {
                &&& encoding(y.forward) == encoding(x.forward)
                &&& encoding(y.extended_component) == encoding(x.extended_component)
                &&& members(y.forward) == members(x.forward).intersect(part)
                &&& members(y.extended_component) == members(x.extended_component).intersect(part)
                &&& y.universe_forward.variables == x.universe_forward.variables
                &&& graph_encoding(y.universe_forward.graph) == graph_encoding(x.universe_forward.graph)
                &&& steps(y.universe_forward.graph) == steps_within(x.universe_forward.graph, part)
            },
            (Step::ForwardBasin(x), Step::ForwardBasin(y)) => {
                &&& encoding(y.forward) == encoding(x.forward)
                &&& encoding(y.basin) == encoding(x.basin)
                &&& members(y.forward) == members(x.forward).intersect(part)
                &&& members(y.basin) == members(x.basin).intersect(part)
            },
            (Step::BottomBasin(x), Step::BottomBasin(y)) => {
                &&& encoding(y.bottom) == encoding(x.bottom)
                &&& encoding(y.basin) == encoding(x.basin)
                &&& members(y.bottom) == members(x.bottom).intersect(part)
                &&& members(y.basin) == members(x.basin).intersect(part)
            },
            _ => false,
        },
    ensures
        after.wf(graph, var, part),
        after.cost(part) <= before.cost(rem),
{
    let e = graph_encoding(graph);
    lemma_fits_finite(rem, e);
    lemma_smaller(part, rem);
    match (before, after) {
        (Step::Forward(x), Step::Forward(y)) => {
            assert(part.difference(members(y.forward)).subset_of(rem.difference(members(x.forward))));
            lemma_smaller(rem.difference(members(x.forward)), rem);
            lemma_smaller(part.difference(members(y.forward)), rem.difference(members(x.forward)));
        },
        (Step::Extended(x), Step::Extended(y)) => {
            let room = members(x.forward).difference(members(x.extended_component));
            let less = members(y.forward).difference(members(y.extended_component));
            assert(less.subset_of(room));
            lemma_smaller(room, rem);
            lemma_smaller(less, room);
            lemma_steps_within_twice(graph, x.universe_forward.graph, members(x.forward), part);
        },
        (Step::ForwardBasin(x), Step::ForwardBasin(y)) => {
            assert(part.difference(members(y.basin)).subset_of(rem.difference(members(x.basin))));
            lemma_smaller(rem.difference(members(x.basin)), rem);
            lemma_smaller(part.difference(members(y.basin)), rem.difference(members(x.basin)));
        },
        (Step::BottomBasin(x), Step::BottomBasin(y)) => {
            assert(part.difference(members(y.basin)).subset_of(rem.difference(members(x.basin))));
            lemma_smaller(rem.difference(members(x.basin)), rem);
            lemma_smaller(part.difference(members(y.basin)), rem.difference(members(x.basin)));
        },
        _ => {},
    }
}

/// Cut all tasks of a list down to what is left after a discard.
pub(crate) fn restrict_all(reductions: &mut Vec<(usize, Step)>, remaining: &GraphColoredVertices, Ghost(graph): Ghost<SymbolicAsyncGraph>, Ghost(rem): Ghost<Set<ColoredVertex>>)
    requires
        all_tasks_wf(old(reductions)@, graph, rem),
        fits(rem, graph_encoding(graph)),
        belongs(*remaining, graph),
        members(*remaining).subset_of(rem),
    ensures
        final(reductions)@.len() == old(reductions)@.len(),
        all_tasks_wf(final(reductions)@, graph, members(*remaining)),
        total_cost(final(reductions)@, members(*remaining)) <= total_cost(old(reductions)@, rem),
        forall|k: int| 0 <= k < final(reductions)@.len() ==> (#[trigger] final(reductions)@[k]).0 == old(reductions)@[k].0,
        forall|k: int| 0 <= k < final(reductions)@.len() ==> Step::cut_to(old(reductions)@[k].1, (#[trigger] final(reductions)@[k]).1, *remaining),
        all_tasks_sound(old(reductions)@, graph, rem) && closed(all_moves(graph), members(*remaining)) ==> all_tasks_sound(final(reductions)@, graph, members(*remaining)),
{
    let ghost part = members(*remaining);
    let ghost firm = all_tasks_sound(old(reductions)@, graph, rem) && closed(all_moves(graph), part);
    let mut i: usize = 0;
    while i < reductions.len()
        invariant
            i <= reductions@.len(),
            reductions@.len() == old(reductions)@.len(),
            all_tasks_wf(old(reductions)@, graph, rem),
            fits(rem, graph_encoding(graph)),
            belongs(*remaining, graph),
            part == members(*remaining),
            part.subset_of(rem),
            forall|k: int| 0 <= k < reductions@.len() ==> (#[trigger] reductions@[k]).0 == old(reductions)@[k].0,
            forall|k: int| i <= k < reductions@.len() ==> #[trigger] reductions@[k] == old(reductions)@[k],
            forall|k: int| 0 <= k < i ==> Step::cut_to(old(reductions)@[k].1, (#[trigger] reductions@[k]).1, *remaining),
            forall|k: int| 0 <= k < i ==> (#[trigger] reductions@[k]).1.wf(graph, reductions@[k].0 as nat, part) && reductions@[k].1.cost(part) <= old(reductions)@[k].1.cost(rem),
            firm == (all_tasks_sound(old(reductions)@, graph, rem) && closed(all_moves(graph), part)),
            firm ==> forall|k: int| 0 <= k < i ==> (#[trigger] reductions@[k]).1.sound(graph, part),
        decreases reductions.len() - i,
    {
        let ghost before = reductions@[i as int];
        assert(old(reductions)@[i as int].1.wf(graph, before.0 as nat, rem));
        let entry = &mut reductions[i];
        entry.1.restrict_to(remaining);
        proof {
            lemma_task_restricted(graph, before.0 as nat, before.1, reductions@[i as int].1, rem, part);
            if firm {
                assert(old(reductions)@[i as int].1.sound(graph, rem));
                lemma_task_sound_restricted(graph, before.1, reductions@[i as int].1, rem, part);
            }
        }
        i += 1;
    }
    proof {
        lemma_total_pointwise(old(reductions)@, rem, reductions@, part);
    }
}

/// The variables of a list that can still change within `remaining`, in the order of the
/// list.
pub fn prune_variables(graph: &SymbolicAsyncGraph, variables: &Vec<usize>, remaining: &GraphColoredVertices) -> (r: Vec<usize>)
    requires
        ordered_below(variables@, variable_count(*graph)),
        belongs(*remaining, *graph),
    ensures
        ordered_below(r@, variable_count(*graph)),
        forall|v: nat| listed(r@).contains(v) <==> listed(variables@).contains(v) && !probe(Probe::CanPostWithin, *graph, v, members(*remaining)).is_empty(),
{
    let mut kept: Vec<usize> = Vec::new();
    let mut i: usize = 0;
    while i < variables.len()
        invariant
            i <= variables@.len(),
            ordered_below(variables@, variable_count(*graph)),
            belongs(*remaining, *graph),
            ordered_below(kept@, variable_count(*graph)),
            forall|k: int| 0 <= k < kept@.len() && i < variables@.len() ==> #[trigger] kept@[k] < variables@[i as int],
            forall|v: nat| listed(kept@).contains(v) <==> listed(variables@.subrange(0, i as int)).contains(v) && !probe(Probe::CanPostWithin, *graph, v, members(*remaining)).is_empty(),
        decreases variables.len() - i,
    {
        let var = variables[i];
        let can_post = var_can_post_within(graph, var, remaining);
        let ghost before = kept@;
        let ghost seen = variables@.subrange(0, i as int);
        let ghost next = variables@.subrange(0, i + 1);
        if !is_empty(&can_post) {
            kept.push(var);
        }
        proof {
            assert(next =~= seen.push(var));
            assert forall|k: int| 0 <= k < kept@.len() && i + 1 < variables@.len() implies #[trigger] kept@[k] < variables@[i + 1] by {
                if k < before.len() {
                    assert(before[k] < variables@[i as int]);
                }
            }
            assert forall|v: nat| listed(kept@).contains(v) <==> listed(next).contains(v) && !probe(Probe::CanPostWithin, *graph, v, members(*remaining)).is_empty() by {
                if listed(kept@).contains(v) {
                    let k = choose|k: int| 0 <= k < kept@.len() && #[trigger] kept@[k] == v;
                    if k < before.len() {
                        assert(before[k] == v);
                        assert(listed(before).contains(v));
                        assert(listed(seen).contains(v));
                        let m = choose|m: int| 0 <= m < seen.len() && #[trigger] seen[m] == v;
                        assert(next[m] == v);
                    } else {
                        assert(v == var);
                        assert(members(can_post) == probe(Probe::CanPostWithin, *graph, var as nat, members(*remaining)));
                        assert(next[i as int] == v);
                    }
                }
                if listed(next).contains(v) && !probe(Probe::CanPostWithin, *graph, v, members(*remaining)).is_empty() {
                    let m = choose|m: int| 0 <= m < next.len() && #[trigger] next[m] == v;
                    if m < i {
                        assert(seen[m] == v);
                        assert(listed(seen).contains(v));
                        assert(listed(before).contains(v));
                        let k = choose|k: int| 0 <= k < before.len() && #[trigger] before[k] == v;
                        assert(kept@[k] == v);
                    } else {
                        assert(v == var);
                        assert(members(can_post) == probe(Probe::CanPostWithin, *graph, var as nat, members(*remaining)));
                        assert(kept@[kept@.len() - 1] == v);
                    }
                }
            }
        }
        i += 1;
    }
    assert(variables@.subrange(0, i as int) =~= variables@);
    kept
}

/// The weight of an entry of the task list.
pub open spec fn weight_of(entry: (usize, Step)) -> nat {
    node_count(entry.1.growing())
}

/// The list is ordered by weight, the heaviest first.
pub open spec fn heaviest_first(list: Seq<(usize, Step)>) -> bool {
    forall|i: int, j: int| 0 <= i < j < list.len() ==> weight_of(#[trigger] list[i]) >= weight_of(#[trigger] list[j])
}

/// The tasks of the list that weigh `w`, in their order.
pub open spec fn of_weight(list: Seq<(usize, Step)>, w: nat) -> Seq<(usize, Step)>
    decreases list.len(),
{
    if list.len() == 0 {
        Seq::empty()
    } else if weight_of(list.last()) == w {
        of_weight(list.drop_last(), w).push(list.last())
    } else {
        of_weight(list.drop_last(), w)
    }
}

/// The tasks of a given weight in two lists put together are those of the first list, then
/// those of the second.
pub proof fn lemma_of_weight_add(a: Seq<(usize, Step)>, b: Seq<(usize, Step)>, w: nat)
    ensures
        of_weight(a + b, w) == of_weight(a, w) + of_weight(b, w),
    decreases b.len(),
{
    if b.len() == 0 {
        assert(a + b =~= a);
        assert(of_weight(a, w) + of_weight(b, w) =~= of_weight(a, w));
    } else {
        lemma_of_weight_add(a, b.drop_last(), w);
        assert((a + b).drop_last() =~= a + b.drop_last());
        assert((a + b).last() == b.last());
        if weight_of(b.last()) == w {
            assert((of_weight(a, w) + of_weight(b.drop_last(), w)).push(b.last()) =~= of_weight(a, w) + of_weight(b.drop_last(), w).push(b.last()));
        }
    }
}

/// A list without a task of a given weight has none of that weight.
pub proof fn lemma_of_weight_none(a: Seq<(usize, Step)>, w: nat)
    requires
        forall|k: int| 0 <= k < a.len() ==> weight_of(#[trigger] a[k]) != w,
    ensures
        of_weight(a, w) == Seq::<(usize, Step)>::empty(),
    decreases a.len(),
{
    if a.len() > 0 {
        assert(weight_of(a[a.len() - 1]) != w);
        assert forall|k: int| 0 <= k < a.drop_last().len() implies weight_of(#[trigger] a.drop_last()[k]) != w by {
            assert(a.drop_last()[k] == a[k]);
        }
        lemma_of_weight_none(a.drop_last(), w);
    }
}

/// To move a task up in the list, past tasks that all weigh less, leaves the tasks of every
/// weight in their order.
pub proof fn lemma_of_weight_moved(before: Seq<(usize, Step)>, i: int, j: int, w: nat)
    requires
        0 <= j <= i < before.len(),
        forall|m: int| j <= m < i ==> weight_of(#[trigger] before[m]) < weight_of(before[i]),
    ensures
        of_weight(before.remove(i).insert(j, before[i]), w) == of_weight(before, w),
{
    let e = before[i];
    let head = before.subrange(0, j);
    let passed = before.subrange(j, i);
    let tail = before.subrange(i + 1, before.len() as int);
    let one = seq![e];
    assert(before =~= head + passed + one + tail);
    assert(before.remove(i).insert(j, e) =~= head + one + passed + tail);
    lemma_of_weight_add(head + passed + one, tail, w);
    lemma_of_weight_add(head + passed, one, w);
    lemma_of_weight_add(head, passed, w);
    lemma_of_weight_add(head + one + passed, tail, w);
    lemma_of_weight_add(head + one, passed, w);
    lemma_of_weight_add(head, one, w);
    if weight_of(e) == w {
        assert forall|k: int| 0 <= k < passed.len() implies weight_of(#[trigger] passed[k]) != w by {
            assert(passed[k] == before[j + k]);
        }
        lemma_of_weight_none(passed, w);
        assert(of_weight(head, w) + of_weight(passed, w) + of_weight(one, w) =~= of_weight(head, w) + of_weight(one, w) + of_weight(passed, w));
    } else {
        assert forall|k: int| 0 <= k < one.len() implies weight_of(#[trigger] one[k]) != w by {
            assert(one[k] == e);
        }
        lemma_of_weight_none(one, w);
        assert(of_weight(head, w) + of_weight(passed, w) + of_weight(one, w) =~= of_weight(head, w) + of_weight(one, w) + of_weight(passed, w));
    }
}

/// Order the tasks by weight, the heaviest first. Tasks of equal weight keep their order.
pub fn sort_by_weight(reductions: &mut Vec<(usize, Step)>)
    ensures
        forall|w: nat| #[trigger] of_weight(final(reductions)@, w) == of_weight(old(reductions)@, w),
        final(reductions)@.to_multiset() == old(reductions)@.to_multiset(),
        final(reductions)@.len() == old(reductions)@.len(),
        heaviest_first(final(reductions)@),
        forall|k: int| 0 <= k < final(reductions)@.len() ==> old(reductions)@.contains(#[trigger] final(reductions)@[k]),
        forall|rem: Set<ColoredVertex>| #[trigger] total_cost(final(reductions)@, rem) == total_cost(old(reductions)@, rem),
{
    let mut weights: Vec<usize> = Vec::new();
    let mut k: usize = 0;
    while k < reductions.len()
        invariant
            k <= reductions@.len(),
            reductions@ == old(reductions)@,
            weights@.len() == k,
            forall|m: int| 0 <= m < k ==> #[trigger] weights@[m] == weight_of(reductions@[m]),
        decreases reductions.len() - k,
    {
        weights.push(reductions[k].1.weight());
        k += 1;
    }
    let mut i: usize = 1;
    while i < reductions.len()
        invariant
            1 <= i,
            weights@.len() == reductions@.len(),
            reductions@.len() == old(reductions)@.len(),
            forall|m: int| 0 <= m < weights@.len() ==> #[trigger] weights@[m] == weight_of(reductions@[m]),
            forall|a: int, b: int| 0 <= a < b < i && b < weights@.len() ==> #[trigger] weights@[a] >= #[trigger] weights@[b],
            reductions@.to_multiset() == old(reductions)@.to_multiset(),
            forall|w: nat| #[trigger] of_weight(reductions@, w) == of_weight(old(reductions)@, w),
            forall|rem: Set<ColoredVertex>| #[trigger] total_cost(reductions@, rem) == total_cost(old(reductions)@, rem),
        decreases reductions.len() - i,
    {
        let ghost before = reductions@;
        let ghost before_weights = weights@;
        let weight = weights.remove(i);
        let entry = reductions.remove(i);
        let mut j: usize = i;
        while j > 0 && weights[j - 1] < weight
            invariant
                j <= i,
                i <= weights@.len(),
                weights@ == before_weights.remove(i as int),
                forall|m: int| j <= m < i ==> #[trigger] weights@[m] < weight,
            decreases j,
        {
            j -= 1;
        }
        weights.insert(j, weight);
        reductions.insert(j, entry);
        proof {
            assert forall|w: nat| #[trigger] of_weight(reductions@, w) == of_weight(old(reductions)@, w) by {
                assert forall|m: int| j <= m < i implies weight_of(#[trigger] before[m]) < weight_of(before[i as int]) by {
                    assert(before_weights.remove(i as int)[m] == before_weights[m]);
                }
                lemma_of_weight_moved(before, i as int, j as int, w);
            }
        }
        proof {
            broadcast use group_to_multiset_ensures;
            vstd::seq_lib::to_multiset_insert(before.remove(i as int), j as int, entry);
            assert(before.to_multiset().remove(entry).insert(entry) =~= before.to_multiset());
            assert forall|rem: Set<ColoredVertex>| #[trigger] total_cost(reductions@, rem) == total_cost(old(reductions)@, rem) by {
                lemma_total_remove(before, i as int, rem);
                lemma_total_insert(before.remove(i as int), j as int, entry, rem);
            }
            assert forall|m: int| 0 <= m < weights@.len() implies #[trigger] weights@[m] == weight_of(reductions@[m]) by {
                if m < j {
                    assert(weights@[m] == before_weights[m]);
                    assert(reductions@[m] == before[m]);
                } else if m == j {
                } else if m <= i {
                    assert(weights@[m] == before_weights[m - 1]);
                    assert(reductions@[m] == before[m - 1]);
                } else {
                    assert(weights@[m] == before_weights[m]);
                    assert(reductions@[m] == before[m]);
                }
            }
            assert forall|a: int, b: int| 0 <= a < b < i + 1 && b < weights@.len() implies #[trigger] weights@[a] >= #[trigger] weights@[b] by {
                let removed = before_weights.remove(i as int);
                if b < j {
                    assert(weights@[a] == before_weights[a] && weights@[b] == before_weights[b]);
                } else if b == j {
                    assert(weights@[a] == before_weights[a]);
                    if j > 0 {
                        assert(removed[j - 1] >= weight);
                        assert(before_weights[a] >= before_weights[j - 1]);
                    }
                } else if a < j {
                    assert(weights@[a] == before_weights[a] && weights@[b] == before_weights[b - 1]);
                } else if a == j {
                    assert(weights@[b] == removed[b - 1]);
                } else {
                    assert(weights@[a] == before_weights[a - 1] && weights@[b] == before_weights[b - 1]);
                }
            }
        }
        i += 1;
    }
    proof {
        broadcast use group_to_multiset_ensures;
        assert forall|k: int| 0 <= k < reductions@.len() implies old(reductions)@.contains(#[trigger] reductions@[k]) by {
            assert(reductions@.contains(reductions@[k]));
            assert(reductions@.to_multiset().count(reductions@[k]) > 0);
        }
        assert(heaviest_first(reductions@)) by {
            assert forall|a: int, b: int| 0 <= a < b < reductions@.len() implies weight_of(#[trigger] reductions@[a]) >= weight_of(#[trigger] reductions@[b]) by {
                assert(weights@[a] >= weights@[b]);
            }
        }
    }
}

impl ItgrState {
    /// The state is in order with respect to the graph of the search: what is left belongs
    /// to the graph, the reachability configuration is confined to what is left, and the
    /// tasks are in order.
    pub open spec fn wf(&self, graph: SymbolicAsyncGraph) -> bool {
        &&& belongs(self.remaining_set, graph)
        &&& self.remaining_reachability.wf()
        &&& graph_encoding(self.remaining_reachability.graph) == graph_encoding(graph)
        &&& steps(self.remaining_reachability.graph) == steps_within(graph, members(self.remaining_set))
        &&& (self.to_discard matches Some(d) ==> belongs(d, graph))
        &&& all_tasks_wf(self.reductions@, graph, members(self.remaining_set))
    }

    /// The state stands on firm ground: no step of the graph leaves what is left; the
    /// variables that are no longer active have no step within it; what is marked to be
    /// discarded can go; and every task stands on firm ground.
    pub open spec fn sound(&self, graph: SymbolicAsyncGraph) -> bool {
        &&& closed(all_moves(graph), members(self.remaining_set))
        &&& idle_outside(graph, self.remaining_reachability.variables@, members(self.remaining_set))
        &&& discard_ok(graph, members(self.remaining_set), self.to_discard)
        &&& all_tasks_sound(self.reductions@, graph, members(self.remaining_set))
    }

    /// The cost of the tasks that are left.
    pub open spec fn cost(&self) -> nat {
        total_cost(self.reductions@, members(self.remaining_set))
    }

    /// The state at the start of the reduction of `universe`: for every variable of the
    /// graph, the task to compute the forward set of the pairs from which it can change.
    pub fn new(graph: &SymbolicAsyncGraph, universe: &GraphColoredVertices) -> (r: Self)
        requires
            belongs(*universe, *graph),
        ensures
            r.wf(*graph),
            r.remaining_set == *universe,
            r.to_discard is None,
            r.reductions@.len() == variable_count(*graph),
            forall|v: int| 0 <= v < r.reductions@.len() ==> (#[trigger] r.reductions@[v]).0 == v && r.reductions@[v].1 is Forward && members(r.reductions@[v].1->Forward_0.forward) == can_post(*graph, v as nat, members(*universe)),
            r.remaining_reachability.variables@ == Seq::new(variable_count(*graph), |i: int| i as usize),
            closed(all_moves(*graph), members(*universe)) ==> r.sound(*graph),
    {
        let restricted = restrict(graph, universe);
        let remaining_reachability = ReachabilityConfig::new(restricted);
        let count = num_vars(graph);
        proof {
            lemma_listed_all(variable_count(*graph));
        }
        let mut reductions: Vec<(usize, Step)> = Vec::new();
        let mut var: usize = 0;
        while var < count
            invariant
                var <= count,
                count == variable_count(*graph),
                belongs(*universe, *graph),
                reductions@.len() == var,
                all_tasks_wf(reductions@, *graph, members(*universe)),
                forall|v: int| 0 <= v < reductions@.len() ==> (#[trigger] reductions@[v]).0 == v && reductions@[v].1 is Forward && members(reductions@[v].1->Forward_0.forward) == can_post(*graph, v as nat, members(*universe)),
            decreases count - var,
        {
            let forward = var_can_post(graph, var, universe);
            assert(members(forward).subset_of(members(*universe)));
            reductions.push((var, Step::Forward(StepForward { forward })));
            var += 1;
        }
        ItgrState { remaining_set: clone_set(universe), remaining_reachability, to_discard: None, reductions }
    }

    /// The configuration of the attractor search that the reduction leads to: the graph of
    /// the search restricted to what is left, with the variables that are still active.
    /// Where the state stands on firm ground, the search then follows exactly the steps of
    /// the graph within what is left.
    pub fn reduced_config(&self, context: &AttractorConfig) -> (r: AttractorConfig)
        requires
            context.wf(),
            self.wf(context.graph),
        ensures
            r.wf(),
            graph_encoding(r.graph) == graph_encoding(context.graph),
            steps(r.graph) == steps_within(context.graph, members(self.remaining_set)),
            crate::symbolic::unit_members(r.graph) == members(self.remaining_set),
            listed(r.active_variables@) == listed(self.remaining_reachability.variables@),
            r.max_symbolic_size == context.max_symbolic_size,
            self.sound(context.graph) ==> r.moves() == confined(all_moves(context.graph), members(self.remaining_set)),
    {
        let confined_to_rest = context.clone().restrict_state_space(&self.remaining_set);
        let active = self.active_variables();
        let r = confined_to_rest.restrict_variables(active.as_slice());
        proof {
            if self.sound(context.graph) {
                crate::laws::law_reduced_configuration(context, self, &r);
            }
        }
        r
    }

    /// The variables that can still change in what is left.
    pub fn active_variables(&self) -> (r: Vec<usize>)
        ensures
            r@ == self.remaining_reachability.variables@,
    {
        clone_variables(&self.remaining_reachability.variables)
    }
}

/// No step of the graph leaves a set exactly if, for no variable, a pair of the set has a
/// successor outside it.
pub proof fn lemma_closed_by_probes(graph: SymbolicAsyncGraph, s: Set<ColoredVertex>)
    ensures
        closed(all_moves(graph), s) <==> (forall|v: nat| v < variable_count(graph) ==> (#[trigger] probe(Probe::CanPostOut, graph, v, s)).is_empty()),
{
    let r = all_moves(graph);
    if forall|v: nat| v < variable_count(graph) ==> (#[trigger] probe(Probe::CanPostOut, graph, v, s)).is_empty() {
        assert forall|a: ColoredVertex, b: ColoredVertex| s.contains(a) && #[trigger] r.contains((a, b)) implies s.contains(b) by {
            let v = choose|v: nat| crate::reachability::reachability_config::all_below(variable_count(graph)).contains(v) && #[trigger] crate::symbolic::has_step(graph, v, a, b);
            if !s.contains(b) {
                assert(s.complement().contains(b));
                assert(var_predecessors(graph, v, s.complement()).contains(a));
                assert(probe(Probe::CanPostOut, graph, v, s).contains(a));
            }
        }
    }
    if closed(r, s) {
        assert forall|v: nat| v < variable_count(graph) implies (#[trigger] probe(Probe::CanPostOut, graph, v, s)).is_empty() by {
            let answer = probe(Probe::CanPostOut, graph, v, s);
            assert forall|a: ColoredVertex| !answer.contains(a) by {
                if answer.contains(a) {
                    let b = choose|b: ColoredVertex| s.complement().contains(b) && #[trigger] crate::symbolic::has_step(graph, v, a, b);
                    assert(crate::reachability::reachability_config::all_below(variable_count(graph)).contains(v));
                    let p = (a, b);
                    assert(crate::symbolic::has_step(graph, v, p.0, p.1));
                    assert(r.contains(p));
                }
            }
            assert(answer =~= Set::empty());
        }
    }
}

/// Whether no step of the graph leaves the set.
pub fn is_forward_closed(graph: &SymbolicAsyncGraph, set: &GraphColoredVertices) -> (r: bool)
    requires
        belongs(*set, *graph),
    ensures
        r == (forall|v: nat| v < variable_count(*graph) ==> (#[trigger] probe(Probe::CanPostOut, *graph, v, members(*set))).is_empty()),
        r == closed(all_moves(*graph), members(*set)),
{
    proof {
        lemma_closed_by_probes(*graph, members(*set));
    }
    let count = num_vars(graph);
    let mut var: usize = 0;
    while var < count
        invariant
            var <= count,
            count == variable_count(*graph),
            belongs(*set, *graph),
            forall|v: nat| v < var ==> (#[trigger] probe(Probe::CanPostOut, *graph, v, members(*set))).is_empty(),
        decreases count - var,
    {
        let post = crate::symbolic::var_can_post_out(graph, var, set);
        if !is_empty(&post) {
            assert(!probe(Probe::CanPostOut, *graph, var as nat, members(*set)).is_empty());
            proof {
                lemma_closed_by_probes(*graph, members(*set));
            }
            return false;
        }
        var += 1;
    }
    proof {
        lemma_closed_by_probes(*graph, members(*set));
    }
    true
}

impl ItgrStep {
    /// What the discard makes of the state. With nothing marked, the state stays as it is.
    /// Else what is marked is taken away from what is left; the reachability configuration
    /// is confined to the rest and keeps, of its variables, exactly those that can still
    /// change within the rest; every task is cut down to the rest; and nothing is marked
    /// any more.
    pub open spec fn discard_applied(context: &AttractorConfig, before: &ItgrState, after: &ItgrState) -> bool {
        match before.to_discard {
            None => *after == *before,
            Some(d) => {
                let rest = members(before.remaining_set).difference(members(d));
                &&& after.to_discard is None
                &&& belongs(after.remaining_set, context.graph)
                &&& members(after.remaining_set) == rest
                &&& graph_encoding(after.remaining_reachability.graph) == graph_encoding(context.graph)
                &&& steps(after.remaining_reachability.graph) == steps_within(context.graph, rest)
                &&& after.remaining_reachability.max_iterations == before.remaining_reachability.max_iterations
                &&& after.remaining_reachability.max_symbolic_size == before.remaining_reachability.max_symbolic_size
                &&& ordered_below(after.remaining_reachability.variables@, variable_count(context.graph))
                &&& forall|v: nat| listed(after.remaining_reachability.variables@).contains(v) <==> listed(before.remaining_reachability.variables@).contains(v) && !probe(Probe::CanPostWithin, after.remaining_reachability.graph, v, rest).is_empty()
                &&& after.reductions@.len() == before.reductions@.len()
                &&& forall|k: int| 0 <= k < after.reductions@.len() ==> (#[trigger] after.reductions@[k]).0 == before.reductions@[k].0 && Step::cut_to(before.reductions@[k].1, after.reductions@[k].1, after.remaining_set)
            },
        }
    }

    /// Remove what is marked to be discarded from what is left, confine the reachability
    /// configuration to the rest, drop the variables that cannot change there any more,
    /// and cut all tasks down to it.
    pub fn apply_discard(context: &AttractorConfig, state: &mut ItgrState)
        requires
            old(state).wf(context.graph),
        ensures
            final(state).wf(context.graph),
            Self::discard_applied(context, old(state), final(state)),
            final(state).to_discard is None,
            members(final(state).remaining_set) == match old(state).to_discard {
                Some(d) => members(old(state).remaining_set).difference(members(d)),
                None => members(old(state).remaining_set),
            },
            final(state).reductions@.len() == old(state).reductions@.len(),
            final(state).cost() <= old(state).cost(),
            old(state).to_discard is None ==> *final(state) == *old(state),
            listed(final(state).remaining_reachability.variables@).subset_of(listed(old(state).remaining_reachability.variables@)),
            old(state).sound(context.graph) ==> final(state).sound(context.graph) && forall|x: ColoredVertex| members(old(state).remaining_set).contains(x) && #[trigger] recurrent(all_moves(context.graph), x) ==> members(final(state).remaining_set).contains(x),
    {
        let mut pending: Option<GraphColoredVertices> = None;
        core::mem::swap(&mut pending, &mut state.to_discard);
        if let Some(to_discard) = pending {
            let ghost rem = members(state.remaining_set);
            let ghost confined_graph = state.remaining_reachability.graph;
            let ghost variables = state.remaining_reachability.variables@;
            state.remaining_set = minus(&state.remaining_set, &to_discard);
            state.remaining_reachability.graph = restrict(&state.remaining_reachability.graph, &state.remaining_set);
            proof {
                lemma_steps_within_twice(context.graph, confined_graph, rem, members(state.remaining_set));
                assert(rem.intersect(members(state.remaining_set)) =~= members(state.remaining_set));
            }
            // A variable that cannot change within what is left is of no use any more.
            state.remaining_reachability.variables = prune_variables(&state.remaining_reachability.graph, &state.remaining_reachability.variables, &state.remaining_set);
            restrict_all(&mut state.reductions, &state.remaining_set, Ghost(context.graph), Ghost(rem));
            proof {
                if old(state).sound(context.graph) {
                    lemma_pruned_idle(context.graph, state.remaining_reachability.graph, variables, state.remaining_reachability.variables@, rem, members(state.remaining_set));
                }
            }
        }
    }

    /// The list `after` is the list `before` put in order for the next step: as it is, if a
    /// basin task is its last; else ordered by weight, the heaviest first, with the tasks
    /// of every weight in the order they had.
    pub open spec fn scheduled(before: Seq<(usize, Step)>, after: Seq<(usize, Step)>) -> bool {
        if before.len() > 0 && before.last().1.is_basin() {
            after == before
        } else {
            &&& after.len() == before.len()
            &&& heaviest_first(after)
            &&& forall|w: nat| #[trigger] of_weight(after, w) == of_weight(before, w)
        }
    }

    /// What a step makes of the task it works on, `before` being the state without the
    /// task: see the outcome of each kind of task.
    pub open spec fn task_done(context: &AttractorConfig, before: &ItgrState, after: &ItgrState, var: usize, task: Step, r: &Completable<()>) -> bool {
        match task {
            Step::Forward(x) => Self::forward_outcome(context, before, after, var, x, r),
            Step::Extended(x) => Self::extended_outcome(before, after, var, x, r),
            Step::ForwardBasin(x) => Self::basin_outcome(before, after, var, Step::ForwardBasin(x), members(x.forward), r),
            Step::BottomBasin(x) => Self::basin_outcome(before, after, var, Step::BottomBasin(x), members(x.bottom), r),
        }
    }

    /// One step of the reduction takes `before` to `after` with the answer `r`. What is
    /// marked is discarded, which gives the state `cleared`; its tasks are put in order,
    /// which gives `ordered`. With no task the step is the last and leaves `ordered`. Else
    /// the last task is taken from the list, which gives `taken`, and is worked on; what
    /// is left and its reachability configuration stay as they are in `taken`.
    pub open spec fn stepped_through(context: &AttractorConfig, before: &ItgrState, cleared: &ItgrState, ordered: &ItgrState, taken: &ItgrState, after: &ItgrState, r: &Completable<()>) -> bool {
        &&& Self::discard_applied(context, before, cleared)
        &&& ordered.remaining_set == cleared.remaining_set
        &&& ordered.remaining_reachability == cleared.remaining_reachability
        &&& ordered.to_discard is None
        &&& Self::scheduled(cleared.reductions@, ordered.reductions@)
        &&& if ordered.reductions@.len() == 0 {
            &&& *r is Ok
            &&& after.remaining_set == ordered.remaining_set
            &&& after.remaining_reachability == ordered.remaining_reachability
            &&& after.to_discard is None
            &&& after.reductions@ == ordered.reductions@
        } else {
            &&& taken.remaining_set == ordered.remaining_set
            &&& taken.remaining_reachability == ordered.remaining_reachability
            &&& taken.to_discard is None
            &&& taken.reductions@ == ordered.reductions@.drop_last()
            &&& after.remaining_set == taken.remaining_set
            &&& after.remaining_reachability == taken.remaining_reachability
            &&& Self::task_done(context, taken, after, ordered.reductions@.last().0, ordered.reductions@.last().1, r)
        }
    }

    /// One step of the reduction takes `before` to `after` with the answer `r`.
    pub open spec fn took_step(context: &AttractorConfig, before: &ItgrState, after: &ItgrState, r: &Completable<()>) -> bool {
        exists|cleared: ItgrState, ordered: ItgrState, taken: ItgrState| Self::stepped_through(context, before, &cleared, &ordered, &taken, after, r)
    }

    /// Unless a basin task is the last of the list, order the tasks by weight, the
    /// heaviest first: basin tasks are worked on at once, of the others the lightest.
    pub fn schedule(reductions: &mut Vec<(usize, Step)>)
        ensures
            Self::scheduled(old(reductions)@, final(reductions)@),
            forall|w: nat| #[trigger] of_weight(final(reductions)@, w) == of_weight(old(reductions)@, w),
            final(reductions)@.to_multiset() == old(reductions)@.to_multiset(),
            final(reductions)@.len() == old(reductions)@.len(),
            old(reductions)@.len() > 0 && old(reductions)@.last().1.is_basin() ==> final(reductions)@ == old(reductions)@,
            !(old(reductions)@.len() > 0 && old(reductions)@.last().1.is_basin()) ==> heaviest_first(final(reductions)@),
            forall|k: int| 0 <= k < final(reductions)@.len() ==> old(reductions)@.contains(#[trigger] final(reductions)@[k]),
            forall|rem: Set<ColoredVertex>| #[trigger] total_cost(final(reductions)@, rem) == total_cost(old(reductions)@, rem),
    {
        let len = reductions.len();
        let last_is_basin = if len > 0 {
            reductions[len - 1].1.takes_priority()
        } else {
            false
        };
        if !last_is_basin {
            sort_by_weight(reductions);
        } else {
            assert forall|k: int| 0 <= k < reductions@.len() implies old(reductions)@.contains(#[trigger] reductions@[k]) by {
                assert(old(reductions)@[k] == reductions@[k]);
            }
        }
    }

    /// What a step on a task achieves: the state stays in order, what is left stays as it
    /// is, the step is never the last, and unless it is cancelled the cost is less than
    /// `before`, the cost with the task as it was.
    pub open spec fn worked(context: &AttractorConfig, old_state: &ItgrState, new_state: &ItgrState, r: &Completable<()>, before: nat) -> bool {
        &&& new_state.wf(context.graph)
        &&& new_state.remaining_set == old_state.remaining_set
        &&& new_state.remaining_reachability == old_state.remaining_reachability
        &&& r is Err
        &&& (r matches Err(Incomplete::Working) ==> new_state.cost() < before)
    }

    /// The reachability configuration of the state is that of the graph of the search,
    /// confined to what is left.
    pub proof fn lemma_confined_moves(context: &AttractorConfig, state: &ItgrState)
        requires
            state.wf(context.graph),
        ensures
            state.remaining_reachability.moves() == confined(moves(context.graph, listed(state.remaining_reachability.variables@)), members(state.remaining_set)),
    {
        lemma_moves_of_restricted(context.graph, state.remaining_reachability.graph, listed(state.remaining_reachability.variables@), members(state.remaining_set));
    }

    /// `after` is `list` with `count` more tasks on top, all of them for variable `var`.
    pub open spec fn on_top(list: Seq<(usize, Step)>, after: Seq<(usize, Step)>, var: usize, count: nat) -> bool {
        &&& after.len() == list.len() + count
        &&& after.subrange(0, list.len() as int) == list
        &&& forall|k: int| list.len() <= k < after.len() ==> (#[trigger] after[k]).0 == var
    }

    /// What a step on the forward set `x` of variable `var` makes of the task list, for each
    /// outcome `r`. Cancelled: the task goes back as it was. Else, where the round of
    /// saturation finds something, the task goes back with what was found added to the
    /// forward set; where it finds nothing, the task of the extended component goes on the
    /// list, which starts from the pairs of what is left from which the variable can change,
    /// and above it, unless the forward set is all that is left, the task of the basin,
    /// which starts from the forward set.
    pub open spec fn forward_outcome(context: &AttractorConfig, before: &ItgrState, after: &ItgrState, var: usize, x: StepForward, r: &Completable<()>) -> bool {
        let rr = before.remaining_reachability;
        let rem = members(before.remaining_set);
        let f = members(x.forward);
        let found = SaturationSuccessors::found(&rr, f);
        let list = before.reductions@;
        let top = list.len() as int;
        match *r {
            Ok(_) => false,
            Err(Incomplete::Cancelled(_)) => after.reductions@ == list.push((var, Step::Forward(x))),
            Err(Incomplete::Working) => if !found.is_empty() {
                &&& Self::on_top(list, after.reductions@, var, 1)
                &&& after.reductions@[top].1 matches Step::Forward(y) && members(y.forward) == f.union(found)
            } else {
                &&& Self::on_top(list, after.reductions@, var, if rem.subset_of(f) { 1 } else { 2 })
                &&& after.reductions@[top].1 matches Step::Extended(y) && {
                    &&& y.forward == x.forward
                    &&& members(y.extended_component) == can_post(context.graph, var as nat, rem)
                    &&& y.universe_forward.variables@ == rr.variables@
                    &&& y.universe_forward.max_iterations == rr.max_iterations
                    &&& y.universe_forward.max_symbolic_size == rr.max_symbolic_size
                    &&& steps(y.universe_forward.graph) == steps_within(context.graph, f)
                }
                &&& !rem.subset_of(f) ==> after.reductions@[top + 1].1 == Step::ForwardBasin(StepForwardBasin { forward: x.forward, basin: x.forward })
            },
        }
    }

    /// What a step on the extended component `x` of variable `var` makes of the task list,
    /// for each outcome `r`. Cancelled: the task goes back as it was. Else, where the round
    /// of backward saturation within the forward set finds something, the task goes back
    /// with what was found added to the component; where it finds nothing, the task ends,
    /// and if the forward set has pairs outside the component, the task of the basin of
    /// that bottom goes on the list.
    pub open spec fn extended_outcome(before: &ItgrState, after: &ItgrState, var: usize, x: StepExtendedComponent, r: &Completable<()>) -> bool {
        let f = members(x.forward);
        let ec = members(x.extended_component);
        let found = SaturationPredecessors::found(&x.universe_forward, ec);
        let list = before.reductions@;
        let top = list.len() as int;
        match *r {
            Ok(_) => false,
            Err(Incomplete::Cancelled(_)) => after.reductions@ == list.push((var, Step::Extended(x))),
            Err(Incomplete::Working) => if !found.is_empty() {
                &&& Self::on_top(list, after.reductions@, var, 1)
                &&& after.reductions@[top].1 matches Step::Extended(y) && {
                    &&& y.forward == x.forward
                    &&& y.universe_forward == x.universe_forward
                    &&& members(y.extended_component) == ec.union(found)
                }
            } else if f.subset_of(ec) {
                after.reductions@ == list
            } else {
                &&& Self::on_top(list, after.reductions@, var, 1)
                &&& after.reductions@[top].1 matches Step::BottomBasin(y) && y.bottom == y.basin && members(y.bottom) == f.difference(ec)
            },
        }
    }

    /// What a step on a basin of variable `var` makes of the state, for each outcome `r`:
    /// `task` is the task as it was, `inside` the set whose basin it is, `grown` the basin
    /// of the task that went back. Cancelled: the task goes back as it was. Else, where the
    /// round of backward saturation within what is left finds something, the task goes
    /// back with what was found added to the basin; where it finds nothing, the task ends,
    /// and what the basin holds outside `inside` is marked to be discarded, if there is any.
    pub open spec fn basin_outcome(before: &ItgrState, after: &ItgrState, var: usize, task: Step, inside: Set<ColoredVertex>, r: &Completable<()>) -> bool {
        let rr = before.remaining_reachability;
        let b = members(task.growing());
        let found = SaturationPredecessors::found(&rr, b);
        let list = before.reductions@;
        let top = list.len() as int;
        match *r {
            Ok(_) => false,
            Err(Incomplete::Cancelled(_)) => after.reductions@ == list.push((var, task)) && after.to_discard is None,
            Err(Incomplete::Working) => if !found.is_empty() {
                &&& after.to_discard is None
                &&& Self::on_top(list, after.reductions@, var, 1)
                &&& members(after.reductions@[top].1.growing()) == b.union(found)
                &&& match (task, after.reductions@[top].1) {
                    (Step::ForwardBasin(x), Step::ForwardBasin(y)) => y.forward == x.forward,
                    (Step::BottomBasin(x), Step::BottomBasin(y)) => y.bottom == x.bottom,
                    _ => false,
                }
            } else {
                &&& after.reductions@ == list
                &&& match after.to_discard {
                    None => b.subset_of(inside),
                    Some(d) => !b.subset_of(inside) && members(d) == b.difference(inside),
                }
            },
        }
    }

    /// A step on a forward set, given what the round of saturation came up with, or
    /// that it was cancelled: for each, the list of tasks and what is marked to be discarded
    /// are fixed.
    pub fn settle_forward(context: &AttractorConfig, state: &mut ItgrState, var: usize, x: StepForward, found: Cancellable<GraphColoredVertices>) -> (r: Completable<()>)
        requires
            old(state).wf(context.graph),
            old(state).to_discard is None,
            var < variable_count(context.graph),
            Step::Forward(x).wf(context.graph, var as nat, members(old(state).remaining_set)),
            found matches Ok(set) ==> belongs(set, context.graph) && members(set) == SaturationSuccessors::found(&old(state).remaining_reachability, members(x.forward)),
        ensures
            match found {
                Err(cancelled) => r matches Err(Incomplete::Cancelled(handed)) && handed == cancelled,
                Ok(_) => r == Err::<(), Incomplete>(Incomplete::Working),
            },
            Self::worked(context, old(state), final(state), &r, old(state).cost() + Step::Forward(x).cost(members(old(state).remaining_set))),
            final(state).to_discard is None,
            Self::forward_outcome(context, old(state), final(state), var, x, &r),
            old(state).sound(context.graph) ==> final(state).sound(context.graph),
    {
        let mut x = x;
        let ghost rem = members(state.remaining_set);
        let ghost f = members(x.forward);
        let ghost firm = state.sound(context.graph);
        let ghost list = state.reductions@;
        let ghost e = graph_encoding(context.graph);
        proof {
            lemma_fits_finite(rem, e);
            lemma_smaller(rem.difference(f), rem);
            lemma_found_inside(context.graph, &state.remaining_reachability, rem, f, true);
        }
        let post = match found {
            Ok(post) => post,
            Err(cancelled) => {
                proof {
                    lemma_total_push(list, (var, Step::Forward(x)), rem);
                }
                state.reductions.push((var, Step::Forward(x)));
                return Err(Incomplete::Cancelled(cancelled));
            },
        };
        if is_empty(&post) {
            // The forward set is complete.
            let forward = x.forward;
            let mut forward_config = state.remaining_reachability.clone();
            forward_config.graph = restrict(&forward_config.graph, &forward);
            let extended_component = var_can_post(&context.graph, var, &state.remaining_set);
            let basin_candidates = minus(&state.remaining_set, &forward);
            proof {
                lemma_steps_within_twice(context.graph, state.remaining_reachability.graph, rem, f);
                assert(rem.intersect(f) =~= f);
                assert(members(extended_component) == can_post(context.graph, var as nat, rem));
                lemma_smaller(f.difference(members(extended_component)), rem);
                if firm {
                    let rr = state.remaining_reachability;
                    lemma_last_nonempty_none(Probe::PostOut, rr.graph, rr.variables@, f, rr.variables@.len());
                    lemma_no_post_out_closed(&rr, f);
                    Self::lemma_confined_moves(context, old(state));
                    lemma_closed_within(context.graph, rr.variables@, rem, f);
                    assert forall|v: nat| v < variable_count(context.graph) && !listed(rr.variables@).contains(v) implies #[trigger] no_steps_within(context.graph, v, f) by {
                        assert(no_steps_within(context.graph, v, rem));
                    }
                    lemma_reach_holds_start(converse(confined(all_moves(context.graph), rem)), f);
                }
            }
            let extended = Step::Extended(StepExtendedComponent { universe_forward: forward_config, extended_component, forward: clone_set(&forward) });
            proof {
                lemma_total_push(list, (var, extended), rem);
            }
            state.reductions.push((var, extended));
            proof {
                assert(state.reductions@.subrange(0, list.len() as int) =~= list);
                assert(rem.subset_of(f) <==> members(basin_candidates).is_empty()) by {
                    if members(basin_candidates).is_empty() {
                        assert forall|w: ColoredVertex| rem.contains(w) implies f.contains(w) by {
                            if !f.contains(w) {
                                assert(members(basin_candidates).contains(w));
                            }
                        }
                    }
                    if rem.subset_of(f) {
                        assert(members(basin_candidates) =~= Set::empty());
                    }
                }
            }
            if !is_empty(&basin_candidates) {
                // Something lies outside the forward set: its basin can be removed.
                let basin = Step::ForwardBasin(StepForwardBasin { forward: clone_set(&forward), basin: forward });
                proof {
                    lemma_total_push(list.push((var, extended)), (var, basin), rem);
                }
                state.reductions.push((var, basin));
                proof {
                    assert(state.reductions@.subrange(0, list.len() as int) =~= list);
                }
            }
            Err(Incomplete::Working)
        } else {
            let ghost found = members(post);
            x.forward = union(&x.forward, &post);
            proof {
                let w = choose|w: ColoredVertex| found.contains(w);
                assert(rem.difference(f).contains(w));
                lemma_strictly_smaller(rem.difference(members(x.forward)), rem.difference(f), w);
                lemma_total_push(list, (var, Step::Forward(x)), rem);
            }
            state.reductions.push((var, Step::Forward(x)));
            proof {
                assert(state.reductions@.subrange(0, list.len() as int) =~= list);
            }
            Err(Incomplete::Working)
        }
    }

    /// Work on a forward set. One round of saturation within what is left; what is found is
    /// added. If nothing is found, the forward set is complete: the task gives way to the
    /// task of its extended component, which starts from the pairs from which the variable
    /// can change, and, unless the forward set is all that is left, to the task of its basin.
    pub fn advance_forward(context: &AttractorConfig, state: &mut ItgrState, var: usize, x: StepForward) -> (r: Completable<()>)
        requires
            old(state).wf(context.graph),
            old(state).to_discard is None,
            var < variable_count(context.graph),
            Step::Forward(x).wf(context.graph, var as nat, members(old(state).remaining_set)),
        ensures
            Self::worked(context, old(state), final(state), &r, old(state).cost() + Step::Forward(x).cost(members(old(state).remaining_set))),
            final(state).to_discard is None,
            Self::forward_outcome(context, old(state), final(state), var, x, &r),
            old(state).remaining_reachability.variables@.len() == 0 ==> r matches Err(Incomplete::Working),
            old(state).sound(context.graph) ==> final(state).sound(context.graph),
    {
        let ghost rem = members(state.remaining_set);
        let ghost f = members(x.forward);
        let ghost firm = state.sound(context.graph);
        let ghost list = state.reductions@;
        let ghost e = graph_encoding(context.graph);
        proof {
            lemma_fits_finite(rem, e);
            lemma_smaller(rem.difference(f), rem);
            lemma_found_inside(context.graph, &state.remaining_reachability, rem, f, true);
        }
        let found = SaturationSuccessors::step(&state.remaining_reachability, &x.forward);
        Self::settle_forward(context, state, var, x, found)
    }

    /// A step on an extended component, given what the round of saturation came up with, or
    /// that it was cancelled: for each, the list of tasks and what is marked to be discarded
    /// are fixed.
    pub fn settle_extended(context: &AttractorConfig, state: &mut ItgrState, var: usize, x: StepExtendedComponent, found: Cancellable<GraphColoredVertices>) -> (r: Completable<()>)
        requires
            old(state).wf(context.graph),
            old(state).to_discard is None,
            var < variable_count(context.graph),
            Step::Extended(x).wf(context.graph, var as nat, members(old(state).remaining_set)),
            found matches Ok(set) ==> belongs(set, context.graph) && members(set) == SaturationPredecessors::found(&x.universe_forward, members(x.extended_component)),
        ensures
            match found {
                Err(cancelled) => r matches Err(Incomplete::Cancelled(handed)) && handed == cancelled,
                Ok(_) => r == Err::<(), Incomplete>(Incomplete::Working),
            },
            Self::worked(context, old(state), final(state), &r, old(state).cost() + Step::Extended(x).cost(members(old(state).remaining_set))),
            final(state).to_discard is None,
            Self::extended_outcome(old(state), final(state), var, x, &r),
            old(state).sound(context.graph) && Step::Extended(x).sound(context.graph, members(old(state).remaining_set)) ==> final(state).sound(context.graph),
    {
        let mut x = x;
        let ghost rem = members(state.remaining_set);
        let ghost f = members(x.forward);
        let ghost ec = members(x.extended_component);
        let ghost firm = state.sound(context.graph) && Step::Extended(x).sound(context.graph, rem);
        let ghost list = state.reductions@;
        let ghost e = graph_encoding(context.graph);
        proof {
            lemma_fits_finite(rem, e);
            lemma_smaller(f.difference(ec), rem);
            lemma_found_inside(context.graph, &x.universe_forward, f, ec, false);
            assert(belongs(x.extended_component, x.universe_forward.graph));
        }
        let pre = match found {
            Ok(pre) => pre,
            Err(cancelled) => {
                proof {
                    lemma_total_push(list, (var, Step::Extended(x)), rem);
                }
                state.reductions.push((var, Step::Extended(x)));
                return Err(Incomplete::Cancelled(cancelled));
            },
        };
        if is_empty(&pre) {
            // The component is complete; what is left of the forward set is its bottom.
            let bottom = minus(&x.forward, &x.extended_component);
            if !is_empty(&bottom) {
                let basin = Step::BottomBasin(StepBottomBasin { bottom: clone_set(&bottom), basin: bottom });
                proof {
                    lemma_smaller(rem.difference(members(bottom)), rem);
                    lemma_total_push(list, (var, basin), rem);
                    if firm {
                        let config = x.universe_forward;
                        lemma_last_nonempty_none(Probe::PreOut, config.graph, config.variables@, ec, config.variables@.len());
                        lemma_no_pre_out_closed(&config, ec);
                        lemma_moves_of_restricted(context.graph, config.graph, listed(config.variables@), f);
                        lemma_bottom_closed(context.graph, config.variables@, f, ec);
                        lemma_reach_holds_start(converse(confined(all_moves(context.graph), rem)), members(bottom));
                    }
                }
                state.reductions.push((var, basin));
                proof {
                    assert(state.reductions@.subrange(0, list.len() as int) =~= list);
                }
            }
            proof {
                assert(f.subset_of(ec) <==> members(bottom).is_empty()) by {
                    if members(bottom).is_empty() {
                        assert forall|w: ColoredVertex| f.contains(w) implies ec.contains(w) by {
                            if !ec.contains(w) {
                                assert(members(bottom).contains(w));
                            }
                        }
                    }
                    if f.subset_of(ec) {
                        assert(members(bottom) =~= Set::empty());
                    }
                }
            }
            Err(Incomplete::Working)
        } else {
            let ghost found = members(pre);
            x.extended_component = union(&x.extended_component, &pre);
            proof {
                let w = choose|w: ColoredVertex| found.contains(w);
                assert(f.difference(ec).contains(w));
                lemma_strictly_smaller(f.difference(members(x.extended_component)), f.difference(ec), w);
                lemma_total_push(list, (var, Step::Extended(x)), rem);
            }
            state.reductions.push((var, Step::Extended(x)));
            proof {
                assert(state.reductions@.subrange(0, list.len() as int) =~= list);
            }
            Err(Incomplete::Working)
        }
    }

    /// Work on an extended component. One round of backward saturation within the forward
    /// set; what is found is added. If nothing is found, the component is complete: if the
    /// forward set has a bottom outside the component, the task gives way to the task of
    /// the basin of the bottom.
    pub fn advance_extended(context: &AttractorConfig, state: &mut ItgrState, var: usize, x: StepExtendedComponent) -> (r: Completable<()>)
        requires
            old(state).wf(context.graph),
            old(state).to_discard is None,
            var < variable_count(context.graph),
            Step::Extended(x).wf(context.graph, var as nat, members(old(state).remaining_set)),
        ensures
            Self::worked(context, old(state), final(state), &r, old(state).cost() + Step::Extended(x).cost(members(old(state).remaining_set))),
            final(state).to_discard is None,
            Self::extended_outcome(old(state), final(state), var, x, &r),
            x.universe_forward.variables@.len() == 0 ==> r matches Err(Incomplete::Working),
            old(state).sound(context.graph) && Step::Extended(x).sound(context.graph, members(old(state).remaining_set)) ==> final(state).sound(context.graph),
    {
        let ghost rem = members(state.remaining_set);
        let ghost f = members(x.forward);
        let ghost ec = members(x.extended_component);
        let ghost firm = state.sound(context.graph) && Step::Extended(x).sound(context.graph, rem);
        let ghost list = state.reductions@;
        let ghost e = graph_encoding(context.graph);
        proof {
            lemma_fits_finite(rem, e);
            lemma_smaller(f.difference(ec), rem);
            lemma_found_inside(context.graph, &x.universe_forward, f, ec, false);
            assert(belongs(x.extended_component, x.universe_forward.graph));
        }
        let found = SaturationPredecessors::step(&x.universe_forward, &x.extended_component);
        Self::settle_extended(context, state, var, x, found)
    }

    /// A step on the basin of a forward set, given what the round of saturation came up with, or
    /// that it was cancelled: for each, the list of tasks and what is marked to be discarded
    /// are fixed.
    pub fn settle_forward_basin(context: &AttractorConfig, state: &mut ItgrState, var: usize, x: StepForwardBasin, found: Cancellable<GraphColoredVertices>) -> (r: Completable<()>)
        requires
            old(state).wf(context.graph),
            old(state).to_discard is None,
            var < variable_count(context.graph),
            Step::ForwardBasin(x).wf(context.graph, var as nat, members(old(state).remaining_set)),
            found matches Ok(set) ==> belongs(set, context.graph) && members(set) == SaturationPredecessors::found(&old(state).remaining_reachability, members(x.basin)),
        ensures
            match found {
                Err(cancelled) => r matches Err(Incomplete::Cancelled(handed)) && handed == cancelled,
                Ok(_) => r == Err::<(), Incomplete>(Incomplete::Working),
            },
            Self::worked(context, old(state), final(state), &r, old(state).cost() + Step::ForwardBasin(x).cost(members(old(state).remaining_set))),
            Self::basin_outcome(old(state), final(state), var, Step::ForwardBasin(x), members(x.forward), &r),
            final(state).to_discard matches Some(d) ==> r matches Err(Incomplete::Working) && !members(d).is_empty() && members(d) == SaturationPredecessors::limit(&old(state).remaining_reachability, members(x.basin)).difference(members(x.forward)),
            old(state).sound(context.graph) && Step::ForwardBasin(x).sound(context.graph, members(old(state).remaining_set)) ==> final(state).sound(context.graph),
    {
        let mut x = x;
        let ghost rem = members(state.remaining_set);
        let ghost b = members(x.basin);
        let ghost inside = members(x.forward);
        let ghost firm = state.sound(context.graph) && Step::ForwardBasin(x).sound(context.graph, rem);
        proof {
            if firm {
                lemma_basin_grows(context.graph, &state.remaining_reachability, rem, b, inside);
            }
        }
        let ghost list = state.reductions@;
        let ghost e = graph_encoding(context.graph);
        proof {
            lemma_fits_finite(rem, e);
            lemma_smaller(rem.difference(b), rem);
            lemma_found_inside(context.graph, &state.remaining_reachability, rem, b, false);
            SaturationPredecessors::limit_kept(&state.remaining_reachability, b);
        }
        let pre = match found {
            Ok(pre) => pre,
            Err(cancelled) => {
                proof {
                    lemma_total_push(list, (var, Step::ForwardBasin(x)), rem);
                }
                state.reductions.push((var, Step::ForwardBasin(x)));
                return Err(Incomplete::Cancelled(cancelled));
            },
        };
        if is_empty(&pre) {
            let to_discard = minus(&x.basin, &x.forward);
            proof {
                if firm {
                    let rr = state.remaining_reachability;
                    lemma_last_nonempty_none(Probe::PreOut, rr.graph, rr.variables@, b, rr.variables@.len());
                    lemma_no_pre_out_closed(&rr, b);
                    Self::lemma_confined_moves(context, old(state));
                    lemma_basin_discarded(context.graph, rr.variables@, rem, b, inside);
                }
            }
            proof {
                assert(b.subset_of(inside) <==> members(to_discard).is_empty()) by {
                    if members(to_discard).is_empty() {
                        assert forall|w: ColoredVertex| b.contains(w) implies inside.contains(w) by {
                            if !inside.contains(w) {
                                assert(members(to_discard).contains(w));
                            }
                        }
                    }
                    if b.subset_of(inside) {
                        assert(members(to_discard) =~= Set::empty());
                    }
                }
            }
            if !is_empty(&to_discard) {
                state.to_discard = Some(to_discard);
            }
            Err(Incomplete::Working)
        } else {
            let ghost found = members(pre);
            x.basin = union(&x.basin, &pre);
            proof {
                let w = choose|w: ColoredVertex| found.contains(w);
                assert(rem.difference(b).contains(w));
                lemma_strictly_smaller(rem.difference(members(x.basin)), rem.difference(b), w);
                lemma_total_push(list, (var, Step::ForwardBasin(x)), rem);
            }
            state.reductions.push((var, Step::ForwardBasin(x)));
            proof {
                assert(state.reductions@.subrange(0, list.len() as int) =~= list);
            }
            Err(Incomplete::Working)
        }
    }

    /// Work on the basin of a forward set. One round of backward saturation within what is
    /// left; what is found is added. If nothing is found, the basin is complete: what lies
    /// in it outside the forward set is marked to be discarded, and the task ends.
    pub fn advance_forward_basin(context: &AttractorConfig, state: &mut ItgrState, var: usize, x: StepForwardBasin) -> (r: Completable<()>)
        requires
            old(state).wf(context.graph),
            old(state).to_discard is None,
            var < variable_count(context.graph),
            Step::ForwardBasin(x).wf(context.graph, var as nat, members(old(state).remaining_set)),
        ensures
            Self::worked(context, old(state), final(state), &r, old(state).cost() + Step::ForwardBasin(x).cost(members(old(state).remaining_set))),
            Self::basin_outcome(old(state), final(state), var, Step::ForwardBasin(x), members(x.forward), &r),
            old(state).remaining_reachability.variables@.len() == 0 ==> r matches Err(Incomplete::Working),
            final(state).to_discard matches Some(d) ==> r matches Err(Incomplete::Working) && !members(d).is_empty() && members(d) == SaturationPredecessors::limit(&old(state).remaining_reachability, members(x.basin)).difference(members(x.forward)),
            old(state).sound(context.graph) && Step::ForwardBasin(x).sound(context.graph, members(old(state).remaining_set)) ==> final(state).sound(context.graph),
    {
        let ghost rem = members(state.remaining_set);
        let ghost b = members(x.basin);
        let ghost inside = members(x.forward);
        let ghost firm = state.sound(context.graph) && Step::ForwardBasin(x).sound(context.graph, rem);
        proof {
            if firm {
                lemma_basin_grows(context.graph, &state.remaining_reachability, rem, b, inside);
            }
        }
        let ghost list = state.reductions@;
        let ghost e = graph_encoding(context.graph);
        proof {
            lemma_fits_finite(rem, e);
            lemma_smaller(rem.difference(b), rem);
            lemma_found_inside(context.graph, &state.remaining_reachability, rem, b, false);
            SaturationPredecessors::limit_kept(&state.remaining_reachability, b);
        }
        let found = SaturationPredecessors::step(&state.remaining_reachability, &x.basin);
        Self::settle_forward_basin(context, state, var, x, found)
    }

    /// A step on the basin of a bottom, given what the round of saturation came up with, or
    /// that it was cancelled: for each, the list of tasks and what is marked to be discarded
    /// are fixed.
    pub fn settle_bottom_basin(context: &AttractorConfig, state: &mut ItgrState, var: usize, x: StepBottomBasin, found: Cancellable<GraphColoredVertices>) -> (r: Completable<()>)
        requires
            old(state).wf(context.graph),
            old(state).to_discard is None,
            var < variable_count(context.graph),
            Step::BottomBasin(x).wf(context.graph, var as nat, members(old(state).remaining_set)),
            found matches Ok(set) ==> belongs(set, context.graph) && members(set) == SaturationPredecessors::found(&old(state).remaining_reachability, members(x.basin)),
        ensures
            match found {
                Err(cancelled) => r matches Err(Incomplete::Cancelled(handed)) && handed == cancelled,
                Ok(_) => r == Err::<(), Incomplete>(Incomplete::Working),
            },
            Self::worked(context, old(state), final(state), &r, old(state).cost() + Step::BottomBasin(x).cost(members(old(state).remaining_set))),
            Self::basin_outcome(old(state), final(state), var, Step::BottomBasin(x), members(x.bottom), &r),
            final(state).to_discard matches Some(d) ==> r matches Err(Incomplete::Working) && !members(d).is_empty() && members(d) == SaturationPredecessors::limit(&old(state).remaining_reachability, members(x.basin)).difference(members(x.bottom)),
            old(state).sound(context.graph) && Step::BottomBasin(x).sound(context.graph, members(old(state).remaining_set)) ==> final(state).sound(context.graph),
    {
        let mut x = x;
        let ghost rem = members(state.remaining_set);
        let ghost b = members(x.basin);
        let ghost inside = members(x.bottom);
        let ghost firm = state.sound(context.graph) && Step::BottomBasin(x).sound(context.graph, rem);
        proof {
            if firm {
                lemma_basin_grows(context.graph, &state.remaining_reachability, rem, b, inside);
            }
        }
        let ghost list = state.reductions@;
        let ghost e = graph_encoding(context.graph);
        proof {
            lemma_fits_finite(rem, e);
            lemma_smaller(rem.difference(b), rem);
            lemma_found_inside(context.graph, &state.remaining_reachability, rem, b, false);
            SaturationPredecessors::limit_kept(&state.remaining_reachability, b);
        }
        let pre = match found {
            Ok(pre) => pre,
            Err(cancelled) => {
                proof {
                    lemma_total_push(list, (var, Step::BottomBasin(x)), rem);
                }
                state.reductions.push((var, Step::BottomBasin(x)));
                return Err(Incomplete::Cancelled(cancelled));
            },
        };
        if is_empty(&pre) {
            let to_discard = minus(&x.basin, &x.bottom);
            proof {
                if firm {
                    let rr = state.remaining_reachability;
                    lemma_last_nonempty_none(Probe::PreOut, rr.graph, rr.variables@, b, rr.variables@.len());
                    lemma_no_pre_out_closed(&rr, b);
                    Self::lemma_confined_moves(context, old(state));
                    lemma_basin_discarded(context.graph, rr.variables@, rem, b, inside);
                }
            }
            proof {
                assert(b.subset_of(inside) <==> members(to_discard).is_empty()) by {
                    if members(to_discard).is_empty() {
                        assert forall|w: ColoredVertex| b.contains(w) implies inside.contains(w) by {
                            if !inside.contains(w) {
                                assert(members(to_discard).contains(w));
                            }
                        }
                    }
                    if b.subset_of(inside) {
                        assert(members(to_discard) =~= Set::empty());
                    }
                }
            }
            if !is_empty(&to_discard) {
                state.to_discard = Some(to_discard);
            }
            Err(Incomplete::Working)
        } else {
            let ghost found = members(pre);
            x.basin = union(&x.basin, &pre);
            proof {
                let w = choose|w: ColoredVertex| found.contains(w);
                assert(rem.difference(b).contains(w));
                lemma_strictly_smaller(rem.difference(members(x.basin)), rem.difference(b), w);
                lemma_total_push(list, (var, Step::BottomBasin(x)), rem);
            }
            state.reductions.push((var, Step::BottomBasin(x)));
            proof {
                assert(state.reductions@.subrange(0, list.len() as int) =~= list);
            }
            Err(Incomplete::Working)
        }
    }

    /// Work on the basin of a bottom. One round of backward saturation within what is left;
    /// what is found is added. If nothing is found, the basin is complete: what lies in it
    /// outside the bottom is marked to be discarded, and the task ends.
    pub fn advance_bottom_basin(context: &AttractorConfig, state: &mut ItgrState, var: usize, x: StepBottomBasin) -> (r: Completable<()>)
        requires
            old(state).wf(context.graph),
            old(state).to_discard is None,
            var < variable_count(context.graph),
            Step::BottomBasin(x).wf(context.graph, var as nat, members(old(state).remaining_set)),
        ensures
            Self::worked(context, old(state), final(state), &r, old(state).cost() + Step::BottomBasin(x).cost(members(old(state).remaining_set))),
            Self::basin_outcome(old(state), final(state), var, Step::BottomBasin(x), members(x.bottom), &r),
            old(state).remaining_reachability.variables@.len() == 0 ==> r matches Err(Incomplete::Working),
            final(state).to_discard matches Some(d) ==> r matches Err(Incomplete::Working) && !members(d).is_empty() && members(d) == SaturationPredecessors::limit(&old(state).remaining_reachability, members(x.basin)).difference(members(x.bottom)),
            old(state).sound(context.graph) && Step::BottomBasin(x).sound(context.graph, members(old(state).remaining_set)) ==> final(state).sound(context.graph),
    {
        let ghost rem = members(state.remaining_set);
        let ghost b = members(x.basin);
        let ghost inside = members(x.bottom);
        let ghost firm = state.sound(context.graph) && Step::BottomBasin(x).sound(context.graph, rem);
        proof {
            if firm {
                lemma_basin_grows(context.graph, &state.remaining_reachability, rem, b, inside);
            }
        }
        let ghost list = state.reductions@;
        let ghost e = graph_encoding(context.graph);
        proof {
            lemma_fits_finite(rem, e);
            lemma_smaller(rem.difference(b), rem);
            lemma_found_inside(context.graph, &state.remaining_reachability, rem, b, false);
            SaturationPredecessors::limit_kept(&state.remaining_reachability, b);
        }
        let found = SaturationPredecessors::step(&state.remaining_reachability, &x.basin);
        Self::settle_bottom_basin(context, state, var, x, found)
    }
}

impl ItgrStep {
    /// One turn of [`ItgrStep::run`], given what the ambient cancellation signal said before
    /// it: a cancellation is handed on and the state stays as it is; else one step of the
    /// reduction is made.
    pub fn turn(context: &AttractorConfig, state: &mut ItgrState, signal: Cancellable<()>) -> (r: Completable<()>)
        requires
            old(state).wf(context.graph),
        ensures
            final(state).wf(context.graph),
            signal matches Err(cancelled) ==> *final(state) == *old(state) && (r matches Err(Incomplete::Cancelled(handed)) && handed == cancelled),
            signal is Ok ==> Self::took_step(context, old(state), final(state), &r),
            signal is Ok ==> (r is Ok <==> old(state).reductions@.len() == 0),
            listed(final(state).remaining_reachability.variables@).subset_of(listed(old(state).remaining_reachability.variables@)),
            r is Ok ==> final(state).reductions@.len() == 0 && final(state).to_discard is None,
            r == Err::<(), Incomplete>(Incomplete::Working) ==> final(state).cost() < old(state).cost(),
            members(final(state).remaining_set) == match (signal, old(state).to_discard) {
                (Ok(_), Some(d)) => members(old(state).remaining_set).difference(members(d)),
                _ => members(old(state).remaining_set),
            },
            old(state).sound(context.graph) ==> final(state).sound(context.graph) && forall|x: ColoredVertex| members(old(state).remaining_set).contains(x) && #[trigger] recurrent(all_moves(context.graph), x) ==> members(final(state).remaining_set).contains(x),
    {
        match signal {
            Err(cancelled) => Err(Incomplete::Cancelled(cancelled)),
            Ok(()) => Self::step(context, state),
        }
    }

    /// A chain of steps of the reduction: every state follows from the one before by one
    /// step with the given answer, and every answer but the last is `Working`.
    pub open spec fn chain(context: &AttractorConfig, states: Seq<ItgrState>, results: Seq<Completable<()>>) -> bool {
        &&& states.len() == results.len() + 1
        &&& forall|i: int| 0 <= i < results.len() ==> Self::took_step(context, &states[i], &states[i + 1], &#[trigger] results[i])
        &&& forall|i: int| 0 <= i < results.len() - 1 ==> (#[trigger] results[i] matches Err(Incomplete::Working))
    }

    /// What a run makes of the state: `after` is the end of a chain of steps from `before`.
    /// A run that succeeds ends with the last step, whose answer is `Ok`, and hands out
    /// what is left. A run that is cancelled ends where the ambient signal stopped it,
    /// after steps that all answered `Working`, or with a step that was cancelled, whose
    /// cancellation it hands on.
    pub open spec fn ran(context: &AttractorConfig, before: &ItgrState, after: &ItgrState, r: &Cancellable<GraphColoredVertices>) -> bool {
        exists|states: Seq<ItgrState>, results: Seq<Completable<()>>| {
            &&& #[trigger] Self::chain(context, states, results)
            &&& states[0] == *before
            &&& states.last() == *after
            &&& match *r {
                Ok(set) => results.len() > 0 && results.last() is Ok && set == after.remaining_set,
                Err(cancelled) => results.len() == 0 || (results.last() matches Err(Incomplete::Working)) || (results.last() matches Err(Incomplete::Cancelled(handed)) && handed == cancelled),
            }
        }
    }

    /// Run the reduction to its end on a state that stays with the caller: afterwards the
    /// state holds the variables that are still active. The ambient cancellation signal is
    /// asked before every step. The outcome is what is left of the universe.
    pub fn run(context: &AttractorConfig, state: &mut ItgrState) -> (r: Cancellable<GraphColoredVertices>)
        requires
            old(state).wf(context.graph),
        ensures
            Self::ran(context, old(state), final(state), &r),
            final(state).wf(context.graph),
            members(final(state).remaining_set).subset_of(members(old(state).remaining_set)),
            listed(final(state).remaining_reachability.variables@).subset_of(listed(old(state).remaining_reachability.variables@)),
            r matches Ok(set) ==> set == final(state).remaining_set && final(state).reductions@.len() == 0 && final(state).to_discard is None,
            old(state).sound(context.graph) ==> final(state).sound(context.graph) && forall|x: ColoredVertex| members(old(state).remaining_set).contains(x) && #[trigger] recurrent(all_moves(context.graph), x) ==> members(final(state).remaining_set).contains(x),
    {
        let ghost mut states: Seq<ItgrState> = seq![*state];
        let ghost mut results: Seq<Completable<()>> = Seq::empty();
        loop
            invariant
                state.wf(context.graph),
                members(state.remaining_set).subset_of(members(old(state).remaining_set)),
                listed(state.remaining_reachability.variables@).subset_of(listed(old(state).remaining_reachability.variables@)),
                old(state).sound(context.graph) ==> state.sound(context.graph) && forall|x: ColoredVertex| members(old(state).remaining_set).contains(x) && #[trigger] recurrent(all_moves(context.graph), x) ==> members(state.remaining_set).contains(x),
                Self::chain(context, states, results),
                forall|i: int| 0 <= i < results.len() ==> (#[trigger] results[i] matches Err(Incomplete::Working)),
                states[0] == *old(state),
                states.last() == *state,
            decreases state.cost(),
        {
            let signal = check_cancelled();
            let ghost heard = signal;
            let ghost earlier = states;
            let ghost answers = results;
            let ghost from = *state;
            let answer = Self::turn(context, state, signal);
            proof {
                if heard is Ok {
                    states = earlier.push(*state);
                    results = answers.push(answer);
                    assert forall|i: int| 0 <= i < results.len() implies Self::took_step(context, &states[i], &states[i + 1], &#[trigger] results[i]) by {
                        if i < answers.len() {
                            assert(states[i] == earlier[i] && states[i + 1] == earlier[i + 1] && results[i] == answers[i]);
                        } else {
                            assert(states[i] == from && states[i + 1] == *state && results[i] == answer);
                        }
                    }
                    assert forall|i: int| 0 <= i < results.len() - 1 implies (#[trigger] results[i] matches Err(Incomplete::Working)) by {
                        assert(results[i] == answers[i]);
                    }
                    assert(Self::chain(context, states, results));
                }
            }
            match answer {
                Ok(()) => {
                    let left = clone_set(&state.remaining_set);
                    proof {
                        assert(results.last() == answer);
                        assert(Self::ran(context, old(state), state, &Ok::<GraphColoredVertices, cancel_this::Cancelled>(left)));
                    }
                    return Ok(left);
                },
                Err(Incomplete::Working) => {
                    proof {
                        assert forall|i: int| 0 <= i < results.len() implies (#[trigger] results[i] matches Err(Incomplete::Working)) by {
                            if i < answers.len() {
                                assert(results[i] == answers[i]);
                            }
                        }
                    }
                },
                Err(Incomplete::Cancelled(cancelled)) => {
                    proof {
                        if heard is Ok {
                            assert(results.last() == answer);
                        }
                        assert(Self::ran(context, old(state), state, &Err::<GraphColoredVertices, cancel_this::Cancelled>(cancelled)));
                    }
                    return Err(cancelled);
                },
            }
        }
    }
}

impl ComputationStepAndConvert<AttractorConfig, ItgrState, GraphColoredVertices> for ItgrStep {
    open spec fn valid(context: &AttractorConfig, state: &ItgrState) -> bool {
        state.wf(context.graph)
    }

    open spec fn fuel(context: &AttractorConfig, state: &ItgrState) -> nat {
        state.cost()
    }

    open spec fn settled(context: &AttractorConfig, state: &ItgrState) -> bool {
        state.reductions@.len() == 0 && state.to_discard is None
    }

    open spec fn stepped(context: &AttractorConfig, before: &ItgrState, after: &ItgrState, r: &Completable<()>) -> bool {
        ItgrStep::took_step(context, before, after, r)
    }

    /// The reduction ends with a part of what is left. Where the state stands on firm
    /// ground, say because no step leaves the universe that the reduction started from,
    /// no step leaves that part, and it holds every recurrent pair of what is left.
    open spec fn delivers(context: &AttractorConfig, state: &ItgrState, output: &GraphColoredVertices) -> bool {
        &&& belongs(*output, context.graph)
        &&& members(*output).subset_of(members(state.remaining_set))
        &&& state.sound(context.graph) ==> closed(all_moves(context.graph), members(*output)) && forall|x: ColoredVertex| members(state.remaining_set).contains(x) && #[trigger] recurrent(all_moves(context.graph), x) ==> members(*output).contains(x)
    }

    /// One step of the reduction: what is marked is discarded, the tasks are put in order,
    /// and the last task is worked on. With no task left the reduction is done.
    fn step(context: &AttractorConfig, state: &mut ItgrState) -> (r: Completable<()>)
        ensures
            Self::took_step(context, old(state), final(state), &r),
            r is Ok <==> old(state).reductions@.len() == 0,
            listed(final(state).remaining_reachability.variables@).subset_of(listed(old(state).remaining_reachability.variables@)),
            members(final(state).remaining_set) == match old(state).to_discard {
                Some(d) => members(old(state).remaining_set).difference(members(d)),
                None => members(old(state).remaining_set),
            },
            old(state).sound(context.graph) ==> final(state).sound(context.graph) && forall|x: ColoredVertex| members(old(state).remaining_set).contains(x) && #[trigger] recurrent(all_moves(context.graph), x) ==> members(final(state).remaining_set).contains(x),
    {
        Self::apply_discard(context, state);
        let ghost cleared = *state;
        let ghost rem = members(state.remaining_set);
        let ghost unordered = state.reductions@;
        let ghost firm = old(state).sound(context.graph);
        Self::schedule(&mut state.reductions);
        let ghost in_order = *state;
        proof {
            if firm {
                assert forall|i: int| 0 <= i < state.reductions@.len() implies (#[trigger] state.reductions@[i]).1.sound(context.graph, rem) by {
                    let m = choose|m: int| 0 <= m < unordered.len() && unordered[m] == state.reductions@[i];
                    assert(unordered[m].1.sound(context.graph, rem));
                }
            }
            assert forall|i: int| 0 <= i < state.reductions@.len() implies (#[trigger] state.reductions@[i]).0 < variable_count(context.graph) && state.reductions@[i].1.wf(context.graph, state.reductions@[i].0 as nat, rem) by {
                let m = choose|m: int| 0 <= m < unordered.len() && unordered[m] == state.reductions@[i];
                assert(unordered[m].0 < variable_count(context.graph));
            }
            assert(total_cost(state.reductions@, rem) == total_cost(unordered, rem));
        }
        let ghost ordered = state.reductions@;
        match state.reductions.pop() {
            None => {
                proof {
                    assert(Self::stepped_through(context, old(state), &cleared, &in_order, &in_order, state, &Ok::<(), Incomplete>(())));
                }
                Ok(())
            },
            Some((var, reduction)) => {
                let ghost taken = *state;
                proof {
                    assert(state.reductions@ =~= ordered.drop_last());
                    assert(ordered.last() == (var, reduction));
                    assert(ordered[ordered.len() - 1].1.wf(context.graph, var as nat, rem));
                    assert forall|i: int| 0 <= i < state.reductions@.len() implies (#[trigger] state.reductions@[i]).0 < variable_count(context.graph) && state.reductions@[i].1.wf(context.graph, state.reductions@[i].0 as nat, rem) by {
                        assert(state.reductions@[i] == ordered[i]);
                    }
                    if firm {
                        assert(ordered[ordered.len() - 1].1.sound(context.graph, rem));
                        assert forall|i: int| 0 <= i < state.reductions@.len() implies (#[trigger] state.reductions@[i]).1.sound(context.graph, rem) by {
                            assert(state.reductions@[i] == ordered[i]);
                        }
                    }
                }
                let r = match reduction {
                    Step::Forward(x) => Self::advance_forward(context, state, var, x),
                    Step::Extended(x) => Self::advance_extended(context, state, var, x),
                    Step::ForwardBasin(x) => Self::advance_forward_basin(context, state, var, x),
                    Step::BottomBasin(x) => Self::advance_bottom_basin(context, state, var, x),
                };
                proof {
                    assert(Self::task_done(context, &taken, state, var, reduction, &r));
                    assert(Self::stepped_through(context, old(state), &cleared, &in_order, &taken, state, &r));
                }
                r
            },
        }
    }

    fn output(context: &AttractorConfig, state: ItgrState) -> (o: GraphColoredVertices)
        ensures
            o == state.remaining_set,
    {
        state.remaining_set
    }
}

} // verus!
