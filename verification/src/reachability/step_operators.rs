//! The rounds of forward and backward reachability.

use crate::cancellation::{check_cancelled, Cancellable};
use crate::reachability::reachability_config::{listed, moves};
use crate::reachability::{ReachabilityConfig, ReachabilityStep};
use crate::relation::{
    closed, converse, lemma_connects_step, lemma_reach_absorbs, lemma_reach_holds_start,
    lemma_reach_of_closed, reach,
};
use crate::symbolic::{
    belongs, has_step, is_empty, members, mk_empty_colored_vertices, union, var_can_post_out,
    var_can_post_within, var_can_pre_out, var_can_pre_within, var_post, var_post_out, var_pre_out,
    var_predecessors, var_successors, variable_count, ColoredVertex,
};
use biodivine_lib_param_bn::symbolic_async_graph::{GraphColoredVertices, SymbolicAsyncGraph};
use vstd::prelude::*;

verus! {

/// What is asked of the graph for one variable and one set.
pub enum Probe {
    /// The successors.
    Post,
    /// The successors outside the set.
    PostOut,
    /// The predecessors outside the set.
    PreOut,
    /// The pairs of the set with a successor outside it.
    CanPostOut,
    /// The pairs of the set with a predecessor outside it.
    CanPreOut,
    /// The pairs of the set with a successor inside it.
    CanPostWithin,
    /// The pairs of the set with a predecessor inside it.
    CanPreWithin,
}

/// The answer of the graph to a probe for variable `v` and set `s`.
pub open spec fn probe(kind: Probe, graph: SymbolicAsyncGraph, v: nat, s: Set<ColoredVertex>) -> Set<ColoredVertex> {
    match kind {
        Probe::Post => var_successors(graph, v, s),
        Probe::PostOut => var_successors(graph, v, s).difference(s),
        Probe::PreOut => var_predecessors(graph, v, s).difference(s),
        Probe::CanPostOut => s.intersect(var_predecessors(graph, v, s.complement())),
        Probe::CanPreOut => s.intersect(var_successors(graph, v, s.complement())),
        Probe::CanPostWithin => s.intersect(var_predecessors(graph, v, s)),
        Probe::CanPreWithin => s.intersect(var_successors(graph, v, s)),
    }
}

/// The answer for the greatest of the first `n` listed variables whose answer is not
/// empty; the empty set if there is none.
pub open spec fn last_nonempty(kind: Probe, graph: SymbolicAsyncGraph, variables: Seq<usize>, s: Set<ColoredVertex>, n: nat) -> Set<ColoredVertex>
    decreases n,
{
    if n == 0 {
        Set::empty()
    } else {
        let answer = probe(kind, graph, variables[n - 1] as nat, s);
        if !answer.is_empty() {
            answer
        } else {
            last_nonempty(kind, graph, variables, s, (n - 1) as nat)
        }
    }
}

/// The answers for the listed variables from position `lo` on, taken together.
pub open spec fn union_from(kind: Probe, graph: SymbolicAsyncGraph, variables: Seq<usize>, s: Set<ColoredVertex>, lo: int) -> Set<ColoredVertex> {
    Set::new(|x: ColoredVertex| exists|j: int| lo <= j < variables.len() && #[trigger] probe(kind, graph, variables[j] as nat, s).contains(x))
}

/// Where the answers from position `lo` up to `n` are empty, they do not count.
pub proof fn lemma_last_nonempty_skips(kind: Probe, graph: SymbolicAsyncGraph, variables: Seq<usize>, s: Set<ColoredVertex>, lo: nat, n: nat)
    requires
        lo <= n <= variables.len(),
        forall|j: int| lo <= j < n ==> (#[trigger] probe(kind, graph, variables[j] as nat, s)).is_empty(),
    ensures
        last_nonempty(kind, graph, variables, s, n) == last_nonempty(kind, graph, variables, s, lo),
    decreases n,
{
    if n > lo {
        assert(probe(kind, graph, variables[n - 1] as nat, s).is_empty());
        lemma_last_nonempty_skips(kind, graph, variables, s, lo, (n - 1) as nat);
    }
}

/// The answer that saturation settles on is the answer for one of the variables, or empty.
pub proof fn lemma_last_nonempty_is_answer(kind: Probe, graph: SymbolicAsyncGraph, variables: Seq<usize>, s: Set<ColoredVertex>, n: nat)
    requires
        n <= variables.len(),
    ensures
        last_nonempty(kind, graph, variables, s, n).is_empty() || exists|j: int| 0 <= j < n && last_nonempty(kind, graph, variables, s, n) == #[trigger] probe(kind, graph, variables[j] as nat, s),
    decreases n,
{
    if n > 0 {
        let answer = probe(kind, graph, variables[n - 1] as nat, s);
        if answer.is_empty() {
            lemma_last_nonempty_is_answer(kind, graph, variables, s, (n - 1) as nat);
        }
    }
}

/// Where saturation settles on the empty set, every answer is empty.
pub proof fn lemma_last_nonempty_none(kind: Probe, graph: SymbolicAsyncGraph, variables: Seq<usize>, s: Set<ColoredVertex>, n: nat)
    requires
        n <= variables.len(),
        last_nonempty(kind, graph, variables, s, n).is_empty(),
    ensures
        forall|j: int| 0 <= j < n ==> (#[trigger] probe(kind, graph, variables[j] as nat, s)).is_empty(),
    decreases n,
{
    if n > 0 {
        lemma_last_nonempty_none(kind, graph, variables, s, (n - 1) as nat);
    }
}

/// Ask the graph: the call of the symbolic library that answers the probe.
pub fn ask(kind: &Probe, graph: &SymbolicAsyncGraph, var: usize, set: &GraphColoredVertices) -> (r: GraphColoredVertices)
    requires
        var < variable_count(*graph),
        belongs(*set, *graph),
    ensures
        belongs(r, *graph),
        members(r) == probe(*kind, *graph, var as nat, members(*set)),
{
    match kind {
        Probe::Post => var_post(graph, var, set),
        Probe::PostOut => var_post_out(graph, var, set),
        Probe::PreOut => var_pre_out(graph, var, set),
        Probe::CanPostOut => var_can_post_out(graph, var, set),
        Probe::CanPreOut => var_can_pre_out(graph, var, set),
        Probe::CanPostWithin => var_can_post_within(graph, var, set),
        Probe::CanPreWithin => var_can_pre_within(graph, var, set),
    }
}

/// The visit of a round to the active variable at position `i`, given what the ambient
/// cancellation signal said before it: a cancellation is handed on, and nothing is asked
/// of the graph; else the graph is asked the probe for that variable.
pub fn visit(kind: &Probe, context: &ReachabilityConfig, state: &GraphColoredVertices, i: usize, signal: Cancellable<()>) -> (r: Cancellable<GraphColoredVertices>)
    requires
        context.wf(),
        belongs(*state, context.graph),
        i < context.variables@.len(),
    ensures
        match signal {
            Err(cancelled) => r matches Err(handed) && handed == cancelled,
            Ok(_) => r matches Ok(set) && belongs(set, context.graph) && members(set) == probe(*kind, context.graph, context.variables@[i as int] as nat, members(*state)),
        },
{
    match signal {
        Err(cancelled) => Err(cancelled),
        Ok(()) => Ok(ask(kind, &context.graph, context.variables[i], state)),
    }
}

/// What is gathered so far with one more answer, given what the ambient cancellation
/// signal said before the two are put together: a cancellation is handed on; else the
/// pairs of both.
pub fn put_together(gathered: GraphColoredVertices, answer: &GraphColoredVertices, signal: Cancellable<()>) -> (r: Cancellable<GraphColoredVertices>)
    requires
        crate::symbolic::encoding(gathered) == crate::symbolic::encoding(*answer),
    ensures
        match signal {
            Err(cancelled) => r matches Err(handed) && handed == cancelled,
            Ok(_) => r matches Ok(set) && crate::symbolic::encoding(set) == crate::symbolic::encoding(gathered) && members(set) == members(gathered).union(members(*answer)),
        },
{
    match signal {
        Err(cancelled) => Err(cancelled),
        Ok(()) => Ok(union(&gathered, answer)),
    }
}

/// One round of saturation: go through the active variables from the greatest down and
/// hand back the first answer that is not empty, or the empty set. The ambient
/// cancellation signal is asked before every variable, so with no active variable the
/// round cannot be cancelled.
pub fn saturation_round(kind: &Probe, context: &ReachabilityConfig, state: &GraphColoredVertices) -> (r: Cancellable<GraphColoredVertices>)
    requires
        context.wf(),
        belongs(*state, context.graph),
    ensures
        r matches Ok(set) ==> belongs(set, context.graph) && members(set) == last_nonempty(*kind, context.graph, context.variables@, members(*state), context.variables@.len()),
        context.variables@.len() == 0 ==> r is Ok,
{
    let mut i = context.variables.len();
    while i > 0
        invariant
            i <= context.variables@.len(),
            context.wf(),
            belongs(*state, context.graph),
            forall|j: int| i <= j < context.variables@.len() ==> (#[trigger] probe(*kind, context.graph, context.variables@[j] as nat, members(*state))).is_empty(),
        decreases i,
    {
        i -= 1;
        let step = match visit(kind, context, state, i, check_cancelled()) {
            Ok(step) => step,
            Err(cancelled) => {
                return Err(cancelled);
            },
        };
        if !is_empty(&step) {
            proof {
                lemma_last_nonempty_skips(*kind, context.graph, context.variables@, members(*state), (i + 1) as nat, context.variables@.len());
            }
            return Ok(step);
        }
    }
    proof {
        lemma_last_nonempty_skips(*kind, context.graph, context.variables@, members(*state), 0, context.variables@.len());
    }
    Ok(mk_empty_colored_vertices(&context.graph))
}

/// The successors of the current set, under all active variables, that are not in the set.
pub struct BfsSuccessors;

/// The predecessors of the current set, under all active variables, that are not in the set.
pub struct BfsPredecessors;

/// The successors outside the current set under the greatest active variable that has any.
pub struct SaturationSuccessors;

/// The predecessors outside the current set under the greatest active variable that has any.
pub struct SaturationPredecessors;

/// A step under a listed variable is a move of the configuration.
pub proof fn lemma_listed_moves(context: &ReachabilityConfig, j: int, a: ColoredVertex, b: ColoredVertex)
    requires
        0 <= j < context.variables@.len(),
        has_step(context.graph, context.variables@[j] as nat, a, b),
    ensures
        context.moves().contains((a, b)),
{
    let v = context.variables@[j] as nat;
    assert(listed(context.variables@).contains(v));
    let p = (a, b);
    assert(has_step(context.graph, v, p.0, p.1));
}

/// Every successor answer lies in the forward reachable set.
pub proof fn lemma_post_out_reached(context: &ReachabilityConfig, s: Set<ColoredVertex>, j: int)
    requires
        0 <= j < context.variables@.len(),
    ensures
        probe(Probe::PostOut, context.graph, context.variables@[j] as nat, s).subset_of(reach(context.moves(), s)),
{
    reveal(reach);
    let v = context.variables@[j] as nat;
    assert forall|b: ColoredVertex| probe(Probe::PostOut, context.graph, v, s).contains(b) implies reach(context.moves(), s).contains(b) by {
        let a = choose|a: ColoredVertex| s.contains(a) && #[trigger] has_step(context.graph, v, a, b);
        lemma_listed_moves(context, j, a, b);
        lemma_connects_step(context.moves(), a, b);
    }
}

/// Every predecessor answer lies in the backward reachable set.
pub proof fn lemma_pre_out_reached(context: &ReachabilityConfig, s: Set<ColoredVertex>, j: int)
    requires
        0 <= j < context.variables@.len(),
    ensures
        probe(Probe::PreOut, context.graph, context.variables@[j] as nat, s).subset_of(reach(converse(context.moves()), s)),
{
    reveal(reach);
    let v = context.variables@[j] as nat;
    assert forall|a: ColoredVertex| probe(Probe::PreOut, context.graph, v, s).contains(a) implies reach(converse(context.moves()), s).contains(a) by {
        let b = choose|b: ColoredVertex| s.contains(b) && #[trigger] has_step(context.graph, v, a, b);
        lemma_listed_moves(context, j, a, b);
        assert(converse(context.moves()).contains((b, a)));
        lemma_connects_step(converse(context.moves()), b, a);
    }
}

/// Where no active variable has a successor outside the set, no step leaves the set.
pub proof fn lemma_no_post_out_closed(context: &ReachabilityConfig, s: Set<ColoredVertex>)
    requires
        forall|j: int| 0 <= j < context.variables@.len() ==> (#[trigger] probe(Probe::PostOut, context.graph, context.variables@[j] as nat, s)).is_empty(),
    ensures
        closed(context.moves(), s),
{
    assert forall|a: ColoredVertex, b: ColoredVertex| s.contains(a) && #[trigger] context.moves().contains((a, b)) implies s.contains(b) by {
        let v = choose|v: nat| context.active().contains(v) && #[trigger] has_step(context.graph, v, a, b);
        let j = choose|j: int| 0 <= j < context.variables@.len() && #[trigger] context.variables@[j] == v;
        assert(probe(Probe::PostOut, context.graph, context.variables@[j] as nat, s).is_empty());
        assert(var_successors(context.graph, v, s).contains(b));
        if !s.contains(b) {
            assert(probe(Probe::PostOut, context.graph, v, s).contains(b));
        }
    }
}

/// Where no active variable has a predecessor outside the set, no step enters the set.
pub proof fn lemma_no_pre_out_closed(context: &ReachabilityConfig, s: Set<ColoredVertex>)
    requires
        forall|j: int| 0 <= j < context.variables@.len() ==> (#[trigger] probe(Probe::PreOut, context.graph, context.variables@[j] as nat, s)).is_empty(),
    ensures
        closed(converse(context.moves()), s),
{
    assert forall|b: ColoredVertex, a: ColoredVertex| s.contains(b) && #[trigger] converse(context.moves()).contains((b, a)) implies s.contains(a) by {
        assert(context.moves().contains((a, b)));
        let v = choose|v: nat| context.active().contains(v) && #[trigger] has_step(context.graph, v, a, b);
        let j = choose|j: int| 0 <= j < context.variables@.len() && #[trigger] context.variables@[j] == v;
        assert(probe(Probe::PreOut, context.graph, context.variables@[j] as nat, s).is_empty());
        assert(var_predecessors(context.graph, v, s).contains(a));
        if !s.contains(a) {
            assert(probe(Probe::PreOut, context.graph, v, s).contains(a));
        }
    }
}

/// Adding reachable pairs to a set does not change what the set reaches.
pub proof fn lemma_reach_grown<A>(r: Set<(A, A)>, s: Set<A>, f: Set<A>)
    requires
        f.subset_of(reach(r, s)),
    ensures
        reach(r, s.union(f)) == reach(r, s),
{
    let t = s.union(f);
    lemma_reach_holds_start(r, s);
    assert forall|x: A| t.contains(x) implies reach(r, s).contains(x) by {
        if s.contains(x) {
        } else {
            assert(f.contains(x));
        }
    }
    assert(s.subset_of(t));
    lemma_reach_absorbs(r, s, t);
}

/// Removing pairs that a set does not hold leaves the set as it is.
pub proof fn lemma_difference_of_disjoint<A>(s: Set<A>, f: Set<A>)
    requires
        f.disjoint(s),
    ensures
        s.difference(f) == s,
        f.subset_of(s) ==> f.is_empty(),
{
    assert(s.difference(f) =~= s);
    if f.subset_of(s) {
        assert(f =~= Set::empty());
    }
}

/// The law of a round that grows the set towards what `r` reaches, by pairs `f` that lie
/// outside the set and inside the reachable set.
pub proof fn lemma_growing_round<A>(r: Set<(A, A)>, s: Set<A>, f: Set<A>)
    requires
        f.subset_of(reach(r, s)),
        f.disjoint(s),
        f.is_empty() ==> closed(r, s),
    ensures
        reach(r, s.union(f)) == reach(r, s),
        reach(r, s.difference(f)) == reach(r, s),
        f.is_empty() ==> reach(r, s) == s,
{
    lemma_reach_grown(r, s, f);
    lemma_difference_of_disjoint(s, f);
    if f.is_empty() {
        lemma_reach_of_closed(r, s);
    }
}

impl ReachabilityStep for SaturationSuccessors {
    open spec fn found(context: &ReachabilityConfig, s: Set<ColoredVertex>) -> Set<ColoredVertex> {
        last_nonempty(Probe::PostOut, context.graph, context.variables@, s, context.variables@.len())
    }

    open spec fn limit(context: &ReachabilityConfig, s: Set<ColoredVertex>) -> Set<ColoredVertex> {
        reach(context.moves(), s)
    }

    fn step(context: &ReachabilityConfig, state: &GraphColoredVertices) -> (r: Cancellable<GraphColoredVertices>)
        ensures
            context.variables@.len() == 0 ==> r is Ok,
    {
        saturation_round(&Probe::PostOut, context, state)
    }

    proof fn limit_kept(context: &ReachabilityConfig, s: Set<ColoredVertex>) {
        let n = context.variables@.len();
        let f = Self::found(context, s);
        lemma_last_nonempty_is_answer(Probe::PostOut, context.graph, context.variables@, s, n);
        if !f.is_empty() {
            let j = choose|j: int| 0 <= j < n && f == #[trigger] probe(Probe::PostOut, context.graph, context.variables@[j] as nat, s);
            lemma_post_out_reached(context, s, j);
        } else {
            lemma_last_nonempty_none(Probe::PostOut, context.graph, context.variables@, s, n);
            lemma_no_post_out_closed(context, s);
        }
        lemma_growing_round(context.moves(), s, f);
    }
}

impl ReachabilityStep for SaturationPredecessors {
    open spec fn found(context: &ReachabilityConfig, s: Set<ColoredVertex>) -> Set<ColoredVertex> {
        last_nonempty(Probe::PreOut, context.graph, context.variables@, s, context.variables@.len())
    }

    open spec fn limit(context: &ReachabilityConfig, s: Set<ColoredVertex>) -> Set<ColoredVertex> {
        reach(converse(context.moves()), s)
    }

    fn step(context: &ReachabilityConfig, state: &GraphColoredVertices) -> (r: Cancellable<GraphColoredVertices>)
        ensures
            context.variables@.len() == 0 ==> r is Ok,
    {
        saturation_round(&Probe::PreOut, context, state)
    }

    proof fn limit_kept(context: &ReachabilityConfig, s: Set<ColoredVertex>) {
        let n = context.variables@.len();
        let f = Self::found(context, s);
        lemma_last_nonempty_is_answer(Probe::PreOut, context.graph, context.variables@, s, n);
        if !f.is_empty() {
            let j = choose|j: int| 0 <= j < n && f == #[trigger] probe(Probe::PreOut, context.graph, context.variables@[j] as nat, s);
            lemma_pre_out_reached(context, s, j);
        } else {
            lemma_last_nonempty_none(Probe::PreOut, context.graph, context.variables@, s, n);
            lemma_no_pre_out_closed(context, s);
        }
        lemma_growing_round(converse(context.moves()), s, f);
    }
}

impl ReachabilityStep for BfsSuccessors {
    open spec fn found(context: &ReachabilityConfig, s: Set<ColoredVertex>) -> Set<ColoredVertex> {
        union_from(Probe::PostOut, context.graph, context.variables@, s, 0)
    }

    open spec fn limit(context: &ReachabilityConfig, s: Set<ColoredVertex>) -> Set<ColoredVertex> {
        reach(context.moves(), s)
    }

    fn step(context: &ReachabilityConfig, state: &GraphColoredVertices) -> (r: Cancellable<GraphColoredVertices>)
        ensures
            context.variables@.len() == 0 ==> r is Ok,
    {
        let mut post = mk_empty_colored_vertices(&context.graph);
        let mut i = context.variables.len();
        assert(members(post) =~= union_from(Probe::PostOut, context.graph, context.variables@, members(*state), i as int));
        while i > 0
            invariant
                i <= context.variables@.len(),
                context.wf(),
                belongs(*state, context.graph),
                belongs(post, context.graph),
                members(post) == union_from(Probe::PostOut, context.graph, context.variables@, members(*state), i as int),
            decreases i,
        {
            i -= 1;
            let var_successors = match visit(&Probe::PostOut, context, state, i, check_cancelled()) {
                Ok(answer) => answer,
                Err(cancelled) => {
                    return Err(cancelled);
                },
            };
            let ghost before = members(post);
            if !is_empty(&var_successors) {
                post = match put_together(post, &var_successors, check_cancelled()) {
                    Ok(both) => both,
                    Err(cancelled) => {
                        return Err(cancelled);
                    },
                };
            }
            assert(members(post) =~= union_from(Probe::PostOut, context.graph, context.variables@, members(*state), i as int)) by {
                let tail = union_from(Probe::PostOut, context.graph, context.variables@, members(*state), i + 1);
                let all = union_from(Probe::PostOut, context.graph, context.variables@, members(*state), i as int);
                let answer = probe(Probe::PostOut, context.graph, context.variables@[i as int] as nat, members(*state));
                assert(members(post) =~= before.union(answer));
                assert forall|x: ColoredVertex| all.contains(x) implies before.union(answer).contains(x) by {
                    let j = choose|j: int| i <= j < context.variables@.len() && #[trigger] probe(Probe::PostOut, context.graph, context.variables@[j] as nat, members(*state)).contains(x);
                    if j != i {
                        assert(tail.contains(x));
                    }
                }
            }
        }
        Ok(post)
    }

    proof fn limit_kept(context: &ReachabilityConfig, s: Set<ColoredVertex>) {
        let f = Self::found(context, s);
        assert forall|x: ColoredVertex| f.contains(x) implies reach(context.moves(), s).contains(x) && !s.contains(x) by {
            let j = choose|j: int| 0 <= j < context.variables@.len() && #[trigger] probe(Probe::PostOut, context.graph, context.variables@[j] as nat, s).contains(x);
            lemma_post_out_reached(context, s, j);
        }
        if f.is_empty() {
            assert forall|j: int| 0 <= j < context.variables@.len() implies (#[trigger] probe(Probe::PostOut, context.graph, context.variables@[j] as nat, s)).is_empty() by {
                let answer = probe(Probe::PostOut, context.graph, context.variables@[j] as nat, s);
                assert forall|x: ColoredVertex| !answer.contains(x) by {
                    if answer.contains(x) {
                        assert(f.contains(x));
                    }
                }
                assert(answer =~= Set::empty());
            }
            lemma_no_post_out_closed(context, s);
        }
        lemma_growing_round(context.moves(), s, f);
    }
}

impl ReachabilityStep for BfsPredecessors {
    open spec fn found(context: &ReachabilityConfig, s: Set<ColoredVertex>) -> Set<ColoredVertex> {
        union_from(Probe::PreOut, context.graph, context.variables@, s, 0)
    }

    open spec fn limit(context: &ReachabilityConfig, s: Set<ColoredVertex>) -> Set<ColoredVertex> {
        reach(converse(context.moves()), s)
    }

    fn step(context: &ReachabilityConfig, state: &GraphColoredVertices) -> (r: Cancellable<GraphColoredVertices>)
        ensures
            context.variables@.len() == 0 ==> r is Ok,
    {
        let mut pre = mk_empty_colored_vertices(&context.graph);
        let mut i = context.variables.len();
        assert(members(pre) =~= union_from(Probe::PreOut, context.graph, context.variables@, members(*state), i as int));
        while i > 0
            invariant
                i <= context.variables@.len(),
                context.wf(),
                belongs(*state, context.graph),
                belongs(pre, context.graph),
                members(pre) == union_from(Probe::PreOut, context.graph, context.variables@, members(*state), i as int),
            decreases i,
        {
            i -= 1;
            let var_predecessors = match visit(&Probe::PreOut, context, state, i, check_cancelled()) {
                Ok(answer) => answer,
                Err(cancelled) => {
                    return Err(cancelled);
                },
            };
            let ghost before = members(pre);
            if !is_empty(&var_predecessors) {
                pre = union(&pre, &var_predecessors);
            }
            assert(members(pre) =~= union_from(Probe::PreOut, context.graph, context.variables@, members(*state), i as int)) by {
                let tail = union_from(Probe::PreOut, context.graph, context.variables@, members(*state), i + 1);
                let all = union_from(Probe::PreOut, context.graph, context.variables@, members(*state), i as int);
                let answer = probe(Probe::PreOut, context.graph, context.variables@[i as int] as nat, members(*state));
                assert(members(pre) =~= before.union(answer));
                assert forall|x: ColoredVertex| all.contains(x) implies before.union(answer).contains(x) by {
                    let j = choose|j: int| i <= j < context.variables@.len() && #[trigger] probe(Probe::PreOut, context.graph, context.variables@[j] as nat, members(*state)).contains(x);
                    if j != i {
                        assert(tail.contains(x));
                    }
                }
            }
        }
        Ok(pre)
    }

    proof fn limit_kept(context: &ReachabilityConfig, s: Set<ColoredVertex>) {
        let f = Self::found(context, s);
        assert forall|x: ColoredVertex| f.contains(x) implies reach(converse(context.moves()), s).contains(x) && !s.contains(x) by {
            let j = choose|j: int| 0 <= j < context.variables@.len() && #[trigger] probe(Probe::PreOut, context.graph, context.variables@[j] as nat, s).contains(x);
            lemma_pre_out_reached(context, s, j);
        }
        if f.is_empty() {
            assert forall|j: int| 0 <= j < context.variables@.len() implies (#[trigger] probe(Probe::PreOut, context.graph, context.variables@[j] as nat, s)).is_empty() by {
                let answer = probe(Probe::PreOut, context.graph, context.variables@[j] as nat, s);
                assert forall|x: ColoredVertex| !answer.contains(x) by {
                    if answer.contains(x) {
                        assert(f.contains(x));
                    }
                }
                assert(answer =~= Set::empty());
            }
            lemma_no_pre_out_closed(context, s);
        }
        lemma_growing_round(converse(context.moves()), s, f);
    }
}

} // verus!
