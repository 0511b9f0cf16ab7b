//! The symbolic sets and graphs that every algorithm of this crate works on.
//!
//! The sets are binary decision diagrams kept by `biodivine_lib_param_bn`. This module
//! gives each of them a mathematical model and states, for every operation that the
//! algorithms call, what the operation does to that model. The statements are taken from
//! the documentation and the source of the symbolic library and are not proved here; they
//! hold for diagrams in reduced form, which is the only form the operations below produce.
//!
//! A symbolic set is modelled as a set of pairs of a vertex and a colour, both sequences of
//! Boolean values: the values of the network variables and the values of the symbolic
//! parameter variables. A graph is modelled as a set of steps `(variable, source, target,
//! colour)`: under the given colour, updating the variable takes the source vertex to the
//! target vertex.

use biodivine_lib_param_bn::biodivine_std::traits::Set as SymbolicSet;
use biodivine_lib_param_bn::symbolic_async_graph::{
    GraphColoredVertices, GraphColors, SymbolicAsyncGraph,
};
use biodivine_lib_param_bn::VariableId;
use vstd::prelude::*;

verus! {

#[verifier::external_type_specification]
#[verifier::external_body]
pub struct ExGraphColoredVertices(GraphColoredVertices);

#[verifier::external_type_specification]
#[verifier::external_body]
pub struct ExGraphColors(GraphColors);

#[verifier::external_type_specification]
#[verifier::external_body]
pub struct ExSymbolicAsyncGraph(SymbolicAsyncGraph);

/// A vertex of the state-transition graph together with a colour.
pub type ColoredVertex = (Seq<bool>, Seq<bool>);

/// How a symbolic set is laid out: the number of diagram variables, then the diagram
/// variable of every network variable, then the diagram variable of every parameter.
pub type Encoding = (nat, Seq<nat>, Seq<nat>);

/// The pairs of vertex and colour that a symbolic set holds.
pub uninterp spec fn members(set: GraphColoredVertices) -> Set<(Seq<bool>, Seq<bool>)>;

/// The layout of the diagram behind a symbolic set.
pub uninterp spec fn encoding(set: GraphColoredVertices) -> (nat, Seq<nat>, Seq<nat>);

/// The number of diagram nodes that represent a symbolic set.
pub uninterp spec fn node_count(set: GraphColoredVertices) -> nat;

/// The colours that a symbolic colour set holds.
pub uninterp spec fn colors_in(colors: GraphColors) -> Set<Seq<bool>>;

/// The layout of the diagram behind a colour set: the number of diagram variables and the
/// diagram variable of every parameter.
pub uninterp spec fn color_encoding(colors: GraphColors) -> (nat, Seq<nat>);

/// The steps `(variable, source, target, colour)` of a symbolic graph.
pub uninterp spec fn steps(graph: SymbolicAsyncGraph) -> Set<(nat, Seq<bool>, Seq<bool>, Seq<bool>)>;

/// The pairs of vertex and colour that make up the unit set of a symbolic graph.
pub uninterp spec fn unit_members(graph: SymbolicAsyncGraph) -> Set<(Seq<bool>, Seq<bool>)>;

/// The layout shared by all sets of a symbolic graph.
pub uninterp spec fn graph_encoding(graph: SymbolicAsyncGraph) -> (nat, Seq<nat>, Seq<nat>);

/// Every pair of `s` has one value per network variable and one per parameter variable.
pub open spec fn fits(s: Set<ColoredVertex>, e: Encoding) -> bool {
    forall|x: ColoredVertex| #[trigger] s.contains(x) ==> x.0.len() == e.1.len() && x.1.len() == e.2.len()
}

/// The set is laid out as the graph's sets are, and its pairs have the lengths of that layout.
pub open spec fn belongs(set: GraphColoredVertices, graph: SymbolicAsyncGraph) -> bool {
    &&& encoding(set) == graph_encoding(graph)
    &&& fits(members(set), encoding(set))
}

/// The number of network variables of the graph.
pub open spec fn variable_count(graph: SymbolicAsyncGraph) -> nat {
    graph_encoding(graph).1.len()
}

/// Updating variable `v` takes `a` to `b`; the colour stays.
pub open spec fn has_step(graph: SymbolicAsyncGraph, v: nat, a: ColoredVertex, b: ColoredVertex) -> bool {
    a.1 == b.1 && steps(graph).contains((v, a.0, b.0, a.1))
}

/// The pairs reached from `s` by one update of variable `v`.
pub open spec fn var_successors(graph: SymbolicAsyncGraph, v: nat, s: Set<ColoredVertex>) -> Set<ColoredVertex> {
    Set::new(|b: ColoredVertex| exists|a: ColoredVertex| s.contains(a) && #[trigger] has_step(graph, v, a, b))
}

/// The pairs from which one update of variable `v` leads into `s`.
pub open spec fn var_predecessors(graph: SymbolicAsyncGraph, v: nat, s: Set<ColoredVertex>) -> Set<ColoredVertex> {
    Set::new(|a: ColoredVertex| exists|b: ColoredVertex| s.contains(b) && #[trigger] has_step(graph, v, a, b))
}

/// The pairs reached from `s` by one update of any network variable.
pub open spec fn successors(graph: SymbolicAsyncGraph, s: Set<ColoredVertex>) -> Set<ColoredVertex> {
    Set::new(|b: ColoredVertex| exists|v: nat| v < variable_count(graph) && #[trigger] var_successors(graph, v, s).contains(b))
}

/// The pairs from which one update of any network variable leads into `s`.
pub open spec fn predecessors(graph: SymbolicAsyncGraph, s: Set<ColoredVertex>) -> Set<ColoredVertex> {
    Set::new(|a: ColoredVertex| exists|v: nat| v < variable_count(graph) && #[trigger] var_predecessors(graph, v, s).contains(a))
}

/// The colours that occur in `s`.
pub open spec fn colors_of(s: Set<ColoredVertex>) -> Set<Seq<bool>> {
    Set::new(|c: Seq<bool>| exists|x: ColoredVertex| #[trigger] s.contains(x) && x.1 == c)
}

/// The pairs of `s` whose colour is in `colors`.
pub open spec fn with_colors(s: Set<ColoredVertex>, colors: Set<Seq<bool>>) -> Set<ColoredVertex> {
    Set::new(|x: ColoredVertex| s.contains(x) && colors.contains(x.1))
}

/// The pairs of `s` whose colour is not in `colors`.
pub open spec fn without_colors(s: Set<ColoredVertex>, colors: Set<Seq<bool>>) -> Set<ColoredVertex> {
    Set::new(|x: ColoredVertex| s.contains(x) && !colors.contains(x.1))
}

/// `p` keeps, for every colour of `s`, exactly one vertex of `s`.
pub open spec fn picks_one_vertex_per_color(p: Set<ColoredVertex>, s: Set<ColoredVertex>) -> bool {
    &&& p.subset_of(s)
    &&& forall|x: ColoredVertex| #[trigger] s.contains(x) ==> colors_of(p).contains(x.1)
    &&& forall|x: ColoredVertex, y: ColoredVertex| #[trigger] p.contains(x) && #[trigger] p.contains(y) && x.1 == y.1 ==> x == y
}

/// The steps of `graph` whose source and target both lie in `s`.
pub open spec fn steps_within(graph: SymbolicAsyncGraph, s: Set<ColoredVertex>) -> Set<(nat, Seq<bool>, Seq<bool>, Seq<bool>)> {
    Set::new(|t: (nat, Seq<bool>, Seq<bool>, Seq<bool>)| steps(graph).contains(t) && s.contains((t.1, t.3)) && s.contains((t.2, t.3)))
}

/// `Clone::clone` of a symbolic set: the copy is the same set.
#[verifier::external_body]
pub(crate) fn clone_set(set: &GraphColoredVertices) -> (r: GraphColoredVertices)
    ensures
        r == *set,
{
    set.clone()
}

/// `Set::union` of two symbolic sets of one layout: the pairs of either.
#[verifier::external_body]
pub(crate) fn union(a: &GraphColoredVertices, b: &GraphColoredVertices) -> (r: GraphColoredVertices)
    requires
        encoding(*a) == encoding(*b),
    ensures
        encoding(r) == encoding(*a),
        members(r) == members(*a).union(members(*b)),
{
    a.union(b)
}

/// `Set::intersect` of two symbolic sets of one layout: the pairs of both.
#[verifier::external_body]
pub(crate) fn intersect(a: &GraphColoredVertices, b: &GraphColoredVertices) -> (r: GraphColoredVertices)
    requires
        encoding(*a) == encoding(*b),
    ensures
        encoding(r) == encoding(*a),
        members(r) == members(*a).intersect(members(*b)),
{
    a.intersect(b)
}

/// `Set::minus` of two symbolic sets of one layout: the pairs of the first that the second lacks.
#[verifier::external_body]
pub(crate) fn minus(a: &GraphColoredVertices, b: &GraphColoredVertices) -> (r: GraphColoredVertices)
    requires
        encoding(*a) == encoding(*b),
    ensures
        encoding(r) == encoding(*a),
        members(r) == members(*a).difference(members(*b)),
{
    a.minus(b)
}

/// `Set::is_empty` of a symbolic set: whether it holds no pair.
#[verifier::external_body]
pub(crate) fn is_empty(set: &GraphColoredVertices) -> (r: bool)
    ensures
        r == members(*set).is_empty(),
{
    set.is_empty()
}

/// `Set::is_subset` of two symbolic sets of one layout: whether the second holds every pair of the first.
#[verifier::external_body]
pub(crate) fn is_subset(a: &GraphColoredVertices, b: &GraphColoredVertices) -> (r: bool)
    requires
        encoding(*a) == encoding(*b),
    ensures
        r == members(*a).subset_of(members(*b)),
{
    a.is_subset(b)
}

/// `==` of two symbolic sets of one layout: whether they hold the same pairs. The symbolic
/// library compares the diagrams node by node; it keeps every diagram ordered and reduced
/// and documents that equal sets then have the same diagram.
#[verifier::external_body]
pub(crate) fn same_set(a: &GraphColoredVertices, b: &GraphColoredVertices) -> (r: bool)
    requires
        encoding(*a) == encoding(*b),
    ensures
        r == (members(*a) == members(*b)),
{
    a == b
}

/// `GraphColoredVertices::symbolic_size`: the number of diagram nodes.
#[verifier::external_body]
pub(crate) fn symbolic_size(set: &GraphColoredVertices) -> (r: usize)
    ensures
        r == node_count(*set),
{
    set.symbolic_size()
}

/// `GraphColoredVertices::pick_vertex`: a subset that keeps one vertex for every colour.
#[verifier::external_body]
pub(crate) fn pick_vertex(set: &GraphColoredVertices) -> (r: GraphColoredVertices)
    ensures
        encoding(r) == encoding(*set),
        picks_one_vertex_per_color(members(r), members(*set)),
{
    set.pick_vertex()
}

/// `GraphColoredVertices::colors`: the colours that occur in the set.
#[verifier::external_body]
pub(crate) fn colors(set: &GraphColoredVertices) -> (r: GraphColors)
    ensures
        color_encoding(r) == (encoding(*set).0, encoding(*set).2),
        colors_in(r) == colors_of(members(*set)),
{
    set.colors()
}

/// `GraphColoredVertices::intersect_colors`: the pairs whose colour is in the colour set.
#[verifier::external_body]
pub(crate) fn intersect_colors(set: &GraphColoredVertices, colors: &GraphColors) -> (r: GraphColoredVertices)
    requires
        color_encoding(*colors) == (encoding(*set).0, encoding(*set).2),
    ensures
        encoding(r) == encoding(*set),
        members(r) == with_colors(members(*set), colors_in(*colors)),
{
    set.intersect_colors(colors)
}

/// `GraphColoredVertices::minus_colors`: the pairs whose colour is not in the colour set.
#[verifier::external_body]
pub(crate) fn minus_colors(set: &GraphColoredVertices, colors: &GraphColors) -> (r: GraphColoredVertices)
    requires
        color_encoding(*colors) == (encoding(*set).0, encoding(*set).2),
    ensures
        encoding(r) == encoding(*set),
        members(r) == without_colors(members(*set), colors_in(*colors)),
{
    set.minus_colors(colors)
}

/// `Set::intersect` of two colour sets of one layout: the colours of both.
#[verifier::external_body]
pub(crate) fn intersect_color_sets(a: &GraphColors, b: &GraphColors) -> (r: GraphColors)
    requires
        color_encoding(*a) == color_encoding(*b),
    ensures
        color_encoding(r) == color_encoding(*a),
        colors_in(r) == colors_in(*a).intersect(colors_in(*b)),
{
    a.intersect(b)
}

/// `Set::is_empty` of a colour set: whether it holds no colour.
#[verifier::external_body]
pub(crate) fn no_colors(colors: &GraphColors) -> (r: bool)
    ensures
        r == colors_in(*colors).is_empty(),
{
    colors.is_empty()
}

/// `GraphColors::is_singleton`: whether the set holds exactly one colour.
#[verifier::external_body]
pub(crate) fn single_color(colors: &GraphColors) -> (r: bool)
    ensures
        r == (exists|c: Seq<bool>| colors_in(*colors) == set![c]),
{
    colors.is_singleton()
}

/// `Clone::clone` of a symbolic graph: the copy is the same graph.
#[verifier::external_body]
pub(crate) fn clone_graph(graph: &SymbolicAsyncGraph) -> (r: SymbolicAsyncGraph)
    ensures
        r == *graph,
{
    graph.clone()
}

/// `SymbolicAsyncGraph::num_vars`: the number of network variables.
#[verifier::external_body]
pub(crate) fn num_vars(graph: &SymbolicAsyncGraph) -> (r: usize)
    ensures
        r == variable_count(*graph),
{
    graph.num_vars()
}

/// `SymbolicAsyncGraph::mk_empty_colored_vertices`: the empty set in the graph's layout.
#[verifier::external_body]
pub(crate) fn mk_empty_colored_vertices(graph: &SymbolicAsyncGraph) -> (r: GraphColoredVertices)
    ensures
        encoding(r) == graph_encoding(*graph),
        members(r) == Set::<ColoredVertex>::empty(),
{
    graph.mk_empty_colored_vertices()
}

/// `SymbolicAsyncGraph::mk_unit_colored_vertices`: the unit set of the graph.
#[verifier::external_body]
pub(crate) fn mk_unit_colored_vertices(graph: &SymbolicAsyncGraph) -> (r: GraphColoredVertices)
    ensures
        belongs(r, *graph),
        members(r) == unit_members(*graph),
{
    graph.mk_unit_colored_vertices()
}

/// `SymbolicAsyncGraph::restrict`: the graph with the same layout whose unit set is `set` and
/// whose steps are the steps that start and end in `set`.
#[verifier::external_body]
pub(crate) fn restrict(graph: &SymbolicAsyncGraph, set: &GraphColoredVertices) -> (r: SymbolicAsyncGraph)
    requires
        encoding(*set) == graph_encoding(*graph),
    ensures
        graph_encoding(r) == graph_encoding(*graph),
        unit_members(r) == members(*set),
        steps(r) == steps_within(*graph, members(*set)),
{
    graph.restrict(set)
}

/// `SymbolicAsyncGraph::var_post`: the successors of the set under one variable.
#[verifier::external_body]
pub(crate) fn var_post(graph: &SymbolicAsyncGraph, var: usize, set: &GraphColoredVertices) -> (r: GraphColoredVertices)
    requires
        var < variable_count(*graph),
        encoding(*set) == graph_encoding(*graph),
    ensures
        belongs(r, *graph),
        members(r) == var_successors(*graph, var as nat, members(*set)),
{
    graph.var_post(VariableId::from_index(var), set)
}

/// `SymbolicAsyncGraph::var_post_out`: the successors under one variable that are not in the set.
#[verifier::external_body]
pub(crate) fn var_post_out(graph: &SymbolicAsyncGraph, var: usize, set: &GraphColoredVertices) -> (r: GraphColoredVertices)
    requires
        var < variable_count(*graph),
        encoding(*set) == graph_encoding(*graph),
    ensures
        belongs(r, *graph),
        members(r) == var_successors(*graph, var as nat, members(*set)).difference(members(*set)),
{
    graph.var_post_out(VariableId::from_index(var), set)
}

/// `SymbolicAsyncGraph::var_pre_out`: the predecessors under one variable that are not in the set.
#[verifier::external_body]
pub(crate) fn var_pre_out(graph: &SymbolicAsyncGraph, var: usize, set: &GraphColoredVertices) -> (r: GraphColoredVertices)
    requires
        var < variable_count(*graph),
        encoding(*set) == graph_encoding(*graph),
    ensures
        belongs(r, *graph),
        members(r) == var_predecessors(*graph, var as nat, members(*set)).difference(members(*set)),
{
    graph.var_pre_out(VariableId::from_index(var), set)
}

/// `SymbolicAsyncGraph::var_can_post`: the pairs of the set that have a successor under the variable.
#[verifier::external_body]
pub(crate) fn var_can_post(graph: &SymbolicAsyncGraph, var: usize, set: &GraphColoredVertices) -> (r: GraphColoredVertices)
    requires
        var < variable_count(*graph),
        encoding(*set) == graph_encoding(*graph),
    ensures
        encoding(r) == encoding(*set),
        members(r) == members(*set).intersect(var_predecessors(*graph, var as nat, Set::full())),
{
    graph.var_can_post(VariableId::from_index(var), set)
}

/// `SymbolicAsyncGraph::var_can_post_out`: the pairs of the set that have a successor under the
/// variable outside the set.
#[verifier::external_body]
pub(crate) fn var_can_post_out(graph: &SymbolicAsyncGraph, var: usize, set: &GraphColoredVertices) -> (r: GraphColoredVertices)
    requires
        var < variable_count(*graph),
        encoding(*set) == graph_encoding(*graph),
    ensures
        encoding(r) == encoding(*set),
        members(r) == members(*set).intersect(var_predecessors(*graph, var as nat, members(*set).complement())),
{
    graph.var_can_post_out(VariableId::from_index(var), set)
}

/// `SymbolicAsyncGraph::var_can_pre_out`: the pairs of the set that have a predecessor under the
/// variable outside the set.
#[verifier::external_body]
pub(crate) fn var_can_pre_out(graph: &SymbolicAsyncGraph, var: usize, set: &GraphColoredVertices) -> (r: GraphColoredVertices)
    requires
        var < variable_count(*graph),
        encoding(*set) == graph_encoding(*graph),
    ensures
        encoding(r) == encoding(*set),
        members(r) == members(*set).intersect(var_successors(*graph, var as nat, members(*set).complement())),
{
    graph.var_can_pre_out(VariableId::from_index(var), set)
}

/// `SymbolicAsyncGraph::var_can_post_within`: the pairs of the set that have a successor under the
/// variable inside the set.
#[verifier::external_body]
pub(crate) fn var_can_post_within(graph: &SymbolicAsyncGraph, var: usize, set: &GraphColoredVertices) -> (r: GraphColoredVertices)
    requires
        var < variable_count(*graph),
        encoding(*set) == graph_encoding(*graph),
    ensures
        encoding(r) == encoding(*set),
        members(r) == members(*set).intersect(var_predecessors(*graph, var as nat, members(*set))),
{
    graph.var_can_post_within(VariableId::from_index(var), set)
}

/// `SymbolicAsyncGraph::var_can_pre_within`: the pairs of the set that have a predecessor under the
/// variable inside the set.
#[verifier::external_body]
pub(crate) fn var_can_pre_within(graph: &SymbolicAsyncGraph, var: usize, set: &GraphColoredVertices) -> (r: GraphColoredVertices)
    requires
        var < variable_count(*graph),
        encoding(*set) == graph_encoding(*graph),
    ensures
        encoding(r) == encoding(*set),
        members(r) == members(*set).intersect(var_successors(*graph, var as nat, members(*set))),
{
    graph.var_can_pre_within(VariableId::from_index(var), set)
}

/// `SymbolicAsyncGraph::post`: the successors of the set under any network variable.
#[verifier::external_body]
pub(crate) fn post(graph: &SymbolicAsyncGraph, set: &GraphColoredVertices) -> (r: GraphColoredVertices)
    requires
        encoding(*set) == graph_encoding(*graph),
    ensures
        belongs(r, *graph),
        members(r) == successors(*graph, members(*set)),
{
    graph.post(set)
}

/// `SymbolicAsyncGraph::pre`: the predecessors of the set under any network variable.
#[verifier::external_body]
pub(crate) fn pre(graph: &SymbolicAsyncGraph, set: &GraphColoredVertices) -> (r: GraphColoredVertices)
    requires
        encoding(*set) == graph_encoding(*graph),
    ensures
        belongs(r, *graph),
        members(r) == predecessors(*graph, members(*set)),
{
    graph.pre(set)
}

/// `SymbolicAsyncGraph::can_post_out`: the pairs of the set with a successor outside the set.
#[verifier::external_body]
pub(crate) fn can_post_out(graph: &SymbolicAsyncGraph, set: &GraphColoredVertices) -> (r: GraphColoredVertices)
    requires
        encoding(*set) == graph_encoding(*graph),
    ensures
        encoding(r) == encoding(*set),
        members(r) == members(*set).intersect(predecessors(*graph, members(*set).complement())),
{
    graph.can_post_out(set)
}

/// `SymbolicAsyncGraph::can_pre_out`: the pairs of the set with a predecessor outside the set.
#[verifier::external_body]
pub(crate) fn can_pre_out(graph: &SymbolicAsyncGraph, set: &GraphColoredVertices) -> (r: GraphColoredVertices)
    requires
        encoding(*set) == graph_encoding(*graph),
    ensures
        encoding(r) == encoding(*set),
        members(r) == members(*set).intersect(successors(*graph, members(*set).complement())),
{
    graph.can_pre_out(set)
}

} // verus!
