//! Binary relations on a set of points: paths, reachable sets, closed sets and greatest
//! subsets. The graph algorithms state their results in these terms.

use vstd::prelude::*;

verus! {

/// The relation turned round.
pub open spec fn converse<A>(r: Set<(A, A)>) -> Set<(A, A)> {
    Set::new(|p: (A, A)| r.contains((p.1, p.0)))
}

/// There is a path of exactly `k` steps of `r` from `a` to `b`.
pub open spec fn links<A>(r: Set<(A, A)>, a: A, b: A, k: nat) -> bool
    decreases k,
{
    if k == 0 {
        a == b
    } else {
        exists|m: A| links(r, a, m, (k - 1) as nat) && #[trigger] r.contains((m, b))
    }
}

/// There is a path of any length, possibly zero, from `a` to `b`.
pub open spec fn connects<A>(r: Set<(A, A)>, a: A, b: A) -> bool {
    exists|k: nat| links(r, a, b, k)
}

/// The points to which there is a path from a point of `s`.
#[verifier::opaque]
pub open spec fn reach<A>(r: Set<(A, A)>, s: Set<A>) -> Set<A> {
    Set::new(|b: A| exists|a: A| s.contains(a) && #[trigger] connects(r, a, b))
}

/// No step of `r` leaves `s`.
pub open spec fn closed<A>(r: Set<(A, A)>, s: Set<A>) -> bool {
    forall|a: A, b: A| s.contains(a) && #[trigger] r.contains((a, b)) ==> s.contains(b)
}

/// The point `a` has a step of `r` to a point of `s`.
pub open spec fn has_next<A>(r: Set<(A, A)>, s: Set<A>, a: A) -> bool {
    exists|b: A| s.contains(b) && #[trigger] r.contains((a, b))
}

/// Every point of `s` has a step of `r` to a point of `s`.
pub open spec fn sustained<A>(r: Set<(A, A)>, s: Set<A>) -> bool {
    forall|a: A| s.contains(a) ==> #[trigger] has_next(r, s, a)
}

/// The union of the subsets of `s` that have property `p`. Where `p` is kept by unions,
/// this is the greatest subset of `s` with the property.
pub open spec fn greatest<A>(p: spec_fn(Set<A>) -> bool, s: Set<A>) -> Set<A> {
    Set::new(|x: A| exists|c: Set<A>| #[trigger] c.subset_of(s) && p(c) && c.contains(x))
}

/// The greatest subset of `s` that no step of `r` leaves.
pub open spec fn trap<A>(r: Set<(A, A)>, s: Set<A>) -> Set<A> {
    greatest(|c: Set<A>| closed(r, c), s)
}

/// The greatest subset of `s` in which every point has a successor.
pub open spec fn lively<A>(r: Set<(A, A)>, s: Set<A>) -> Set<A> {
    greatest(|c: Set<A>| sustained(r, c), s)
}

/// The greatest subset of `s` in which every point has a successor and a predecessor.
pub open spec fn kernel<A>(r: Set<(A, A)>, s: Set<A>) -> Set<A> {
    greatest(|c: Set<A>| sustained(r, c) && sustained(converse(r), c), s)
}

/// The points that lie on a common cycle with `x`, and `x` itself.
pub open spec fn component<A>(r: Set<(A, A)>, x: A) -> Set<A> {
    Set::new(|y: A| connects(r, x, y) && connects(r, y, x))
}

pub proof fn lemma_links_step<A>(r: Set<(A, A)>, a: A, m: A, b: A, k: nat)
    requires
        r.contains((a, m)),
        links(r, m, b, k),
    ensures
        links(r, a, b, k + 1),
    decreases k,
{
    if k == 0 {
        assert(links(r, a, a, 0));
    } else {
        let n = choose|n: A| links(r, m, n, (k - 1) as nat) && #[trigger] r.contains((n, b));
        lemma_links_step(r, a, m, n, (k - 1) as nat);
        assert(links(r, a, n, k));
    }
}

pub proof fn lemma_links_join<A>(r: Set<(A, A)>, a: A, b: A, c: A, j: nat, k: nat)
    requires
        links(r, a, b, j),
        links(r, b, c, k),
    ensures
        links(r, a, c, j + k),
    decreases k,
{
    if k > 0 {
        let n = choose|n: A| links(r, b, n, (k - 1) as nat) && #[trigger] r.contains((n, c));
        lemma_links_join(r, a, b, n, j, (k - 1) as nat);
        assert(links(r, a, n, (j + k - 1) as nat));
    }
}

/// A path read backwards is a path of the converse relation.
pub proof fn lemma_links_converse<A>(r: Set<(A, A)>, a: A, b: A, k: nat)
    requires
        links(r, a, b, k),
    ensures
        links(converse(r), b, a, k),
    decreases k,
{
    if k > 0 {
        let n = choose|n: A| links(r, a, n, (k - 1) as nat) && #[trigger] r.contains((n, b));
        lemma_links_converse(r, a, n, (k - 1) as nat);
        assert(converse(r).contains((b, n)));
        lemma_links_step(converse(r), b, n, a, (k - 1) as nat);
    }
}

pub proof fn lemma_converse_twice<A>(r: Set<(A, A)>)
    ensures
        converse(converse(r)) == r,
{
    assert(converse(converse(r)) =~= r);
}

pub proof fn lemma_connects_converse<A>(r: Set<(A, A)>, a: A, b: A)
    ensures
        connects(r, a, b) == connects(converse(r), b, a),
{
    if connects(r, a, b) {
        let k = choose|k: nat| links(r, a, b, k);
        lemma_links_converse(r, a, b, k);
    }
    if connects(converse(r), b, a) {
        let k = choose|k: nat| links(converse(r), b, a, k);
        lemma_links_converse(converse(r), b, a, k);
        lemma_converse_twice(r);
    }
}

pub proof fn lemma_connects_join<A>(r: Set<(A, A)>, a: A, b: A, c: A)
    requires
        connects(r, a, b),
        connects(r, b, c),
    ensures
        connects(r, a, c),
{
    let j = choose|j: nat| links(r, a, b, j);
    let k = choose|k: nat| links(r, b, c, k);
    lemma_links_join(r, a, b, c, j, k);
}

pub proof fn lemma_connects_self<A>(r: Set<(A, A)>, a: A)
    ensures
        connects(r, a, a),
{
    assert(links(r, a, a, 0));
}

pub proof fn lemma_connects_step<A>(r: Set<(A, A)>, a: A, b: A)
    requires
        r.contains((a, b)),
    ensures
        connects(r, a, b),
{
    assert(links(r, a, a, 0));
    assert(links(r, a, b, 1));
}

/// A path that starts in a closed set ends in it.
pub proof fn lemma_closed_keeps_paths<A>(r: Set<(A, A)>, s: Set<A>, a: A, b: A, k: nat)
    requires
        closed(r, s),
        s.contains(a),
        links(r, a, b, k),
    ensures
        s.contains(b),
    decreases k,
{
    if k > 0 {
        let n = choose|n: A| links(r, a, n, (k - 1) as nat) && #[trigger] r.contains((n, b));
        lemma_closed_keeps_paths(r, s, a, n, (k - 1) as nat);
    }
}

/// The reachable set holds its starting points.
pub proof fn lemma_reach_holds_start<A>(r: Set<(A, A)>, s: Set<A>)
    ensures
        s.subset_of(reach(r, s)),
{
    reveal(reach);
    assert forall|a: A| s.contains(a) implies reach(r, s).contains(a) by {
        lemma_connects_self(r, a);
    }
}

/// The reachable set is closed.
pub proof fn lemma_reach_closed<A>(r: Set<(A, A)>, s: Set<A>)
    ensures
        closed(r, reach(r, s)),
{
    reveal(reach);
    assert forall|a: A, b: A| reach(r, s).contains(a) && #[trigger] r.contains((a, b)) implies reach(r, s).contains(b) by {
        let o = choose|o: A| s.contains(o) && #[trigger] connects(r, o, a);
        lemma_connects_step(r, a, b);
        lemma_connects_join(r, o, a, b);
    }
}

/// The reachable set is the least closed set that holds the starting points.
pub proof fn lemma_reach_least<A>(r: Set<(A, A)>, s: Set<A>, t: Set<A>)
    requires
        s.subset_of(t),
        closed(r, t),
    ensures
        reach(r, s).subset_of(t),
{
    reveal(reach);
    assert forall|b: A| reach(r, s).contains(b) implies t.contains(b) by {
        let a = choose|a: A| s.contains(a) && #[trigger] connects(r, a, b);
        let k = choose|k: nat| links(r, a, b, k);
        lemma_closed_keeps_paths(r, t, a, b, k);
    }
}

/// A closed set is its own reachable set.
pub proof fn lemma_reach_of_closed<A>(r: Set<(A, A)>, s: Set<A>)
    requires
        closed(r, s),
    ensures
        reach(r, s) == s,
{
    lemma_reach_holds_start(r, s);
    lemma_reach_least(r, s, s);
    assert(reach(r, s) =~= s);
}

/// Adding reachable points to the starting points does not change what is reachable.
pub proof fn lemma_reach_absorbs<A>(r: Set<(A, A)>, s: Set<A>, t: Set<A>)
    requires
        s.subset_of(t),
        t.subset_of(reach(r, s)),
    ensures
        reach(r, t) == reach(r, s),
{
    reveal(reach);
    lemma_reach_closed(r, s);
    lemma_reach_least(r, t, reach(r, s));
    assert forall|b: A| reach(r, s).contains(b) implies reach(r, t).contains(b) by {
        let a = choose|a: A| s.contains(a) && #[trigger] connects(r, a, b);
        assert(t.contains(a));
    }
    assert(reach(r, t) =~= reach(r, s));
}

/// Nothing is reachable from the empty set.
pub proof fn lemma_reach_empty<A>(r: Set<(A, A)>)
    ensures
        reach(r, Set::<A>::empty()) == Set::<A>::empty(),
{
    reveal(reach);
    assert(reach(r, Set::<A>::empty()) =~= Set::<A>::empty());
}

/// The greatest subset lies in the set.
pub proof fn lemma_greatest_inside<A>(p: spec_fn(Set<A>) -> bool, s: Set<A>)
    ensures
        greatest(p, s).subset_of(s),
{
}

/// Every subset with the property lies in the greatest subset.
pub proof fn lemma_greatest_holds<A>(p: spec_fn(Set<A>) -> bool, s: Set<A>, c: Set<A>)
    requires
        c.subset_of(s),
        p(c),
    ensures
        c.subset_of(greatest(p, s)),
{
}

/// A set with the property is its own greatest subset.
pub proof fn lemma_greatest_of_fixed<A>(p: spec_fn(Set<A>) -> bool, s: Set<A>)
    requires
        p(s),
    ensures
        greatest(p, s) == s,
{
    assert(s.subset_of(s));
    assert(greatest(p, s) =~= s);
}

/// Removing points outside the greatest subset does not change it.
pub proof fn lemma_greatest_absorbs<A>(p: spec_fn(Set<A>) -> bool, s: Set<A>, t: Set<A>)
    requires
        t.subset_of(s),
        greatest(p, s).subset_of(t),
    ensures
        greatest(p, t) == greatest(p, s),
{
    assert forall|x: A| greatest(p, s).contains(x) implies greatest(p, t).contains(x) by {
        let c = choose|c: Set<A>| #[trigger] c.subset_of(s) && p(c) && c.contains(x);
        assert(c.subset_of(greatest(p, s)));
        assert(c.subset_of(t));
    }
    assert forall|x: A| greatest(p, t).contains(x) implies greatest(p, s).contains(x) by {
        let c = choose|c: Set<A>| #[trigger] c.subset_of(t) && p(c) && c.contains(x);
        assert(c.subset_of(s));
    }
    assert(greatest(p, t) =~= greatest(p, s));
}

/// The greatest subset of the empty set is empty.
pub proof fn lemma_greatest_empty<A>(p: spec_fn(Set<A>) -> bool)
    ensures
        greatest(p, Set::<A>::empty()) == Set::<A>::empty(),
{
    assert(greatest(p, Set::<A>::empty()) =~= Set::<A>::empty());
}

/// The trap of a set is closed.
pub proof fn lemma_trap_closed<A>(r: Set<(A, A)>, s: Set<A>)
    ensures
        closed(r, trap(r, s)),
{
    let p = |c: Set<A>| closed(r, c);
    assert forall|a: A, b: A| trap(r, s).contains(a) && #[trigger] r.contains((a, b)) implies trap(r, s).contains(b) by {
        let c = choose|c: Set<A>| #[trigger] c.subset_of(s) && p(c) && c.contains(a);
        assert(c.contains(b));
    }
}

/// The lively part of a set is sustained.
pub proof fn lemma_lively_sustained<A>(r: Set<(A, A)>, s: Set<A>)
    ensures
        sustained(r, lively(r, s)),
{
    let p = |c: Set<A>| sustained(r, c);
    assert forall|a: A| lively(r, s).contains(a) implies #[trigger] has_next(r, lively(r, s), a) by {
        let c = choose|c: Set<A>| #[trigger] c.subset_of(s) && p(c) && c.contains(a);
        assert(has_next(r, c, a));
        let b = choose|b: A| c.contains(b) && #[trigger] r.contains((a, b));
        assert(lively(r, s).contains(b));
    }
}

/// The kernel of a set is sustained in both directions.
pub proof fn lemma_kernel_sustained<A>(r: Set<(A, A)>, s: Set<A>)
    ensures
        sustained(r, kernel(r, s)),
        sustained(converse(r), kernel(r, s)),
{
    let p = |c: Set<A>| sustained(r, c) && sustained(converse(r), c);
    assert forall|a: A| kernel(r, s).contains(a) implies #[trigger] has_next(r, kernel(r, s), a) by {
        let c = choose|c: Set<A>| #[trigger] c.subset_of(s) && p(c) && c.contains(a);
        assert(has_next(r, c, a));
        let b = choose|b: A| c.contains(b) && #[trigger] r.contains((a, b));
        assert(kernel(r, s).contains(b));
    }
    assert forall|a: A| kernel(r, s).contains(a) implies #[trigger] has_next(converse(r), kernel(r, s), a) by {
        let c = choose|c: Set<A>| #[trigger] c.subset_of(s) && p(c) && c.contains(a);
        assert(has_next(converse(r), c, a));
        let b = choose|b: A| c.contains(b) && #[trigger] converse(r).contains((a, b));
        assert(kernel(r, s).contains(b));
    }
}

/// The law of a round that shrinks a set towards its trap: it removes points `f` of the
/// set that have a step out of the set, and finds none only where the set is closed.
pub proof fn lemma_trap_round<A>(r: Set<(A, A)>, s: Set<A>, f: Set<A>)
    requires
        f.subset_of(s),
        forall|x: A| #[trigger] f.contains(x) ==> exists|b: A| !s.contains(b) && #[trigger] r.contains((x, b)),
        f.is_empty() ==> closed(r, s),
    ensures
        trap(r, s.union(f)) == trap(r, s),
        trap(r, s.difference(f)) == trap(r, s),
        f.is_empty() ==> trap(r, s) == s,
{
    let p = |c: Set<A>| closed(r, c);
    assert(s.union(f) =~= s);
    assert forall|x: A| trap(r, s).contains(x) implies s.difference(f).contains(x) by {
        let c = choose|c: Set<A>| #[trigger] c.subset_of(s) && p(c) && c.contains(x);
        if f.contains(x) {
            let b = choose|b: A| !s.contains(b) && #[trigger] r.contains((x, b));
            assert(c.contains(b));
        }
    }
    lemma_greatest_absorbs(p, s, s.difference(f));
    if f.is_empty() {
        lemma_greatest_of_fixed(p, s);
    }
}

/// The law of a round that shrinks a set towards its lively part: it removes points `f`
/// of the set that have no successor in the set, and finds none only where every point
/// has one.
pub proof fn lemma_lively_round<A>(r: Set<(A, A)>, s: Set<A>, f: Set<A>)
    requires
        f.subset_of(s),
        forall|x: A| #[trigger] f.contains(x) ==> !has_next(r, s, x),
        f.is_empty() ==> sustained(r, s),
    ensures
        lively(r, s.union(f)) == lively(r, s),
        lively(r, s.difference(f)) == lively(r, s),
        f.is_empty() ==> lively(r, s) == s,
{
    let p = |c: Set<A>| sustained(r, c);
    assert(s.union(f) =~= s);
    assert forall|x: A| lively(r, s).contains(x) implies s.difference(f).contains(x) by {
        let c = choose|c: Set<A>| #[trigger] c.subset_of(s) && p(c) && c.contains(x);
        assert(has_next(r, c, x));
        let b = choose|b: A| c.contains(b) && #[trigger] r.contains((x, b));
        assert(s.contains(b));
        assert(has_next(r, s, x));
    }
    lemma_greatest_absorbs(p, s, s.difference(f));
    if f.is_empty() {
        lemma_greatest_of_fixed(p, s);
    }
}

/// The law of a round that shrinks a set towards its kernel: it removes points `f` of the
/// set that lack a successor or a predecessor in the set, and finds none only where every
/// point has both.
pub proof fn lemma_kernel_round<A>(r: Set<(A, A)>, s: Set<A>, f: Set<A>)
    requires
        f.subset_of(s),
        forall|x: A| #[trigger] f.contains(x) ==> !has_next(r, s, x) || !has_next(converse(r), s, x),
        f.is_empty() ==> sustained(r, s) && sustained(converse(r), s),
    ensures
        kernel(r, s.union(f)) == kernel(r, s),
        kernel(r, s.difference(f)) == kernel(r, s),
        f.is_empty() ==> kernel(r, s) == s,
{
    let p = |c: Set<A>| sustained(r, c) && sustained(converse(r), c);
    assert(s.union(f) =~= s);
    assert forall|x: A| kernel(r, s).contains(x) implies s.difference(f).contains(x) by {
        let c = choose|c: Set<A>| #[trigger] c.subset_of(s) && p(c) && c.contains(x);
        assert(has_next(r, c, x));
        let b = choose|b: A| c.contains(b) && #[trigger] r.contains((x, b));
        assert(s.contains(b));
        assert(has_next(r, s, x));
        assert(has_next(converse(r), c, x));
        let a = choose|a: A| c.contains(a) && #[trigger] converse(r).contains((x, a));
        assert(s.contains(a));
        assert(has_next(converse(r), s, x));
    }
    lemma_greatest_absorbs(p, s, s.difference(f));
    if f.is_empty() {
        lemma_greatest_of_fixed(p, s);
    }
}

/// The component of a point is what it reaches forwards and backwards.
pub proof fn lemma_component_is_meet<A>(r: Set<(A, A)>, x: A)
    ensures
        component(r, x) == reach(r, set![x]).intersect(reach(converse(r), set![x])),
{
    reveal(reach);
    let both = reach(r, set![x]).intersect(reach(converse(r), set![x]));
    assert forall|y: A| component(r, x).contains(y) implies both.contains(y) by {
        lemma_connects_converse(r, y, x);
        assert(set![x].contains(x));
    }
    assert forall|y: A| both.contains(y) implies component(r, x).contains(y) by {
        let a = choose|a: A| set![x].contains(a) && #[trigger] connects(r, a, y);
        let b = choose|b: A| set![x].contains(b) && #[trigger] connects(converse(r), b, y);
        lemma_connects_converse(r, y, x);
    }
    assert(component(r, x) =~= both);
}

/// The pairs of the relation that start and end in `u`.
pub open spec fn confined<A>(r: Set<(A, A)>, u: Set<A>) -> Set<(A, A)> {
    Set::new(|p: (A, A)| u.contains(p.0) && u.contains(p.1) && r.contains(p))
}

/// The set is a union of components: with a point it holds the whole component of the point.
pub open spec fn whole<A>(r: Set<(A, A)>, u: Set<A>) -> bool {
    forall|x: A, y: A| u.contains(x) && #[trigger] component(r, x).contains(y) ==> u.contains(y)
}

/// A path of at least one step starts with a step.
pub proof fn lemma_links_first<A>(r: Set<(A, A)>, a: A, b: A, k: nat)
    requires
        k > 0,
        links(r, a, b, k),
    ensures
        exists|m: A| #[trigger] r.contains((a, m)) && links(r, m, b, (k - 1) as nat),
    decreases k,
{
    let n = choose|n: A| links(r, a, n, (k - 1) as nat) && #[trigger] r.contains((n, b));
    if k == 1 {
        assert(links(r, b, b, 0));
        assert(r.contains((a, b)) && links(r, b, b, 0));
    } else {
        lemma_links_first(r, a, n, (k - 1) as nat);
        let m = choose|m: A| #[trigger] r.contains((a, m)) && links(r, m, n, (k - 2) as nat);
        assert(links(r, m, b, (k - 1) as nat));
        assert(r.contains((a, m)) && links(r, m, b, (k - 1) as nat));
    }
}

/// A path of a relation is a path of every greater relation.
pub proof fn lemma_links_in_greater<A>(r: Set<(A, A)>, s: Set<(A, A)>, a: A, b: A, k: nat)
    requires
        r.subset_of(s),
        links(r, a, b, k),
    ensures
        links(s, a, b, k),
    decreases k,
{
    if k > 0 {
        let n = choose|n: A| links(r, a, n, (k - 1) as nat) && #[trigger] r.contains((n, b));
        lemma_links_in_greater(r, s, a, n, (k - 1) as nat);
        assert(s.contains((n, b)));
    }
}

/// What is connected in a relation is connected in every greater relation.
pub proof fn lemma_connects_in_greater<A>(r: Set<(A, A)>, s: Set<(A, A)>, a: A, b: A)
    requires
        r.subset_of(s),
        connects(r, a, b),
    ensures
        connects(s, a, b),
{
    let k = choose|k: nat| links(r, a, b, k);
    lemma_links_in_greater(r, s, a, b, k);
}

/// A path from `a` to a point that is connected back to `a` runs within every set that
/// holds the component of `a`.
pub proof fn lemma_cycle_confined<A>(r: Set<(A, A)>, u: Set<A>, a: A, b: A, k: nat)
    requires
        component(r, a).subset_of(u),
        links(r, a, b, k),
        connects(r, b, a),
    ensures
        links(confined(r, u), a, b, k),
    decreases k,
{
    if k > 0 {
        let m = choose|m: A| links(r, a, m, (k - 1) as nat) && #[trigger] r.contains((m, b));
        lemma_connects_step(r, m, b);
        lemma_connects_join(r, m, b, a);
        lemma_cycle_confined(r, u, a, m, (k - 1) as nat);
        assert(connects(r, a, m));
        assert(component(r, a).contains(m));
        assert(connects(r, a, b)) by {
            assert(links(r, a, b, k));
        }
        assert(component(r, a).contains(b));
        assert(confined(r, u).contains((m, b)));
    }
}

/// Within a union of components, the component of a point is its component in the whole
/// relation.
pub proof fn lemma_component_confined<A>(r: Set<(A, A)>, u: Set<A>, x: A)
    requires
        whole(r, u),
        u.contains(x),
    ensures
        component(confined(r, u), x) == component(r, x),
{
    let c = confined(r, u);
    assert(c.subset_of(r));
    assert forall|y: A| component(c, x).contains(y) implies component(r, x).contains(y) by {
        lemma_connects_in_greater(c, r, x, y);
        lemma_connects_in_greater(c, r, y, x);
    }
    assert forall|y: A| component(r, x).contains(y) implies component(c, x).contains(y) by {
        assert(component(r, x).subset_of(u));
        let k = choose|k: nat| links(r, x, y, k);
        lemma_cycle_confined(r, u, x, y, k);
        let j = choose|j: nat| links(r, y, x, j);
        assert(component(r, y).subset_of(u)) by {
            assert forall|z: A| component(r, y).contains(z) implies u.contains(z) by {
                lemma_connects_join(r, x, y, z);
                lemma_connects_join(r, z, y, x);
                assert(component(r, x).contains(z));
            }
        }
        lemma_cycle_confined(r, u, y, x, j);
        assert(connects(c, x, y));
        assert(connects(c, y, x));
    }
    assert(component(c, x) =~= component(r, x));
}

/// The components are classes: a point of a component has the same component.
pub proof fn lemma_component_class<A>(r: Set<(A, A)>, x: A, y: A)
    requires
        component(r, x).contains(y),
    ensures
        component(r, y) == component(r, x),
        component(r, x).contains(x),
{
    lemma_connects_self(r, x);
    assert forall|z: A| component(r, y).contains(z) implies component(r, x).contains(z) by {
        lemma_connects_join(r, x, y, z);
        lemma_connects_join(r, z, y, x);
    }
    assert forall|z: A| component(r, x).contains(z) implies component(r, y).contains(z) by {
        lemma_connects_join(r, y, x, z);
        lemma_connects_join(r, z, x, y);
    }
    assert(component(r, y) =~= component(r, x));
}

/// In a component of more than one point, every point has a successor and a predecessor
/// in the component.
pub proof fn lemma_component_sustained<A>(r: Set<(A, A)>, x: A, y: A)
    requires
        component(r, x).contains(y),
        x != y,
    ensures
        sustained(r, component(r, x)),
        sustained(converse(r), component(r, x)),
{
    let c = component(r, x);
    lemma_component_class(r, x, y);
    assert forall|z: A| c.contains(z) implies #[trigger] has_next(r, c, z) by {
        let other = if z == x { y } else { x };
        lemma_component_class(r, x, z);
        assert(component(r, z).contains(other));
        let k = choose|k: nat| links(r, z, other, k);
        lemma_links_first(r, z, other, k);
        let m = choose|m: A| #[trigger] r.contains((z, m)) && links(r, m, other, (k - 1) as nat);
        assert(connects(r, m, other));
        lemma_connects_join(r, m, other, z);
        lemma_connects_step(r, z, m);
        assert(c.contains(m));
    }
    assert forall|z: A| c.contains(z) implies #[trigger] has_next(converse(r), c, z) by {
        let other = if z == x { y } else { x };
        lemma_component_class(r, x, z);
        assert(component(r, z).contains(other));
        let k = choose|k: nat| links(r, other, z, k);
        let m = choose|m: A| links(r, other, m, (k - 1) as nat) && #[trigger] r.contains((m, z));
        assert(connects(r, other, m));
        lemma_connects_join(r, z, other, m);
        lemma_connects_step(r, m, z);
        assert(c.contains(m));
        assert(converse(r).contains((z, m)));
    }
}

/// A component of more than one point lies in the kernel, and in the lively parts, of
/// every set that holds it.
pub proof fn lemma_component_survives<A>(r: Set<(A, A)>, u: Set<A>, x: A, y: A)
    requires
        component(r, x).contains(y),
        x != y,
        component(r, x).subset_of(u),
    ensures
        component(r, x).subset_of(kernel(r, u)),
        component(r, x).subset_of(lively(r, u)),
        component(r, x).subset_of(lively(converse(r), u)),
{
    let c = component(r, x);
    lemma_component_sustained(r, x, y);
    lemma_greatest_holds(|s: Set<A>| sustained(r, s) && sustained(converse(r), s), u, c);
    lemma_greatest_holds(|s: Set<A>| sustained(r, s), u, c);
    lemma_greatest_holds(|s: Set<A>| sustained(converse(r), s), u, c);
}

/// What the points `p` reach and what reaches them: beside their meet, a union `u` of
/// components falls into three unions of components.
pub proof fn lemma_parts_whole<A>(r: Set<(A, A)>, u: Set<A>, p: Set<A>)
    requires
        whole(r, u),
    ensures
        whole(r, u.intersect(reach(converse(r), p).difference(reach(r, p)))),
        whole(r, u.intersect(reach(r, p).difference(reach(converse(r), p)))),
        whole(r, u.difference(reach(converse(r), p)).difference(reach(r, p))),
        whole(r, u.intersect(reach(converse(r), p))),
        whole(r, u.difference(reach(converse(r), p))),
{
    reveal(reach);
    let f = reach(r, p);
    let b = reach(converse(r), p);
    assert forall|x: A, y: A| component(r, x).contains(y) implies (f.contains(x) <==> f.contains(y)) && (b.contains(x) <==> b.contains(y)) by {
        if f.contains(x) {
            let o = choose|o: A| p.contains(o) && #[trigger] connects(r, o, x);
            lemma_connects_join(r, o, x, y);
        }
        if f.contains(y) {
            let o = choose|o: A| p.contains(o) && #[trigger] connects(r, o, y);
            lemma_connects_join(r, o, y, x);
        }
        if b.contains(x) {
            let o = choose|o: A| p.contains(o) && #[trigger] connects(converse(r), o, x);
            lemma_connects_converse(r, x, o);
            lemma_connects_join(r, y, x, o);
            lemma_connects_converse(r, y, o);
        }
        if b.contains(y) {
            let o = choose|o: A| p.contains(o) && #[trigger] connects(converse(r), o, y);
            lemma_connects_converse(r, y, o);
            lemma_connects_join(r, x, y, o);
            lemma_connects_converse(r, x, o);
        }
    }
}

/// Every point that `x` reaches reaches `x`: `x` lies in a component that no step leaves.
pub open spec fn recurrent<A>(r: Set<(A, A)>, x: A) -> bool {
    forall|y: A| #[trigger] connects(r, x, y) ==> connects(r, y, x)
}

/// With every recurrent point, the set holds all that the point reaches.
pub open spec fn intact<A>(r: Set<(A, A)>, u: Set<A>) -> bool {
    forall|x: A, y: A| u.contains(x) && recurrent(r, x) && #[trigger] connects(r, x, y) ==> u.contains(y)
}

/// A path from a point that is recurrent and has all that it reaches in `u` runs within `u`.
pub proof fn lemma_recurrent_confined<A>(r: Set<(A, A)>, u: Set<A>, x: A, a: A, b: A, k: nat)
    requires
        intact(r, u),
        u.contains(x),
        recurrent(r, x),
        connects(r, x, a),
        links(r, a, b, k),
    ensures
        links(confined(r, u), a, b, k),
        connects(r, x, b),
    decreases k,
{
    if k > 0 {
        let m = choose|m: A| links(r, a, m, (k - 1) as nat) && #[trigger] r.contains((m, b));
        lemma_recurrent_confined(r, u, x, a, m, (k - 1) as nat);
        lemma_connects_step(r, m, b);
        lemma_connects_join(r, x, m, b);
        assert(u.contains(m) && u.contains(b));
        assert(confined(r, u).contains((m, b)));
    }
}

/// A closed set is intact.
pub proof fn lemma_closed_intact<A>(r: Set<(A, A)>, u: Set<A>)
    requires
        closed(r, u),
    ensures
        intact(r, u),
{
    assert forall|x: A, y: A| u.contains(x) && recurrent(r, x) && #[trigger] connects(r, x, y) implies u.contains(y) by {
        let k = choose|k: nat| links(r, x, y, k);
        lemma_closed_keeps_paths(r, u, x, y, k);
    }
}

/// Taking away what reaches the points `p` within an intact set leaves an intact set.
pub proof fn lemma_intact_without_basin<A>(r: Set<(A, A)>, u: Set<A>, p: Set<A>)
    requires
        intact(r, u),
    ensures
        intact(r, u.difference(reach(converse(confined(r, u)), p))),
{
    reveal(reach);
    let c = confined(r, u);
    let b = reach(converse(c), p);
    assert forall|x: A, y: A| u.difference(b).contains(x) && recurrent(r, x) && #[trigger] connects(r, x, y) implies u.difference(b).contains(y) by {
        if b.contains(y) {
            let o = choose|o: A| p.contains(o) && #[trigger] connects(converse(c), o, y);
            lemma_connects_converse(c, y, o);
            let k = choose|k: nat| links(r, x, y, k);
            lemma_connects_self(r, x);
            lemma_recurrent_confined(r, u, x, x, y, k);
            assert(connects(c, x, y));
            lemma_connects_join(c, x, y, o);
            lemma_connects_converse(c, x, o);
            assert(b.contains(x));
        }
    }
}

} // verus!
