//! The finite space that the symbolic sets of one layout live in, and the sizes of sets.

use crate::symbolic::{fits, ColoredVertex, Encoding};
use vstd::prelude::*;
use vstd::set_lib::{lemma_len_subset, lemma_set_subset_finite};

verus! {

/// The Boolean sequences of length `n`.
pub open spec fn bits(n: nat) -> Set<Seq<bool>> {
    Set::new(|s: Seq<bool>| s.len() == n)
}

/// All pairs of a vertex and a colour that a set of the layout can hold.
pub open spec fn space(e: Encoding) -> Set<ColoredVertex> {
    Set::new(|x: ColoredVertex| x.0.len() == e.1.len() && x.1.len() == e.2.len())
}

/// There are finitely many Boolean sequences of a given length.
pub proof fn lemma_bits_finite(n: nat)
    ensures
        bits(n).finite(),
    decreases n,
{
    if n == 0 {
        let only = Set::<Seq<bool>>::empty().insert(Seq::<bool>::empty());
        assert forall|s: Seq<bool>| bits(0).contains(s) implies only.contains(s) by {
            assert(s =~= Seq::<bool>::empty());
        }
        assert(bits(0) =~= only);
    } else {
        let shorter = bits((n - 1) as nat);
        lemma_bits_finite((n - 1) as nat);
        let with_false = shorter.map(|s: Seq<bool>| s.push(false));
        let with_true = shorter.map(|s: Seq<bool>| s.push(true));
        shorter.lemma_map_finite(|s: Seq<bool>| s.push(false));
        shorter.lemma_map_finite(|s: Seq<bool>| s.push(true));
        assert forall|s: Seq<bool>| bits(n).contains(s) implies with_false.union(with_true).contains(s) by {
            let front = s.drop_last();
            assert(shorter.contains(front));
            assert(s =~= front.push(s.last()));
            if s.last() {
                assert(with_true.contains(s));
            } else {
                assert(with_false.contains(s));
            }
        }
        assert(bits(n).subset_of(with_false.union(with_true)));
        lemma_set_subset_finite(with_false.union(with_true), bits(n));
    }
}

/// The space of a layout is finite.
pub proof fn lemma_space_finite(e: Encoding)
    ensures
        space(e).finite(),
{
    let n = e.1.len();
    let p = e.2.len();
    let split = |s: Seq<bool>| (s.subrange(0, n as int), s.subrange(n as int, (n + p) as int));
    lemma_bits_finite(n + p);
    bits(n + p).lemma_map_finite(split);
    assert forall|x: ColoredVertex| space(e).contains(x) implies bits(n + p).map(split).contains(x) by {
        let joined = x.0 + x.1;
        assert(bits(n + p).contains(joined));
        assert(joined.subrange(0, n as int) =~= x.0);
        assert(joined.subrange(n as int, (n + p) as int) =~= x.1);
        assert(split(joined) == x);
    }
    assert(space(e).subset_of(bits(n + p).map(split)));
    lemma_set_subset_finite(bits(n + p).map(split), space(e));
}

/// A set that fits a layout is finite and no larger than the space of the layout.
pub proof fn lemma_fits_finite(s: Set<ColoredVertex>, e: Encoding)
    requires
        fits(s, e),
    ensures
        s.finite(),
        s.subset_of(space(e)),
        s.len() <= space(e).len(),
{
    lemma_space_finite(e);
    assert(s.subset_of(space(e)));
    lemma_set_subset_finite(space(e), s);
    lemma_len_subset(s, space(e));
}

/// A subset of a finite set is finite and no larger.
pub proof fn lemma_smaller(s: Set<ColoredVertex>, t: Set<ColoredVertex>)
    requires
        t.finite(),
        s.subset_of(t),
    ensures
        s.finite(),
        s.len() <= t.len(),
{
    lemma_set_subset_finite(t, s);
    lemma_len_subset(s, t);
}

/// A subset that misses a point of a finite set is strictly smaller.
pub proof fn lemma_strictly_smaller(s: Set<ColoredVertex>, t: Set<ColoredVertex>, x: ColoredVertex)
    requires
        t.finite(),
        s.subset_of(t),
        t.contains(x),
        !s.contains(x),
    ensures
        s.finite(),
        s.len() < t.len(),
{
    lemma_set_subset_finite(t, s);
    assert(s.subset_of(t.remove(x)));
    lemma_len_subset(s, t.remove(x));
}

/// Disjoint parts of a finite set are together no larger than the set.
pub proof fn lemma_parts(a: Set<ColoredVertex>, b: Set<ColoredVertex>, t: Set<ColoredVertex>)
    requires
        t.finite(),
        a.subset_of(t),
        b.subset_of(t),
        a.disjoint(b),
    ensures
        a.finite(),
        b.finite(),
        a.len() + b.len() <= t.len(),
{
    lemma_set_subset_finite(t, a);
    lemma_set_subset_finite(t, b);
    vstd::set_lib::lemma_set_disjoint_lens(a, b);
    assert(a.union(b).subset_of(t));
    lemma_len_subset(a.union(b), t);
}

} // verus!
