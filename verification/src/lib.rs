//! Symbolic analysis of the asynchronous state-transition graph of a Boolean network:
//! reachable sets, trap sets, trimming, strongly connected components and attractors, all
//! built as resumable computations over symbolic sets.

pub mod algorithm_trait;
pub mod attractor;
pub mod cancellation;
pub mod cli;
pub mod laws;
pub mod reachability;
pub mod reachability_utils;
pub mod relation;
pub mod scc;
pub mod space;
pub mod symbolic;
pub mod test_utils;
pub mod text;
pub mod trapping;
pub mod trimming;

use vstd::prelude::*;
use vstd::string::StrSliceExecFns;

verus! {

/// The path separator `::` stands at position `i` of `s`.
pub open spec fn separator_at(s: Seq<char>, i: int) -> bool {
    0 <= i && i + 1 < s.len() && s[i] == ':' && s[i + 1] == ':'
}

/// Where the last segment of a path begins: the text is read from position `i` on, the
/// segment that is being read began at `start`, and every separator that is met begins a
/// new segment behind it.
pub open spec fn segment_start(s: Seq<char>, i: int, start: int) -> int
    decreases s.len() - i,
{
    if i < 0 || i + 1 >= s.len() {
        start
    } else if s[i] == ':' && s[i + 1] == ':' {
        segment_start(s, i + 2, i + 2)
    } else {
        segment_start(s, i + 1, start)
    }
}

/// The last segment of a path whose segments are separated by `::`.
pub open spec fn last_segment(s: Seq<char>) -> Seq<char> {
    s.subrange(segment_start(s, 0, 0), s.len() as int)
}

/// The last segment begins inside the text, and no separator begins in it.
pub proof fn lemma_segment_start(s: Seq<char>, i: int, start: int)
    requires
        0 <= start <= i <= s.len(),
    ensures
        start <= segment_start(s, i, start) <= s.len(),
        forall|j: int| i <= j && segment_start(s, i, start) <= j ==> !separator_at(s, j),
    decreases s.len() - i,
{
    if i + 1 >= s.len() {
    } else if s[i] == ':' && s[i + 1] == ':' {
        lemma_segment_start(s, i + 2, i + 2);
    } else {
        lemma_segment_start(s, i + 1, start);
    }
}

/// The simple name of a type, given the full name that the compiler has for it: what stands
/// behind the last `::`, or the whole text. No separator is left in it.
pub fn simple_type_name<'a>(name: &'a str) -> (r: &'a str)
    ensures
        r@ == last_segment(name@),
        forall|j: int| !separator_at(r@, j),
{
    let n = name.unicode_len();
    let mut i: usize = 0;
    let mut start: usize = 0;
    while n - i > 1
        invariant
            start <= i <= n,
            n == name@.len(),
            segment_start(name@, i as int, start as int) == segment_start(name@, 0, 0),
        decreases n - i,
    {
        if name.get_char(i) == ':' && name.get_char(i + 1) == ':' {
            i += 2;
            start = i;
        } else {
            i += 1;
        }
    }
    proof {
        lemma_segment_start(name@, 0, 0);
        let r = name@.subrange(start as int, n as int);
        assert forall|j: int| !separator_at(r, j) by {
            if separator_at(r, j) {
                assert(separator_at(name@, start + j));
            }
        }
    }
    name.substring_char(start, n)
}

} // verus!
