//! What the operations promise together, stated on plain sequences.
//!
//! Each law takes the results of calls (`call_ensures` of the function, its
//! arguments and what it gave) and says how they relate, in terms of what went in
//! and what came out.

use vstd::prelude::*;

use crate::binwt::occs_range::PositionBound;
use crate::binwt::parts::is_max;
use crate::indexable::WTIndexable;
use crate::sorting::{lemma_multiset_count, lemma_occurrences_local, lemma_occurrences_part};
use crate::tree::{occs_ok, occurrences};

pub mod binary;
pub mod builds;
pub mod codes;
pub mod pieces;
pub mod quad;
pub mod ranges;
pub mod steps;
pub mod streams;
pub mod views;
pub mod words;

verus! {

/// How often `a` stands among the first `i` elements.
pub open spec fn times_before<A>(s: Seq<A>, a: A, i: int) -> nat {
    s.take(i).to_multiset().count(a)
}

/// Counting up to a position is counting in the part before it.
pub proof fn lemma_times_before<A>(s: Seq<A>, a: A, i: int)
    requires
        0 <= i <= s.len(),
    ensures
        times_before(s, a, i) == occurrences(s, a, i),
{
    lemma_multiset_count(s.take(i), a);
    lemma_occurrences_local(s, s.take(i), a, i);
}

/// An element that stands in a sequence is counted, one that does not is not.
pub proof fn lemma_times_contains<A>(s: Seq<A>, a: A)
    ensures
        s.contains(a) <==> times_before(s, a, s.len() as int) > 0,
{
    broadcast use vstd::seq_lib::group_to_multiset_ensures;

    s.to_multiset_ensures();
    assert(s.take(s.len() as int) =~= s);
}

/// A sequence that is not empty has a largest symbol.
pub proof fn lemma_largest<T: WTIndexable>(s: Seq<T>) -> (m: T)
    requires
        s.len() > 0,
    ensures
        is_max(s, m),
    decreases s.len(),
{
    if s.len() == 1 {
        assert(s[0] == s[0]);
        s[0]
    } else {
        let r = s.drop_last();
        let m = lemma_largest(r);
        let last = s[s.len() - 1];
        assert forall|i: int| 0 <= i < s.len() - 1 implies (#[trigger] s[i]).val() <= m.val() by {
            assert(r[i] == s[i]);
        }
        let k = choose|i: int| 0 <= i < r.len() && #[trigger] r[i] == m;
        assert(s[k] == m);
        if last.val() > m.val() {
            last
        } else {
            m
        }
    }
}

/// Position `i` is not before a range that begins at `start`.
pub open spec fn after_start(start: PositionBound, i: int) -> bool {
    match start {
        PositionBound::Included(a) => a <= i,
        PositionBound::Excluded(a) => a < i,
        PositionBound::Unbounded => true,
    }
}

/// Position `i` is not behind a range that ends at `end`.
pub open spec fn before_end(end: PositionBound, i: int) -> bool {
    match end {
        PositionBound::Included(b) => i <= b,
        PositionBound::Excluded(b) => i < b,
        PositionBound::Unbounded => true,
    }
}

/// Among the first `n` elements, those whose positions satisfy both bounds.
pub open spec fn picked<A>(s: Seq<A>, start: PositionBound, end: PositionBound, n: int) -> Seq<A>
    decreases n,
{
    if n <= 0 {
        Seq::empty()
    } else if after_start(start, n - 1) && before_end(end, n - 1) {
        picked(s, start, end, n - 1).push(s[n - 1])
    } else {
        picked(s, start, end, n - 1)
    }
}

/// Bounds that lie in a sequence of `n` elements and are not reversed: each end
/// names a gap between positions, the second not before the first and not behind
/// the sequence.
pub open spec fn bounds_fit(start: PositionBound, end: PositionBound, n: int) -> bool {
    exists|lo: int, hi: int| #[trigger] gaps(start, end, n, lo, hi)
}

/// The positions from `lo` up to `hi` are those that satisfy the bounds.
pub open spec fn gaps(start: PositionBound, end: PositionBound, n: int, lo: int, hi: int) -> bool {
    &&& 0 <= lo <= hi <= n
    &&& after_start(start, lo) && (lo > 0 ==> !after_start(start, lo - 1))
    &&& !(end is Unbounded) ==> !before_end(end, hi) && (hi > 0 ==> before_end(end, hi - 1))
    &&& end is Unbounded ==> hi == n
}

/// What satisfies the bounds is what lies between the gaps.
pub proof fn lemma_picked<A>(
    s: Seq<A>,
    start: PositionBound,
    end: PositionBound,
    lo: int,
    hi: int,
    n: int,
)
    requires
        gaps(start, end, s.len() as int, lo, hi),
        0 <= n <= s.len(),
    ensures
        picked(s, start, end, n) == if n <= lo {
            Seq::empty()
        } else if n <= hi {
            s.subrange(lo, n)
        } else {
            s.subrange(lo, hi)
        },
    decreases n,
{
    if n > 0 {
        lemma_picked(s, start, end, lo, hi, n - 1);
        assert(lo < n <= hi ==> s.subrange(lo, n) =~= s.subrange(lo, n - 1).push(s[n - 1]));
    }
    if lo == n || lo == hi {
        assert(s.subrange(lo, lo) =~= Seq::empty());
    }
}

/// A list of symbols with their numbers: each symbol of the elements is listed
/// once, with the number of elements that are it, and nothing else is.
pub open spec fn tallies<T>(elements: Seq<T>, out: Seq<(T, usize)>) -> bool {
    &&& forall|e: (T, usize)| #[trigger]
        out.contains(e) <==> elements.contains(e.0) && e.1 == elements.to_multiset().count(e.0)
    &&& forall|t: int, u: int|
        0 <= t < u < out.len() ==> (#[trigger] out[t]).0 != (#[trigger] out[u]).0
}

/// Two tallies of the same elements hold the same entries.
pub proof fn same_tallies<T>(elements: Seq<T>, a: Seq<(T, usize)>, b: Seq<(T, usize)>)
    requires
        tallies(elements, a),
        tallies(elements, b),
    ensures
        forall|e: (T, usize)| #[trigger] a.contains(e) <==> b.contains(e),
{
}

/// What a range's list holds are the tallies of the elements between its ends.
pub proof fn lemma_tallies<T: WTIndexable>(s: Seq<T>, lo: int, hi: int, out: Seq<(T, usize)>)
    requires
        0 <= lo <= hi <= s.len() <= usize::MAX,
        occs_ok(s, lo, hi, out),
    ensures
        tallies(s.subrange(lo, hi), out),
{
    let part = s.subrange(lo, hi);
    part.to_multiset_ensures();
    assert forall|a: T| part.to_multiset().count(a) == #[trigger] occurrences(s, a, hi)
        - occurrences(s, a, lo) by {
        lemma_multiset_count(part, a);
        lemma_occurrences_part(s, a, lo, hi);
    }
    assert forall|e: (T, usize)| #[trigger] out.contains(e) <==> part.contains(e.0) && e.1
        == part.to_multiset().count(e.0) by {
        assert(part.to_multiset().count(e.0) == occurrences(s, e.0, hi) - occurrences(s, e.0, lo));
        assert(part.contains(e.0) <==> part.to_multiset().count(e.0) > 0);
        if out.contains(e) {
            let t = choose|t: int| 0 <= t < out.len() && out[t] == e;
            assert(out[t].1 > 0);
        }
        if part.contains(e.0) && e.1 == part.to_multiset().count(e.0) {
            let i = choose|i: int| 0 <= i < part.len() && part[i] == e.0;
            assert(s[lo + i] == e.0);
            let t = choose|t: int| 0 <= t < out.len() && (#[trigger] out[t]).0 == s[lo + i];
            assert(out[t].1 == e.1);
            assert(out[t] == e);
        }
    }
}

} // verus!
