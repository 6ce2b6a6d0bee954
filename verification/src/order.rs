//! Symbols in the order of their frequencies.

use vstd::prelude::*;
use vstd::relations::{sorted_by, total_ordering};
use vstd::seq_lib::{lemma_multiset_commutative, lemma_sorted_unique};

verus! {

/// Rarer symbols come first, and of equally frequent ones the smaller.
pub open spec fn by_frequency(freqs: Seq<usize>) -> spec_fn(usize, usize) -> bool {
    |a: usize, b: usize|
        freqs[a as int] < freqs[b as int] || (freqs[a as int] == freqs[b as int] && a <= b)
}

pub proof fn lemma_by_frequency(freqs: Seq<usize>)
    ensures
        total_ordering(by_frequency(freqs)),
{
}

/// Whether symbol `a` comes before `b`.
fn is_before(freqs: &Vec<usize>, a: usize, b: usize) -> (r: bool)
    requires
        a < freqs.len(),
        b < freqs.len(),
    ensures
        r == by_frequency(freqs@)(a, b),
{
    freqs[a] < freqs[b] || (freqs[a] == freqs[b] && a <= b)
}

/// One more element of a prefix.
proof fn lemma_take_step(s: Seq<usize>, i: int)
    requires
        0 <= i < s.len(),
    ensures
        s.take(i + 1).to_multiset() == s.take(i).to_multiset().insert(s[i]),
{
    broadcast use vstd::seq_lib::group_to_multiset_ensures;

    assert(s.take(i + 1) =~= s.take(i).push(s[i]));
}

/// Merges two sorted lists.
fn merge(freqs: &Vec<usize>, a: &Vec<usize>, b: &Vec<usize>) -> (out: Vec<usize>)
    requires
        a.len() + b.len() <= usize::MAX,
        sorted_by(a@, by_frequency(freqs@)),
        sorted_by(b@, by_frequency(freqs@)),
        forall|k: int| 0 <= k < a.len() ==> (#[trigger] a[k]) < freqs.len(),
        forall|k: int| 0 <= k < b.len() ==> (#[trigger] b[k]) < freqs.len(),
    ensures
        sorted_by(out@, by_frequency(freqs@)),
        out@.to_multiset() == a@.to_multiset().add(b@.to_multiset()),
{
    let ghost leq = by_frequency(freqs@);
    let mut out: Vec<usize> = Vec::new();
    let mut i: usize = 0;
    let mut j: usize = 0;
    proof {
        broadcast use vstd::seq_lib::group_to_multiset_ensures;

        lemma_by_frequency(freqs@);
        assert(a@.take(0) =~= Seq::empty());
        assert(b@.take(0) =~= Seq::empty());
        assert(out@.to_multiset() =~= a@.take(0).to_multiset().add(b@.take(0).to_multiset()));
    }
    while i < a.len() || j < b.len()
        invariant
            i <= a.len(),
            j <= b.len(),
            leq == by_frequency(freqs@),
            sorted_by(a@, leq),
            sorted_by(b@, leq),
            forall|k: int| 0 <= k < a.len() ==> (#[trigger] a[k]) < freqs.len(),
            forall|k: int| 0 <= k < b.len() ==> (#[trigger] b[k]) < freqs.len(),
            sorted_by(out@, leq),
            forall|k: int, q: int|
                0 <= k < out.len() && i <= q < a.len() ==> #[trigger] leq(out[k], a[q]),
            forall|k: int, q: int|
                0 <= k < out.len() && j <= q < b.len() ==> #[trigger] leq(out[k], b[q]),
            out@.to_multiset() == a@.take(i as int).to_multiset().add(
                b@.take(j as int).to_multiset(),
            ),
        decreases a.len() - i + (b.len() - j),
    {
        let ghost before = out@;
        let first: bool = if j >= b.len() {
            true
        } else if i >= a.len() {
            false
        } else {
            is_before(freqs, a[i], b[j])
        };
        let ghost x = if first {
            a[i as int]
        } else {
            b[j as int]
        };
        proof {
            broadcast use vstd::seq_lib::group_to_multiset_ensures;

            assert forall|q: int| i <= q < a.len() implies #[trigger] leq(x, a[q]) by {
                if i < q {
                    assert(leq(a[i as int], a[q]));
                }
            }
            assert forall|q: int| j <= q < b.len() implies #[trigger] leq(x, b[q]) by {
                if j < q {
                    assert(leq(b[j as int], b[q]));
                }
            }
            assert forall|k: int| 0 <= k < before.len() implies #[trigger] leq(before[k], x) by {}
            if first {
                lemma_take_step(a@, i as int);
                assert(before.push(x).to_multiset() =~= a@.take(i + 1).to_multiset().add(
                    b@.take(j as int).to_multiset(),
                ));
            } else {
                lemma_take_step(b@, j as int);
                assert(before.push(x).to_multiset() =~= a@.take(i as int).to_multiset().add(
                    b@.take(j + 1).to_multiset(),
                ));
            }
        }
        if first {
            out.push(a[i]);
            i = i + 1;
        } else {
            out.push(b[j]);
            j = j + 1;
        }
        assert(out@ == before.push(x));
    }
    assert(a@.take(i as int) =~= a@);
    assert(b@.take(j as int) =~= b@);
    out
}

/// Sorts a part of a list of symbols by their frequencies.
fn sort_part(freqs: &Vec<usize>, symbols: &Vec<usize>, lo: usize, hi: usize) -> (out: Vec<usize>)
    requires
        lo <= hi <= symbols.len(),
        forall|k: int| 0 <= k < symbols.len() ==> (#[trigger] symbols[k]) < freqs.len(),
    ensures
        sorted_by(out@, by_frequency(freqs@)),
        out@.to_multiset() == symbols@.subrange(lo as int, hi as int).to_multiset(),
    decreases hi - lo,
{
    let ghost part = symbols@.subrange(lo as int, hi as int);
    if hi - lo <= 1 {
        let mut out: Vec<usize> = Vec::new();
        if lo < hi {
            out.push(symbols[lo]);
        }
        assert(out@ =~= part);
        return out;
    }
    let mid: usize = lo + (hi - lo) / 2;
    let left: Vec<usize> = sort_part(freqs, symbols, lo, mid);
    let right: Vec<usize> = sort_part(freqs, symbols, mid, hi);
    proof {
        broadcast use vstd::seq_lib::group_to_multiset_ensures;

        let a = symbols@.subrange(lo as int, mid as int);
        let b = symbols@.subrange(mid as int, hi as int);
        lemma_multiset_commutative(a, b);
        assert(a + b =~= part);
        assert(left.len() == a.len()) by {
            assert(left@.to_multiset().len() == a.to_multiset().len());
        }
        assert(right.len() == b.len()) by {
            assert(right@.to_multiset().len() == b.to_multiset().len());
        }
        lemma_members(left@, a, freqs.len() as int);
        lemma_members(right@, b, freqs.len() as int);
    }
    merge(freqs, &left, &right)
}

/// Lists with the same elements have the same bound.
proof fn lemma_members(s: Seq<usize>, t: Seq<usize>, n: int)
    requires
        s.to_multiset() == t.to_multiset(),
        forall|k: int| 0 <= k < t.len() ==> (#[trigger] t[k]) < n,
    ensures
        forall|k: int| 0 <= k < s.len() ==> (#[trigger] s[k]) < n,
{
    broadcast use vstd::seq_lib::group_to_multiset_ensures;

    assert forall|k: int| 0 <= k < s.len() implies (#[trigger] s[k]) < n by {
        assert(s.contains(s[k]));
        assert(t.to_multiset().count(s[k]) > 0);
        assert(t.contains(s[k]));
    }
}

/// Sorts symbols by their frequencies.
pub fn sort_by_frequency(freqs: &Vec<usize>, symbols: &Vec<usize>) -> (out: Vec<usize>)
    requires
        forall|k: int| 0 <= k < symbols.len() ==> (#[trigger] symbols[k]) < freqs.len(),
    ensures
        out@ == symbols@.sort_by(by_frequency(freqs@)),
{
    let out: Vec<usize> = sort_part(freqs, symbols, 0, symbols.len());
    proof {
        let leq = by_frequency(freqs@);
        assert(symbols@.subrange(0, symbols.len() as int) =~= symbols@);
        lemma_by_frequency(freqs@);
        symbols@.lemma_sort_by_ensures(leq);
        lemma_sorted_unique(out@, symbols@.sort_by(leq), leq);
    }
    out
}

} // verus!
