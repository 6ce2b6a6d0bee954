//! Sorted sequences as runs of equal numbers.

use vstd::prelude::*;
use vstd::relations::{sorted_by, total_ordering};
use vstd::seq_lib::lemma_sorted_unique;

use crate::tree::{lemma_occurrences_bounds, occurrences};

verus! {

/// Equal neighbours are merged.
pub open spec fn dedup(s: Seq<int>) -> Seq<int>
    decreases s.len(),
{
    if s.len() <= 1 {
        s
    } else if s[s.len() - 1] == s[s.len() - 2] {
        dedup(s.drop_last())
    } else {
        dedup(s.drop_last()).push(s.last())
    }
}

/// Every number as often as its run says.
pub open spec fn expand(runs: Seq<(int, int)>) -> Seq<int>
    decreases runs.len(),
{
    if runs.len() == 0 {
        Seq::empty()
    } else {
        expand(runs.drop_last()) + Seq::new(runs.last().1 as nat, |k: int| runs.last().0)
    }
}

/// The numbers of the runs.
pub open spec fn heads(runs: Seq<(int, int)>) -> Seq<int> {
    runs.map_values(|e: (int, int)| e.0)
}

/// There is a run of `v`.
pub open spec fn has_head(runs: Seq<(int, int)>, v: int) -> bool {
    exists|t: int| 0 <= t < runs.len() && (#[trigger] runs[t]).0 == v
}

/// Runs that are not empty, in ascending order.
pub open spec fn runs_ok(runs: Seq<(int, int)>) -> bool {
    &&& forall|t: int| 0 <= t < runs.len() ==> (#[trigger] runs[t]).1 > 0
    &&& forall|t: int, u: int|
        0 <= t < u < runs.len() ==> (#[trigger] runs[t]).0 < (#[trigger] runs[u]).0
}

pub proof fn lemma_occurrences_append<A>(s: Seq<A>, t: Seq<A>, a: A)
    ensures
        occurrences(s + t, a, (s + t).len() as int) == occurrences(s, a, s.len() as int)
            + occurrences(t, a, t.len() as int),
    decreases t.len(),
{
    if t.len() == 0 {
        assert(s + t =~= s);
    } else {
        let u = t.drop_last();
        lemma_occurrences_append(s, u, a);
        lemma_occurrences_local(s + t, s + u, a, (s + u).len() as int);
        lemma_occurrences_local(t, u, a, u.len() as int);
    }
}

pub proof fn lemma_occurrences_local<A>(s: Seq<A>, t: Seq<A>, a: A, i: int)
    requires
        forall|p: int| 0 <= p < i ==> s[p] == t[p],
    ensures
        occurrences(s, a, i) == occurrences(t, a, i),
    decreases i,
{
    if i > 0 {
        lemma_occurrences_local(s, t, a, i - 1);
    }
}

/// Counting in a part of a sequence.
pub proof fn lemma_occurrences_part<A>(s: Seq<A>, a: A, lo: int, hi: int)
    requires
        0 <= lo <= hi <= s.len(),
    ensures
        occurrences(s.subrange(lo, hi), a, hi - lo) == occurrences(s, a, hi) - occurrences(
            s,
            a,
            lo,
        ),
    decreases hi - lo,
{
    if lo < hi {
        lemma_occurrences_part(s, a, lo, hi - 1);
        lemma_occurrences_local(
            s.subrange(lo, hi),
            s.subrange(lo, hi - 1),
            a,
            hi - 1 - lo,
        );
    }
}

/// Where an element stands it occurs.
pub proof fn lemma_occurs<A>(s: Seq<A>, i: int)
    requires
        0 <= i < s.len(),
    ensures
        occurrences(s, s[i], s.len() as int) > 0,
{
    lemma_occurrences_bounds(s, s[i], i);
    crate::tree::lemma_occurrences_mono(s, s[i], i + 1, s.len() as int);
}

/// What occurs stands somewhere.
pub proof fn lemma_occurring_at<A>(s: Seq<A>, a: A, n: int) -> (i: int)
    requires
        0 <= n <= s.len(),
        occurrences(s, a, n) > 0,
    ensures
        0 <= i < n,
        s[i] == a,
    decreases n,
{
    if s[n - 1] == a {
        n - 1
    } else {
        lemma_occurring_at(s, a, n - 1)
    }
}

pub proof fn lemma_multiset_count<A>(s: Seq<A>, a: A)
    ensures
        s.to_multiset().count(a) == occurrences(s, a, s.len() as int),
    decreases s.len(),
{
    broadcast use vstd::seq_lib::group_to_multiset_ensures;

    if s.len() > 0 {
        let r = s.drop_last();
        lemma_multiset_count(r, a);
        lemma_occurrences_local(s, r, a, r.len() as int);
        assert(s =~= r.push(s.last()));
        assert(s.to_multiset() =~= r.to_multiset().insert(s.last()));
    }
}

proof fn lemma_repeat(v: int, c: int, a: int)
    requires
        0 <= c,
    ensures
        occurrences(Seq::new(c as nat, |k: int| v), a, c) == if a == v {
            c
        } else {
            0
        },
    decreases c,
{
    if c > 0 {
        lemma_repeat(v, c - 1, a);
        lemma_occurrences_local(
            Seq::new(c as nat, |k: int| v),
            Seq::new((c - 1) as nat, |k: int| v),
            a,
            c - 1,
        );
    }
}

proof fn lemma_drop_runs(runs: Seq<(int, int)>)
    requires
        runs_ok(runs),
        runs.len() > 0,
    ensures
        runs_ok(runs.drop_last()),
        runs.last().1 > 0,
        forall|t: int| 0 <= t < runs.len() - 1 ==> (#[trigger] runs[t]).0 < runs.last().0,
{
    let rest = runs.drop_last();
    assert(runs.last() == runs[runs.len() - 1]);
    assert forall|t: int| 0 <= t < rest.len() implies (#[trigger] rest[t]).1 > 0 by {
        assert(rest[t] == runs[t]);
    }
    assert forall|t: int, u: int| 0 <= t < u < rest.len() implies (#[trigger] rest[t]).0 < (
    #[trigger] rest[u]).0 by {
        assert(rest[t] == runs[t] && rest[u] == runs[u]);
    }
}

/// How often a number occurs in expanded runs.
pub proof fn lemma_expand_count(runs: Seq<(int, int)>, a: int)
    requires
        runs_ok(runs),
    ensures
        forall|t: int|
            0 <= t < runs.len() && (#[trigger] runs[t]).0 == a ==> occurrences(
                expand(runs),
                a,
                expand(runs).len() as int,
            ) == runs[t].1,
        (forall|t: int| 0 <= t < runs.len() ==> (#[trigger] runs[t]).0 != a) ==> occurrences(
            expand(runs),
            a,
            expand(runs).len() as int,
        ) == 0,
    decreases runs.len(),
{
    if runs.len() > 0 {
        let rest = runs.drop_last();
        let last = runs.last();
        lemma_drop_runs(runs);
        lemma_expand_count(rest, a);
        lemma_repeat(last.0, last.1, a);
        lemma_occurrences_append(expand(rest), Seq::new(last.1 as nat, |k: int| last.0), a);
        assert forall|t: int| 0 <= t < runs.len() && (#[trigger] runs[t]).0 == a implies occurrences(
            expand(runs),
            a,
            expand(runs).len() as int,
        ) == runs[t].1 by {
            if t < rest.len() {
                assert(rest[t] == runs[t]);
            } else {
                assert forall|u: int| 0 <= u < rest.len() implies (#[trigger] rest[u]).0 != a by {
                    assert(rest[u] == runs[u]);
                }
            }
        }
        if forall|t: int| 0 <= t < runs.len() ==> (#[trigger] runs[t]).0 != a {
            assert forall|u: int| 0 <= u < rest.len() implies (#[trigger] rest[u]).0 != a by {
                assert(rest[u] == runs[u]);
            }
            assert(runs[runs.len() - 1].0 != a);
        }
    }
}

/// Expanded runs are sorted, and merging neighbours gives their numbers.
proof fn lemma_expand_sorted(runs: Seq<(int, int)>)
    requires
        runs_ok(runs),
    ensures
        forall|i: int, j: int| 0 <= i < j < expand(runs).len() ==> expand(runs)[i] <= expand(runs)[j],
        runs.len() > 0 ==> expand(runs).len() > 0 && expand(runs).last() == runs.last().0,
        runs.len() == 0 ==> expand(runs).len() == 0,
        dedup(expand(runs)) == heads(runs),
    decreases runs.len(),
{
    if runs.len() == 0 {
        assert(heads(runs) =~= Seq::empty());
    } else {
        let rest = runs.drop_last();
        let last = runs.last();
        lemma_drop_runs(runs);
        lemma_expand_sorted(rest);
        let before = expand(rest);
        if rest.len() > 0 {
            assert(rest.last() == runs[runs.len() - 2]);
        }
        lemma_dedup_run(before, last.0, last.1);
        assert(heads(runs) =~= heads(rest).push(last.0));
        let all = expand(runs);
        assert forall|i: int, j: int| 0 <= i < j < all.len() implies all[i] <= all[j] by {
            if j >= before.len() && i < before.len() {
                if i < before.len() - 1 {
                    assert(before[i] <= before[before.len() - 1]);
                }
            }
        }
    }
}

/// A run of a larger number adds that number once.
proof fn lemma_dedup_run(before: Seq<int>, v: int, c: int)
    requires
        c > 0,
        before.len() > 0 ==> before.last() < v,
    ensures
        dedup(before + Seq::new(c as nat, |k: int| v)) == dedup(before).push(v),
    decreases c,
{
    let s = before + Seq::new(c as nat, |k: int| v);
    assert(s.drop_last() =~= before + Seq::new((c - 1) as nat, |k: int| v));
    if c == 1 {
        assert(s.drop_last() =~= before);
        if before.len() == 0 {
            assert(s =~= seq![v]);
            assert(dedup(before).push(v) =~= seq![v]);
        }
    } else {
        lemma_dedup_run(before, v, c - 1);
    }
}

/// Runs with the numbers and counts of `s` expand to `s` in ascending order.
pub proof fn lemma_runs_sort(runs: Seq<(int, int)>, s: Seq<int>)
    requires
        runs_ok(runs),
        forall|t: int|
            0 <= t < runs.len() ==> (#[trigger] runs[t]).1 == occurrences(
                s,
                runs[t].0,
                s.len() as int,
            ),
        forall|i: int| 0 <= i < s.len() ==> has_head(runs, #[trigger] s[i]),
    ensures
        expand(runs) == s.sort(),
        heads(runs) == dedup(s.sort()),
{
    let leq = |x: int, y: int| x <= y;
    let e = expand(runs);
    lemma_expand_sorted(runs);
    s.lemma_sort_ensures();
    assert forall|a: int| e.to_multiset().count(a) == s.to_multiset().count(a) by {
        lemma_multiset_count(e, a);
        lemma_multiset_count(s, a);
        lemma_expand_count(runs, a);
        lemma_occurrences_bounds(s, a, s.len() as int);
        if !has_head(runs, a) {
            if occurrences(s, a, s.len() as int) > 0 {
                let i = lemma_occurring_at(s, a, s.len() as int);
                assert(has_head(runs, s[i]));
            }
        }
    }
    assert(e.to_multiset() =~= s.to_multiset());
    assert(sorted_by(e, leq));
    assert(total_ordering(leq));
    lemma_sorted_unique(e, s.sort(), leq);
}

/// How often the numbers of `ds` occur in `s`, all together.
pub open spec fn count_all(ds: Seq<int>, s: Seq<int>) -> int
    decreases ds.len(),
{
    if ds.len() == 0 {
        0
    } else {
        count_all(ds.drop_last(), s) + occurrences(s, ds.last(), s.len() as int)
    }
}

proof fn lemma_count_all_push(ds: Seq<int>, s: Seq<int>, x: int)
    requires
        forall|t: int| 0 <= t < ds.len() ==> ds[t] != x,
    ensures
        count_all(ds, s.push(x)) == count_all(ds, s),
    decreases ds.len(),
{
    if ds.len() > 0 {
        lemma_count_all_push(ds.drop_last(), s, x);
        assert(ds.last() == ds[ds.len() - 1]);
        lemma_occurrences_local(s.push(x), s, ds.last(), s.len() as int);
    }
}

/// Merging the neighbours of a sorted sequence gives its numbers, each once, in
/// ascending order. Their occurrences make up the whole sequence.
pub proof fn lemma_dedup(s: Seq<int>)
    requires
        forall|i: int, j: int| 0 <= i < j < s.len() ==> s[i] <= s[j],
    ensures
        forall|t: int, u: int|
            0 <= t < u < dedup(s).len() ==> (#[trigger] dedup(s)[t]) < (#[trigger] dedup(s)[u]),
        forall|t: int| 0 <= t < dedup(s).len() ==> s.contains(#[trigger] dedup(s)[t]),
        forall|i: int| 0 <= i < s.len() ==> dedup(s).contains(#[trigger] s[i]),
        s.len() > 0 ==> dedup(s).len() > 0 && dedup(s).last() == s.last(),
        count_all(dedup(s), s) == s.len(),
    decreases s.len(),
{
    let ds = dedup(s);
    if s.len() == 0 {
    } else if s.len() == 1 {
        assert(ds.drop_last() =~= Seq::empty());
        assert(count_all(ds.drop_last(), s) == 0);
        assert(occurrences(s, s[0], 0) == 0);
        assert(ds[0] == s[0]);
    } else {
        let r = s.drop_last();
        let x = s.last();
        let dr = dedup(r);
        assert forall|i: int, j: int| 0 <= i < j < r.len() implies r[i] <= r[j] by {
            assert(s[i] <= s[j]);
        }
        lemma_dedup(r);
        assert(s =~= r.push(x));
        assert forall|t: int| 0 <= t < dr.len() implies s.contains(#[trigger] dr[t]) by {
            let i = choose|i: int| 0 <= i < r.len() && r[i] == dr[t];
            assert(r.contains(dr[t]));
            assert(s[i] == dr[t]);
        }
        assert forall|i: int| 0 <= i < r.len() implies dr.contains(#[trigger] s[i]) by {
            assert(r[i] == s[i]);
        }
        assert(dr.last() == dr[dr.len() - 1]);
        if s[s.len() - 1] == s[s.len() - 2] {
            assert(ds == dr);
            let head = dr.drop_last();
            assert forall|t: int| 0 <= t < head.len() implies head[t] != x by {
                assert(dr[t] < dr[dr.len() - 1]);
            }
            lemma_count_all_push(head, r, x);
            lemma_occurrences_local(s, r, x, r.len() as int);
            assert(dr.contains(x)) by {
                assert(dr[dr.len() - 1] == x);
            }
        } else {
            assert(x > r.last());
            assert(ds == dr.push(x));
            assert forall|t: int| 0 <= t < dr.len() implies dr[t] < x by {
                if t < dr.len() - 1 {
                    assert(dr[t] < dr[dr.len() - 1]);
                }
            }
            lemma_count_all_push(dr, r, x);
            assert(ds.drop_last() =~= dr);
            lemma_occurrences_local(s, r, x, r.len() as int);
            if occurrences(r, x, r.len() as int) > 0 {
                let i = lemma_occurring_at(r, x, r.len() as int);
                assert(dr.contains(r[i]));
                let t = choose|t: int| 0 <= t < dr.len() && dr[t] == r[i];
            }
            lemma_occurrences_bounds(r, x, r.len() as int);
            assert forall|t: int, u: int| 0 <= t < u < ds.len() implies (#[trigger] ds[t]) < (
            #[trigger] ds[u]) by {
                if u < dr.len() {
                    assert(dr[t] < dr[u]);
                }
            }
            assert forall|t: int| 0 <= t < ds.len() implies s.contains(#[trigger] ds[t]) by {
                if t < dr.len() {
                    assert(s.contains(dr[t]));
                } else {
                    assert(s[s.len() - 1] == ds[t]);
                }
            }
            assert forall|i: int| 0 <= i < s.len() implies ds.contains(#[trigger] s[i]) by {
                if i < r.len() {
                    let t = choose|t: int| 0 <= t < dr.len() && dr[t] == s[i];
                    assert(dr.contains(s[i]));
                    assert(ds[t] == s[i]);
                } else {
                    assert(ds[ds.len() - 1] == x);
                }
            }
        }
    }
}

/// Sorting keeps the numbers of occurrences.
pub proof fn lemma_sort_counts(s: Seq<int>, a: int)
    ensures
        s.sort().len() == s.len(),
        occurrences(s.sort(), a, s.len() as int) == occurrences(s, a, s.len() as int),
        forall|i: int, j: int| 0 <= i < j < s.len() ==> s.sort()[i] <= s.sort()[j],
{
    s.lemma_sort_ensures();
    lemma_multiset_count(s, a);
    lemma_multiset_count(s.sort(), a);
    assert(s.to_multiset().len() == s.sort().to_multiset().len());
    s.to_multiset_ensures();
    s.sort().to_multiset_ensures();
    let leq = |x: int, y: int| x <= y;
    assert(sorted_by(s.sort(), leq));
    assert forall|i: int, j: int| 0 <= i < j < s.len() implies s.sort()[i] <= s.sort()[j] by {
        assert(leq(s.sort()[i], s.sort()[j]));
    }
}

} // verus!
