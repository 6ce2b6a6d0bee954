//! Which codes occur in a range of rows, and how often.

use vstd::prelude::*;

use crate::wavelet::{
    below, child, digits_below, lemma_below_all, lemma_below_step, lemma_below_zero,
    lemma_child_bounds, lemma_count_mono, lemma_pcount_empty, lemma_pcount_step,
    lemma_select_exists, lemma_step_bounds, path, pcount, step,
};

verus! {

/// The codes met by the rows `lo..hi` of level `l`, in ascending digit order,
/// each with the number of its rows. All these rows share the digits `pre`.
pub open spec fn leaves(
    levels: Seq<Seq<u8>>,
    l: int,
    lo: int,
    hi: int,
    pre: Seq<u8>,
    radix: int,
) -> Seq<(Seq<u8>, int)>
    decreases levels.len() - l, radix + 1,
{
    if lo >= hi {
        Seq::empty()
    } else if l < 0 || l >= levels.len() || lo >= levels[l].len() || radix < 0 {
        seq![(pre, hi - lo)]
    } else {
        leaves_from(levels, l, lo, hi, pre, radix, 0)
    }
}

/// The part of `leaves` that starts at digit `d`.
pub open spec fn leaves_from(
    levels: Seq<Seq<u8>>,
    l: int,
    lo: int,
    hi: int,
    pre: Seq<u8>,
    radix: int,
    d: int,
) -> Seq<(Seq<u8>, int)>
    decreases levels.len() - l, radix - d,
{
    if l < 0 || l >= levels.len() || d >= radix || d < 0 {
        Seq::empty()
    } else {
        leaves(
            levels,
            l + 1,
            child(levels[l], d as u8, lo),
            child(levels[l], d as u8, hi),
            pre.push(d as u8),
            radix,
        ) + leaves_from(levels, l, lo, hi, pre, radix, d + 1)
    }
}

/// How many rows the entries count together.
pub open spec fn total(entries: Seq<(Seq<u8>, int)>) -> int
    decreases entries.len(),
{
    if entries.len() == 0 {
        0
    } else {
        total(entries.drop_last()) + entries.last().1
    }
}

pub open spec fn has_code(entries: Seq<(Seq<u8>, int)>, c: Seq<u8>) -> bool {
    exists|t: int| 0 <= t < entries.len() && #[trigger] entries[t].0 == c
}

/// `a` and `b` agree up to some digit, and there `a` is smaller.
pub open spec fn lex_lt(a: Seq<u8>, b: Seq<u8>) -> bool {
    exists|m: int|
        0 <= m < a.len() && m < b.len() && a.take(m) == b.take(m) && #[trigger] a[m] < b[m]
}

/// No path of the first `n` rows starts with another.
pub open spec fn paths_prefix_free(levels: Seq<Seq<u8>>, n: int) -> bool {
    forall|i: int, j: int|
        0 <= i < n && 0 <= j < n && #[trigger] path(levels, 0, i).is_prefix_of(
            #[trigger] path(levels, 0, j),
        ) ==> path(levels, 0, i) == path(levels, 0, j)
}

pub open spec fn is_path(levels: Seq<Seq<u8>>, n: int, c: Seq<u8>) -> bool {
    exists|i: int| 0 <= i < n && #[trigger] path(levels, 0, i) == c
}

/// The rows `lo..hi` of level `l` all come from rows whose path starts with
/// `pre`.
pub open spec fn node(
    levels: Seq<Seq<u8>>,
    n: int,
    l: int,
    lo: int,
    hi: int,
    pre: Seq<u8>,
) -> bool {
    &&& 0 <= l <= levels.len()
    &&& 0 <= lo <= hi
    &&& pre.len() == l
    &&& forall|j: int| lo <= j < hi ==> is_path(levels, n, pre + #[trigger] path(levels, l, j))
}

pub open spec fn entry_ok(
    levels: Seq<Seq<u8>>,
    n: int,
    l: int,
    lo: int,
    hi: int,
    pre: Seq<u8>,
    e: (Seq<u8>, int),
) -> bool {
    &&& pre.is_prefix_of(e.0)
    &&& e.1 == pcount(levels, l, e.0.skip(l), lo, hi)
    &&& e.1 > 0
    &&& is_path(levels, n, e.0)
}

pub open spec fn entries_ok(
    levels: Seq<Seq<u8>>,
    n: int,
    l: int,
    lo: int,
    hi: int,
    pre: Seq<u8>,
    entries: Seq<(Seq<u8>, int)>,
) -> bool {
    &&& forall|t: int|
        0 <= t < entries.len() ==> entry_ok(levels, n, l, lo, hi, pre, #[trigger] entries[t])
    &&& forall|t: int, u: int|
        0 <= t < u < entries.len() ==> lex_lt(
            (#[trigger] entries[t]).0,
            (#[trigger] entries[u]).0,
        )
}

pub proof fn lemma_total_append(a: Seq<(Seq<u8>, int)>, b: Seq<(Seq<u8>, int)>)
    ensures
        total(a + b) == total(a) + total(b),
    decreases b.len(),
{
    if b.len() == 0 {
        assert(a + b =~= a);
    } else {
        assert((a + b).drop_last() =~= a + b.drop_last());
        lemma_total_append(a, b.drop_last());
    }
}

/// Rows of one node end together.
pub proof fn lemma_node_uniform(
    levels: Seq<Seq<u8>>,
    n: int,
    l: int,
    lo: int,
    hi: int,
    pre: Seq<u8>,
    i: int,
    j: int,
)
    requires
        node(levels, n, l, lo, hi, pre),
        paths_prefix_free(levels, n),
        lo <= i < hi,
        lo <= j < hi,
        path(levels, l, i).len() == 0,
    ensures
        path(levels, l, j).len() == 0,
{
    let a = choose|a: int| 0 <= a < n && #[trigger] path(levels, 0, a) == pre + path(levels, l, i);
    let b = choose|b: int| 0 <= b < n && #[trigger] path(levels, 0, b) == pre + path(levels, l, j);
    assert(is_path(levels, n, pre + path(levels, l, i)));
    assert(is_path(levels, n, pre + path(levels, l, j)));
    assert(pre + path(levels, l, i) =~= (pre + path(levels, l, j)).subrange(0, l));
    assert(path(levels, 0, a).is_prefix_of(path(levels, 0, b)));
    assert(pre + path(levels, l, i) == pre + path(levels, l, j));
}

/// The rows of a node that have digit `d` are a node of the next level.
pub proof fn lemma_node_child(
    levels: Seq<Seq<u8>>,
    n: int,
    l: int,
    lo: int,
    hi: int,
    pre: Seq<u8>,
    d: u8,
)
    requires
        node(levels, n, l, lo, hi, pre),
        l < levels.len(),
        hi <= levels[l].len(),
    ensures
        node(
            levels,
            n,
            l + 1,
            child(levels[l], d, lo),
            child(levels[l], d, hi),
            pre.push(d),
        ),
{
    let s = levels[l];
    lemma_child_bounds(s, d, lo);
    lemma_count_mono(s, d, lo, hi);
    assert forall|j: int| child(s, d, lo) <= j < child(s, d, hi) implies is_path(
        levels,
        n,
        pre.push(d) + #[trigger] path(levels, l + 1, j),
    ) by {
        let k = j - below(s, d as int, s.len() as int);
        lemma_count_mono(s, d, 0, lo);
        let p = lemma_select_exists(s, d, k, hi);
        if p < lo {
            lemma_count_mono(s, d, p + 1, lo);
        }
        assert(is_path(levels, n, pre + path(levels, l, p)));
        assert(pre + path(levels, l, p) =~= pre.push(d) + path(levels, l + 1, j));
    }
}

pub proof fn lemma_leaves(
    levels: Seq<Seq<u8>>,
    n: int,
    l: int,
    lo: int,
    hi: int,
    pre: Seq<u8>,
    radix: int,
)
    requires
        node(levels, n, l, lo, hi, pre),
        paths_prefix_free(levels, n),
        0 <= radix <= 255,
        forall|m: int| 0 <= m < levels.len() ==> digits_below(#[trigger] levels[m], radix),
    ensures
        entries_ok(levels, n, l, lo, hi, pre, leaves(levels, l, lo, hi, pre, radix)),
        total(leaves(levels, l, lo, hi, pre, radix)) == hi - lo,
        forall|j: int|
            lo <= j < hi ==> has_code(
                leaves(levels, l, lo, hi, pre, radix),
                pre + #[trigger] path(levels, l, j),
            ),
    decreases levels.len() - l, radix + 1,
{
    let out = leaves(levels, l, lo, hi, pre, radix);
    if lo >= hi {
    } else if l >= levels.len() || lo >= levels[l].len() {
        assert(out =~= seq![(pre, hi - lo)]);
        assert(path(levels, l, lo) =~= Seq::<u8>::empty());
        assert forall|j: int| lo <= j < hi implies has_code(
            out,
            pre + #[trigger] path(levels, l, j),
        ) by {
            lemma_node_uniform(levels, n, l, lo, hi, pre, lo, j);
            assert(pre + path(levels, l, j) =~= pre);
            assert(out[0].0 == pre);
        }
        lemma_pcount_empty(levels, l, pre.skip(l), lo, hi);
        assert(pre =~= pre.subrange(0, pre.len() as int));
        assert(is_path(levels, n, pre + path(levels, l, lo)));
        assert(pre + path(levels, l, lo) =~= pre);
        assert(entry_ok(levels, n, l, lo, hi, pre, out[0]));
        assert(out.drop_last() =~= Seq::empty());
        assert(total(out.drop_last()) == 0);
    } else {
        let s = levels[l];
        if hi > s.len() {
            assert(path(levels, l, s.len() as int).len() == 0);
            lemma_node_uniform(levels, n, l, lo, hi, pre, s.len() as int, lo);
        }
        lemma_leaves_from(levels, n, l, lo, hi, pre, radix, 0);
        lemma_below_zero(s, lo);
        lemma_below_zero(s, hi);
        assert forall|j: int| lo <= j < hi implies has_code(
            out,
            pre + #[trigger] path(levels, l, j),
        ) by {
            assert(s[j] >= 0);
        }
    }
}

proof fn lemma_leaves_from(
    levels: Seq<Seq<u8>>,
    n: int,
    l: int,
    lo: int,
    hi: int,
    pre: Seq<u8>,
    radix: int,
    d: int,
)
    requires
        node(levels, n, l, lo, hi, pre),
        paths_prefix_free(levels, n),
        0 <= d <= radix <= 255,
        l < levels.len(),
        hi <= levels[l].len(),
        forall|m: int| 0 <= m < levels.len() ==> digits_below(#[trigger] levels[m], radix),
    ensures
        entries_ok(levels, n, l, lo, hi, pre, leaves_from(levels, l, lo, hi, pre, radix, d)),
        forall|t: int|
            0 <= t < leaves_from(levels, l, lo, hi, pre, radix, d).len() ==> {
                let c = (#[trigger] leaves_from(levels, l, lo, hi, pre, radix, d)[t]).0;
                c.len() > l && c[l] >= d
            },
        total(leaves_from(levels, l, lo, hi, pre, radix, d)) == (hi - below(levels[l], d, hi)) - (lo
            - below(levels[l], d, lo)),
        forall|j: int|
            lo <= j < hi && levels[l][j] >= d ==> has_code(
                leaves_from(levels, l, lo, hi, pre, radix, d),
                pre + #[trigger] path(levels, l, j),
            ),
    decreases levels.len() - l, radix - d,
{
    let s = levels[l];
    let out = leaves_from(levels, l, lo, hi, pre, radix, d);
    assert(digits_below(s, radix));
    if d == radix {
        lemma_below_all(s, radix, lo);
        lemma_below_all(s, radix, hi);
    } else {
        let e = d as u8;
        let clo = child(s, e, lo);
        let chi = child(s, e, hi);
        let mine = leaves(levels, l + 1, clo, chi, pre.push(e), radix);
        let rest = leaves_from(levels, l, lo, hi, pre, radix, d + 1);
        assert(out == mine + rest);
        lemma_node_child(levels, n, l, lo, hi, pre, e);
        lemma_leaves(levels, n, l + 1, clo, chi, pre.push(e), radix);
        lemma_leaves_from(levels, n, l, lo, hi, pre, radix, d + 1);
        lemma_total_append(mine, rest);
        lemma_below_step(s, e, lo);
        lemma_below_step(s, e, hi);
        assert forall|t: int| 0 <= t < mine.len() implies {
            &&& entry_ok(levels, n, l, lo, hi, pre, #[trigger] mine[t])
            &&& mine[t].0.len() > l
            &&& mine[t].0[l] == e
            &&& mine[t].0.take(l) == pre
        } by {
            let c = mine[t].0;
            assert(entry_ok(levels, n, l + 1, clo, chi, pre.push(e), mine[t]));
            assert(pre.push(e)[l] == c.subrange(0, l + 1)[l]);
            assert(pre =~= c.subrange(0, l)) by {
                assert forall|i: int| 0 <= i < l implies pre[i] == c[i] by {
                    assert(pre.push(e)[i] == c.subrange(0, l + 1)[i]);
                }
            }
            assert(c.take(l) =~= c.subrange(0, l));
            assert(c.skip(l).drop_first() =~= c.skip(l + 1));
            lemma_pcount_step(levels, l, c.skip(l), lo, hi);
        }
        assert forall|t: int| 0 <= t < rest.len() implies (#[trigger] rest[t]).0.take(l)
            == pre by {
            assert(entry_ok(levels, n, l, lo, hi, pre, rest[t]));
            assert(rest[t].0.take(l) =~= rest[t].0.subrange(0, l));
        }
        assert forall|t: int| 0 <= t < out.len() implies entry_ok(
            levels,
            n,
            l,
            lo,
            hi,
            pre,
            #[trigger] out[t],
        ) && out[t].0.len() > l && out[t].0[l] >= d by {
            if t < mine.len() {
                assert(out[t] == mine[t]);
            } else {
                assert(out[t] == rest[t - mine.len()]);
            }
        }
        assert forall|t: int, u: int| 0 <= t < u < out.len() implies lex_lt(
            (#[trigger] out[t]).0,
            (#[trigger] out[u]).0,
        ) by {
            if u < mine.len() {
                assert(out[t] == mine[t] && out[u] == mine[u]);
            } else if t >= mine.len() {
                assert(out[t] == rest[t - mine.len()] && out[u] == rest[u - mine.len()]);
            } else {
                assert(out[t] == mine[t] && out[u] == rest[u - mine.len()]);
                let a = out[t].0;
                let b = out[u].0;
                assert(a.take(l) == b.take(l));
                assert(a[l] < b[l]);
            }
        }
        assert forall|j: int| lo <= j < hi && s[j] >= d implies has_code(
            out,
            pre + #[trigger] path(levels, l, j),
        ) by {
            let c = pre + path(levels, l, j);
            if s[j] == e {
                lemma_step_bounds(s, j);
                lemma_count_mono(s, e, lo, j);
                lemma_count_mono(s, e, j + 1, hi);
                let k = step(s, j);
                assert(clo <= k < chi);
                assert(pre.push(e) + path(levels, l + 1, k) =~= c);
                assert(has_code(mine, c));
                let t = choose|t: int| 0 <= t < mine.len() && #[trigger] mine[t].0 == c;
                assert(out[t].0 == c);
            } else {
                assert(s[j] >= d + 1);
                assert(has_code(rest, c));
                let t = choose|t: int| 0 <= t < rest.len() && #[trigger] rest[t].0 == c;
                assert(out[t + mine.len()].0 == c);
            }
        }
    }
}

/// A single row is a single leaf.
pub proof fn lemma_leaves_single(
    levels: Seq<Seq<u8>>,
    l: int,
    p: int,
    pre: Seq<u8>,
    radix: int,
)
    requires
        0 <= l <= levels.len(),
        0 <= p,
        0 <= radix <= 255,
        forall|m: int| 0 <= m < levels.len() ==> digits_below(#[trigger] levels[m], radix),
    ensures
        leaves(levels, l, p, p + 1, pre, radix) == seq![(pre + path(levels, l, p), 1int)],
    decreases levels.len() - l, radix + 1,
{
    if l >= levels.len() || p >= levels[l].len() {
        assert(pre + path(levels, l, p) =~= pre);
    } else {
        assert(digits_below(levels[l], radix));
        lemma_leaves_from_single(levels, l, p, pre, radix, 0);
    }
}

proof fn lemma_leaves_from_single(
    levels: Seq<Seq<u8>>,
    l: int,
    p: int,
    pre: Seq<u8>,
    radix: int,
    d: int,
)
    requires
        0 <= l < levels.len(),
        0 <= p < levels[l].len(),
        0 <= d <= radix <= 255,
        forall|m: int| 0 <= m < levels.len() ==> digits_below(#[trigger] levels[m], radix),
    ensures
        leaves_from(levels, l, p, p + 1, pre, radix, d) == if levels[l][p] >= d {
            seq![(pre + path(levels, l, p), 1int)]
        } else {
            Seq::empty()
        },
    decreases levels.len() - l, radix - d,
{
    let s = levels[l];
    assert(digits_below(s, radix));
    if d < radix {
        let e = d as u8;
        lemma_leaves_from_single(levels, l, p, pre, radix, d + 1);
        let rest = leaves_from(levels, l, p, p + 1, pre, radix, d + 1);
        let mine = leaves(levels, l + 1, child(s, e, p), child(s, e, p + 1), pre.push(e), radix);
        if s[p] == e {
            lemma_step_bounds(s, p);
            lemma_leaves_single(levels, l + 1, step(s, p), pre.push(e), radix);
            assert(pre.push(e) + path(levels, l + 1, step(s, p)) =~= pre + path(levels, l, p));
            assert(mine + rest =~= mine);
        } else {
            assert(mine =~= Seq::empty());
            assert(mine + rest =~= rest);
        }
    }
}

} // verus!
