//! Extracting a range of positions in ascending order.

use vstd::prelude::*;

use crate::digits::{lemma_push_mod, push_digit, radix_of, value};
use crate::indexable::WTIndexable;
use crate::level::{level_digits, DigitLevel};
use crate::matrix::{lemma_plain_path, plain_levels};
use crate::occs::{
    entry_ok, has_code, is_path, leaves, leaves_from, lemma_leaves, lemma_leaves_single, lex_lt,
    paths_prefix_free,
};
use crate::plain::{lemma_plain_count, plain_values, plain_wf, symbol_of};
use crate::sorting::{
    dedup, expand, has_head, heads, lemma_occurrences_part, lemma_runs_sort, runs_ok,
};
use crate::tree::{lemma_lex_value, lemma_root_node, occurrences};
use crate::wavelet::{
    child, digits_below, lemma_child_bounds, lemma_count_mono, lemma_pcount_split,
    lemma_step_bounds, path, step,
};

verus! {

/// The numbers that the codes of leaves write, with their counts.
pub open spec fn runs_of(entries: Seq<(Seq<u8>, int)>, radix: int) -> Seq<(int, int)> {
    entries.map_values(|e: (Seq<u8>, int)| (value(e.0, radix), e.1))
}

/// The runs, their numbers modulo two to the 64.
pub open spec fn holds_runs(out: Seq<(u64, usize)>, runs: Seq<(int, int)>) -> bool {
    &&& out.len() == runs.len()
    &&& forall|t: int|
        0 <= t < out.len() ==> (#[trigger] out[t]).0 == runs[t].0 % 0x1_0000_0000_0000_0000
            && out[t].1 == runs[t].1
}

proof fn lemma_holds_append(
    a: Seq<(u64, usize)>,
    x: Seq<(int, int)>,
    b: Seq<(u64, usize)>,
    y: Seq<(int, int)>,
)
    requires
        holds_runs(a, x),
        holds_runs(b, y),
    ensures
        holds_runs(a + b, x + y),
{
    assert forall|t: int| 0 <= t < (a + b).len() implies (#[trigger] (a + b)[t]).0 == (x + y)[t].0
        % 0x1_0000_0000_0000_0000 && (a + b)[t].1 == (x + y)[t].1 by {
        if t < a.len() {
            assert((a + b)[t] == a[t]);
        } else {
            assert((a + b)[t] == b[t - a.len()]);
        }
    }
}

/// Follows the row at position `pos` of a level down to the bottom. Returns
/// what its digits write behind those of `prefix`.
fn singleton_from<L: DigitLevel>(
    levels: &Vec<L>,
    n: usize,
    level: usize,
    pos: usize,
    prefix: u64,
    pre: Ghost<Seq<u8>>,
) -> (v: u64)
    requires
        plain_wf(levels@, n as int),
        level <= levels.len(),
        pos < n,
        prefix == value(pre@, radix_of(L::digit_bits())) % 0x1_0000_0000_0000_0000,
    ensures
        v == value(
            pre@ + path(level_digits(levels@), level as int, pos as int),
            radix_of(L::digit_bits()),
        ) % 0x1_0000_0000_0000_0000,
{
    let ghost lv = level_digits(levels@);
    let ghost radix = radix_of(L::digit_bits());
    let ghost full = pre@ + path(lv, level as int, pos as int);
    let bits: u32 = L::bits();
    let mut cur: usize = pos;
    let mut l: usize = level;
    let mut v: u64 = prefix;
    let ghost mut done = pre@;
    while l < levels.len()
        invariant
            plain_wf(levels@, n as int),
            lv == level_digits(levels@),
            radix == radix_of(L::digit_bits()),
            bits == L::digit_bits(),
            bits == 1 || bits == 2,
            l <= levels.len(),
            cur < n,
            full == done + path(lv, l as int, cur as int),
            v == value(done, radix) % 0x1_0000_0000_0000_0000,
        decreases levels.len() - l,
    {
        let lev = &levels[l];
        assert(lev.wf());
        assert(lv[l as int] == lev.digits());
        assert(lv[l as int].len() == n);
        let d: u8 = lev.digit(cur);
        proof {
            lemma_step_bounds(lev.digits(), cur as int);
            lev.lemma_level();
            assert(done.push(d).drop_last() =~= done);
            lemma_push_mod(value(done, radix), radix, d as int, 0x1_0000_0000_0000_0000);
            assert(done.push(d) + path(lv, l + 1, step(lev.digits(), cur as int)) =~= done + path(
                lv,
                l as int,
                cur as int,
            ));
            done = done.push(d);
        }
        v = push_digit(v, d, bits);
        cur = lev.digits_smaller(d) + lev.digit_rank(d, cur);
        l = l + 1;
    }
    assert(full =~= done);
    v
}

/// Appends the runs of the rows `start..end` of a level, in ascending order.
fn collect_runs<L: DigitLevel>(
    levels: &Vec<L>,
    n: usize,
    level: usize,
    start: usize,
    end: usize,
    prefix: u64,
    pre: Ghost<Seq<u8>>,
    out: &mut Vec<(u64, usize)>,
)
    requires
        plain_wf(levels@, n as int),
        level <= levels.len(),
        start <= end <= n,
        prefix == value(pre@, radix_of(L::digit_bits())) % 0x1_0000_0000_0000_0000,
    ensures
        final(out)@.take(old(out)@.len() as int) == old(out)@,
        final(out)@.len() >= old(out)@.len(),
        holds_runs(
            final(out)@.skip(old(out)@.len() as int),
            runs_of(
                leaves(
                    level_digits(levels@),
                    level as int,
                    start as int,
                    end as int,
                    pre@,
                    radix_of(L::digit_bits()),
                ),
                radix_of(L::digit_bits()),
            ),
        ),
    decreases levels.len() - level,
{
    let ghost lv = level_digits(levels@);
    let ghost radix = radix_of(L::digit_bits());
    let ghost first = out@;
    let ghost all = leaves(lv, level as int, start as int, end as int, pre@, radix);
    assert(out@.take(out@.len() as int) =~= out@);
    if start >= end {
        return;
    }
    if level == levels.len() {
        out.push((prefix, end - start));
        proof {
            assert(all =~= seq![(pre@, end - start)]);
            assert(out@.take(first.len() as int) =~= first);
            let s = out@.skip(first.len() as int);
            assert(s =~= seq![(prefix, (end - start) as usize)]);
        }
        return;
    }
    if end - start == 1 {
        let v: u64 = singleton_from(levels, n, level, start, prefix, pre);
        out.push((v, 1));
        proof {
            assert forall|m: int| 0 <= m < lv.len() implies digits_below(#[trigger] lv[m], radix) by {}
            lemma_leaves_single(lv, level as int, start as int, pre@, radix);
            assert(out@.take(first.len() as int) =~= first);
            let s = out@.skip(first.len() as int);
            assert(s =~= seq![(v, 1usize)]);
        }
        return;
    }
    let lev = &levels[level];
    assert(lev.wf());
    assert(lv[level as int] == lev.digits());
    assert(lv[level as int].len() == n);
    let bits: u32 = L::bits();
    let base: u8 = if bits == 1 {
        2
    } else {
        4
    };
    let mut d: u8 = 0;
    let ghost mut so_far: Seq<(Seq<u8>, int)> = Seq::empty();
    proof {
        assert(out@.skip(first.len() as int) =~= Seq::empty());
        assert(runs_of(so_far, radix) =~= Seq::empty());
        assert(so_far + leaves_from(
            lv,
            level as int,
            start as int,
            end as int,
            pre@,
            radix,
            0,
        ) =~= all);
    }
    while d < base
        invariant
            plain_wf(levels@, n as int),
            lv == level_digits(levels@),
            radix == radix_of(L::digit_bits()),
            bits == L::digit_bits(),
            bits == 1 || bits == 2,
            base == radix,
            d <= base,
            level < levels.len(),
            *lev == levels[level as int],
            lev.wf(),
            lev.digits() == lv[level as int],
            lev.digits().len() == n,
            start < end <= n,
            prefix == value(pre@, radix) % 0x1_0000_0000_0000_0000,
            out@.len() >= first.len(),
            out@.take(first.len() as int) == first,
            holds_runs(out@.skip(first.len() as int), runs_of(so_far, radix)),
            so_far + leaves_from(
                lv,
                level as int,
                start as int,
                end as int,
                pre@,
                radix,
                d as int,
            ) == all,
        decreases base - d,
    {
        let smaller: usize = lev.digits_smaller(d);
        let rank_s: usize = lev.digit_rank(d, start);
        let rank_e: usize = lev.digit_rank(d, end);
        let ghost mine = leaves(
            lv,
            level + 1,
            child(lev.digits(), d, start as int),
            child(lev.digits(), d, end as int),
            pre@.push(d),
            radix,
        );
        proof {
            lemma_child_bounds(lev.digits(), d, start as int);
            lemma_child_bounds(lev.digits(), d, end as int);
            lemma_count_mono(lev.digits(), d, start as int, end as int);
            assert(pre@.push(d).drop_last() =~= pre@);
            lemma_push_mod(value(pre@, radix), radix, d as int, 0x1_0000_0000_0000_0000);
        }
        let ghost before = out@;
        let child_start: usize = smaller + rank_s;
        let child_end: usize = smaller + rank_e;
        let child_prefix: u64 = push_digit(prefix, d, bits);
        collect_runs(
            levels,
            n,
            level + 1,
            child_start,
            child_end,
            child_prefix,
            Ghost(pre@.push(d)),
            out,
        );
        proof {
            let tail = out@.skip(before.len() as int);
            lemma_holds_append(
                before.skip(first.len() as int),
                runs_of(so_far, radix),
                tail,
                runs_of(mine, radix),
            );
            assert(out@ =~= before + tail) by {
                assert(before == out@.take(before.len() as int));
            }
            assert(out@.take(first.len() as int) =~= before.take(first.len() as int));
            assert(out@.skip(first.len() as int) =~= before.skip(first.len() as int) + tail);
            assert(runs_of(so_far + mine, radix) =~= runs_of(so_far, radix) + runs_of(mine, radix));
            let rest = leaves_from(
                lv,
                level as int,
                start as int,
                end as int,
                pre@,
                radix,
                d + 1,
            );
            assert((so_far + mine) + rest =~= so_far + (mine + rest));
            so_far = so_far + mine;
        }
        d = d + 1;
    }
    assert(so_far =~= all);
}

/// Paths through levels of one length do not start with each other.
proof fn lemma_plain_free(levels: Seq<Seq<u8>>, n: int, radix: int)
    requires
        plain_levels(levels, n, radix),
    ensures
        paths_prefix_free(levels, n),
{
    assert forall|i: int, j: int|
        0 <= i < n && 0 <= j < n && #[trigger] path(levels, 0, i).is_prefix_of(
            #[trigger] path(levels, 0, j),
        ) implies path(levels, 0, i) == path(levels, 0, j) by {
        lemma_plain_path(levels, n, radix, 0, i);
        lemma_plain_path(levels, n, radix, 0, j);
        assert(path(levels, 0, i) =~= path(levels, 0, j));
    }
}

/// The leaves of a range are the runs of its values in ascending order.
proof fn lemma_plain_runs(levels: Seq<Seq<u8>>, n: int, radix: int, lo: int, hi: int)
    requires
        plain_levels(levels, n, radix),
        2 <= radix <= 4,
        0 <= lo <= hi <= n,
    ensures
        ({
            let runs = runs_of(leaves(levels, 0, lo, hi, Seq::empty(), radix), radix);
            let values = plain_values(levels, n, radix);
            &&& runs_ok(runs)
            &&& forall|t: int|
                0 <= t < runs.len() ==> (#[trigger] runs[t]).1 == occurrences(
                    values,
                    runs[t].0,
                    hi,
                ) - occurrences(values, runs[t].0, lo)
            &&& expand(runs) == values.subrange(lo, hi).sort()
            &&& heads(runs) == dedup(values.subrange(lo, hi).sort())
        }),
{
    let entries = leaves(levels, 0, lo, hi, Seq::empty(), radix);
    let runs = runs_of(entries, radix);
    let values = plain_values(levels, n, radix);
    let part = values.subrange(lo, hi);
    lemma_plain_free(levels, n, radix);
    lemma_root_node(levels, n, lo, hi);
    assert forall|m: int| 0 <= m < levels.len() implies digits_below(#[trigger] levels[m], radix) by {}
    lemma_leaves(levels, n, 0, lo, hi, Seq::empty(), radix);
    assert forall|t: int| 0 <= t < entries.len() implies {
        &&& (#[trigger] entries[t]).0.len() == levels.len()
        &&& digits_below(entries[t].0, radix)
        &&& entries[t].1 > 0
        &&& entries[t].1 == occurrences(values, value(entries[t].0, radix), hi) - occurrences(
            values,
            value(entries[t].0, radix),
            lo,
        )
    } by {
        let c = entries[t].0;
        assert(entry_ok(levels, n, 0, lo, hi, Seq::empty(), entries[t]));
        let i = choose|i: int| 0 <= i < n && #[trigger] path(levels, 0, i) == c;
        assert(is_path(levels, n, c));
        lemma_plain_path(levels, n, radix, 0, i);
        assert(c.skip(0) =~= c);
        lemma_pcount_split(levels, 0, c, 0, lo, hi);
        lemma_plain_count(levels, n, radix, c, lo);
        lemma_plain_count(levels, n, radix, c, hi);
    }
    assert forall|t: int| 0 <= t < runs.len() implies (#[trigger] runs[t]).1 > 0 && runs[t].1
        == occurrences(values, runs[t].0, hi) - occurrences(values, runs[t].0, lo) && runs[t].1
        == occurrences(part, runs[t].0, part.len() as int) by {
        assert(entries[t].1 > 0);
        lemma_occurrences_part(values, runs[t].0, lo, hi);
    }
    assert forall|t: int, u: int| 0 <= t < u < runs.len() implies (#[trigger] runs[t]).0 < (
    #[trigger] runs[u]).0 by {
        assert(lex_lt(entries[t].0, entries[u].0));
        lemma_lex_value(entries[t].0, entries[u].0, radix);
    }
    assert forall|i: int| 0 <= i < part.len() implies has_head(runs, #[trigger] part[i]) by {
        let c = path(levels, 0, lo + i);
        assert(Seq::<u8>::empty() + c =~= c);
        assert(has_code(entries, c));
        let t = choose|t: int| 0 <= t < entries.len() && #[trigger] entries[t].0 == c;
        assert(runs[t].0 == part[i]);
    }
    lemma_runs_sort(runs, part);
}

/// The runs of the values at the positions `start..end`.
fn range_runs<L: DigitLevel>(levels: &Vec<L>, n: usize, start: usize, end: usize) -> (out: Vec<
    (u64, usize),
>)
    requires
        plain_wf(levels@, n as int),
        start <= end <= n,
    ensures
        ({
            let radix = radix_of(L::digit_bits());
            let values = plain_values(level_digits(levels@), n as int, radix);
            let runs = runs_of(
                leaves(
                    level_digits(levels@),
                    0,
                    start as int,
                    end as int,
                    Seq::empty(),
                    radix,
                ),
                radix,
            );
            &&& holds_runs(out@, runs)
            &&& runs_ok(runs)
            &&& forall|t: int|
                0 <= t < runs.len() ==> (#[trigger] runs[t]).1 == occurrences(
                    values,
                    runs[t].0,
                    end as int,
                ) - occurrences(values, runs[t].0, start as int)
            &&& expand(runs) == values.subrange(start as int, end as int).sort()
            &&& heads(runs) == dedup(values.subrange(start as int, end as int).sort())
        }),
{
    let mut out: Vec<(u64, usize)> = Vec::new();
    let bits: u32 = L::bits();
    proof {
        lemma_plain_runs(
            level_digits(levels@),
            n as int,
            radix_of(bits),
            start as int,
            end as int,
        );
        assert(value(Seq::<u8>::empty(), radix_of(bits)) == 0);
    }
    collect_runs(levels, n, 0, start, end, 0, Ghost(Seq::empty()), &mut out);
    assert(out@.skip(0) =~= out@);
    out
}

/// The values at the positions `start..end` in ascending order.
pub fn plain_extract<T: WTIndexable, L: DigitLevel>(
    levels: &Vec<L>,
    n: usize,
    start: usize,
    end: usize,
) -> (out: Vec<T>)
    requires
        plain_wf(levels@, n as int),
        start <= end <= n,
    ensures
        out@ == plain_values(
            level_digits(levels@),
            n as int,
            radix_of(L::digit_bits()),
        ).subrange(start as int, end as int).sort().map_values(|v: int| symbol_of::<T>(v)),
{
    let runs: Vec<(u64, usize)> = range_runs(levels, n, start, end);
    let ghost spec_runs = runs_of(
        leaves(
            level_digits(levels@),
            0,
            start as int,
            end as int,
            Seq::empty(),
            radix_of(L::digit_bits()),
        ),
        radix_of(L::digit_bits()),
    );
    let ghost f = |v: int| symbol_of::<T>(v);
    let mut out: Vec<T> = Vec::with_capacity(end - start);
    let mut t: usize = 0;
    assert(out@ =~= expand(spec_runs.take(0)).map_values(f));
    while t < runs.len()
        invariant
            t <= runs.len(),
            holds_runs(runs@, spec_runs),
            f == (|v: int| symbol_of::<T>(v)),
            out@ == expand(spec_runs.take(t as int)).map_values(f),
        decreases runs.len() - t,
    {
        let symbol: T = T::from_u64(runs[t].0);
        let times: usize = runs[t].1;
        let ghost before = out@;
        let ghost more = spec_runs.take(t + 1);
        let ghost v = spec_runs[t as int].0;
        proof {
            assert(more.drop_last() =~= spec_runs.take(t as int));
            assert(more.last() == spec_runs[t as int]);
            assert(symbol == f(v));
        }
        let mut k: usize = 0;
        while k < times
            invariant
                k <= times,
                out@ == before + Seq::new(k as nat, |j: int| symbol),
            decreases times - k,
        {
            out.push(symbol);
            k = k + 1;
            assert(out@ =~= before + Seq::new(k as nat, |j: int| symbol));
        }
        proof {
            assert(expand(more) == expand(spec_runs.take(t as int)) + Seq::new(
                times as nat,
                |j: int| more.last().0,
            ));
            assert(out@ =~= expand(more).map_values(f));
        }
        t = t + 1;
    }
    assert(spec_runs.take(t as int) =~= spec_runs);
    out
}

/// Appends the distinct values at the positions `start..end` in ascending order.
pub fn plain_extract_distinct<T: WTIndexable, L: DigitLevel>(
    levels: &Vec<L>,
    n: usize,
    start: usize,
    end: usize,
    out: &mut Vec<T>,
)
    requires
        plain_wf(levels@, n as int),
        start <= end <= n,
    ensures
        final(out)@ == old(out)@ + dedup(
            plain_values(
                level_digits(levels@),
                n as int,
                radix_of(L::digit_bits()),
            ).subrange(start as int, end as int).sort(),
        ).map_values(|v: int| symbol_of::<T>(v)),
{
    let runs: Vec<(u64, usize)> = range_runs(levels, n, start, end);
    let ghost spec_runs = runs_of(
        leaves(
            level_digits(levels@),
            0,
            start as int,
            end as int,
            Seq::empty(),
            radix_of(L::digit_bits()),
        ),
        radix_of(L::digit_bits()),
    );
    let ghost f = |v: int| symbol_of::<T>(v);
    let ghost first = out@;
    let mut t: usize = 0;
    while t < runs.len()
        invariant
            t <= runs.len(),
            holds_runs(runs@, spec_runs),
            f == (|v: int| symbol_of::<T>(v)),
            out@.len() == first.len() + t,
            forall|j: int| 0 <= j < first.len() ==> out@[j] == first[j],
            forall|j: int|
                0 <= j < t ==> #[trigger] out@[first.len() + j] == f(spec_runs[j].0),
        decreases runs.len() - t,
    {
        out.push(T::from_u64(runs[t].0));
        assert(spec_runs[t as int].0 % 0x1_0000_0000_0000_0000 == runs[t as int].0);
        t = t + 1;
    }
    proof {
        let tail = heads(spec_runs).map_values(f);
        assert forall|j: int| 0 <= j < out@.len() implies out@[j] == (first + tail)[j] by {
            if j >= first.len() {
                assert(out@[first.len() + (j - first.len())] == f(spec_runs[j - first.len()].0));
            }
        }
        assert(out@ =~= first + tail);
    }
}

/// The distinct values at the positions `start..end` in ascending order, each
/// with the number of its occurrences there.
pub fn plain_occs<T: WTIndexable, L: DigitLevel>(
    levels: &Vec<L>,
    n: usize,
    start: usize,
    end: usize,
) -> (out: Vec<(T, usize)>)
    requires
        plain_wf(levels@, n as int),
        start <= end <= n,
    ensures
        ({
            let values = plain_values(
                level_digits(levels@),
                n as int,
                radix_of(L::digit_bits()),
            );
            let distinct = dedup(values.subrange(start as int, end as int).sort());
            &&& out.len() == distinct.len()
            &&& forall|t: int|
                0 <= t < out.len() ==> (#[trigger] out[t]).0 == symbol_of::<T>(distinct[t])
                    && out[t].1 == occurrences(values, distinct[t], end as int) - occurrences(
                    values,
                    distinct[t],
                    start as int,
                )
        }),
{
    let runs: Vec<(u64, usize)> = range_runs(levels, n, start, end);
    let ghost spec_runs = runs_of(
        leaves(
            level_digits(levels@),
            0,
            start as int,
            end as int,
            Seq::empty(),
            radix_of(L::digit_bits()),
        ),
        radix_of(L::digit_bits()),
    );
    let mut out: Vec<(T, usize)> = Vec::with_capacity(runs.len());
    let mut t: usize = 0;
    while t < runs.len()
        invariant
            t <= runs.len(),
            holds_runs(runs@, spec_runs),
            out.len() == t,
            forall|j: int|
                0 <= j < t ==> (#[trigger] out[j]).0 == symbol_of::<T>(spec_runs[j].0) && out[j].1
                    == spec_runs[j].1,
        decreases runs.len() - t,
    {
        out.push((T::from_u64(runs[t].0), runs[t].1));
        assert(spec_runs[t as int].0 % 0x1_0000_0000_0000_0000 == runs[t as int].0);
        t = t + 1;
    }
    proof {
        let h = heads(spec_runs);
        assert forall|j: int| 0 <= j < out.len() implies h[j] == spec_runs[j].0 by {}
    }
    out
}

} // verus!
