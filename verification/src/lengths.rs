//! How long the levels of a tree are together.

use vstd::prelude::*;

use crate::builder::{code_set, codes_of, lemma_codable, symbol_code};
use crate::bytes::passes::{bucket_of, buckets_below, lemma_buckets_below};
use crate::codes::{coded, PrefixCode};
use crate::digits::radix_of;
use crate::huffman::{
    cost, digit_lens, frequencies_of, frequency_table, lemma_frequency_push, lemma_used_sum,
    lens_of, used_symbols,
};
use crate::indexable::WTIndexable;
use crate::matrix::{
    buckets, digits_at, lemma_bucket, lemma_next_onto, lemma_rows_live, next_rows, rows_at,
};
use crate::tree::represents;

verus! {

/// The rows of the levels from `l` on.
pub open spec fn rows_from(levels: Seq<Seq<u8>>, l: int) -> int
    decreases levels.len() - l,
{
    if l < 0 || l >= levels.len() {
        0
    } else {
        levels[l].len() + rows_from(levels, l + 1)
    }
}

/// The digits of the codes of the first `i` symbols.
pub open spec fn digits_total<T: WTIndexable>(
    s: Seq<T>,
    table: Option<Seq<PrefixCode>>,
    n_levels: int,
    bits: u32,
    i: int,
) -> int
    decreases i,
{
    if i <= 0 {
        0
    } else {
        digits_total(s, table, n_levels, bits, i - 1) + symbol_code(
            table,
            n_levels,
            bits,
            s[i - 1],
        ).len()
    }
}

/// The digits that rows have from level `l` on.
spec fn excess(rows: Seq<Seq<u8>>, l: int, n: int) -> int
    decreases n,
{
    if n <= 0 {
        0
    } else {
        excess(rows, l, n - 1) + (rows[n - 1].len() - l)
    }
}

proof fn lemma_excess_local(a: Seq<Seq<u8>>, b: Seq<Seq<u8>>, l: int, n: int)
    requires
        forall|p: int| 0 <= p < n ==> a[p] == b[p],
    ensures
        excess(a, l, n) == excess(b, l, n),
    decreases n,
{
    if n > 0 {
        lemma_excess_local(a, b, l, n - 1);
    }
}

proof fn lemma_excess_append(a: Seq<Seq<u8>>, b: Seq<Seq<u8>>, l: int, n: int)
    requires
        0 <= n <= b.len(),
    ensures
        excess(a + b, l, a.len() + n) == excess(a, l, a.len() as int) + excess(b, l, n),
    decreases n,
{
    if n > 0 {
        lemma_excess_append(a, b, l, n - 1);
        assert((a + b)[a.len() + n - 1] == b[n - 1]);
    } else {
        lemma_excess_local(a + b, a, l, a.len() as int);
    }
}

/// The digits from level `l` on of the rows in group `b`.
spec fn group_excess(rows: Seq<Seq<u8>>, g: Seq<u8>, b: u8, l: int, n: int) -> int
    decreases n,
{
    if n <= 0 {
        0
    } else {
        group_excess(rows, g, b, l, n - 1) + if g[n - 1] == b {
            rows[n - 1].len() - l
        } else {
            0
        }
    }
}

/// The digits from level `l` on of the rows in groups below `k`.
spec fn excess_below(rows: Seq<Seq<u8>>, g: Seq<u8>, k: int, l: int, n: int) -> int
    decreases n,
{
    if n <= 0 {
        0
    } else {
        excess_below(rows, g, k, l, n - 1) + if g[n - 1] < k {
            rows[n - 1].len() - l
        } else {
            0
        }
    }
}

proof fn lemma_group_excess(rows: Seq<Seq<u8>>, g: Seq<u8>, b: u8, l: int, n: int)
    ensures
        excess(bucket_of(rows, g, b, n), l, bucket_of(rows, g, b, n).len() as int) == group_excess(
            rows,
            g,
            b,
            l,
            n,
        ),
    decreases n,
{
    if n > 0 {
        lemma_group_excess(rows, g, b, l, n - 1);
        let before = bucket_of(rows, g, b, n - 1);
        lemma_excess_local(before, bucket_of(rows, g, b, n), l, before.len() as int);
    }
}

proof fn lemma_excess_step(rows: Seq<Seq<u8>>, g: Seq<u8>, k: int, l: int, n: int)
    requires
        0 < k <= 256,
    ensures
        excess_below(rows, g, k, l, n) == excess_below(rows, g, k - 1, l, n) + group_excess(
            rows,
            g,
            (k - 1) as u8,
            l,
            n,
        ),
    decreases n,
{
    if n > 0 {
        lemma_excess_step(rows, g, k, l, n - 1);
    }
}

proof fn lemma_excess_none(rows: Seq<Seq<u8>>, g: Seq<u8>, l: int, n: int)
    ensures
        excess_below(rows, g, 0, l, n) == 0,
    decreases n,
{
    if n > 0 {
        lemma_excess_none(rows, g, l, n - 1);
    }
}

proof fn lemma_excess_below(rows: Seq<Seq<u8>>, g: Seq<u8>, k: int, l: int)
    requires
        g.len() == rows.len(),
        0 <= k <= 256,
    ensures
        excess(buckets_below(rows, g, k), l, buckets_below(rows, g, k).len() as int)
            == excess_below(rows, g, k, l, rows.len() as int),
    decreases k,
{
    let n = rows.len() as int;
    if k > 0 {
        lemma_excess_below(rows, g, k - 1, l);
        let bucket = bucket_of(rows, g, (k - 1) as u8, n);
        lemma_group_excess(rows, g, (k - 1) as u8, l, n);
        lemma_excess_append(buckets_below(rows, g, k - 1), bucket, l, bucket.len() as int);
        lemma_excess_step(rows, g, k, l, n);
    } else {
        lemma_excess_none(rows, g, l, n);
    }
}

/// Every row has one digit on its level, and the others on the next.
proof fn lemma_one_digit(
    rows: Seq<Seq<u8>>,
    codes: spec_fn(Seq<u8>) -> bool,
    n_levels: int,
    radix: int,
    l: int,
    n: int,
)
    requires
        crate::matrix::wm_codes(codes, n_levels, radix),
        crate::matrix::live(rows, codes, l),
        0 <= l,
        0 <= n <= rows.len(),
    ensures
        excess(rows, l, n) == n + excess_below(rows, buckets(rows, l, radix), radix, l + 1, n),
    decreases n,
{
    if n > 0 {
        lemma_one_digit(rows, codes, n_levels, radix, l, n - 1);
        lemma_bucket(rows, codes, n_levels, radix, l, n - 1);
    }
}

proof fn lemma_rows_from<T: WTIndexable>(
    levels: Seq<Seq<u8>>,
    s: Seq<T>,
    table: Option<Seq<PrefixCode>>,
    bits: u32,
    l: int,
)
    requires
        represents(levels, s, table, bits),
        0 <= l <= levels.len(),
    ensures
        ({
            let rows = rows_at(codes_of(s, table, levels.len() as int, bits), l, radix_of(bits));
            rows_from(levels, l) == excess(rows, l, rows.len() as int)
        }),
    decreases levels.len() - l,
{
    let n_levels = levels.len() as int;
    let radix = radix_of(bits);
    let codes = codes_of(s, table, n_levels, bits);
    let set = code_set(table, n_levels, bits);
    let rows = rows_at(codes, l, radix);
    lemma_codable(s, table, n_levels, bits);
    lemma_rows_live(codes, set, n_levels, radix, l);
    if l < n_levels {
        let g = buckets(rows, l, radix);
        let next = rows_at(codes, l + 1, radix);
        lemma_rows_from(levels, s, table, bits, l + 1);
        lemma_one_digit(rows, set, n_levels, radix, l, rows.len() as int);
        assert(next == next_rows(rows, l, radix));
        assert(levels[l] == digits_at(rows, l));
        lemma_buckets_below(rows, g, radix, 0);
        assert(next =~= buckets_below(rows, g, radix)) by {
            assert forall|j: int| 0 <= j < next.len() implies next[j] == buckets_below(
                rows,
                g,
                radix,
            )[j] by {
                let p = lemma_next_onto(rows, l, radix, j);
                lemma_buckets_below(rows, g, radix, p);
            }
        }
        lemma_excess_below(rows, g, radix, l + 1);
    }
}

proof fn lemma_digits_total<T: WTIndexable>(
    s: Seq<T>,
    table: Option<Seq<PrefixCode>>,
    n_levels: int,
    bits: u32,
    i: int,
)
    requires
        0 <= i <= s.len(),
    ensures
        excess(codes_of(s, table, n_levels, bits), 0, i) == digits_total(
            s,
            table,
            n_levels,
            bits,
            i,
        ),
    decreases i,
{
    if i > 0 {
        lemma_digits_total(s, table, n_levels, bits, i - 1);
    }
}

/// The levels of a tree have as many rows as the codes of its symbols have
/// digits.
pub proof fn lemma_level_rows<T: WTIndexable>(
    levels: Seq<Seq<u8>>,
    s: Seq<T>,
    table: Option<Seq<PrefixCode>>,
    bits: u32,
)
    requires
        represents(levels, s, table, bits),
    ensures
        rows_from(levels, 0) == digits_total(
            s,
            table,
            levels.len() as int,
            bits,
            s.len() as int,
        ),
{
    lemma_rows_from(levels, s, table, bits, 0);
    lemma_digits_total(s, table, levels.len() as int, bits, s.len() as int);
}

/// What a table of lengths costs, symbol by symbol.
spec fn table_cost(freqs: Seq<usize>, lens: Seq<u32>, n: int) -> int
    decreases n,
{
    if n <= 0 {
        0
    } else {
        table_cost(freqs, lens, n - 1) + freqs[n - 1] * lens[n - 1]
    }
}

proof fn lemma_table_cost_step(freqs: Seq<usize>, lens: Seq<u32>, v: int, x: usize, n: int)
    requires
        0 <= v < freqs.len(),
        0 <= n <= freqs.len(),
        x == freqs[v] + 1,
    ensures
        table_cost(freqs.update(v, x), lens, n) == table_cost(freqs, lens, n) + if v < n {
            lens[v] as int
        } else {
            0
        },
    decreases n,
{
    if n > 0 {
        lemma_table_cost_step(freqs, lens, v, x, n - 1);
        let f = freqs[v] as int;
        let e = lens[v] as int;
        assert((f + 1) * e == f * e + e) by (nonlinear_arith);
    }
}

proof fn lemma_table_cost_zero(freqs: Seq<usize>, lens: Seq<u32>, n: int)
    requires
        forall|v: int| 0 <= v < n ==> #[trigger] freqs[v] == 0,
    ensures
        table_cost(freqs, lens, n) == 0,
    decreases n,
{
    if n > 0 {
        lemma_table_cost_zero(freqs, lens, n - 1);
        assert(freqs[n - 1] == 0);
        let e = lens[n - 1] as int;
        assert(0 * e == 0);
    }
}

proof fn lemma_digits_cost<T: WTIndexable>(
    s: Seq<T>,
    codes: Seq<PrefixCode>,
    n_levels: int,
    bits: u32,
)
    requires
        bits == 1 || bits == 2,
        s.len() <= usize::MAX,
        forall|i: int| 0 <= i < s.len() ==> coded(codes, (#[trigger] s[i]).val() as int),
    ensures
        digits_total(s, Some(codes), n_levels, bits, s.len() as int) == table_cost(
            frequency_table(s, codes.len() as int),
            digit_lens(codes, bits),
            codes.len() as int,
        ),
    decreases s.len(),
{
    let size = codes.len() as int;
    let lens = digit_lens(codes, bits);
    if s.len() == 0 {
        lemma_table_cost_zero(frequency_table(s, size), lens, size);
    } else {
        let t = s.drop_last();
        let x = s.last();
        assert forall|i: int| 0 <= i < t.len() implies coded(
            codes,
            (#[trigger] t[i]).val() as int,
        ) by {
            assert(t[i] == s[i]);
        }
        lemma_digits_cost(t, codes, n_levels, bits);
        assert(s =~= t.push(x));
        assert(coded(codes, s[s.len() - 1].val() as int));
        lemma_frequency_push(t, x, size);
        let g = frequency_table(t, size);
        let v = x.val() as int;
        lemma_table_cost_step(g, lens, v, (g[v] + 1) as usize, size);
        lemma_total_local(s, t, Some(codes), n_levels, bits, t.len() as int);
        crate::digits::lemma_digits_of(
            codes[v].content as int,
            codes[v].len as int / bits as int,
            radix_of(bits),
        );
        assert(symbol_code(Some(codes), n_levels, bits, x).len() == lens[v]);
    }
}

proof fn lemma_total_local<T: WTIndexable>(
    s: Seq<T>,
    t: Seq<T>,
    table: Option<Seq<PrefixCode>>,
    n_levels: int,
    bits: u32,
    i: int,
)
    requires
        forall|j: int| 0 <= j < i ==> s[j] == t[j],
    ensures
        digits_total(s, table, n_levels, bits, i) == digits_total(t, table, n_levels, bits, i),
    decreases i,
{
    if i > 0 {
        lemma_total_local(s, t, table, n_levels, bits, i - 1);
    }
}

/// The levels of a compressed tree have as many rows as its text takes digits:
/// where the code is of minimum redundancy, there are no fewer.
pub proof fn lemma_level_cost<T: WTIndexable>(
    levels: Seq<Seq<u8>>,
    s: Seq<T>,
    codes: Seq<PrefixCode>,
    bits: u32,
)
    requires
        represents(levels, s, Some(codes), bits),
        s.len() <= usize::MAX,
        codes.len() <= usize::MAX,
    ensures
        ({
            let freqs = frequency_table(s, codes.len() as int);
            let used = used_symbols(freqs);
            rows_from(levels, 0) == cost(
                frequencies_of(freqs, used),
                lens_of(digit_lens(codes, bits), used),
            )
        }),
{
    let freqs = frequency_table(s, codes.len() as int);
    let lens = digit_lens(codes, bits);
    lemma_level_rows(levels, s, Some(codes), bits);
    lemma_digits_cost(s, codes, levels.len() as int, bits);
    lemma_used_sum(freqs, lens);
    lemma_table_used(freqs, lens, freqs.len() as int);
}

proof fn lemma_table_used(freqs: Seq<usize>, lens: Seq<u32>, n: int)
    requires
        0 <= n <= freqs.len(),
    ensures
        crate::huffman::sum_occurring(freqs, |v: int| freqs[v] * lens[v], n) == table_cost(
            freqs,
            lens,
            n,
        ),
    decreases n,
{
    if n > 0 {
        lemma_table_used(freqs, lens, n - 1);
        if freqs[n - 1] == 0 {
            let e = lens[n - 1] as int;
            assert(0 * e == 0);
        }
    }
}

} // verus!
