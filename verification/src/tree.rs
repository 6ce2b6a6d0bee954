//! What it means for levels to represent a sequence of symbols.

use vstd::arithmetic::power2::pow2;
use vstd::prelude::*;

use crate::builder::{codable, code_set, codes_of, lemma_codable, symbol_code};
use crate::codes::{coded, lemma_code_digits, lemma_code_injective, PrefixCode};
use crate::digits::{
    lemma_digits_of, lemma_radix_pow, lemma_value_of_digits, lemma_value_order, radix_of, value,
};
use crate::indexable::WTIndexable;
use crate::matrix::{
    build, code_count, digits_at, lemma_build_count, lemma_build_fits, lemma_build_path,
    lemma_prefix_free, lemma_rows_live, rows_at, wm_codes,
};
use crate::occs::{
    entry_ok, has_code, is_path, leaves, lemma_leaves, lex_lt, node, paths_prefix_free, total,
};
use crate::wavelet::{digits_below, lemma_pcount_split, path, pcount, walk_fits};

verus! {

/// How many of the first `i` elements equal `a`.
pub open spec fn occurrences<A>(s: Seq<A>, a: A, i: int) -> int
    decreases i,
{
    if i <= 0 {
        0
    } else {
        occurrences(s, a, i - 1) + if s[i - 1] == a {
            1int
        } else {
            0int
        }
    }
}

pub proof fn lemma_occurrences_bounds<A>(s: Seq<A>, a: A, i: int)
    ensures
        0 <= occurrences(s, a, i),
        i >= 0 ==> occurrences(s, a, i) <= i,
    decreases i,
{
    if i > 0 {
        lemma_occurrences_bounds(s, a, i - 1);
    }
}

pub proof fn lemma_occurrences_mono<A>(s: Seq<A>, a: A, i: int, j: int)
    requires
        0 <= i <= j,
    ensures
        occurrences(s, a, i) <= occurrences(s, a, j),
    decreases j,
{
    if i < j {
        lemma_occurrences_mono(s, a, i, j - 1);
    }
}

/// The levels are those of a tree over `s`.
pub open spec fn represents<T: WTIndexable>(
    levels: Seq<Seq<u8>>,
    s: Seq<T>,
    table: Option<Seq<PrefixCode>>,
    bits: u32,
) -> bool {
    &&& codable(s, table, levels.len() as int, bits)
    &&& levels == build(
        codes_of(s, table, levels.len() as int, bits),
        levels.len() as int,
        radix_of(bits),
    )
}

/// A tree with these levels has a code for `t`.
pub open spec fn has_symbol<T: WTIndexable>(
    levels: Seq<Seq<u8>>,
    table: Option<Seq<PrefixCode>>,
    bits: u32,
    t: T,
) -> bool {
    match table {
        None => t.val() < pow2((bits * levels.len()) as nat),
        Some(codes) => coded(codes, t.val() as int),
    }
}

pub proof fn lemma_symbol_code<T: WTIndexable>(
    s: Seq<T>,
    table: Option<Seq<PrefixCode>>,
    n_levels: int,
    bits: u32,
    t: T,
)
    requires
        codable(s, table, n_levels, bits),
        match table {
            None => t.val() < pow2((bits * n_levels) as nat),
            Some(codes) => coded(codes, t.val() as int),
        },
    ensures
        code_set(table, n_levels, bits)(symbol_code(table, n_levels, bits, t)),
        0 < symbol_code(table, n_levels, bits, t).len() <= n_levels,
        digits_below(symbol_code(table, n_levels, bits, t), radix_of(bits)),
        value(symbol_code(table, n_levels, bits, t), radix_of(bits)) == match table {
            None => t.val() as int,
            Some(codes) => codes[t.val() as int].content as int,
        },
{
    match table {
        None => {
            lemma_digits_of(t.val() as int, n_levels, radix_of(bits));
            lemma_radix_pow(bits, n_levels as nat);
            assert(bits as nat * n_levels as nat == bits * n_levels);
            lemma_value_of_digits(t.val() as int, n_levels, radix_of(bits));
        },
        Some(codes) => {
            lemma_code_digits(codes, n_levels, bits, t.val() as int);
        },
    }
}

pub proof fn lemma_symbol_injective<T: WTIndexable>(
    s: Seq<T>,
    table: Option<Seq<PrefixCode>>,
    n_levels: int,
    bits: u32,
    t: T,
    u: T,
)
    requires
        codable(s, table, n_levels, bits),
        match table {
            None => t.val() < pow2((bits * n_levels) as nat) && u.val() < pow2(
                (bits * n_levels) as nat,
            ),
            Some(codes) => coded(codes, t.val() as int) && coded(codes, u.val() as int),
        },
        symbol_code(table, n_levels, bits, t) == symbol_code(table, n_levels, bits, u),
    ensures
        t == u,
{
    lemma_symbol_code(s, table, n_levels, bits, t);
    lemma_symbol_code(s, table, n_levels, bits, u);
    if let Some(codes) = table {
        lemma_code_injective(codes, n_levels, bits, t.val() as int, u.val() as int);
    }
    t.lemma_val();
    u.lemma_val();
}

/// The symbols of the sequence have codes.
pub proof fn lemma_element<T: WTIndexable>(
    s: Seq<T>,
    table: Option<Seq<PrefixCode>>,
    n_levels: int,
    bits: u32,
    i: int,
)
    requires
        codable(s, table, n_levels, bits),
        0 <= i < s.len(),
    ensures
        match table {
            None => s[i].val() < pow2((bits * n_levels) as nat),
            Some(codes) => coded(codes, s[i].val() as int),
        },
{
}

/// Reading position `i` of a tree over `s` gives the code of `s[i]`.
pub proof fn lemma_represents_path<T: WTIndexable>(
    levels: Seq<Seq<u8>>,
    s: Seq<T>,
    table: Option<Seq<PrefixCode>>,
    bits: u32,
    i: int,
)
    requires
        represents(levels, s, table, bits),
        0 <= i < s.len(),
    ensures
        path(levels, 0, i) == symbol_code(table, levels.len() as int, bits, s[i]),
{
    let n_levels = levels.len() as int;
    lemma_codable(s, table, n_levels, bits);
    let rows = codes_of(s, table, n_levels, bits);
    lemma_build_path(rows, code_set(table, n_levels, bits), n_levels, radix_of(bits), 0, i);
    assert(rows[i].skip(0) =~= rows[i]);
}

pub proof fn lemma_represents<T: WTIndexable>(
    levels: Seq<Seq<u8>>,
    s: Seq<T>,
    table: Option<Seq<PrefixCode>>,
    bits: u32,
)
    requires
        represents(levels, s, table, bits),
    ensures
        levels[0].len() == s.len(),
        paths_prefix_free(levels, s.len() as int),
        forall|l: int| 0 <= l < levels.len() ==> digits_below(#[trigger] levels[l], radix_of(bits)),
        table is None ==> forall|l: int|
            0 <= l < levels.len() ==> (#[trigger] levels[l]).len() == s.len(),
{
    let n_levels = levels.len() as int;
    let radix = radix_of(bits);
    lemma_codable(s, table, n_levels, bits);
    let set = code_set(table, n_levels, bits);
    let rows = codes_of(s, table, n_levels, bits);
    assert(levels[0] == digits_at(rows_at(rows, 0, radix), 0));
    assert forall|i: int, j: int|
        0 <= i < s.len() && 0 <= j < s.len() && #[trigger] path(levels, 0, i).is_prefix_of(
            #[trigger] path(levels, 0, j),
        ) implies path(levels, 0, i) == path(levels, 0, j) by {
        lemma_represents_path(levels, s, table, bits, i);
        lemma_represents_path(levels, s, table, bits, j);
        lemma_element(s, table, n_levels, bits, i);
        lemma_element(s, table, n_levels, bits, j);
        lemma_symbol_code(s, table, n_levels, bits, s[i]);
        lemma_symbol_code(s, table, n_levels, bits, s[j]);
        lemma_prefix_free(set, n_levels, radix, path(levels, 0, i), path(levels, 0, j));
    }
    assert forall|l: int| 0 <= l < levels.len() implies digits_below(#[trigger] levels[l], radix) by {
        lemma_rows_live(rows, set, n_levels, radix, l);
        let r = rows_at(rows, l, radix);
        assert forall|p: int| 0 <= p < levels[l].len() implies (#[trigger] levels[l][p]) < radix by {
            assert(set(r[p]));
            assert(digits_below(r[p], radix));
            assert(r[p].len() > l);
            assert(levels[l][p] == r[p][l]);
        }
    }
    if table is None {
        assert forall|l: int| 0 <= l < levels.len() implies (#[trigger] levels[l]).len()
            == s.len() by {
            lemma_plain_rows_len(rows, n_levels, radix, l);
        }
    }
}

/// Codes of one length leave no level early.
proof fn lemma_plain_rows_len(rows: Seq<Seq<u8>>, n_levels: int, radix: int, l: int)
    requires
        2 <= radix <= 255,
        forall|p: int|
            0 <= p < rows.len() ==> (#[trigger] rows[p]).len() == n_levels && digits_below(
                rows[p],
                radix,
            ),
        0 <= l < n_levels,
    ensures
        rows_at(rows, l, radix).len() == rows.len(),
    decreases l,
{
    if l > 0 {
        lemma_plain_rows_len(rows, n_levels, radix, l - 1);
        let set = |c: Seq<u8>| c.len() == n_levels && digits_below(c, radix);
        assert(wm_codes(set, n_levels, radix));
        lemma_rows_live(rows, set, n_levels, radix, l - 1);
        let r = rows_at(rows, l - 1, radix);
        let b = crate::matrix::buckets(r, l - 1, radix);
        assert forall|p: int| 0 <= p < b.len() implies (#[trigger] b[p]) < radix by {
            assert(set(r[p]));
        }
        crate::wavelet::lemma_below_all(b, radix, b.len() as int);
    }
}

/// Counting the rows that follow the code of `t` counts the occurrences of `t`.
pub proof fn lemma_represents_symbol<T: WTIndexable>(
    levels: Seq<Seq<u8>>,
    s: Seq<T>,
    table: Option<Seq<PrefixCode>>,
    bits: u32,
    t: T,
)
    requires
        represents(levels, s, table, bits),
        has_symbol(levels, table, bits, t),
    ensures
        walk_fits(levels, symbol_code(table, levels.len() as int, bits, t), s.len() as int),
        forall|i: int|
            0 <= i <= s.len() ==> #[trigger] pcount(
                levels,
                0,
                symbol_code(table, levels.len() as int, bits, t),
                0,
                i,
            ) == occurrences(s, t, i),
{
    let n_levels = levels.len() as int;
    let radix = radix_of(bits);
    let set = code_set(table, n_levels, bits);
    let rows = codes_of(s, table, n_levels, bits);
    let c = symbol_code(table, n_levels, bits, t);
    lemma_codable(s, table, n_levels, bits);
    lemma_symbol_code(s, table, n_levels, bits, t);
    lemma_build_fits(rows, set, n_levels, radix, c);
    assert forall|i: int| 0 <= i <= s.len() implies #[trigger] pcount(levels, 0, c, 0, i)
        == occurrences(s, t, i) by {
        lemma_build_count(rows, set, n_levels, radix, c, i);
        lemma_code_count(s, table, n_levels, bits, t, i);
    }
}

proof fn lemma_code_count<T: WTIndexable>(
    s: Seq<T>,
    table: Option<Seq<PrefixCode>>,
    n_levels: int,
    bits: u32,
    t: T,
    i: int,
)
    requires
        codable(s, table, n_levels, bits),
        match table {
            None => t.val() < pow2((bits * n_levels) as nat),
            Some(codes) => coded(codes, t.val() as int),
        },
        0 <= i <= s.len(),
    ensures
        code_count(
            codes_of(s, table, n_levels, bits),
            symbol_code(table, n_levels, bits, t),
            i,
        ) == occurrences(s, t, i),
    decreases i,
{
    if i > 0 {
        lemma_code_count(s, table, n_levels, bits, t, i - 1);
        lemma_element(s, table, n_levels, bits, i - 1);
        if symbol_code(table, n_levels, bits, s[i - 1]) == symbol_code(table, n_levels, bits, t) {
            lemma_symbol_injective(s, table, n_levels, bits, s[i - 1], t);
        }
    }
}

/// A row that follows the code of `t` is an occurrence of `t`.
pub proof fn lemma_represents_at<T: WTIndexable>(
    levels: Seq<Seq<u8>>,
    s: Seq<T>,
    table: Option<Seq<PrefixCode>>,
    bits: u32,
    t: T,
    p: int,
)
    requires
        represents(levels, s, table, bits),
        has_symbol(levels, table, bits, t),
        0 <= p < s.len(),
        symbol_code(table, levels.len() as int, bits, t).is_prefix_of(path(levels, 0, p)),
    ensures
        s[p] == t,
{
    let n_levels = levels.len() as int;
    lemma_codable(s, table, n_levels, bits);
    lemma_represents_path(levels, s, table, bits, p);
    lemma_element(s, table, n_levels, bits, p);
    lemma_symbol_code(s, table, n_levels, bits, t);
    lemma_symbol_code(s, table, n_levels, bits, s[p]);
    lemma_prefix_free(
        code_set(table, n_levels, bits),
        n_levels,
        radix_of(bits),
        symbol_code(table, n_levels, bits, t),
        symbol_code(table, n_levels, bits, s[p]),
    );
    lemma_symbol_injective(s, table, n_levels, bits, t, s[p]);
}

/// `out` lists the symbols that occur in `start..end` of `s`, each once, with
/// the number of its occurrences there.
pub open spec fn occs_ok<T>(s: Seq<T>, start: int, end: int, out: Seq<(T, usize)>) -> bool {
    &&& forall|t: int|
        0 <= t < out.len() ==> {
            let e = #[trigger] out[t];
            e.1 > 0 && e.1 == occurrences(s, e.0, end) - occurrences(s, e.0, start)
        }
    &&& forall|t: int, u: int|
        0 <= t < u < out.len() ==> (#[trigger] out[t]).0 != (#[trigger] out[u]).0
    &&& forall|i: int|
        start <= i < end ==> exists|t: int| 0 <= t < out.len() && (#[trigger] out[t]).0
            == #[trigger] s[i]
}

/// Symbols come in ascending order.
pub open spec fn ascending<T: WTIndexable>(out: Seq<(T, usize)>) -> bool {
    forall|t: int, u: int|
        0 <= t < u < out.len() ==> (#[trigger] out[t]).0.val() < (#[trigger] out[u]).0.val()
}

/// The sum of the listed counts.
pub open spec fn count_sum<T>(out: Seq<(T, usize)>) -> int
    decreases out.len(),
{
    if out.len() == 0 {
        0
    } else {
        count_sum(out.drop_last()) + out.last().1
    }
}

/// The listed symbol has the listed code and count.
pub open spec fn entry_of<T: WTIndexable>(
    levels: Seq<Seq<u8>>,
    table: Option<Seq<PrefixCode>>,
    bits: u32,
    entry: (T, usize),
    leaf: (Seq<u8>, int),
) -> bool {
    &&& entry.1 == leaf.1
    &&& has_symbol(levels, table, bits, entry.0)
    &&& symbol_code(table, levels.len() as int, bits, entry.0) == leaf.0
}

pub open spec fn lists<T: WTIndexable>(
    levels: Seq<Seq<u8>>,
    table: Option<Seq<PrefixCode>>,
    bits: u32,
    out: Seq<(T, usize)>,
    entries: Seq<(Seq<u8>, int)>,
) -> bool {
    &&& out.len() == entries.len()
    &&& forall|t: int|
        0 <= t < out.len() ==> entry_of(levels, table, bits, #[trigger] out[t], entries[t])
}

proof fn lemma_count_sum<T: WTIndexable>(
    levels: Seq<Seq<u8>>,
    table: Option<Seq<PrefixCode>>,
    bits: u32,
    out: Seq<(T, usize)>,
    entries: Seq<(Seq<u8>, int)>,
)
    requires
        lists(levels, table, bits, out, entries),
    ensures
        count_sum(out) == total(entries),
    decreases out.len(),
{
    if out.len() > 0 {
        assert(entry_of(levels, table, bits, out[out.len() - 1], entries[out.len() - 1]));
        assert forall|t: int| 0 <= t < out.drop_last().len() implies entry_of(
            levels,
            table,
            bits,
            #[trigger] out.drop_last()[t],
            entries.drop_last()[t],
        ) by {
            assert(out.drop_last()[t] == out[t]);
        }
        lemma_count_sum(levels, table, bits, out.drop_last(), entries.drop_last());
    }
}

/// The whole top level is a node with no digits yet.
pub proof fn lemma_root_node(levels: Seq<Seq<u8>>, n: int, lo: int, hi: int)
    requires
        0 <= lo <= hi <= n,
    ensures
        node(levels, n, 0, lo, hi, Seq::empty()),
{
    assert forall|j: int| lo <= j < hi implies is_path(
        levels,
        n,
        Seq::<u8>::empty() + #[trigger] path(levels, 0, j),
    ) by {
        assert(Seq::<u8>::empty() + path(levels, 0, j) =~= path(levels, 0, j));
    }
}

/// Of two codes of one length, the first in digit order has the smaller value.
pub proof fn lemma_lex_value(a: Seq<u8>, b: Seq<u8>, radix: int)
    requires
        lex_lt(a, b),
        a.len() == b.len(),
        radix >= 2,
        digits_below(a, radix),
        digits_below(b, radix),
    ensures
        value(a, radix) < value(b, radix),
{
    let m = choose|m: int|
        0 <= m < a.len() && m < b.len() && a.take(m) == b.take(m) && #[trigger] a[m] < b[m];
    let pre = a.take(m);
    let x = a.skip(m + 1);
    let y = b.skip(m + 1);
    assert forall|p: int| 0 <= p < x.len() implies (#[trigger] x[p]) < radix by {
        assert(x[p] == a[m + 1 + p]);
    }
    assert forall|p: int| 0 <= p < y.len() implies (#[trigger] y[p]) < radix by {
        assert(y[p] == b[m + 1 + p]);
    }
    assert(b[m] < radix);
    lemma_value_order(pre, a[m], b[m], x, y, radix);
    assert(pre.push(a[m]) + x =~= a);
    assert(pre.push(b[m]) + y =~= b) by {
        assert forall|i: int| 0 <= i < m implies pre[i] == b[i] by {
            assert(b.take(m)[i] == b[i]);
        }
    }
}

/// What the leaves of a range say of the represented sequence.
pub proof fn lemma_lists<T: WTIndexable>(
    levels: Seq<Seq<u8>>,
    s: Seq<T>,
    table: Option<Seq<PrefixCode>>,
    bits: u32,
    start: int,
    end: int,
    out: Seq<(T, usize)>,
)
    requires
        represents(levels, s, table, bits),
        0 <= start <= end <= s.len(),
        lists(
            levels,
            table,
            bits,
            out,
            leaves(levels, 0, start, end, Seq::empty(), radix_of(bits)),
        ),
    ensures
        occs_ok(s, start, end, out),
        count_sum(out) == end - start,
        table is None ==> ascending(out),
{
    let n_levels = levels.len() as int;
    let radix = radix_of(bits);
    let n = s.len() as int;
    let entries = leaves(levels, 0, start, end, Seq::empty(), radix);
    lemma_represents(levels, s, table, bits);
    lemma_root_node(levels, n, start, end);
    lemma_leaves(levels, n, 0, start, end, Seq::empty(), radix);
    lemma_count_sum(levels, table, bits, out, entries);
    assert forall|t: int| 0 <= t < out.len() implies {
        let e = #[trigger] out[t];
        e.1 > 0 && e.1 == occurrences(s, e.0, end) - occurrences(s, e.0, start)
    } by {
        let c = entries[t].0;
        assert(entry_of(levels, table, bits, out[t], entries[t]));
        assert(entry_ok(levels, n, 0, start, end, Seq::empty(), entries[t]));
        assert(c.skip(0) =~= c);
        lemma_represents_symbol(levels, s, table, bits, out[t].0);
        lemma_pcount_split(levels, 0, c, 0, start, end);
        assert(pcount(levels, 0, c, 0, start) == occurrences(s, out[t].0, start));
        assert(pcount(levels, 0, c, 0, end) == occurrences(s, out[t].0, end));
    }
    assert forall|t: int, u: int| 0 <= t < u < out.len() implies (#[trigger] out[t]).0 != (
    #[trigger] out[u]).0 by {
        assert(entry_of(levels, table, bits, out[t], entries[t]));
        assert(entry_of(levels, table, bits, out[u], entries[u]));
        assert(lex_lt(entries[t].0, entries[u].0));
    }
    assert forall|i: int| start <= i < end implies exists|t: int|
        0 <= t < out.len() && (#[trigger] out[t]).0 == #[trigger] s[i] by {
        lemma_represents_path(levels, s, table, bits, i);
        let c = path(levels, 0, i);
        assert(Seq::<u8>::empty() + c =~= c);
        assert(has_code(entries, c));
        let t = choose|t: int| 0 <= t < entries.len() && #[trigger] entries[t].0 == c;
        assert(entry_of(levels, table, bits, out[t], entries[t]));
        lemma_element(s, table, n_levels, bits, i);
        lemma_symbol_injective(s, table, n_levels, bits, out[t].0, s[i]);
    }
    if table is None {
        assert forall|t: int, u: int| 0 <= t < u < out.len() implies (#[trigger] out[t]).0.val() < (
        #[trigger] out[u]).0.val() by {
            assert(entry_of(levels, table, bits, out[t], entries[t]));
            assert(entry_of(levels, table, bits, out[u], entries[u]));
            assert(lex_lt(entries[t].0, entries[u].0));
            lemma_symbol_code(s, table, n_levels, bits, out[t].0);
            lemma_symbol_code(s, table, n_levels, bits, out[u].0);
            lemma_digits_of(out[t].0.val() as int, n_levels, radix);
            lemma_digits_of(out[u].0.val() as int, n_levels, radix);
            lemma_lex_value(entries[t].0, entries[u].0, radix);
        }
    }
}

/// An element occurs more often before a later one of its occurrences.
proof fn lemma_occurrences_order<A>(s: Seq<A>, t: A, p: int, q: int)
    requires
        0 <= p < q <= s.len(),
        s[p] == t,
    ensures
        occurrences(s, t, p) < occurrences(s, t, q),
    decreases q,
{
    if q - 1 > p {
        lemma_occurrences_order(s, t, p, q - 1);
    }
}

/// Selecting the occurrence that ranking counted gives back the position:
/// where `t` stands at position `i`, there is an occurrence with the number
/// `rank(t, i)`, and position `i` is the only one that `select` can give for it.
pub proof fn lemma_select_of_rank<A>(s: Seq<A>, i: int, p: int)
    requires
        0 <= i < s.len(),
        0 <= p < s.len(),
    ensures
        occurrences(s, s[i], i) < occurrences(s, s[i], s.len() as int),
        s[p] == s[i] && occurrences(s, s[i], p) == occurrences(s, s[i], i) ==> p == i,
{
    let t = s[i];
    lemma_occurrences_order(s, t, i, s.len() as int);
    if s[p] == t && p < i {
        lemma_occurrences_order(s, t, p, i);
    } else if s[p] == t && i < p {
        lemma_occurrences_order(s, t, i, p);
    }
}

/// Ranking behind a selected position counts one more than the number of the
/// occurrence, and no earlier position has so many occurrences before it.
pub proof fn lemma_rank_of_select<A>(s: Seq<A>, t: A, p: int, i: int)
    requires
        0 <= p < s.len(),
        s[p] == t,
        0 <= i <= s.len(),
    ensures
        occurrences(s, t, p + 1) == occurrences(s, t, p) + 1,
        i <= p ==> occurrences(s, t, i) <= occurrences(s, t, p),
        i > p ==> occurrences(s, t, i) > occurrences(s, t, p),
{
    if i > p {
        lemma_occurrences_order(s, t, p, i);
    } else {
        lemma_occurrences_mono(s, t, i, p);
    }
}

} // verus!
