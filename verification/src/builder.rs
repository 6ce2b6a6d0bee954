//! Building the levels of a tree from a sequence of symbols.

use vstd::arithmetic::power2::pow2;
use vstd::prelude::*;

use crate::codes::{
    code_digits, coded, lemma_code_digits, lemma_table_codes, table_codes, table_ok, PrefixCode,
};
use crate::digits::{digit_at, lemma_digit_at, lemma_digits_of, lemma_radix_pow, radix_of};
use crate::indexable::WTIndexable;
use crate::level::{code_of, level_digits, levels_wf, DigitLevel};
use crate::matrix::{
    bucket, buckets, build, digits_at, lemma_next_onto, lemma_rows_live, next_rows, rows_at,
    rows_in, wm_codes,
};
use crate::utils::{
    code_groups, groups, in_table, lemma_partitioned, lemma_partitioned_onto, partitioned,
    stable_partition_of_2, stable_partition_of_2_with_codes, stable_partition_of_4,
    stable_partition_of_4_with_codes,
};
use crate::wavelet::{
    below, digits_below, lemma_below_bounds, lemma_below_mono, lemma_child_bounds,
    lemma_count_local, lemma_step_bounds, step,
};

verus! {

/// A level that can be made from its digits.
pub trait LevelBuild: DigitLevel {
    /// The largest number of digits that a level can hold.
    spec fn max_len() -> int;

    fn from_digits(digits: Vec<u8>) -> (level: Self)
        requires
            digits_below(digits@, radix_of(Self::digit_bits())),
            digits.len() <= Self::max_len(),
        ensures
            level.wf(),
            level.digits() == digits@,
    ;
}

/// The code of a symbol: its own digits, or the code that a table has for it.
pub open spec fn symbol_code<T: WTIndexable>(
    table: Option<Seq<PrefixCode>>,
    n_levels: int,
    bits: u32,
    t: T,
) -> Seq<u8> {
    match table {
        None => code_of(t.val(), n_levels, bits),
        Some(codes) => code_digits(codes[t.val() as int], bits),
    }
}

/// The codes of a sequence of symbols.
pub open spec fn codes_of<T: WTIndexable>(
    s: Seq<T>,
    table: Option<Seq<PrefixCode>>,
    n_levels: int,
    bits: u32,
) -> Seq<Seq<u8>> {
    Seq::new(s.len(), |i: int| symbol_code(table, n_levels, bits, s[i]))
}

/// Every symbol of the sequence has a code of at most `n_levels` digits.
pub open spec fn codable<T: WTIndexable>(
    s: Seq<T>,
    table: Option<Seq<PrefixCode>>,
    n_levels: int,
    bits: u32,
) -> bool {
    &&& bits == 1 || bits == 2
    &&& n_levels > 0
    &&& match table {
        None => forall|i: int|
            0 <= i < s.len() ==> (#[trigger] s[i]).val() < pow2((bits * n_levels) as nat),
        Some(codes) => {
            &&& table_ok(codes, n_levels, bits)
            &&& forall|i: int| 0 <= i < s.len() ==> coded(codes, (#[trigger] s[i]).val() as int)
        },
    }
}

/// The codes that symbols can have.
pub open spec fn code_set(table: Option<Seq<PrefixCode>>, n_levels: int, bits: u32) -> spec_fn(
    Seq<u8>,
) -> bool {
    match table {
        None => |c: Seq<u8>| c.len() == n_levels && digits_below(c, radix_of(bits)),
        Some(codes) => table_codes(codes, bits),
    }
}

/// The groups into which level `l` divides the rows.
pub open spec fn level_groups<T: WTIndexable>(
    s: Seq<T>,
    table: Option<Seq<PrefixCode>>,
    n_levels: int,
    bits: u32,
    l: int,
) -> Seq<u8> {
    Seq::new(
        s.len(),
        |p: int| bucket(symbol_code(table, n_levels, bits, s[p]), l, radix_of(bits)),
    )
}

/// The order of the rows on level `l`, finished rows last.
pub open spec fn arranged<T: WTIndexable>(
    s: Seq<T>,
    table: Option<Seq<PrefixCode>>,
    n_levels: int,
    bits: u32,
    l: int,
) -> Seq<T>
    decreases l,
{
    if l <= 0 {
        s
    } else {
        let before = arranged(s, table, n_levels, bits, l - 1);
        partitioned(before, level_groups(before, table, n_levels, bits, l - 1))
    }
}

/// The order in which a build leaves the symbols: the rows of the last level,
/// partitioned once more.
pub open spec fn left_behind<T: WTIndexable>(
    s: Seq<T>,
    table: Option<Seq<PrefixCode>>,
    n_levels: int,
    bits: u32,
) -> Seq<T> {
    let last = arranged(s, table, n_levels, bits, n_levels - 1);
    match table {
        None => partitioned(last, groups(last, 0, radix_of(bits))),
        Some(codes) => partitioned(
            last,
            code_groups(last, bits * n_levels, codes, radix_of(bits)),
        ),
    }
}

pub proof fn lemma_codable<T: WTIndexable>(
    s: Seq<T>,
    table: Option<Seq<PrefixCode>>,
    n_levels: int,
    bits: u32,
)
    requires
        codable(s, table, n_levels, bits),
    ensures
        wm_codes(code_set(table, n_levels, bits), n_levels, radix_of(bits)),
        rows_in(codes_of(s, table, n_levels, bits), code_set(table, n_levels, bits)),
{
    let rows = codes_of(s, table, n_levels, bits);
    let set = code_set(table, n_levels, bits);
    match table {
        None => {
            assert forall|p: int| 0 <= p < rows.len() implies set(#[trigger] rows[p]) by {
                lemma_digits_of(s[p].val() as int, n_levels, radix_of(bits));
            }
        },
        Some(codes) => {
            lemma_table_codes(codes, n_levels, bits);
            assert forall|p: int| 0 <= p < rows.len() implies set(#[trigger] rows[p]) by {
                assert(coded(codes, s[p].val() as int));
            }
        },
    }
}

proof fn lemma_below_tail(g: Seq<u8>, b: Seq<u8>, d: int, n: int)
    requires
        b.len() <= n <= g.len(),
        forall|p: int| 0 <= p < b.len() ==> g[p] == b[p],
        forall|p: int| b.len() <= p < g.len() ==> (#[trigger] g[p]) >= d,
    ensures
        below(g, d, n) == below(b, d, b.len() as int),
    decreases n,
{
    if n > b.len() {
        lemma_below_tail(g, b, d, n - 1);
    } else {
        lemma_below_prefix(g, b, d, n);
    }
}

proof fn lemma_below_prefix(g: Seq<u8>, b: Seq<u8>, d: int, n: int)
    requires
        forall|p: int| 0 <= p < n ==> g[p] == b[p],
    ensures
        below(g, d, n) == below(b, d, n),
    decreases n,
{
    if n > 0 {
        lemma_below_prefix(g, b, d, n - 1);
    }
}

/// The rows of level `l` come first in their arrangement, and the rest is
/// finished.
pub open spec fn arranged_ok<T: WTIndexable>(
    s: Seq<T>,
    table: Option<Seq<PrefixCode>>,
    n_levels: int,
    bits: u32,
    l: int,
) -> bool {
    let a = arranged(s, table, n_levels, bits, l);
    let rows = rows_at(codes_of(s, table, n_levels, bits), l, radix_of(bits));
    &&& a.len() == s.len()
    &&& rows.len() <= a.len()
    &&& forall|p: int|
        0 <= p < rows.len() ==> symbol_code(table, n_levels, bits, #[trigger] a[p]) == rows[p]
    &&& forall|p: int|
        rows.len() <= p < a.len() ==> symbol_code(table, n_levels, bits, #[trigger] a[p]).len()
            <= l
}

pub proof fn lemma_arranged<T: WTIndexable>(
    s: Seq<T>,
    table: Option<Seq<PrefixCode>>,
    n_levels: int,
    bits: u32,
    l: int,
)
    requires
        codable(s, table, n_levels, bits),
        0 <= l,
    ensures
        arranged_ok(s, table, n_levels, bits, l),
        codable(arranged(s, table, n_levels, bits, l), table, n_levels, bits),
    decreases l,
{
    let codes = codes_of(s, table, n_levels, bits);
    let radix = radix_of(bits);
    if l > 0 {
        let m = l - 1;
        lemma_arranged(s, table, n_levels, bits, m);
        lemma_codable(s, table, n_levels, bits);
        let set = code_set(table, n_levels, bits);
        lemma_rows_live(codes, set, n_levels, radix, m);
        let a = arranged(s, table, n_levels, bits, m);
        let a2 = arranged(s, table, n_levels, bits, l);
        let rows = rows_at(codes, m, radix);
        let next = rows_at(codes, l, radix);
        assert(next == next_rows(rows, m, radix));
        let g = level_groups(a, table, n_levels, bits, m);
        let b = buckets(rows, m, radix);
        let n = a.len() as int;
        assert forall|p: int| 0 <= p < b.len() implies g[p] == b[p] by {
            assert(symbol_code(table, n_levels, bits, a[p]) == rows[p]);
        }
        assert forall|p: int| b.len() <= p < g.len() implies (#[trigger] g[p]) == radix by {
            assert(symbol_code(table, n_levels, bits, a[p]).len() <= m);
        }
        assert forall|q: int| 0 <= q < g.len() implies (#[trigger] g[q]) < (radix + 1) as u8 by {
            if q < b.len() {
                assert(g[q] == b[q]);
                assert(set(rows[q]));
                assert(digits_below(rows[q], radix));
            }
        }
        lemma_below_tail(g, b, radix, n);
        lemma_below_bounds(b, radix, b.len() as int);
        assert(next.len() == below(g, radix, n));
        assert forall|j: int| 0 <= j < next.len() implies symbol_code(
            table,
            n_levels,
            bits,
            #[trigger] a2[j],
        ) == next[j] by {
            let p = lemma_next_onto(rows, m, radix, j);
            let d = b[p];
            lemma_below_tail(g, b, d as int, n);
            lemma_count_local(g, b, d, p);
            assert(step(g, p) == j);
            lemma_partitioned(a, g, p);
        }
        assert forall|j: int| next.len() <= j < a2.len() implies symbol_code(
            table,
            n_levels,
            bits,
            #[trigger] a2[j],
        ).len() <= l by {
            let p = lemma_partitioned_onto(a, g, (radix + 1) as u8, j);
            if g[p] < radix {
                lemma_child_bounds(g, g[p], p + 1);
                lemma_step_bounds(g, p);
                lemma_below_mono(g, g[p] as int + 1, radix, n);
            }
        }
        assert forall|j: int| 0 <= j < a2.len() implies exists|p: int|
            0 <= p < a.len() && (#[trigger] a2[j]) == #[trigger] a[p] by {
            let p = lemma_partitioned_onto(a, g, (radix + 1) as u8, j);
            assert(a2[j] == a[p]);
        }
        assert(codable(a2, table, n_levels, bits)) by {
            match table {
                None => {
                    assert forall|i: int| 0 <= i < a2.len() implies (#[trigger] a2[i]).val() < pow2(
                        (bits * n_levels) as nat,
                    ) by {
                        let p = choose|p: int| 0 <= p < a.len() && a2[i] == #[trigger] a[p];
                        assert(a[p].val() < pow2((bits * n_levels) as nat));
                    }
                },
                Some(t) => {
                    assert forall|i: int| 0 <= i < a2.len() implies coded(
                        t,
                        (#[trigger] a2[i]).val() as int,
                    ) by {
                        let p = choose|p: int| 0 <= p < a.len() && a2[i] == #[trigger] a[p];
                        assert(coded(t, a[p].val() as int));
                    }
                },
            }
        }
    }
}

/// Dividing by plain digits is dividing by the groups of the level, except on
/// the last level.
proof fn lemma_plain_groups<T: WTIndexable>(s: Seq<T>, n_levels: int, bits: u32, l: int)
    requires
        bits == 1 || bits == 2,
        0 <= l < n_levels - 1,
    ensures
        level_groups(s, None, n_levels, bits, l) == groups(
            s,
            bits * (n_levels - 1 - l),
            radix_of(bits),
        ),
{
    let radix = radix_of(bits);
    let g = level_groups(s, None, n_levels, bits, l);
    let h = groups(s, bits * (n_levels - 1 - l), radix);
    assert forall|p: int| 0 <= p < s.len() implies g[p] == h[p] by {
        let v = s[p].val() as int;
        lemma_digit_at(v, n_levels, radix, l);
        lemma_radix_pow(bits, (n_levels - 1 - l) as nat);
        assert(bits as nat * (n_levels - 1 - l) as nat == bits * (n_levels - 1 - l));
    }
    assert(g =~= h);
}

proof fn lemma_code_groups<T: WTIndexable>(
    s: Seq<T>,
    codes: Seq<PrefixCode>,
    n_levels: int,
    bits: u32,
    l: int,
)
    requires
        codable(s, Some(codes), n_levels, bits),
        0 <= l,
    ensures
        level_groups(s, Some(codes), n_levels, bits, l) == code_groups(
            s,
            bits * (l + 1),
            codes,
            radix_of(bits),
        ),
{
    let radix = radix_of(bits);
    let g = level_groups(s, Some(codes), n_levels, bits, l);
    let h = code_groups(s, bits * (l + 1), codes, radix);
    assert forall|p: int| 0 <= p < s.len() implies g[p] == h[p] by {
        let x = s[p].val() as int;
        assert(coded(codes, x));
        lemma_code_digits(codes, n_levels, bits, x);
        let code = codes[x];
        let len = code.len as int / bits as int;
        assert(code.len as int == len * bits) by (nonlinear_arith)
            requires
                len == code.len as int / bits as int,
                code.len as int % bits as int == 0,
                bits == 1 || bits == 2,
        ;
        assert((len <= l + 1) <==> (code.len <= bits * (l + 1))) by (nonlinear_arith)
            requires
                code.len as int == len * bits,
                bits == 1 || bits == 2,
        ;
        if len > l + 1 {
            lemma_digit_at(code.content as int, len, radix, l);
            lemma_radix_pow(bits, (len - 1 - l) as nat);
            assert(bits as nat * (len - 1 - l) as nat == code.len - bits * (l + 1))
                by (nonlinear_arith)
                requires
                    code.len as int == len * bits,
                    len > l + 1,
            ;
        }
    }
    assert(g =~= h);
}

/// Collects digit `l` of the rows that have one.
fn collect_digits<T: WTIndexable>(
    sequence: &[T],
    table: Option<&Vec<PrefixCode>>,
    n_levels: usize,
    bits: u32,
    l: usize,
    Ghost(rows): Ghost<Seq<Seq<u8>>>,
) -> (digits: Vec<u8>)
    requires
        codable(sequence@, table_view(table), n_levels as int, bits),
        l < n_levels,
        rows.len() <= sequence@.len(),
        forall|p: int|
            0 <= p < rows.len() ==> symbol_code(
                table_view(table),
                n_levels as int,
                bits,
                #[trigger] sequence@[p],
            ) == rows[p] && rows[p].len() > l,
        forall|p: int|
            rows.len() <= p < sequence@.len() ==> symbol_code(
                table_view(table),
                n_levels as int,
                bits,
                #[trigger] sequence@[p],
            ).len() <= l,
    ensures
        digits@ == digits_at(rows, l as int),
        digits_below(digits@, radix_of(bits)),
{
    let ghost tv = table_view(table);
    let mut digits: Vec<u8> = Vec::with_capacity(sequence.len());
    let mut p: usize = 0;
    while p < sequence.len()
        invariant
            p <= sequence@.len(),
            tv == table_view(table),
            codable(sequence@, tv, n_levels as int, bits),
            l < n_levels,
            rows.len() <= sequence@.len(),
            forall|q: int|
                0 <= q < rows.len() ==> symbol_code(
                    tv,
                    n_levels as int,
                    bits,
                    #[trigger] sequence@[q],
                ) == rows[q] && rows[q].len() > l,
            forall|q: int|
                rows.len() <= q < sequence@.len() ==> symbol_code(
                    tv,
                    n_levels as int,
                    bits,
                    #[trigger] sequence@[q],
                ).len() <= l,
            digits.len() == if p < rows.len() {
                p as int
            } else {
                rows.len() as int
            },
            forall|q: int| 0 <= q < digits.len() ==> #[trigger] digits[q] == rows[q][l as int],
            forall|q: int| 0 <= q < digits.len() ==> (#[trigger] digits[q]) < radix_of(bits),
        decreases sequence@.len() - p,
    {
        let v: u64 = sequence[p].to_u64();
        let ghost here = symbol_code(tv, n_levels as int, bits, sequence@[p as int]);
        assert(if p < rows.len() {
            here == rows[p as int] && here.len() > l
        } else {
            here.len() <= l
        });
        match table {
            None => {
                proof {
                    lemma_digits_of(v as int, n_levels as int, radix_of(bits));
                }
                digits.push(digit_at(v, n_levels, l, bits));
            },
            Some(codes) => {
                assert(coded(codes@, v as int));
                assert(v < codes.len());
                let code: PrefixCode = codes[v as usize];
                let len: usize = (code.len / bits) as usize;
                proof {
                    lemma_code_digits(codes@, n_levels as int, bits, v as int);
                }
                assert(here == code_digits(code, bits));
                assert(here.len() == len);
                if len > l {
                    digits.push(digit_at(code.content as u64, len, l, bits));
                }
            },
        }
        p = p + 1;
    }
    assert(digits@ =~= digits_at(rows, l as int));
    digits
}

/// The table behind a reference.
pub open spec fn table_view(table: Option<&Vec<PrefixCode>>) -> Option<Seq<PrefixCode>> {
    match table {
        None => None,
        Some(codes) => Some(codes@),
    }
}

/// Builds the levels of a tree over `sequence`, which is rearranged level by
/// level.
pub fn build_levels<T: WTIndexable, L: LevelBuild>(
    sequence: &mut [T],
    table: Option<&Vec<PrefixCode>>,
    n_levels: usize,
) -> (levels: Vec<L>)
    requires
        codable(old(sequence)@, table_view(table), n_levels as int, L::digit_bits()),
        old(sequence)@.len() <= L::max_len(),
        n_levels <= 64,
    ensures
        levels_wf(levels@),
        level_digits(levels@) == build(
            codes_of(old(sequence)@, table_view(table), n_levels as int, L::digit_bits()),
            n_levels as int,
            radix_of(L::digit_bits()),
        ),
        final(sequence)@ == left_behind(
            old(sequence)@,
            table_view(table),
            n_levels as int,
            L::digit_bits(),
        ),
{
    let bits: u32 = L::bits();
    let ghost s = sequence@;
    let ghost tv = table_view(table);
    let ghost codes = codes_of(s, tv, n_levels as int, bits);
    let ghost radix = radix_of(bits);
    let mut levels: Vec<L> = Vec::with_capacity(n_levels);
    let mut l: usize = 0;
    while l < n_levels
        invariant
            l <= n_levels,
            n_levels > 0,
            bits == L::digit_bits(),
            bits == 1 || bits == 2,
            radix == radix_of(bits),
            tv == table_view(table),
            codable(s, tv, n_levels as int, bits),
            s.len() <= L::max_len(),
            n_levels <= 64,
            codes == codes_of(s, tv, n_levels as int, bits),
            sequence@ == if l < n_levels {
                arranged(s, tv, n_levels as int, bits, l as int)
            } else {
                left_behind(s, tv, n_levels as int, bits)
            },
            levels.len() == l,
            levels_wf(levels@),
            forall|m: int|
                0 <= m < l ==> (#[trigger] levels[m]).digits() == digits_at(
                    rows_at(codes, m, radix),
                    m,
                ),
        decreases n_levels - l,
    {
        proof {
            lemma_arranged(s, tv, n_levels as int, bits, l as int);
            lemma_codable(s, tv, n_levels as int, bits);
            lemma_rows_live(
                codes,
                code_set(tv, n_levels as int, bits),
                n_levels as int,
                radix,
                l as int,
            );
        }
        let digits: Vec<u8> = collect_digits(
            sequence,
            table,
            n_levels,
            bits,
            l,
            Ghost(rows_at(codes, l as int, radix)),
        );
        let level: L = L::from_digits(digits);
        levels.push(level);
        match table {
            None => {
                proof {
                    if l + 1 < n_levels {
                        lemma_plain_groups(sequence@, n_levels as int, bits, l as int);
                    }
                }
                if bits == 1 {
                    stable_partition_of_2(sequence, n_levels - 1 - l);
                } else {
                    stable_partition_of_4(sequence, 2 * (n_levels - 1 - l));
                }
            },
            Some(t) => {
                proof {
                    lemma_code_groups(sequence@, t@, n_levels as int, bits, l as int);
                    assert(in_table(sequence@, t@)) by {
                        assert forall|p: int| 0 <= p < sequence@.len() implies (
                        #[trigger] sequence@[p]).val() < t@.len() by {
                            assert(coded(t@, sequence@[p].val() as int));
                        }
                    }
                }
                if bits == 1 {
                    stable_partition_of_2_with_codes(sequence, l + 1, t);
                } else {
                    stable_partition_of_4_with_codes(sequence, 2 * (l + 1), t);
                }
            },
        }
        l = l + 1;
    }
    proof {
        assert(level_digits(levels@) =~= build(codes, n_levels as int, radix));
    }
    levels
}

} // verus!
