//! Queries on levels of one length.
//!
//! Every position has a path through all levels. The number that its path
//! writes is the value at the position.

use vstd::arithmetic::div_mod::lemma_mod_breakdown;
use vstd::arithmetic::power::{lemma_pow0, lemma_pow1, lemma_pow_adds, lemma_pow_positive, pow};
use vstd::prelude::*;

use crate::digits::{digits_of, lemma_digits_of, lemma_value_injective, radix_of, value};
use crate::indexable::WTIndexable;
use crate::level::{
    code_of, descend, descend_and_rank, level_digits, levels_wf, rank_walk, select_walk, DigitLevel,
};
use crate::matrix::{lemma_plain_path, plain_levels};
use crate::tree::occurrences;
use crate::wavelet::{digits_below, lemma_child_bounds, path, pcount, walk, walk_fits};

verus! {

/// The values at the first `n` positions.
pub open spec fn plain_values(levels: Seq<Seq<u8>>, n: int, radix: int) -> Seq<int> {
    Seq::new(n as nat, |i: int| value(path(levels, 0, i), radix))
}

/// The value that a symbol stands for: what remains of it in `n_levels` digits.
pub open spec fn in_digits(v: int, n_levels: int, radix: int) -> int {
    v % pow(radix, n_levels as nat)
}

/// The low 64 bits of a value as a symbol.
pub open spec fn symbol_of<T: WTIndexable>(v: int) -> T {
    T::truncated((v % 0x1_0000_0000_0000_0000) as u64)
}

/// Levels of one length.
pub open spec fn plain_wf<L: DigitLevel>(levels: Seq<L>, n: int) -> bool {
    &&& levels_wf(levels)
    &&& 0 <= n
    &&& plain_levels(level_digits(levels), n, radix_of(L::digit_bits()))
}

/// The digits of a number write what remains of it.
pub proof fn lemma_digits_value(v: int, len: int, radix: int)
    requires
        0 <= v,
        0 <= len,
        2 <= radix <= 256,
    ensures
        value(digits_of(v, len, radix), radix) == in_digits(v, len, radix),
    decreases len,
{
    if len == 0 {
        lemma_pow0(radix);
        assert(v % 1 == 0);
    } else {
        assert(0 <= v / radix) by (nonlinear_arith)
            requires
                0 <= v,
                2 <= radix,
        ;
        lemma_digits_value(v / radix, len - 1, radix);
        lemma_pow_adds(radix, 1, (len - 1) as nat);
        lemma_pow1(radix);
        lemma_pow_positive(radix, (len - 1) as nat);
        let w = pow(radix, (len - 1) as nat);
        lemma_mod_breakdown(v, radix, w);
        let ds = digits_of(v, len, radix);
        assert(ds.drop_last() =~= digits_of(v / radix, len - 1, radix));
        vstd::arithmetic::div_mod::lemma_mod_bound(v, radix);
        assert(((v / radix) % w) * radix == radix * ((v / radix) % w)) by (nonlinear_arith);
    }
}

proof fn lemma_plain_walk(levels: Seq<Seq<u8>>, n: int, radix: int, code: Seq<u8>, i: int, l: int)
    requires
        plain_levels(levels, n, radix),
        0 <= l <= code.len() <= levels.len(),
        0 <= i <= n,
    ensures
        0 <= walk(levels, code, i, l) <= n,
    decreases l,
{
    if l > 0 {
        lemma_plain_walk(levels, n, radix, code, i, l - 1);
        assert(levels[l - 1].len() == n);
        lemma_child_bounds(levels[l - 1], code[l - 1], walk(levels, code, i, l - 1));
    }
}

/// No code leaves levels of one length.
pub proof fn lemma_plain_fits(levels: Seq<Seq<u8>>, n: int, radix: int, code: Seq<u8>, i: int)
    requires
        plain_levels(levels, n, radix),
        code.len() <= levels.len(),
        0 <= i <= n,
    ensures
        walk_fits(levels, code, i),
{
    assert forall|l: int| 0 <= l < code.len() implies #[trigger] walk(levels, code, i, l)
        <= levels[l].len() by {
        lemma_plain_walk(levels, n, radix, code, i, l);
        assert(levels[l].len() == n);
    }
}

/// A path starts with a code of full length where it writes the same number.
proof fn lemma_plain_prefix(levels: Seq<Seq<u8>>, n: int, radix: int, code: Seq<u8>, p: int)
    requires
        plain_levels(levels, n, radix),
        2 <= radix <= 256,
        code.len() == levels.len(),
        digits_below(code, radix),
        0 <= p < n,
    ensures
        code.is_prefix_of(path(levels, 0, p)) <==> value(path(levels, 0, p), radix) == value(
            code,
            radix,
        ),
{
    let q = path(levels, 0, p);
    lemma_plain_path(levels, n, radix, 0, p);
    if code.is_prefix_of(q) {
        assert(code =~= q);
    }
    if value(q, radix) == value(code, radix) {
        lemma_value_injective(q, code, radix);
        assert(code =~= q.subrange(0, code.len() as int));
    }
}

/// Counting paths counts values.
pub proof fn lemma_plain_count(levels: Seq<Seq<u8>>, n: int, radix: int, code: Seq<u8>, i: int)
    requires
        plain_levels(levels, n, radix),
        2 <= radix <= 256,
        code.len() == levels.len(),
        digits_below(code, radix),
        0 <= i <= n,
    ensures
        pcount(levels, 0, code, 0, i) == occurrences(
            plain_values(levels, n, radix),
            value(code, radix),
            i,
        ),
    decreases i,
{
    if i > 0 {
        lemma_plain_count(levels, n, radix, code, i - 1);
        lemma_plain_prefix(levels, n, radix, code, i - 1);
    }
}

/// The value at position `i`, modulo two to the 64.
pub fn plain_get<L: DigitLevel>(levels: &Vec<L>, n: usize, i: usize) -> (v: u64)
    requires
        plain_wf(levels@, n as int),
        i < n,
    ensures
        v == plain_values(level_digits(levels@), n as int, radix_of(L::digit_bits()))[i as int]
            % 0x1_0000_0000_0000_0000,
{
    let (v, _) = descend(levels, i);
    v
}

/// The value at position `i`, modulo two to the 64, and how often it occurs up
/// to there.
pub fn plain_get_and_rank<L: DigitLevel>(levels: &Vec<L>, n: usize, i: usize) -> (r: (u64, usize))
    requires
        plain_wf(levels@, n as int),
        levels.len() > 0,
        i < n,
    ensures
        ({
            let values = plain_values(
                level_digits(levels@),
                n as int,
                radix_of(L::digit_bits()),
            );
            &&& r.0 == values[i as int] % 0x1_0000_0000_0000_0000
            &&& r.1 == occurrences(values, values[i as int], i + 1)
        }),
{
    let ghost lv = level_digits(levels@);
    let ghost radix = radix_of(L::digit_bits());
    proof {
        assert(lv[0].len() == n);
        assert(levels[0].wf());
        levels[0].lemma_level();
        lemma_plain_path(lv, n as int, radix, 0, i as int);
        lemma_plain_count(lv, n as int, radix, path(lv, 0, i as int), i + 1);
    }
    descend_and_rank(levels, i)
}

/// How often the value of a symbol occurs before position `i`.
pub fn plain_rank<L: DigitLevel>(levels: &Vec<L>, n: usize, symbol: u64, i: usize) -> (k: usize)
    requires
        plain_wf(levels@, n as int),
        levels.len() > 0,
        i <= n,
    ensures
        k == occurrences(
            plain_values(level_digits(levels@), n as int, radix_of(L::digit_bits())),
            in_digits(symbol as int, levels.len() as int, radix_of(L::digit_bits())),
            i as int,
        ),
{
    let ghost lv = level_digits(levels@);
    let ghost radix = radix_of(L::digit_bits());
    let ghost code = code_of(symbol, levels.len() as int, L::digit_bits());
    proof {
        assert(levels[0].wf());
        levels[0].lemma_level();
        lemma_digits_of(symbol as int, levels.len() as int, radix);
        lemma_digits_value(symbol as int, levels.len() as int, radix);
        lemma_plain_fits(lv, n as int, radix, code, i as int);
        lemma_plain_count(lv, n as int, radix, code, i as int);
    }
    let r: Option<usize> = rank_walk(levels, symbol, levels.len(), i);
    r.unwrap()
}

/// The position of occurrence `k` of the value of a symbol.
pub fn plain_select<L: DigitLevel>(levels: &Vec<L>, n: usize, symbol: u64, k: usize) -> (r: Option<
    usize,
>)
    requires
        plain_wf(levels@, n as int),
        levels.len() > 0,
    ensures
        ({
            let values = plain_values(
                level_digits(levels@),
                n as int,
                radix_of(L::digit_bits()),
            );
            let v = in_digits(symbol as int, levels.len() as int, radix_of(L::digit_bits()));
            match r {
                Some(p) => p < n && values[p as int] == v && occurrences(values, v, p as int) == k,
                None => occurrences(values, v, n as int) <= k,
            }
        }),
{
    let ghost lv = level_digits(levels@);
    let ghost radix = radix_of(L::digit_bits());
    let ghost code = code_of(symbol, levels.len() as int, L::digit_bits());
    proof {
        assert(lv[0].len() == n);
        assert(levels[0].wf());
        levels[0].lemma_level();
        lemma_digits_of(symbol as int, levels.len() as int, radix);
        lemma_digits_value(symbol as int, levels.len() as int, radix);
        lemma_plain_fits(lv, n as int, radix, code, n as int);
        lemma_plain_count(lv, n as int, radix, code, n as int);
    }
    let r: Option<usize> = select_walk(levels, symbol, levels.len(), k);
    proof {
        if let Some(p) = r {
            lemma_plain_prefix(lv, n as int, radix, code, p as int);
            lemma_plain_count(lv, n as int, radix, code, p as int);
        }
    }
    r
}

} // verus!
