//! Laws of the codes: how long codes of minimum redundancy get, and when trees
//! can be built with them.

use vstd::arithmetic::power::{lemma_pow0, lemma_pow1, lemma_pow_adds, lemma_pow_positive, pow};
use vstd::arithmetic::power2::{lemma2_to64, pow2};
use vstd::prelude::*;

use super::{lemma_largest, lemma_times_before, times_before};
use crate::binwt::parts::is_max;
use crate::binwt::{BinRSforWT, WaveletTree};
use crate::codes::PrefixCode;
use crate::digits::{lemma_radix_pow, radix_of};
use crate::huffman::{
    cost, frequencies_of, frequency_table, huffman_lens, kraft, kraft_sum, lemma_frequency,
    lemma_used, lens_of, long_needed, minimum_redundancy, sum_of, used_symbols, value_count,
};
use crate::indexable::WTIndexable;
use crate::quadwt::huffqwt::{huffman_codes_from_frequencies, HuffQWaveletTree};
use crate::quadwt::RSforWT;
use crate::tree::occurrences;

verus! {

proof fn lemma_sum_one(f: spec_fn(int) -> int, g: spec_fn(int) -> int, n: int, x: int)
    requires
        0 <= x < n,
        forall|j: int| 0 <= j < n && j != x ==> #[trigger] f(j) == g(j),
    ensures
        sum_of(g, n) - g(x) == sum_of(f, n) - f(x),
    decreases n,
{
    if x < n - 1 {
        lemma_sum_one(f, g, n - 1, x);
    } else {
        lemma_sum_equal(f, g, n - 1);
    }
}

proof fn lemma_sum_equal(f: spec_fn(int) -> int, g: spec_fn(int) -> int, n: int)
    requires
        forall|j: int| 0 <= j < n ==> #[trigger] f(j) == g(j),
    ensures
        sum_of(f, n) == sum_of(g, n),
    decreases n,
{
    if n > 0 {
        lemma_sum_equal(f, g, n - 1);
    }
}

/// Two sums whose terms differ in two places.
proof fn lemma_sum_two(f: spec_fn(int) -> int, g: spec_fn(int) -> int, n: int, x: int, y: int)
    requires
        0 <= x < n,
        0 <= y < n,
        x != y,
        forall|j: int| 0 <= j < n && j != x && j != y ==> #[trigger] f(j) == g(j),
    ensures
        sum_of(g, n) - g(x) - g(y) == sum_of(f, n) - f(x) - f(y),
{
    let h = |j: int|
        if j == x {
            g(x)
        } else {
            f(j)
        };
    lemma_sum_one(f, h, n, x);
    lemma_sum_one(h, g, n, y);
}

proof fn lemma_sum_less(f: spec_fn(int) -> int, g: spec_fn(int) -> int, n: int)
    requires
        forall|j: int| 0 <= j < n ==> #[trigger] f(j) < g(j),
    ensures
        sum_of(f, n) + n <= sum_of(g, n) || n < 0,
    decreases n,
{
    if n > 0 {
        lemma_sum_less(f, g, n - 1);
    }
}

proof fn lemma_sum_scale(f: spec_fn(int) -> int, g: spec_fn(int) -> int, c: int, n: int)
    requires
        forall|j: int| 0 <= j < n ==> #[trigger] g(j) == c * f(j),
    ensures
        sum_of(g, n) == c * sum_of(f, n),
    decreases n,
{
    if n > 0 {
        lemma_sum_scale(f, g, c, n - 1);
        assert(c * (sum_of(f, n - 1) + f(n - 1)) == c * sum_of(f, n - 1) + c * f(n - 1))
            by (nonlinear_arith);
    } else {
        assert(c * 0 == 0);
    }
}

/// What codes take up grows with the words as their number does.
proof fn lemma_kraft_scale(lens: Seq<u32>, radix: int, k: int, d: int)
    requires
        radix > 0,
        0 <= k,
        0 <= d,
        forall|j: int| 0 <= j < lens.len() ==> (#[trigger] lens[j]) <= k,
    ensures
        kraft_sum(lens, radix, k + d) == pow(radix, d as nat) * kraft_sum(lens, radix, k),
        pow(radix, (k + d) as nat) == pow(radix, d as nat) * pow(radix, k as nat),
{
    let f = |j: int| pow(radix, (k - lens[j]) as nat);
    let g = |j: int| pow(radix, (k + d - lens[j]) as nat);
    assert forall|j: int| 0 <= j < lens.len() implies #[trigger] g(j) == pow(radix, d as nat) * f(
        j,
    ) by {
        lemma_pow_adds(radix, d as nat, (k - lens[j]) as nat);
    }
    lemma_sum_scale(f, g, pow(radix, d as nat), lens.len() as int);
    lemma_pow_adds(radix, d as nat, k as nat);
}

/// Kraft's inequality need be looked at for words of one length only.
pub proof fn lemma_kraft_at(lens: Seq<u32>, radix: int, m: int)
    requires
        radix > 0,
        0 <= m,
        forall|j: int| 0 <= j < lens.len() ==> 0 < (#[trigger] lens[j]) <= m,
        kraft_sum(lens, radix, m) <= pow(radix, m as nat),
    ensures
        kraft(lens, radix),
{
    assert forall|k: int|
        0 <= k && (forall|j: int| 0 <= j < lens.len() ==> (#[trigger] lens[j])
            <= k) implies #[trigger] kraft_sum(lens, radix, k) <= pow(radix, k as nat) by {
        if k >= m {
            lemma_kraft_scale(lens, radix, m, k - m);
            lemma_pow_positive(radix, (k - m) as nat);
            let (c, a, b) = (
                pow(radix, (k - m) as nat),
                kraft_sum(lens, radix, m),
                pow(radix, m as nat),
            );
            assert(c * a <= c * b) by (nonlinear_arith)
                requires
                    0 < c,
                    a <= b,
            ;
        } else {
            lemma_kraft_scale(lens, radix, k, m - k);
            lemma_pow_positive(radix, (m - k) as nat);
            let (c, a, b) = (
                pow(radix, (m - k) as nat),
                kraft_sum(lens, radix, k),
                pow(radix, k as nat),
            );
            assert(a <= b) by (nonlinear_arith)
                requires
                    0 < c,
                    c * a <= c * b,
            ;
        }
    }
}

/// Codes of one length for no more symbols than words of that length.
proof fn lemma_kraft_uniform(n: nat, radix: int, m: u32)
    requires
        radix > 0,
        0 < m,
        n <= pow(radix, m as nat),
    ensures
        kraft(Seq::new(n, |j: int| m), radix),
{
    let lens = Seq::new(n, |j: int| m);
    lemma_pow0(radix);
    let f = |j: int| pow(radix, (m - lens[j]) as nat);
    lemma_sum_ones(f, n as int);
    lemma_kraft_at(lens, radix, m as int);
}

proof fn lemma_sum_ones(f: spec_fn(int) -> int, n: int)
    requires
        0 <= n,
        forall|j: int| 0 <= j < n ==> #[trigger] f(j) == 1,
    ensures
        sum_of(f, n) == n,
    decreases n,
{
    if n > 0 {
        lemma_sum_ones(f, n - 1);
    }
}

/// Moving a long word and a short one to the length behind the short one leaves
/// room for the code.
proof fn lemma_kraft_evened(lens: Seq<u32>, radix: int, x: int, y: int)
    requires
        radix >= 2,
        kraft(lens, radix),
        0 <= x < lens.len(),
        0 <= y < lens.len(),
        lens[y] + 1 < lens[x],
    ensures
        kraft(lens.update(x, (lens[y] + 1) as u32).update(y, (lens[y] + 1) as u32), radix),
{
    let k = u32::MAX as int;
    let other = lens.update(x, (lens[y] + 1) as u32).update(y, (lens[y] + 1) as u32);
    let f = |j: int| pow(radix, (k - lens[j]) as nat);
    let g = |j: int| pow(radix, (k - other[j]) as nat);
    let n = lens.len() as int;
    assert(kraft_sum(lens, radix, k) <= pow(radix, k as nat));
    lemma_sum_two(f, g, n, x, y);
    let e = (k - lens[y] - 1) as nat;
    lemma_pow1(radix);
    lemma_pow_adds(radix, 1, e);
    lemma_pow_positive(radix, e);
    lemma_pow_positive(radix, (k - lens[x]) as nat);
    assert(f(y) == radix * pow(radix, e));
    assert(2 * pow(radix, e) <= radix * pow(radix, e)) by (nonlinear_arith)
        requires
            radix >= 2,
            pow(radix, e) > 0,
    ;
    assert(kraft_sum(other, radix, k) <= pow(radix, k as nat));
    assert forall|j: int| 0 <= j < other.len() implies 0 < (#[trigger] other[j]) <= k by {
        assert(lens[j] > 0);
    }
    lemma_kraft_at(other, radix, k);
}

/// Where all frequencies are one, codes of minimum redundancy for no more symbols
/// than words of `m` digits have no word of more than `m + 2`.
proof fn lemma_even(freqs: Seq<usize>, lens: Seq<u32>, radix: int, m: u32, c: int)
    requires
        radix >= 2,
        0 < m,
        c > 0,
        lens.len() == freqs.len(),
        freqs.len() <= pow(radix, m as nat),
        forall|j: int| 0 <= j < freqs.len() ==> #[trigger] freqs[j] == c,
        kraft(lens, radix),
        forall|other: Seq<u32>|
            other.len() == freqs.len() && #[trigger] kraft(other, radix) ==> cost(freqs, lens)
                <= cost(freqs, other),
    ensures
        forall|j: int| 0 <= j < lens.len() ==> (#[trigger] lens[j]) <= m + 2,
{
    let n = freqs.len() as int;
    let f = |j: int| freqs[j] * lens[j];
    assert forall|x: int| 0 <= x < n implies (#[trigger] lens[x]) <= m + 2 by {
        if lens[x] > m + 2 {
            let flat = Seq::new(n as nat, |j: int| m);
            lemma_kraft_uniform(n as nat, radix, m);
            let g = |j: int| freqs[j] * flat[j];
            if forall|j: int| 0 <= j < n ==> (#[trigger] lens[j]) > m {
                assert forall|j: int| 0 <= j < n implies #[trigger] g(j) < f(j) by {
                    let l = lens[j] as int;
                    assert(freqs[j] == c);
                    assert(c * m < c * l) by (nonlinear_arith)
                        requires
                            c > 0,
                            l > m,
                    ;
                }
                lemma_sum_less(g, f, n);
                assert(cost(freqs, lens) <= cost(freqs, flat));
                assert(false);
            }
            let y = choose|j: int| 0 <= j < n && !((#[trigger] lens[j]) > m);
            lemma_kraft_evened(lens, radix, x, y);
            let other = lens.update(x, (lens[y] + 1) as u32).update(y, (lens[y] + 1) as u32);
            let h = |j: int| freqs[j] * other[j];
            lemma_sum_two(f, h, n, x, y);
            let (a, b) = (lens[x] as int, lens[y] as int);
            assert(freqs[x] == c && freqs[y] == c);
            assert(c * (b + 1) + c * (b + 1) < c * a + c * b) by (nonlinear_arith)
                requires
                    c > 0,
                    a > b + 2,
            ;
            assert(cost(freqs, other) < cost(freqs, lens));
        }
    }
}

/// Codes of minimum redundancy for symbols that are equally frequent.
pub proof fn lemma_even_codes(freqs: Seq<usize>, lens: Seq<u32>, bits: u32, m: u32, c: int)
    requires
        bits == 1 || bits == 2,
        freqs.len() <= usize::MAX,
        minimum_redundancy(freqs, lens, bits),
        0 < m,
        c > 0,
        used_symbols(freqs).len() <= pow(radix_of(bits), m as nat),
        forall|s: int| 0 <= s < freqs.len() && freqs[s] > 0 ==> #[trigger] freqs[s] == c,
    ensures
        forall|s: int| 0 <= s < lens.len() ==> (#[trigger] lens[s]) <= m + 2,
{
    let used = used_symbols(freqs);
    let weights = frequencies_of(freqs, used);
    let short = lens_of(lens, used);
    lemma_used(freqs);
    assert forall|j: int| 0 <= j < weights.len() implies #[trigger] weights[j] == c by {
        assert(used.contains(used[j]));
        assert(freqs[used[j] as int] > 0);
    }
    lemma_even(weights, short, radix_of(bits), m, c);
    assert forall|s: int| 0 <= s < lens.len() implies (#[trigger] lens[s]) <= m + 2 by {
        if lens[s] > 0 {
            assert(used.contains(s as usize));
            let j = choose|j: int| 0 <= j < used.len() && used[j] == s as usize;
            assert(short[j] == lens[s]);
        }
    }
}

/// Up to two to the 28 symbols that are equally frequent need no long codes.
pub proof fn lemma_no_long(freqs: Seq<usize>, bits: u32)
    requires
        bits == 1 || bits == 2,
        freqs.len() <= usize::MAX,
        used_symbols(freqs).len() <= 0x1000_0000,
        forall|s: int, t: int|
            0 <= s < freqs.len() && 0 <= t < freqs.len() && freqs[s] > 0 && freqs[t] > 0
                ==> #[trigger] freqs[s] == #[trigger] freqs[t],
    ensures
        !long_needed(freqs, bits),
{
    if long_needed(freqs, bits) {
        let lens = choose|lens: Seq<u32>| #[trigger]
            minimum_redundancy(freqs, lens, bits) && exists|s: int|
                0 <= s < lens.len() && #[trigger] lens[s] * bits > 32;
        let s = choose|s: int| 0 <= s < lens.len() && #[trigger] lens[s] * bits > 32;
        assert(lens[s] > 0) by (nonlinear_arith)
            requires
                lens[s] * bits > 32,
        ;
        let m: u32 = if bits == 1 {
            28
        } else {
            14
        };
        lemma2_to64();
        lemma_radix_pow(bits, m as nat);
        assert(bits as nat * m as nat == 28);
        assert(pow2(28) == 0x1000_0000);
        lemma_even_codes(freqs, lens, bits, m, freqs[s] as int);
        assert(lens[s] <= m + 2);
        assert(lens[s] * bits <= 32) by (nonlinear_arith)
            requires
                lens[s] <= m + 2,
                bits == 1 && m == 28 || bits == 2 && m == 14,
        ;
    }
}

pub proof fn lemma_value_times<T: WTIndexable>(s: Seq<T>, t: T, i: int)
    requires
        0 <= i <= s.len(),
    ensures
        value_count(s, t.val() as int, i) == occurrences(s, t, i),
    decreases i,
{
    if i > 0 {
        lemma_value_times(s, t, i - 1);
        s[i - 1].lemma_val();
        t.lemma_val();
    }
}

/// No more numbers occur than the sequence has symbols.
proof fn lemma_distinct<T: WTIndexable>(s: Seq<T>, m: T)
    requires
        is_max(s, m),
        s.len() <= usize::MAX,
        m.val() < usize::MAX,
    ensures
        used_symbols(frequency_table(s, m.val() + 1)).len() <= s.to_set().len(),
{
    let freqs = frequency_table(s, m.val() + 1);
    let used = used_symbols(freqs);
    lemma_used(freqs);
    used.unique_seq_to_set();
    let f = |u: usize| T::truncated(u as u64);
    let a = used.to_set();
    let b = s.to_set();
    vstd::seq_lib::seq_to_set_is_finite(used);
    vstd::seq_lib::seq_to_set_is_finite(s);
    assert forall|u: usize| #[trigger] a.contains(u) implies b.contains(f(u)) && f(u).val() == u by {
        assert(used.contains(u));
        lemma_frequency(s, m.val() + 1, u as int);
        let j = choose|j: int| 0 <= j < s.len() && (#[trigger] s[j]).val() == u as int;
        s[j].lemma_val();
        assert(f(u) == s[j]);
        assert(s.contains(s[j]));
    }
    assert(vstd::relations::injective_on(f, a)) by {
        assert forall|x: usize, y: usize|
            a.contains(x) && a.contains(y) && #[trigger] f(x) == #[trigger] f(y) implies x == y by {
            assert(f(x).val() == x && f(y).val() == y);
        }
    }
    vstd::set_lib::lemma_map_size(a, a.map(f), f);
    assert(a.map(f).subset_of(b));
    vstd::set_lib::lemma_len_subset(a.map(f), b);
}

/// Symbols that are equally frequent have one frequency.
proof fn lemma_even_table<T: WTIndexable>(s: Seq<T>, m: T)
    requires
        is_max(s, m),
        s.len() <= usize::MAX,
        m.val() < usize::MAX,
        forall|a: T, b: T|
            s.contains(a) && s.contains(b) ==> #[trigger] times_before(s, a, s.len() as int)
                == #[trigger] times_before(s, b, s.len() as int),
    ensures
        forall|x: int, y: int|
            0 <= x <= m.val() && 0 <= y <= m.val() && frequency_table(s, m.val() + 1)[x] > 0
                && frequency_table(s, m.val() + 1)[y] > 0 ==> #[trigger] frequency_table(
                s,
                m.val() + 1,
            )[x] == #[trigger] frequency_table(s, m.val() + 1)[y],
{
    let n = m.val() + 1;
    let freqs = frequency_table(s, n);
    assert forall|x: int, y: int|
        0 <= x <= m.val() && 0 <= y <= m.val() && freqs[x] > 0 && freqs[y]
            > 0 implies #[trigger] freqs[x] == #[trigger] freqs[y] by {
        lemma_frequency(s, n, x);
        lemma_frequency(s, n, y);
        let i = choose|j: int| 0 <= j < s.len() && (#[trigger] s[j]).val() == x;
        let j = choose|j: int| 0 <= j < s.len() && (#[trigger] s[j]).val() == y;
        assert(s.contains(s[i]) && s.contains(s[j]));
        lemma_times_before(s, s[i], s.len() as int);
        lemma_times_before(s, s[j], s.len() as int);
        lemma_value_times(s, s[i], s.len() as int);
        lemma_value_times(s, s[j], s.len() as int);
    }
}

/// A compressed tree of bits can be built unless its codes, as short as can be, need more
/// than 32 bits: every sequence whose codes of minimum redundancy have at most
/// 32 digits has one.
pub proof fn bits_built_for_short_codes<T: WTIndexable, BRS: BinRSforWT>(
    v: Vec<T>,
    r: Option<WaveletTree<T, BRS, true>>,
    m: T,
)
    requires
        call_ensures(WaveletTree::<T, BRS, true>::from, (v,), r),
        is_max(v@, m),
        m.val() < usize::MAX,
        v@.to_set().len() <= 0xffff_fffd,
        forall|lens: Seq<u32>, s: int| #[trigger]
            minimum_redundancy(frequency_table(v@, m.val() + 1), lens, 1) && 0 <= s < lens.len()
                ==> (#[trigger] lens[s]) <= 32,
    ensures
        r is Some,
{
    lemma_distinct(v@, m);
    let freqs = frequency_table(v@, m.val() + 1);
    if long_needed(freqs, 1) {
        let lens = choose|lens: Seq<u32>| #[trigger]
            minimum_redundancy(freqs, lens, 1) && exists|s: int|
                0 <= s < lens.len() && #[trigger] lens[s] * 1u32 > 32;
        let s = choose|s: int| 0 <= s < lens.len() && #[trigger] lens[s] * 1u32 > 32;
        assert(lens[s] <= 32);
    }
}

/// A compressed tree of bits can be built for every sequence whose symbols are equally
/// frequent, up to two to the 28 of them.
pub proof fn bits_built_for_even_symbols<T: WTIndexable, BRS: BinRSforWT>(
    v: Vec<T>,
    r: Option<WaveletTree<T, BRS, true>>,
)
    requires
        call_ensures(WaveletTree::<T, BRS, true>::from, (v,), r),
        forall|j: int| 0 <= j < v.len() ==> (#[trigger] v[j]).val() < usize::MAX,
        v@.to_set().len() <= 0x1000_0000,
        forall|a: T, b: T|
            v@.contains(a) && v@.contains(b) ==> #[trigger] times_before(v@, a, v.len() as int)
                == #[trigger] times_before(v@, b, v.len() as int),
    ensures
        r is Some,
{
    if v.len() > 0 {
        let m = lemma_largest(v@);
        assert(is_max(v@, m));
        let j = choose|j: int| 0 <= j < v.len() && #[trigger] v@[j] == m;
        assert(v[j].val() < usize::MAX);
        lemma_distinct(v@, m);
        lemma_even_table(v@, m);
        lemma_no_long(frequency_table(v@, m.val() + 1), 1);
    }
}

/// A compressed tree of bits can be built for every sequence of at most 32 symbols,
/// however often they occur.
pub proof fn bits_built_for_few_symbols<T: WTIndexable, BRS: BinRSforWT>(
    v: Vec<T>,
    r: Option<WaveletTree<T, BRS, true>>,
)
    requires
        call_ensures(WaveletTree::<T, BRS, true>::from, (v,), r),
        forall|j: int| 0 <= j < v.len() ==> (#[trigger] v[j]).val() < usize::MAX,
        v@.to_set().len() <= 32,
    ensures
        r is Some,
{
    if v.len() > 0 {
        let m = lemma_largest(v@);
        assert(is_max(v@, m));
        let j = choose|j: int| 0 <= j < v.len() && #[trigger] v@[j] == m;
        assert(v[j].val() < usize::MAX);
        lemma_distinct(v@, m);
    }
}

/// A compressed quad tree can be built unless its codes, as short as can be, need more
/// than 32 bits: every sequence whose codes of minimum redundancy have at most
/// 16 digits has one.
pub proof fn quads_built_for_short_codes<T: WTIndexable, RS: RSforWT>(
    v: Vec<T>,
    r: Option<HuffQWaveletTree<T, RS>>,
    m: T,
)
    requires
        call_ensures(HuffQWaveletTree::<T, RS>::from, (v,), r),
        is_max(v@, m),
        m.val() < usize::MAX,
        v@.to_set().len() <= 0xffff_fffd,
        forall|lens: Seq<u32>, s: int| #[trigger]
            minimum_redundancy(frequency_table(v@, m.val() + 1), lens, 2) && 0 <= s < lens.len()
                ==> (#[trigger] lens[s]) <= 16,
    ensures
        r is Some,
{
    lemma_distinct(v@, m);
    let freqs = frequency_table(v@, m.val() + 1);
    if long_needed(freqs, 2) {
        let lens = choose|lens: Seq<u32>| #[trigger]
            minimum_redundancy(freqs, lens, 2) && exists|s: int|
                0 <= s < lens.len() && #[trigger] lens[s] * 2u32 > 32;
        let s = choose|s: int| 0 <= s < lens.len() && #[trigger] lens[s] * 2u32 > 32;
        assert(lens[s] <= 16);
    }
}

/// A compressed quad tree can be built for every sequence whose symbols are equally
/// frequent, up to two to the 28 of them.
pub proof fn quads_built_for_even_symbols<T: WTIndexable, RS: RSforWT>(
    v: Vec<T>,
    r: Option<HuffQWaveletTree<T, RS>>,
)
    requires
        call_ensures(HuffQWaveletTree::<T, RS>::from, (v,), r),
        forall|j: int| 0 <= j < v.len() ==> (#[trigger] v[j]).val() < usize::MAX,
        v@.to_set().len() <= 0x1000_0000,
        forall|a: T, b: T|
            v@.contains(a) && v@.contains(b) ==> #[trigger] times_before(v@, a, v.len() as int)
                == #[trigger] times_before(v@, b, v.len() as int),
    ensures
        r is Some,
{
    if v.len() > 0 {
        let m = lemma_largest(v@);
        assert(is_max(v@, m));
        let j = choose|j: int| 0 <= j < v.len() && #[trigger] v@[j] == m;
        assert(v[j].val() < usize::MAX);
        lemma_distinct(v@, m);
        lemma_even_table(v@, m);
        lemma_no_long(frequency_table(v@, m.val() + 1), 2);
    }
}

/// A compressed quad tree can be built for every sequence of at most 16 symbols,
/// however often they occur.
pub proof fn quads_built_for_few_symbols<T: WTIndexable, RS: RSforWT>(
    v: Vec<T>,
    r: Option<HuffQWaveletTree<T, RS>>,
)
    requires
        call_ensures(HuffQWaveletTree::<T, RS>::from, (v,), r),
        forall|j: int| 0 <= j < v.len() ==> (#[trigger] v[j]).val() < usize::MAX,
        v@.to_set().len() <= 16,
    ensures
        r is Some,
{
    if v.len() > 0 {
        let m = lemma_largest(v@);
        assert(is_max(v@, m));
        let j = choose|j: int| 0 <= j < v.len() && #[trigger] v@[j] == m;
        assert(v[j].val() < usize::MAX);
        lemma_distinct(v@, m);
    }
}

/// Lengths of codes are given exactly for the alphabets whose trees have no level with
/// more nodes than a word can count: with degree four, up to two nodes of a level may
/// stand for no symbol. The lengths are as short as can be.
pub proof fn lens_given(frequencies: Vec<usize>, bits: u32, r: Option<Vec<u32>>)
    requires
        call_ensures(huffman_lens, (&frequencies, bits), r),
    ensures
        bits == 1 ==> (r is Some <==> used_symbols(frequencies@).len() <= u32::MAX),
        bits == 2 ==> (r is Some <==> used_symbols(frequencies@).len() + 2 <= u32::MAX),
        r matches Some(lens) ==> minimum_redundancy(frequencies@, lens@, bits),
{
}

/// Codes of whole pairs of bits are given exactly where they have at most 32 bits:
/// they are as short as can be, and none are given only where such codes are longer.
pub proof fn quad_codes_given(frequencies: Vec<usize>, r: Option<Vec<PrefixCode>>)
    requires
        call_ensures(huffman_codes_from_frequencies, (&frequencies,), r),
        used_symbols(frequencies@).len() <= 0xffff_fffd,
    ensures
        r is None ==> exists|lens: Seq<u32>, s: int| #[trigger]
            minimum_redundancy(frequencies@, lens, 2) && 0 <= s < lens.len() && #[trigger] lens[s]
                > 16,
        r matches Some(codes) ==> forall|s: int|
            0 <= s < codes.len() ==> (#[trigger] codes[s]).len <= 32 && codes[s].len % 2 == 0 && (
            codes[s].len > 0 <==> frequencies[s] > 0),
{
    if r is None {
        let freqs = frequencies@;
        let lens = choose|lens: Seq<u32>| #[trigger]
            minimum_redundancy(freqs, lens, 2) && exists|s: int|
                0 <= s < lens.len() && #[trigger] lens[s] * 2u32 > 32;
        let s = choose|s: int| 0 <= s < lens.len() && #[trigger] lens[s] * 2u32 > 32;
        assert(lens[s] > 16);
    }
}

} // verus!
