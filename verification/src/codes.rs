//! Prefix codes for wavelet matrices.

use vstd::arithmetic::div_mod::{
    lemma_fundamental_div_mod, lemma_fundamental_div_mod_converse, lemma_mod_bound,
    lemma_mod_breakdown, lemma_mod_multiples_vanish, lemma_small_mod,
};
use vstd::arithmetic::power::{lemma_pow0, lemma_pow1, lemma_pow_adds, lemma_pow_positive, pow};
use vstd::arithmetic::power2::{lemma2_to64, lemma_pow2_adds, lemma_pow2_pos, pow2};
use vstd::prelude::*;

use crate::digits::{lemma_digits_of, lemma_digits_of_value, lemma_radix_pow, radix_of, value};
use crate::level::code_of;
use crate::matrix::{rev_lt, wm_codes};
use crate::wavelet::digits_below;

verus! {

/// A code of `len` bits, held in the low bits of `content`, first bit highest.
#[derive(Clone, Copy, Debug, PartialEq, Eq, Structural)]
pub struct PrefixCode {
    pub content: u32,
    pub len: u32,
}

/// The digits of a code.
pub open spec fn code_digits(code: PrefixCode, bits: u32) -> Seq<u8> {
    code_of(code.content as u64, code.len as int / bits as int, bits)
}

/// Symbol `s` has a code in the table.
pub open spec fn coded(codes: Seq<PrefixCode>, s: int) -> bool {
    0 <= s < codes.len() && codes[s].len > 0
}

/// The codes of a table.
pub open spec fn table_codes(codes: Seq<PrefixCode>, bits: u32) -> spec_fn(Seq<u8>) -> bool {
    |c: Seq<u8>| exists|s: int| #[trigger] coded(codes, s) && code_digits(codes[s], bits) == c
}

/// A table of codes for a wavelet matrix with `n_levels` levels: codes consist
/// of whole digits, no two symbols share a code, and longer codes are ordered
/// before shorter ones.
pub open spec fn table_ok(codes: Seq<PrefixCode>, n_levels: int, bits: u32) -> bool {
    &&& bits == 1 || bits == 2
    &&& forall|s: int|
        #![trigger codes[s]]
        coded(codes, s) ==> {
            &&& codes[s].len as int % bits as int == 0
            &&& codes[s].len as int / bits as int <= n_levels
            &&& codes[s].len <= 32
            &&& codes[s].content < pow2(codes[s].len as nat)
        }
    &&& forall|s: int, t: int|
        #![trigger codes[s], codes[t]]
        coded(codes, s) && coded(codes, t) && codes[s].len < codes[t].len ==> rev_lt(
            code_digits(codes[t], bits),
            code_digits(codes[s], bits),
            codes[s].len as int / bits as int,
        )
    &&& forall|s: int, t: int|
        #![trigger codes[s], codes[t]]
        coded(codes, s) && coded(codes, t) && s != t && codes[s].len == codes[t].len ==> codes[s]
            != codes[t]
}

/// The code of `t` is handed out before that of `s`: it is shorter, or as long
/// and `t` is smaller.
pub open spec fn is_earlier(codes: Seq<PrefixCode>, t: int, s: int) -> bool {
    coded(codes, t) && (codes[t].len < codes[s].len || (codes[t].len == codes[s].len && t < s))
}

/// `c` has as many digits as `code`, and is larger when read from the last.
pub open spec fn is_larger(c: Seq<u8>, code: Seq<u8>, radix: int) -> bool {
    c.len() == code.len() && digits_below(c, radix) && rev_lt(code, c, code.len() as int)
}

/// Every symbol has the largest code that was left for it: larger ones of that
/// length go on where an earlier code ends. Symbols without a code have zeros.
pub open spec fn codes_greedy(codes: Seq<PrefixCode>, bits: u32) -> bool {
    &&& forall|s: int, c: Seq<u8>|
        coded(codes, s) && #[trigger] is_larger(c, code_digits(codes[s], bits), radix_of(bits))
            ==> exists|t: int| #[trigger]
            is_earlier(codes, t, s) && code_digits(codes[t], bits).is_prefix_of(c)
    &&& forall|s: int|
        0 <= s < codes.len() && codes[s].len == 0 ==> (#[trigger] codes[s]).content == 0
}

/// The longest code of a table has `n_levels` digits.
pub open spec fn is_depth(codes: Seq<PrefixCode>, n_levels: int, bits: u32) -> bool {
    &&& forall|s: int| 0 <= s < codes.len() ==> (#[trigger] codes[s]).len <= bits * n_levels
    &&& exists|s: int| 0 <= s < codes.len() && (#[trigger] codes[s]).len == bits * n_levels
}

/// The digits of a code in a table, and their value.
pub proof fn lemma_code_digits(codes: Seq<PrefixCode>, n_levels: int, bits: u32, s: int)
    requires
        table_ok(codes, n_levels, bits),
        coded(codes, s),
    ensures
        code_digits(codes[s], bits).len() == codes[s].len as int / bits as int,
        0 < code_digits(codes[s], bits).len() <= n_levels,
        digits_below(code_digits(codes[s], bits), radix_of(bits)),
        value(code_digits(codes[s], bits), radix_of(bits)) == codes[s].content,
{
    let len = codes[s].len as int / bits as int;
    assert(codes[s].len > 0);
    assert(len > 0 && len * bits == codes[s].len) by (nonlinear_arith)
        requires
            len == codes[s].len as int / bits as int,
            codes[s].len as int % bits as int == 0,
            codes[s].len > 0,
            bits == 1 || bits == 2,
    ;
    lemma_digits_of(codes[s].content as int, len, radix_of(bits));
    lemma_radix_pow(bits, len as nat);
    assert(bits as nat * len as nat == codes[s].len as nat) by (nonlinear_arith)
        requires
            len * bits == codes[s].len,
    ;
    crate::digits::lemma_value_of_digits(codes[s].content as int, len, radix_of(bits));
}

/// Two symbols of a table have different codes.
pub proof fn lemma_code_injective(
    codes: Seq<PrefixCode>,
    n_levels: int,
    bits: u32,
    s: int,
    t: int,
)
    requires
        table_ok(codes, n_levels, bits),
        coded(codes, s),
        coded(codes, t),
        code_digits(codes[s], bits) == code_digits(codes[t], bits),
    ensures
        s == t,
{
    lemma_code_digits(codes, n_levels, bits, s);
    lemma_code_digits(codes, n_levels, bits, t);
    let a = codes[s].len as int;
    let b = codes[t].len as int;
    assert(a == b) by (nonlinear_arith)
        requires
            a / bits as int == b / bits as int,
            a % bits as int == 0,
            b % bits as int == 0,
            bits == 1 || bits == 2,
    ;
    if s != t {
        assert(codes[s].content == codes[t].content);
        assert(codes[s] == codes[t]);
    }
}

/// The codes of a table suit a wavelet matrix.
pub proof fn lemma_table_codes(codes: Seq<PrefixCode>, n_levels: int, bits: u32)
    requires
        table_ok(codes, n_levels, bits),
    ensures
        wm_codes(table_codes(codes, bits), n_levels, radix_of(bits)),
{
    let set = table_codes(codes, bits);
    assert forall|a: Seq<u8>| #[trigger] set(a) implies 0 < a.len() <= n_levels && digits_below(
        a,
        radix_of(bits),
    ) by {
        let s = choose|s: int| #[trigger] coded(codes, s) && code_digits(codes[s], bits) == a;
        lemma_code_digits(codes, n_levels, bits, s);
    }
    assert forall|a: Seq<u8>, b: Seq<u8>| #[trigger]
        set(a) && #[trigger] set(b) && a.len() < b.len() implies rev_lt(b, a, a.len() as int) by {
        let s = choose|s: int| #[trigger] coded(codes, s) && code_digits(codes[s], bits) == a;
        let t = choose|t: int| #[trigger] coded(codes, t) && code_digits(codes[t], bits) == b;
        lemma_code_digits(codes, n_levels, bits, s);
        lemma_code_digits(codes, n_levels, bits, t);
        let x = codes[s].len as int;
        let y = codes[t].len as int;
        assert(x < y) by (nonlinear_arith)
            requires
                x / (bits as int) < y / (bits as int),
                bits == 1 || bits == 2,
        ;
    }
}

// Codes under construction are numbers whose digit `t` stands at position `t`,
// so that later digits weigh more.

/// Digit `t` of the number `c`, for `t < len`.
pub open spec fn key_digits(c: int, len: int, radix: int) -> Seq<u8> {
    Seq::new(len as nat, |t: int| ((c / pow(radix, t as nat)) % radix) as u8)
}

proof fn lemma_key_order(x: int, y: int, len_x: int, len_y: int, m: int, radix: int)
    requires
        0 <= x,
        0 <= y,
        0 <= m <= len_x,
        m <= len_y,
        2 <= radix <= 255,
    ensures
        rev_lt(key_digits(x, len_x, radix), key_digits(y, len_y, radix), m) <==> x % pow(
            radix,
            m as nat,
        ) < y % pow(radix, m as nat),
    decreases m,
{
    let a = key_digits(x, len_x, radix);
    let b = key_digits(y, len_y, radix);
    if m == 0 {
        lemma_pow0(radix);
    } else {
        lemma_key_order(x, y, len_x, len_y, m - 1, radix);
        let w = pow(radix, (m - 1) as nat);
        lemma_pow_positive(radix, (m - 1) as nat);
        lemma_pow_adds(radix, (m - 1) as nat, 1);
        lemma_pow1(radix);
        lemma_mod_breakdown(x, w, radix);
        lemma_mod_breakdown(y, w, radix);
        lemma_mod_bound(x, w);
        lemma_mod_bound(y, w);
        lemma_mod_bound(x / w, radix);
        lemma_mod_bound(y / w, radix);
        let dx = (x / w) % radix;
        let dy = (y / w) % radix;
        let rx = x % w;
        let ry = y % w;
        assert(a[m - 1] == dx && b[m - 1] == dy);
        assert((w * dx + rx < w * dy + ry) <==> (dx < dy || (dx == dy && rx < ry)))
            by (nonlinear_arith)
            requires
                0 <= rx < w,
                0 <= ry < w,
        ;
    }
}

/// A digit in front does not change what is behind it.
proof fn lemma_key_push(x: int, d: int, l: int, m: int, radix: int)
    requires
        0 <= x,
        0 <= d,
        0 <= m <= l,
        2 <= radix,
    ensures
        (x + d * pow(radix, l as nat)) % pow(radix, m as nat) == x % pow(radix, m as nat),
{
    let w = pow(radix, m as nat);
    let v = pow(radix, (l - m) as nat);
    lemma_pow_positive(radix, m as nat);
    lemma_pow_adds(radix, m as nat, (l - m) as nat);
    assert(x + d * (w * v) == w * (d * v) + x) by (nonlinear_arith);
    lemma_mod_multiples_vanish(d * v, x, w);
}

/// The weight of a code of `len` digits among all codes of 32 bits.
pub open spec fn weight(len: u32, bits: u32) -> int {
    if len == 0 || len * bits > 32 {
        0
    } else {
        pow2((32 - len * bits) as nat) as int
    }
}

pub open spec fn weights(lens: Seq<u32>, bits: u32, i: int) -> int
    decreases i,
{
    if i <= 0 {
        0
    } else {
        weights(lens, bits, i - 1) + weight(lens[i - 1], bits)
    }
}

/// No length is too long for a word, and together the lengths leave room for a
/// prefix code (Kraft's inequality).
pub open spec fn lens_ok(lens: Seq<u32>, bits: u32) -> bool {
    &&& forall|s: int| 0 <= s < lens.len() ==> #[trigger] lens[s] * bits <= 32
    &&& weights(lens, bits, lens.len() as int) <= pow2(32)
}

/// The weight of the codes assigned so far: those shorter than `l`, and those
/// of length `l` among the first `i` symbols.
spec fn assigned(lens: Seq<u32>, bits: u32, l: int, i: int, n: int) -> int
    decreases n,
{
    if n <= 0 {
        0
    } else {
        assigned(lens, bits, l, i, n - 1) + if lens[n - 1] < l || (lens[n - 1] == l && n - 1 < i) {
            weight(lens[n - 1], bits)
        } else {
            0
        }
    }
}

spec fn is_assigned(lens: Seq<u32>, l: int, i: int, s: int) -> bool {
    0 <= s < lens.len() && 0 < lens[s] && (lens[s] < l || (lens[s] == l && s < i))
}

proof fn lemma_assigned_bound(lens: Seq<u32>, bits: u32, l: int, i: int, n: int)
    requires
        0 <= n <= lens.len(),
    ensures
        0 <= assigned(lens, bits, l, i, n) <= weights(lens, bits, n),
        forall|s: int|
            0 <= s < n && !is_assigned(lens, l, i, s) ==> assigned(lens, bits, l, i, n) + weight(
                #[trigger] lens[s],
                bits,
            ) <= weights(lens, bits, n),
    decreases n,
{
    if n > 0 {
        lemma_assigned_bound(lens, bits, l, i, n - 1);
    }
}

proof fn lemma_assigned_step(lens: Seq<u32>, bits: u32, l: int, i: int, n: int)
    requires
        0 <= n <= lens.len(),
        0 <= i < lens.len(),
    ensures
        assigned(lens, bits, l, i + 1, n) == assigned(lens, bits, l, i, n) + if i < n && lens[i]
            == l {
            weight(lens[i], bits)
        } else {
            0
        },
    decreases n,
{
    if n > 0 {
        lemma_assigned_step(lens, bits, l, i, n - 1);
    }
}

proof fn lemma_assigned_next(lens: Seq<u32>, bits: u32, l: int, n: int)
    requires
        0 <= n <= lens.len(),
        0 <= l,
    ensures
        assigned(lens, bits, l + 1, 0, n) == assigned(lens, bits, l, lens.len() as int, n),
    decreases n,
{
    if n > 0 {
        lemma_assigned_next(lens, bits, l, n - 1);
    }
}

proof fn lemma_assigned_none(lens: Seq<u32>, bits: u32, i: int, n: int)
    requires
        0 <= n <= lens.len(),
    ensures
        assigned(lens, bits, 0, i, n) == 0,
    decreases n,
{
    if n > 0 {
        lemma_assigned_none(lens, bits, i, n - 1);
    }
}

/// What holds of the codes assigned so far, whose numbers are `keys`, and of
/// the numbers of length `l` that are still open.
spec fn crafted(
    codes: Seq<PrefixCode>,
    keys: Seq<int>,
    lens: Seq<u32>,
    bits: u32,
    l: int,
    i: int,
    open: Seq<u32>,
    taken: int,
) -> bool {
    let radix = radix_of(bits);
    &&& codes.len() == lens.len() && keys.len() == lens.len()
    &&& 0 <= taken <= open.len()
    &&& forall|s: int|
        #![trigger codes[s]]
        0 <= s < lens.len() && !is_assigned(lens, l, i, s) ==> codes[s] == (PrefixCode {
            content: 0,
            len: 0,
        })
    &&& forall|s: int|
        #![trigger keys[s]]
        is_assigned(lens, l, i, s) ==> {
            &&& 0 <= keys[s] < pow(radix, lens[s] as nat)
            &&& codes[s].len == lens[s] * bits
            &&& code_digits(codes[s], bits) == key_digits(keys[s], lens[s] as int, radix)
            &&& codes[s].content < pow2(codes[s].len as nat)
        }
    &&& forall|s: int, t: int|
        #![trigger keys[s], keys[t]]
        is_assigned(lens, l, i, s) && is_assigned(lens, l, i, t) && lens[s] < lens[t] ==> keys[t]
            % pow(radix, lens[s] as nat) < keys[s]
    &&& forall|s: int, t: int|
        #![trigger keys[s], keys[t]]
        is_assigned(lens, l, i, s) && is_assigned(lens, l, i, t) && s != t && lens[s] == lens[t]
            ==> keys[s] != keys[t]
    &&& forall|s: int, k: int|
        #![trigger keys[s], open[k]]
        is_assigned(lens, l, i, s) && taken <= k < open.len() ==> open[k] as int % pow(
            radix,
            lens[s] as nat,
        ) < keys[s]
    &&& forall|k: int| 0 <= k < open.len() ==> (#[trigger] open[k]) < pow(radix, l as nat)
    &&& forall|k: int, m: int| 0 <= k < m < open.len() ==> (#[trigger] open[m]) < (#[trigger] open[k])
}

/// The number `v` is still open.
spec fn is_open(open: Seq<u32>, taken: int, v: int) -> bool {
    exists|k: int| taken <= k < open.len() && #[trigger] open[k] == v
}

/// The number `v` begins with one that is assigned.
spec fn is_taken(keys: Seq<int>, lens: Seq<u32>, bits: u32, l: int, i: int, v: int) -> bool {
    exists|t: int| #[trigger]
        is_assigned(lens, l, i, t) && v % pow(radix_of(bits), lens[t] as nat) == keys[t]
}

/// Numbers of length `l` are open or taken, and each assigned number was the
/// largest open one.
spec fn greedy(
    keys: Seq<int>,
    lens: Seq<u32>,
    bits: u32,
    l: int,
    i: int,
    open: Seq<u32>,
    taken: int,
) -> bool {
    let radix = radix_of(bits);
    &&& forall|v: int|
        0 <= v < pow(radix, l as nat) ==> #[trigger] is_open(open, taken, v) || is_taken(
            keys,
            lens,
            bits,
            l,
            i,
            v,
        )
    &&& forall|s: int, v: int|
        is_assigned(lens, l, i, s) && keys[s] < v < pow(radix, lens[s] as nat)
            ==> #[trigger] is_taken(keys, lens, bits, lens[s] as int, s, v)
}

/// Writes the digits of the number `c` in reverse.
fn reverse_key(c: u32, len: u32, bits: u32) -> (content: u32)
    requires
        bits == 1 || bits == 2,
        len * bits <= 32,
        c < pow(radix_of(bits), len as nat),
    ensures
        code_of(content as u64, len as int, bits) == key_digits(
            c as int,
            len as int,
            radix_of(bits),
        ),
        content < pow2((len * bits) as nat),
{
    let ghost radix = radix_of(bits);
    let ghost ds = key_digits(c as int, len as int, radix);
    let base: u64 = if bits == 1 {
        2
    } else {
        4
    };
    let mut rest: u64 = c as u64;
    let mut content: u64 = 0;
    let mut t: u32 = 0;
    proof {
        lemma_pow0(radix);
        assert(ds.take(0) =~= Seq::<u8>::empty());
        assert(c as int / 1 == c);
        lemma2_to64();
        assert(0 * bits == 0);
    }
    while t < len
        invariant
            t <= len,
            bits == 1 || bits == 2,
            len * bits <= 32,
            radix == radix_of(bits),
            base == radix,
            ds == key_digits(c as int, len as int, radix),
            rest == c as int / pow(radix, t as nat),
            content == value(ds.take(t as int), radix),
            content < pow2((t * bits) as nat),
        decreases len - t,
    {
        let d: u64 = rest % base;
        proof {
            lemma_pow_positive(radix, t as nat);
            assert(ds[t as int] == d);
            assert(ds.take(t as int + 1).drop_last() =~= ds.take(t as int));
            assert(ds.take(t as int + 1).last() == ds[t as int]);
            lemma_pow_adds(radix, t as nat, 1);
            lemma_pow1(radix);
            vstd::arithmetic::div_mod::lemma_div_denominator(
                c as int,
                pow(radix, t as nat),
                radix,
            );
            assert((t + 1) * bits == t * bits + bits) by (nonlinear_arith);
            lemma_pow2_adds((t * bits) as nat, bits as nat);
            lemma2_to64();
            assert((t + 1) * bits <= len * bits) by (nonlinear_arith)
                requires
                    t + 1 <= len,
            ;
            if (t + 1) * bits < 32 {
                vstd::arithmetic::power2::lemma_pow2_strictly_increases(
                    ((t + 1) * bits) as nat,
                    32,
                );
            }
            assert(content * radix + d < pow2((t * bits) as nat) * radix) by (nonlinear_arith)
                requires
                    content < pow2((t * bits) as nat),
                    0 <= d < radix,
            ;
            assert(content * base == content * radix);
        }
        content = content * base + d;
        rest = rest / base;
        t = t + 1;
    }
    proof {
        assert(ds.take(len as int) =~= ds);
        assert(digits_below(ds, radix)) by {
            assert forall|p: int| 0 <= p < ds.len() implies (#[trigger] ds[p]) < radix by {
                lemma_mod_bound(c as int / pow(radix, p as nat), radix);
            }
        }
        lemma_digits_of_value(ds, radix);
        lemma2_to64();
        if len * bits < 32 {
            vstd::arithmetic::power2::lemma_pow2_strictly_increases((len * bits) as nat, 32);
        }
    }
    content as u32
}

/// `y` is open number `m` with digit `d` in front of it.
spec fn is_wider(open: Seq<u32>, taken: int, w: int, y: u32, m: int, d: int) -> bool {
    taken <= m < open.len() && 0 <= d && y == open[m] + d * w
}

spec fn widens(open: Seq<u32>, taken: int, w: int, y: u32) -> bool {
    exists|m: int, d: int| is_wider(open, taken, w, y, m, d)
}

/// Open number `m` with digit `d` in front of it is in `wide`.
spec fn is_widened(open: Seq<u32>, wide: Seq<u32>, w: int, m: int, d: int) -> bool {
    is_open(wide, 0, open[m] + d * w)
}

proof fn lemma_open_push(r: Seq<u32>, y: u32)
    ensures
        is_open(r.push(y), 0, y as int),
        forall|v: int| #[trigger] is_open(r, 0, v) ==> is_open(r.push(y), 0, v),
{
    assert(r.push(y)[r.len() as int] == y);
    assert forall|v: int| #[trigger] is_open(r, 0, v) implies is_open(r.push(y), 0, v) by {
        let k = choose|k: int| 0 <= k < r.len() && #[trigger] r[k] == v;
        assert(r.push(y)[k] == v);
    }
}

/// The numbers of one more digit that begin with the open ones, largest first.
fn widen(open: &Vec<u32>, taken: usize, l: u32, bits: u32) -> (r: Vec<u32>)
    requires
        bits == 1 || bits == 2,
        (l + 1) * bits <= 32,
        taken <= open.len(),
        forall|k: int| 0 <= k < open.len() ==> (#[trigger] open[k]) < pow(radix_of(bits), l as nat),
        forall|k: int, m: int|
            0 <= k < m < open.len() ==> (#[trigger] open[m]) < (#[trigger] open[k]),
    ensures
        r.len() == (open.len() - taken) * radix_of(bits),
        forall|k: int|
            0 <= k < r.len() ==> (#[trigger] r[k]) < pow(radix_of(bits), (l + 1) as nat),
        forall|k: int, m: int| 0 <= k < m < r.len() ==> (#[trigger] r[m]) < (#[trigger] r[k]),
        forall|k: int|
            0 <= k < r.len() ==> widens(
                open@,
                taken as int,
                pow(radix_of(bits), l as nat),
                #[trigger] r[k],
            ),
        forall|m: int, d: int|
            taken <= m < open.len() && 0 <= d < radix_of(bits) ==> #[trigger] is_widened(
                open@,
                r@,
                pow(radix_of(bits), l as nat),
                m,
                d,
            ),
{
    let ghost radix = radix_of(bits);
    let ghost w = pow(radix, l as nat);
    let unit: u64 = 1u64 << ((l * bits) as u64);
    proof {
        lemma_radix_pow(bits, l as nat);
        let sh = (l * bits) as u64;
        assert(l * bits < 32) by (nonlinear_arith)
            requires
                (l + 1) * bits <= 32,
                bits >= 1,
        ;
        lemma2_to64();
        vstd::arithmetic::power2::lemma_pow2_strictly_increases(sh as nat, 64);
        vstd::bits::lemma_u64_shl_is_mul(1, sh);
        assert(bits as nat * l as nat == sh as nat) by (nonlinear_arith)
            requires
                sh == l * bits,
        ;
        assert(unit == w);
        lemma_pow_adds(radix, l as nat, 1);
        lemma_pow1(radix);
        lemma_radix_pow(bits, (l + 1) as nat);
        let e = ((l + 1) * bits) as nat;
        assert(bits as nat * (l + 1) as nat == e) by (nonlinear_arith)
            requires
                e == (l + 1) * bits,
        ;
        if e < 32 {
            vstd::arithmetic::power2::lemma_pow2_strictly_increases(e, 32);
        }
        assert(w * radix <= 0x1_0000_0000);
        assert(pow(radix, (l + 1) as nat) == w * radix);
    }
    let rem: usize = open.len() - taken;
    let mut r: Vec<u32> = Vec::new();
    let mut left: u64 = if bits == 1 {
        2
    } else {
        4
    };
    assert(0 * rem == 0);
    while left > 0
        invariant
            0 <= left <= radix,
            radix == 2 || radix == 4,
            unit == w,
            w > 0,
            w * radix <= 0x1_0000_0000,
            taken <= open.len(),
            rem == open.len() - taken,
            forall|k: int| 0 <= k < open.len() ==> (#[trigger] open[k]) < w,
            forall|k: int, m: int|
                0 <= k < m < open.len() ==> (#[trigger] open[m]) < (#[trigger] open[k]),
            r.len() == (radix - left) * rem,
            forall|k: int| 0 <= k < r.len() ==> left * w <= (#[trigger] r[k]) < w * radix,
            forall|k: int, m: int| 0 <= k < m < r.len() ==> (#[trigger] r[m]) < (#[trigger] r[k]),
            forall|k: int| 0 <= k < r.len() ==> widens(open@, taken as int, w, #[trigger] r[k]),
            forall|m: int, e: int|
                taken <= m < open.len() && left <= e < radix ==> #[trigger] is_widened(
                    open@,
                    r@,
                    w,
                    m,
                    e,
                ),
        decreases left,
    {
        let d: u64 = left - 1;
        let ghost before = r@;
        assert(d * w <= left * w) by (nonlinear_arith)
            requires
                left == d + 1,
                w > 0,
        ;
        let mut k: usize = taken;
        while k < open.len()
            invariant
                0 <= d < radix,
                left == d + 1,
                radix == 2 || radix == 4,
                unit == w,
                w > 0,
                w * radix <= 0x1_0000_0000,
                taken <= k <= open.len(),
                forall|q: int| 0 <= q < open.len() ==> (#[trigger] open[q]) < w,
                forall|q: int, m: int|
                    0 <= q < m < open.len() ==> (#[trigger] open[m]) < (#[trigger] open[q]),
                r.len() == before.len() + (k - taken),
                forall|q: int| 0 <= q < before.len() ==> left * w <= (#[trigger] r[q]) < w * radix,
                forall|q: int| 0 <= q < r.len() ==> d * w <= (#[trigger] r[q]) < w * radix,
                forall|q: int|
                    before.len() <= q < r.len() ==> #[trigger] r[q] == open[q - before.len() + taken]
                        + d * w,
                forall|q: int, m: int|
                    0 <= q < m < r.len() ==> (#[trigger] r[m]) < (#[trigger] r[q]),
                forall|q: int| 0 <= q < r.len() ==> widens(open@, taken as int, w, #[trigger] r[q]),
                forall|m: int, e: int|
                    taken <= m < open.len() && (left <= e < radix || (e == d && m < k))
                        ==> #[trigger] is_widened(open@, r@, w, m, e),
            decreases open.len() - k,
        {
            let x: u64 = open[k] as u64;
            proof {
                assert(0 <= x + d * w < w * radix) by (nonlinear_arith)
                    requires
                        0 <= x < w,
                        0 <= d <= radix - 1,
                ;
                assert(d * unit <= x + d * w);
                assert(d * w >= 0) by (nonlinear_arith)
                    requires
                        d >= 0,
                        w > 0,
                ;
                assert(x + d * w < left * w) by (nonlinear_arith)
                    requires
                        left == d + 1,
                        x < w,
                ;
            }
            let y: u64 = x + d * unit;
            let ghost old_r = r@;
            r.push(y as u32);
            proof {
                lemma_open_push(old_r, y as u32);
                assert(is_widened(open@, r@, w, k as int, d as int));
                assert forall|m: int, e: int|
                    taken <= m < open.len() && (left <= e < radix || (e == d && m
                        < k + 1)) implies #[trigger] is_widened(open@, r@, w, m, e) by {
                    if !(e == d && m == k) {
                        assert(is_widened(open@, old_r, w, m, e));
                    }
                }
            }
            assert forall|q: int, m: int| 0 <= q < m < r.len() implies (#[trigger] r[m])
                < (#[trigger] r[q]) by {
                if m == old_r.len() {
                    if q < before.len() {
                        assert(r[q] >= left * w);
                    } else {
                        assert(r[q] == open[q - before.len() + taken] + d * w);
                    }
                }
            }
            assert forall|q: int| 0 <= q < r.len() implies widens(
                open@,
                taken as int,
                w,
                #[trigger] r[q],
            ) by {
                if q < old_r.len() {
                    assert(r[q] == old_r[q]);
                } else {
                    assert(is_wider(open@, taken as int, w, r[q], k as int, d as int));
                }
            }
            k = k + 1;
        }
        proof {
            assert((radix - d) * rem == (radix - left) * rem + rem) by (nonlinear_arith)
                requires
                    left == d + 1,
            ;
        }
        left = d;
    }
    proof {
        assert(radix * rem == rem * radix) by (nonlinear_arith);
    }
    r
}

proof fn lemma_widened(
    codes: Seq<PrefixCode>,
    keys: Seq<int>,
    lens: Seq<u32>,
    bits: u32,
    l: int,
    open: Seq<u32>,
    taken: int,
    wide: Seq<u32>,
)
    requires
        bits == 1 || bits == 2,
        0 <= l,
        crafted(codes, keys, lens, bits, l, lens.len() as int, open, taken),
        forall|k: int|
            0 <= k < wide.len() ==> (#[trigger] wide[k]) < pow(radix_of(bits), (l + 1) as nat),
        forall|k: int, m: int|
            0 <= k < m < wide.len() ==> (#[trigger] wide[m]) < (#[trigger] wide[k]),
        forall|k: int|
            0 <= k < wide.len() ==> widens(
                open,
                taken,
                pow(radix_of(bits), l as nat),
                #[trigger] wide[k],
            ),
    ensures
        crafted(codes, keys, lens, bits, l + 1, 0, wide, 0),
{
    let radix = radix_of(bits);
    assert forall|s: int| is_assigned(lens, l + 1, 0, s) == #[trigger] is_assigned(
        lens,
        l,
        lens.len() as int,
        s,
    ) by {}
    assert forall|s: int, k: int|
        #![trigger keys[s], wide[k]]
        is_assigned(lens, l + 1, 0, s) && 0 <= k < wide.len() implies wide[k] as int % pow(
        radix,
        lens[s] as nat,
    ) < keys[s] by {
        assert(is_assigned(lens, l, lens.len() as int, s));
        let w = pow(radix, l as nat);
        let y = wide[k];
        assert(widens(open, taken, w, y));
        let (m, d) = choose|m: int, d: int| is_wider(open, taken, w, y, m, d);
        lemma_key_push(open[m] as int, d, l, lens[s] as int, radix);
        assert(open[m] as int % pow(radix, lens[s] as nat) < keys[s]);
    }
}

proof fn lemma_greedy_widened(
    keys: Seq<int>,
    lens: Seq<u32>,
    bits: u32,
    l: int,
    open: Seq<u32>,
    taken: int,
    wide: Seq<u32>,
)
    requires
        bits == 1 || bits == 2,
        0 <= l,
        0 <= taken,
        greedy(keys, lens, bits, l, lens.len() as int, open, taken),
        forall|m: int, d: int|
            taken <= m < open.len() && 0 <= d < radix_of(bits) ==> #[trigger] is_widened(
                open,
                wide,
                pow(radix_of(bits), l as nat),
                m,
                d,
            ),
    ensures
        greedy(keys, lens, bits, l + 1, 0, wide, 0),
{
    let radix = radix_of(bits);
    let w = pow(radix, l as nat);
    let n = lens.len() as int;
    lemma_pow_positive(radix, l as nat);
    lemma_pow_adds(radix, l as nat, 1);
    lemma_pow1(radix);
    assert forall|s: int| is_assigned(lens, l + 1, 0, s) == #[trigger] is_assigned(
        lens,
        l,
        n,
        s,
    ) by {}
    assert forall|v: int| 0 <= v < pow(radix, (l + 1) as nat) implies #[trigger] is_open(wide, 0, v)
        || is_taken(keys, lens, bits, l + 1, 0, v) by {
        let low = v % w;
        let d = v / w;
        lemma_fundamental_div_mod(v, w);
        lemma_mod_bound(v, w);
        assert(0 <= d < radix) by (nonlinear_arith)
            requires
                v == w * d + low,
                0 <= low < w,
                0 <= v < w * radix,
        ;
        assert(w * d == d * w) by (nonlinear_arith);
        if is_open(open, taken, low) {
            let m = choose|m: int| taken <= m < open.len() && #[trigger] open[m] == low;
            assert(is_widened(open, wide, w, m, d));
        } else {
            assert(is_taken(keys, lens, bits, l, n, low));
            let t = choose|t: int| #[trigger]
                is_assigned(lens, l, n, t) && low % pow(radix, lens[t] as nat) == keys[t];
            lemma_key_push(low, d, l, lens[t] as int, radix);
            assert(is_assigned(lens, l + 1, 0, t));
        }
    }
    assert forall|s: int, v: int|
        is_assigned(lens, l + 1, 0, s) && keys[s] < v < pow(
            radix,
            lens[s] as nat,
        ) implies #[trigger] is_taken(keys, lens, bits, lens[s] as int, s, v) by {
        assert(is_assigned(lens, l, n, s));
    }
}

proof fn lemma_greedy_skip(
    keys: Seq<int>,
    lens: Seq<u32>,
    bits: u32,
    l: int,
    i: int,
    open: Seq<u32>,
    taken: int,
)
    requires
        greedy(keys, lens, bits, l, i, open, taken),
        0 <= i < lens.len(),
        lens[i] != l,
    ensures
        greedy(keys, lens, bits, l, i + 1, open, taken),
{
    let radix = radix_of(bits);
    assert forall|v: int| 0 <= v < pow(radix, l as nat) implies #[trigger] is_open(open, taken, v)
        || is_taken(keys, lens, bits, l, i + 1, v) by {
        if !is_open(open, taken, v) {
            assert(is_taken(keys, lens, bits, l, i, v));
            let t = choose|t: int| #[trigger]
                is_assigned(lens, l, i, t) && v % pow(radix, lens[t] as nat) == keys[t];
            assert(is_assigned(lens, l, i + 1, t));
        }
    }
    assert forall|s: int, v: int|
        is_assigned(lens, l, i + 1, s) && keys[s] < v < pow(
            radix,
            lens[s] as nat,
        ) implies #[trigger] is_taken(keys, lens, bits, lens[s] as int, s, v) by {
        assert(is_assigned(lens, l, i, s));
    }
}

/// What was taken is not lost when `i` gets its number.
proof fn lemma_still_taken(
    keys: Seq<int>,
    lens: Seq<u32>,
    bits: u32,
    l: int,
    i: int,
    key: int,
    l2: int,
    i2: int,
    v: int,
)
    requires
        is_taken(keys, lens, bits, l, i, v),
        0 <= i < lens.len() == keys.len(),
        lens[i] == l,
        l < l2 || (l == l2 && i <= i2),
    ensures
        is_taken(keys.update(i, key), lens, bits, l2, i2, v),
{
    let t = choose|t: int| #[trigger]
        is_assigned(lens, l, i, t) && v % pow(radix_of(bits), lens[t] as nat) == keys[t];
    assert(is_assigned(lens, l2, i2, t));
    assert(keys.update(i, key)[t] == keys[t]);
}

proof fn lemma_greedy_assign(
    keys: Seq<int>,
    lens: Seq<u32>,
    bits: u32,
    l: int,
    i: int,
    open: Seq<u32>,
    taken: int,
)
    requires
        bits == 1 || bits == 2,
        greedy(keys, lens, bits, l, i, open, taken),
        0 <= i < lens.len() == keys.len(),
        lens[i] == l,
        l > 0,
        0 <= taken < open.len(),
        forall|k: int| 0 <= k < open.len() ==> (#[trigger] open[k]) < pow(
            radix_of(bits),
            l as nat,
        ),
        forall|k: int, m: int|
            0 <= k < m < open.len() ==> (#[trigger] open[m]) < (#[trigger] open[k]),
    ensures
        greedy(keys.update(i, open[taken] as int), lens, bits, l, i + 1, open, taken + 1),
{
    let radix = radix_of(bits);
    let key = open[taken] as int;
    let keys2 = keys.update(i, key);
    let w = pow(radix, l as nat);
    assert forall|v: int| 0 <= v < w implies #[trigger] is_open(open, taken + 1, v) || is_taken(
        keys2,
        lens,
        bits,
        l,
        i + 1,
        v,
    ) by {
        if is_open(open, taken, v) {
            let k = choose|k: int| taken <= k < open.len() && #[trigger] open[k] == v;
            if k == taken {
                lemma_small_mod(v as nat, w as nat);
                assert(is_assigned(lens, l, i + 1, i));
                assert(keys2[i] == key);
            } else {
                assert(open[k] == v);
            }
        } else {
            assert(is_taken(keys, lens, bits, l, i, v));
            lemma_still_taken(keys, lens, bits, l, i, key, l, i + 1, v);
        }
    }
    assert forall|s: int, v: int|
        is_assigned(lens, l, i + 1, s) && keys2[s] < v < pow(
            radix,
            lens[s] as nat,
        ) implies #[trigger] is_taken(keys2, lens, bits, lens[s] as int, s, v) by {
        if s == i {
            if is_open(open, taken, v) {
                let k = choose|k: int| taken <= k < open.len() && #[trigger] open[k] == v;
                if taken < k {
                    assert(open[k] < open[taken]);
                }
            }
            assert(is_taken(keys, lens, bits, l, i, v));
            lemma_still_taken(keys, lens, bits, l, i, key, l, i, v);
        } else {
            assert(is_assigned(lens, l, i, s));
            assert(keys2[s] == keys[s]);
            assert(is_taken(keys, lens, bits, lens[s] as int, s, v));
            let t = choose|t: int| #[trigger]
                is_assigned(lens, lens[s] as int, s, t) && v % pow(radix, lens[t] as nat) == keys[t];
            assert(t != i);
            assert(keys2[t] == keys[t]);
        }
    }
}

proof fn lemma_assign(
    codes: Seq<PrefixCode>,
    keys: Seq<int>,
    lens: Seq<u32>,
    bits: u32,
    l: int,
    i: int,
    open: Seq<u32>,
    taken: int,
    code: PrefixCode,
)
    requires
        bits == 1 || bits == 2,
        crafted(codes, keys, lens, bits, l, i, open, taken),
        0 <= i < lens.len(),
        lens[i] == l,
        l > 0,
        taken < open.len(),
        code.len == l * bits,
        code_digits(code, bits) == key_digits(open[taken] as int, l, radix_of(bits)),
        code.content < pow2(code.len as nat),
    ensures
        crafted(
            codes.update(i, code),
            keys.update(i, open[taken] as int),
            lens,
            bits,
            l,
            i + 1,
            open,
            taken + 1,
        ),
{
    let radix = radix_of(bits);
    let key = open[taken] as int;
    let codes2 = codes.update(i, code);
    let keys2 = keys.update(i, key);
    let w = pow(radix, l as nat);
    lemma_small_mod(key as nat, w as nat);
    assert forall|s: int|
        #![trigger is_assigned(lens, l, i + 1, s)]
        is_assigned(lens, l, i + 1, s) implies s == i || is_assigned(lens, l, i, s) by {}
    assert forall|s: int|
        #![trigger codes2[s]]
        0 <= s < lens.len() && !is_assigned(lens, l, i + 1, s) implies codes2[s] == (PrefixCode {
        content: 0,
        len: 0,
    }) by {
        assert(codes2[s] == codes[s]);
    }
    assert forall|s: int, k: int|
        #![trigger keys2[s], open[k]]
        is_assigned(lens, l, i + 1, s) && taken + 1 <= k < open.len() implies open[k] as int % pow(
        radix,
        lens[s] as nat,
    ) < keys2[s] by {
        if s == i {
            lemma_small_mod(open[k] as nat, w as nat);
            assert(open[k] < open[taken]);
        } else {
            assert(keys2[s] == keys[s]);
        }
    }
    assert forall|s: int, t: int|
        #![trigger keys2[s], keys2[t]]
        is_assigned(lens, l, i + 1, s) && is_assigned(lens, l, i + 1, t) && lens[s]
            < lens[t] implies keys2[t] % pow(radix, lens[s] as nat) < keys2[s] by {
        if t == i {
            assert(keys2[s] == keys[s]);
            assert(open[taken] as int % pow(radix, lens[s] as nat) < keys[s]);
        } else {
            assert(keys2[s] == keys[s] && keys2[t] == keys[t]);
        }
    }
    assert forall|s: int, t: int|
        #![trigger keys2[s], keys2[t]]
        is_assigned(lens, l, i + 1, s) && is_assigned(lens, l, i + 1, t) && s != t && lens[s]
            == lens[t] implies keys2[s] != keys2[t] by {
        if t == i {
            assert(keys2[s] == keys[s]);
            assert(open[taken] as int % pow(radix, lens[s] as nat) < keys[s]);
        } else if s == i {
            assert(keys2[t] == keys[t]);
            assert(open[taken] as int % pow(radix, lens[t] as nat) < keys[t]);
        } else {
            assert(keys2[s] == keys[s] && keys2[t] == keys[t]);
        }
    }
    assert forall|s: int|
        #![trigger keys2[s]]
        is_assigned(lens, l, i + 1, s) implies {
        &&& 0 <= keys2[s] < pow(radix, lens[s] as nat)
        &&& codes2[s].len == lens[s] * bits
        &&& code_digits(codes2[s], bits) == key_digits(keys2[s], lens[s] as int, radix)
        &&& codes2[s].content < pow2(codes2[s].len as nat)
    } by {
        if s != i {
            assert(keys2[s] == keys[s] && codes2[s] == codes[s]);
        }
    }
}

proof fn lemma_crafted_table(
    codes: Seq<PrefixCode>,
    keys: Seq<int>,
    lens: Seq<u32>,
    bits: u32,
    l: int,
    open: Seq<u32>,
    taken: int,
)
    requires
        bits == 1 || bits == 2,
        crafted(codes, keys, lens, bits, l, lens.len() as int, open, taken),
        forall|s: int| 0 <= s < lens.len() ==> (#[trigger] lens[s]) <= l && lens[s] * bits <= 32,
        0 <= l,
    ensures
        table_ok(codes, l, bits),
        forall|s: int| 0 <= s < lens.len() ==> (#[trigger] codes[s]).len == lens[s] * bits,
{
    let radix = radix_of(bits);
    let n = lens.len() as int;
    assert forall|s: int| 0 <= s < n implies (#[trigger] codes[s]).len == lens[s] * bits && (lens[s]
        > 0 ==> is_assigned(lens, l, n, s)) && (codes[s].len > 0 <==> lens[s] > 0) by {
        assert(lens[s] <= l);
        if lens[s] > 0 {
            assert(is_assigned(lens, l, n, s));
            assert(0 <= keys[s]);
            assert(lens[s] * bits > 0) by (nonlinear_arith)
                requires
                    lens[s] > 0,
                    bits >= 1,
            ;
        } else {
            assert(!is_assigned(lens, l, n, s));
            assert(0 * bits == 0);
        }
    }
    assert forall|s: int|
        #![trigger codes[s]]
        coded(codes, s) implies {
        &&& codes[s].len as int % bits as int == 0
        &&& codes[s].len as int / bits as int == lens[s]
        &&& codes[s].len <= 32
        &&& codes[s].content < pow2(codes[s].len as nat)
        &&& is_assigned(lens, l, n, s)
        &&& code_digits(codes[s], bits) == key_digits(keys[s], lens[s] as int, radix)
        &&& 0 <= keys[s] < pow(radix, lens[s] as nat)
    } by {
        assert(lens[s] <= l);
        assert(0 <= keys[s]);
        let x = codes[s].len as int;
        let y = lens[s] as int;
        assert(x % bits as int == 0 && x / bits as int == y) by (nonlinear_arith)
            requires
                x == y * bits,
                bits == 1 || bits == 2,
        ;
    }
    assert forall|s: int, t: int|
        #![trigger codes[s], codes[t]]
        coded(codes, s) && coded(codes, t) && codes[s].len < codes[t].len implies rev_lt(
        code_digits(codes[t], bits),
        code_digits(codes[s], bits),
        codes[s].len as int / bits as int,
    ) by {
        let x = lens[s] as int;
        let y = lens[t] as int;
        assert(x < y) by (nonlinear_arith)
            requires
                x * bits < y * bits,
                bits >= 1,
        ;
        assert(keys[t] % pow(radix, lens[s] as nat) < keys[s]);
        lemma_key_order(keys[t], keys[s], y, x, x, radix);
        lemma_small_mod(keys[s] as nat, pow(radix, x as nat) as nat);
    }
    assert forall|s: int, t: int|
        #![trigger codes[s], codes[t]]
        coded(codes, s) && coded(codes, t) && s != t && codes[s].len == codes[t].len implies codes[s]
        != codes[t] by {
        let x = lens[s] as int;
        let y = lens[t] as int;
        assert(x == y) by (nonlinear_arith)
            requires
                x * bits == y * bits,
                bits >= 1,
        ;
        assert(keys[s] != keys[t]);
        if codes[s] == codes[t] {
            let w = pow(radix, x as nat);
            lemma_small_mod(keys[s] as nat, w as nat);
            lemma_small_mod(keys[t] as nat, w as nat);
            lemma_key_order(keys[s], keys[t], x, x, x, radix);
            lemma_key_order(keys[t], keys[s], x, x, x, radix);
            crate::matrix::lemma_rev_lt_same(
                key_digits(keys[s], x, radix),
                key_digits(keys[t], x, radix),
                x,
            );
            crate::matrix::lemma_rev_lt_same(
                key_digits(keys[t], x, radix),
                key_digits(keys[s], x, radix),
                x,
            );
        }
    }
}

/// Numbers that agree on their first digits agree on the last of these.
proof fn lemma_same_digit(x: int, y: int, t: int, radix: int)
    requires
        0 <= t,
        2 <= radix,
        x % pow(radix, t as nat) == y % pow(radix, t as nat),
        x % pow(radix, (t + 1) as nat) == y % pow(radix, (t + 1) as nat),
        0 <= x,
        0 <= y,
    ensures
        (x / pow(radix, t as nat)) % radix == (y / pow(radix, t as nat)) % radix,
{
    let w = pow(radix, t as nat);
    lemma_pow_positive(radix, t as nat);
    lemma_pow_adds(radix, t as nat, 1);
    lemma_pow1(radix);
    lemma_mod_breakdown(x, w, radix);
    lemma_mod_breakdown(y, w, radix);
    let a = (x / w) % radix;
    let b = (y / w) % radix;
    assert(a == b) by (nonlinear_arith)
        requires
            w * a == w * b,
            w > 0,
    ;
}

/// The number with the digits `c`.
proof fn lemma_key_of(c: Seq<u8>, radix: int) -> (v: int)
    requires
        digits_below(c, radix),
        2 <= radix <= 255,
    ensures
        0 <= v < pow(radix, c.len()),
        key_digits(v, c.len() as int, radix) == c,
    decreases c.len(),
{
    if c.len() == 0 {
        lemma_pow0(radix);
        assert(key_digits(0, 0, radix) =~= c);
        0
    } else {
        let l = c.len() - 1;
        let w = pow(radix, l as nat);
        let d = c.last() as int;
        let low = lemma_key_of(c.drop_last(), radix);
        let v = low + d * w;
        lemma_pow_positive(radix, l as nat);
        lemma_pow_adds(radix, l as nat, 1);
        lemma_pow1(radix);
        assert(0 <= v < w * radix) by (nonlinear_arith)
            requires
                v == low + d * w,
                0 <= low < w,
                0 <= d <= radix - 1,
        ;
        lemma_fundamental_div_mod_converse(v, w, d, low);
        lemma_small_mod(d as nat, radix as nat);
        let ds = key_digits(v, c.len() as int, radix);
        assert forall|t: int| 0 <= t < c.len() implies ds[t] == #[trigger] c[t] by {
            if t < l {
                lemma_key_push(low, d, l, t, radix);
                lemma_key_push(low, d, l, t + 1, radix);
                lemma_same_digit(v, low, t, radix);
                assert(key_digits(low, l, radix)[t] == c.drop_last()[t]);
            }
        }
        assert(ds =~= c);
        v
    }
}

/// The first digits of a number.
proof fn lemma_key_prefix(v: int, x: int, y: int, radix: int)
    requires
        0 <= v,
        0 <= x <= y,
        2 <= radix,
    ensures
        key_digits(v % pow(radix, x as nat), x, radix).is_prefix_of(key_digits(v, y, radix)),
{
    let w = pow(radix, x as nat);
    let low = v % w;
    lemma_pow_positive(radix, x as nat);
    lemma_mod_bound(v, w);
    let a = key_digits(low, x, radix);
    let b = key_digits(v, y, radix);
    assert forall|t: int| 0 <= t < x implies #[trigger] a[t] == b[t] by {
        lemma_fundamental_div_mod(v, w);
        let q = v / w;
        assert(q >= 0) by (nonlinear_arith)
            requires
                v == w * q + low,
                0 <= low < w,
                v >= 0,
        ;
        assert(low + q * w == v) by (nonlinear_arith)
            requires
                v == w * q + low,
        ;
        lemma_key_push(low, q, x, t, radix);
        lemma_key_push(low, q, x, t + 1, radix);
        lemma_same_digit(v, low, t, radix);
    }
    assert(a =~= b.subrange(0, x));
}

proof fn lemma_codes_greedy(
    codes: Seq<PrefixCode>,
    keys: Seq<int>,
    lens: Seq<u32>,
    bits: u32,
    l: int,
    open: Seq<u32>,
    taken: int,
)
    requires
        bits == 1 || bits == 2,
        crafted(codes, keys, lens, bits, l, lens.len() as int, open, taken),
        greedy(keys, lens, bits, l, lens.len() as int, open, taken),
        forall|s: int| 0 <= s < lens.len() ==> (#[trigger] lens[s]) <= l,
        forall|s: int| 0 <= s < lens.len() ==> (#[trigger] codes[s]).len == lens[s] * bits,
    ensures
        codes_greedy(codes, bits),
{
    let radix = radix_of(bits);
    let n = lens.len() as int;
    assert forall|s: int, c: Seq<u8>|
        coded(codes, s) && #[trigger] is_larger(c, code_digits(codes[s], bits), radix) implies exists|
        t: int,
    | #[trigger]
        is_earlier(codes, t, s) && code_digits(codes[t], bits).is_prefix_of(c) by {
        let x = lens[s] as int;
        let w = pow(radix, x as nat);
        assert(codes[s].len == x * bits);
        assert(x > 0) by (nonlinear_arith)
            requires
                x * bits > 0,
                x >= 0,
        ;
        assert(lens[s] <= l);
        assert(is_assigned(lens, l, n, s));
        assert(0 <= keys[s] < w);
        let v = lemma_key_of(c, radix);
        lemma_key_order(keys[s], v, x, x, x, radix);
        lemma_small_mod(keys[s] as nat, w as nat);
        lemma_small_mod(v as nat, w as nat);
        assert(is_taken(keys, lens, bits, x, s, v));
        let t = choose|t: int| #[trigger]
            is_assigned(lens, x, s, t) && v % pow(radix, lens[t] as nat) == keys[t];
        let y = lens[t] as int;
        assert(lens[t] <= l);
        assert(is_assigned(lens, l, n, t));
        assert(0 <= keys[t]);
        assert(codes[t].len == y * bits);
        assert(y * bits > 0 && (y < x ==> y * bits < x * bits)) by (nonlinear_arith)
            requires
                y > 0,
                bits >= 1,
        ;
        assert(is_earlier(codes, t, s));
        lemma_key_prefix(v, y, x, radix);
    }
    assert forall|s: int| 0 <= s < codes.len() && codes[s].len == 0 implies (
    #[trigger] codes[s]).content == 0 by {
        let x = lens[s] as int;
        assert(x == 0) by (nonlinear_arith)
            requires
                x * bits == 0,
                bits >= 1,
        ;
        assert(!is_assigned(lens, l, n, s));
    }
}

/// The lengths of the codes settle which codes are handed out.
pub proof fn lemma_codes_unique(a: Seq<PrefixCode>, b: Seq<PrefixCode>, n_levels: int, bits: u32)
    requires
        table_ok(a, n_levels, bits),
        table_ok(b, n_levels, bits),
        codes_greedy(a, bits),
        codes_greedy(b, bits),
        a.len() == b.len(),
        forall|s: int| 0 <= s < a.len() ==> (#[trigger] a[s]).len == b[s].len,
    ensures
        a == b,
{
    assert forall|s: int| 0 <= s < a.len() implies #[trigger] a[s] == b[s] by {
        if a[s].len > 0 {
            lemma_code_unique(a, b, n_levels, bits, s);
        } else {
            assert(a[s].content == 0 && b[s].content == 0);
        }
    }
    assert(a =~= b);
}

proof fn lemma_code_unique(
    a: Seq<PrefixCode>,
    b: Seq<PrefixCode>,
    n_levels: int,
    bits: u32,
    s: int,
)
    requires
        table_ok(a, n_levels, bits),
        table_ok(b, n_levels, bits),
        codes_greedy(a, bits),
        codes_greedy(b, bits),
        a.len() == b.len(),
        forall|s: int| 0 <= s < a.len() ==> (#[trigger] a[s]).len == b[s].len,
        coded(a, s),
    ensures
        a[s] == b[s],
    decreases a[s].len, s,
{
    let radix = radix_of(bits);
    let ca = code_digits(a[s], bits);
    let cb = code_digits(b[s], bits);
    assert(coded(b, s));
    lemma_code_digits(a, n_levels, bits, s);
    lemma_code_digits(b, n_levels, bits, s);
    if ca == cb {
        assert(a[s].content == b[s].content);
    } else {
        assert(exists|i: int| 0 <= i < ca.len() && ca[i] != cb[i]) by {
            if forall|i: int| 0 <= i < ca.len() ==> ca[i] == cb[i] {
                assert(ca =~= cb);
            }
        }
        crate::matrix::lemma_rev_lt_total(ca, cb, ca.len() as int);
        if rev_lt(ca, cb, ca.len() as int) {
            assert(is_larger(cb, ca, radix));
            let t = choose|t: int| #[trigger]
                is_earlier(a, t, s) && code_digits(a[t], bits).is_prefix_of(cb);
            lemma_code_unique(a, b, n_levels, bits, t);
            assert(is_earlier(b, t, s));
            lemma_no_prefix(b, n_levels, bits, t, s);
        } else {
            assert(is_larger(ca, cb, radix));
            let t = choose|t: int| #[trigger]
                is_earlier(b, t, s) && code_digits(b[t], bits).is_prefix_of(ca);
            assert(is_earlier(a, t, s));
            lemma_code_unique(a, b, n_levels, bits, t);
            lemma_no_prefix(a, n_levels, bits, t, s);
        }
    }
}

/// No code goes on where an earlier one ends.
proof fn lemma_no_prefix(codes: Seq<PrefixCode>, n_levels: int, bits: u32, t: int, s: int)
    requires
        table_ok(codes, n_levels, bits),
        coded(codes, s),
        is_earlier(codes, t, s),
    ensures
        !code_digits(codes[t], bits).is_prefix_of(code_digits(codes[s], bits)),
{
    let ct = code_digits(codes[t], bits);
    let cs = code_digits(codes[s], bits);
    lemma_code_digits(codes, n_levels, bits, s);
    lemma_code_digits(codes, n_levels, bits, t);
    if ct.is_prefix_of(cs) {
        if codes[t].len < codes[s].len {
            let x = ct.len() as int;
            assert(rev_lt(cs, ct, x));
            crate::matrix::lemma_rev_lt_same(cs, ct, x);
        } else {
            assert(ct =~= cs);
            lemma_code_injective(codes, n_levels, bits, t, s);
        }
    }
}

/// Assigns codes to symbols so that a wavelet matrix can hold them. `lens`
/// tells how many digits the code of each symbol has, zero for no code.
///
/// Numbers are handed out from the largest, so that among codes of any one
/// length those that go on are smaller than those that end.
pub fn craft_wm_codes(lens: &Vec<u32>, bits: u32) -> (r: Option<Vec<PrefixCode>>)
    requires
        bits == 1 || bits == 2,
    ensures
        r is Some <==> lens_ok(lens@, bits),
        r matches Some(codes) ==> {
            &&& codes.len() == lens.len()
            &&& forall|s: int| 0 <= s < lens.len() ==> (#[trigger] codes[s]).len == lens[s] * bits
            &&& forall|n_levels: int|
                (forall|s: int| 0 <= s < lens.len() ==> (#[trigger] lens[s]) <= n_levels)
                    ==> table_ok(codes@, n_levels, bits)
            &&& codes_greedy(codes@, bits)
        },
{
    let n: usize = lens.len();
    let ghost total = weights(lens@, bits, n as int);
    let mut max_len: u32 = 0;
    let mut i: usize = 0;
    while i < n
        invariant
            i <= n,
            n == lens.len(),
            bits == 1 || bits == 2,
            max_len * bits <= 32,
            forall|s: int| 0 <= s < i ==> (#[trigger] lens[s]) <= max_len,
            max_len > 0 ==> exists|s: int| 0 <= s < i && (#[trigger] lens[s]) == max_len,
        decreases n - i,
    {
        let len: u32 = lens[i];
        if len > 32 / bits {
            assert(lens[i as int] * bits > 32) by (nonlinear_arith)
                requires
                    lens[i as int] > 32u32 / bits,
                    bits == 1 || bits == 2,
            ;
            return None;
        }
        assert(len * bits <= 32) by (nonlinear_arith)
            requires
                len <= 32u32 / bits,
                bits == 1 || bits == 2,
        ;
        if len > max_len {
            max_len = len;
        }
        i = i + 1;
    }
    assert forall|s: int| 0 <= s < lens.len() implies #[trigger] lens[s] * bits <= 32 by {
        assert(lens[s] <= max_len);
        assert(lens[s] * bits <= max_len * bits) by (nonlinear_arith)
            requires
                lens[s] <= max_len,
        ;
    }
    let zero: PrefixCode = PrefixCode { content: 0, len: 0 };
    let mut codes: Vec<PrefixCode> = vec![zero; n];
    let ghost mut keys: Seq<int> = Seq::new(n as nat, |s: int| 0int);
    let mut open: Vec<u32> = Vec::new();
    open.push(0);
    let mut taken: usize = 0;
    let mut l: u32 = 0;
    proof {
        lemma_pow0(radix_of(bits));
        lemma_assigned_none(lens@, bits, n as int, n as int);
        assert(open.len() - taken == 1);
        assert forall|v: int| 0 <= v < pow(radix_of(bits), 0) implies #[trigger] is_open(
            open@,
            0,
            v,
        ) by {
            assert(open@[0] == v);
        }
        assert(1 * pow2(32) == pow2(32));
    }
    while l < max_len
        invariant
            l <= max_len,
            n == lens.len(),
            bits == 1 || bits == 2,
            max_len * bits <= 32,
            total == weights(lens@, bits, n as int),
            forall|s: int| 0 <= s < n ==> #[trigger] lens[s] * bits <= 32,
            forall|s: int| 0 <= s < n ==> (#[trigger] lens[s]) <= max_len,
            crafted(codes@, keys, lens@, bits, l as int, n as int, open@, taken as int),
            greedy(keys, lens@, bits, l as int, n as int, open@, taken as int),
            (open.len() - taken) * pow2((32 - l * bits) as nat) + assigned(
                lens@,
                bits,
                l as int,
                n as int,
                n as int,
            ) == pow2(32),
        decreases max_len - l,
    {
        proof {
            assert((l + 1) * bits <= max_len * bits) by (nonlinear_arith)
                requires
                    l + 1 <= max_len,
            ;
        }
        let wide: Vec<u32> = widen(&open, taken, l, bits);
        proof {
            lemma_widened(codes@, keys, lens@, bits, l as int, open@, taken as int, wide@);
            lemma_greedy_widened(keys, lens@, bits, l as int, open@, taken as int, wide@);
            lemma_assigned_next(lens@, bits, l as int, n as int);
            let rem = open.len() - taken;
            let e = (32 - (l + 1) * bits) as nat;
            assert((l + 1) * bits == l * bits + bits) by (nonlinear_arith);
            lemma_pow2_adds(e, bits as nat);
            lemma2_to64();
            assert((rem * radix_of(bits)) * pow2(e) == rem * (pow2(e) * radix_of(bits)))
                by (nonlinear_arith);
            assert(pow2(bits as nat) == radix_of(bits));
        }
        open = wide;
        taken = 0;
        l = l + 1;
        let mut s: usize = 0;
        while s < n
            invariant
                s <= n,
                0 < l <= max_len,
                n == lens.len(),
                bits == 1 || bits == 2,
                l * bits <= 32,
                max_len * bits <= 32,
                total == weights(lens@, bits, n as int),
                forall|t: int| 0 <= t < n ==> #[trigger] lens[t] * bits <= 32,
                crafted(codes@, keys, lens@, bits, l as int, s as int, open@, taken as int),
                greedy(keys, lens@, bits, l as int, s as int, open@, taken as int),
                (open.len() - taken) * pow2((32 - l * bits) as nat) + assigned(
                    lens@,
                    bits,
                    l as int,
                    s as int,
                    n as int,
                ) == pow2(32),
            decreases n - s,
        {
            proof {
                lemma_assigned_step(lens@, bits, l as int, s as int, n as int);
                lemma_pow2_pos((32 - l * bits) as nat);
            }
            if lens[s] == l {
                proof {
                    lemma_assigned_bound(lens@, bits, l as int, s as int, n as int);
                    assert(weight(lens[s as int], bits) == pow2((32 - l * bits) as nat));
                    assert(!is_assigned(lens@, l as int, s as int, s as int));
                }
                if taken == open.len() {
                    assert(0 * pow2((32 - l * bits) as nat) == 0);
                    return None;
                }
                let key: u32 = open[taken];
                let content: u32 = reverse_key(key, l, bits);
                let code: PrefixCode = PrefixCode { content, len: l * bits };
                proof {
                    let x = code.len as int;
                    assert(x / bits as int == l) by (nonlinear_arith)
                        requires
                            x == l * bits,
                            bits == 1 || bits == 2,
                    ;
                    lemma_assign(
                        codes@,
                        keys,
                        lens@,
                        bits,
                        l as int,
                        s as int,
                        open@,
                        taken as int,
                        code,
                    );
                    lemma_greedy_assign(
                        keys,
                        lens@,
                        bits,
                        l as int,
                        s as int,
                        open@,
                        taken as int,
                    );
                    keys = keys.update(s as int, key as int);
                    let rem = open.len() - taken;
                    let w = pow2((32 - l * bits) as nat) as int;
                    assert((rem - 1) * w == rem * w - w) by (nonlinear_arith);
                }
                codes[s] = code;
                taken = taken + 1;
            } else {
                proof {
                    assert forall|t: int|
                        is_assigned(lens@, l as int, s as int, t) == #[trigger] is_assigned(
                            lens@,
                            l as int,
                            s + 1,
                            t,
                        ) by {}
                    lemma_greedy_skip(
                        keys,
                        lens@,
                        bits,
                        l as int,
                        s as int,
                        open@,
                        taken as int,
                    );
                }
            }
            s = s + 1;
        }
    }
    proof {
        lemma_crafted_table(codes@, keys, lens@, bits, l as int, open@, taken as int);
        lemma_codes_greedy(codes@, keys, lens@, bits, l as int, open@, taken as int);
        lemma_assigned_bound(lens@, bits, l as int, n as int, n as int);
        lemma_all_assigned(lens@, bits, l as int, n as int);
        lemma_pow2_pos((32 - l * bits) as nat);
        let rem = open.len() - taken;
        let w = pow2((32 - l * bits) as nat) as int;
        assert(rem * w >= 0) by (nonlinear_arith)
            requires
                rem >= 0,
                w > 0,
        ;
        assert forall|n_levels: int|
            (forall|s: int| 0 <= s < lens.len() ==> (#[trigger] lens[s]) <= n_levels) implies table_ok(
            codes@,
            n_levels,
            bits,
        ) by {
            assert forall|s: int|
                #![trigger codes@[s]]
                coded(codes@, s) implies codes@[s].len as int / bits as int <= n_levels by {
                assert(lens[s] <= n_levels);
                let x = codes@[s].len as int;
                let y = lens[s] as int;
                assert(x / bits as int == y) by (nonlinear_arith)
                    requires
                        x == y * bits,
                        bits == 1 || bits == 2,
                ;
            }
        }
    }
    Some(codes)
}

proof fn lemma_all_assigned(lens: Seq<u32>, bits: u32, l: int, n: int)
    requires
        0 <= n <= lens.len(),
        forall|s: int| 0 <= s < lens.len() ==> (#[trigger] lens[s]) <= l,
    ensures
        assigned(lens, bits, l, lens.len() as int, n) == weights(lens, bits, n),
    decreases n,
{
    if n > 0 {
        lemma_all_assigned(lens, bits, l, n - 1);
    }
}

} // verus!
