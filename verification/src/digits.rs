//! Numbers as sequences of digits, most significant digit first.

use vstd::arithmetic::div_mod::{
    lemma_div_denominator, lemma_fundamental_div_mod, lemma_fundamental_div_mod_converse,
    lemma_mod_bound, lemma_small_mod,
};
use vstd::arithmetic::power::{lemma_pow0, lemma_pow1, lemma_pow_adds, lemma_pow_positive, pow};
use vstd::arithmetic::power2::{lemma2_to64, pow2};
use vstd::prelude::*;

use crate::wavelet::digits_below;

verus! {

/// The number that `ds` writes in base `radix`.
pub open spec fn value(ds: Seq<u8>, radix: int) -> int
    decreases ds.len(),
{
    if ds.len() == 0 {
        0
    } else {
        value(ds.drop_last(), radix) * radix + ds.last()
    }
}

/// The last `len` digits of `v` in base `radix`.
pub open spec fn digits_of(v: int, len: int, radix: int) -> Seq<u8>
    decreases len,
{
    if len <= 0 {
        Seq::empty()
    } else {
        digits_of(v / radix, len - 1, radix).push((v % radix) as u8)
    }
}

pub proof fn lemma_digits_of(v: int, len: int, radix: int)
    requires
        0 <= v,
        0 <= len,
        2 <= radix <= 256,
    ensures
        digits_of(v, len, radix).len() == len,
        digits_below(digits_of(v, len, radix), radix),
    decreases len,
{
    if len > 0 {
        assert(0 <= v / radix) by (nonlinear_arith)
            requires
                0 <= v,
                2 <= radix,
        ;
        lemma_digits_of(v / radix, len - 1, radix);
        lemma_mod_bound(v, radix);
    }
}

/// Digit `l` is found by shifting the digits after it away.
pub proof fn lemma_digit_at(v: int, len: int, radix: int, l: int)
    requires
        0 <= v,
        0 <= l < len,
        2 <= radix <= 256,
    ensures
        digits_of(v, len, radix).len() == len,
        digits_of(v, len, radix)[l] == (v / pow(radix, (len - 1 - l) as nat)) % radix,
    decreases len,
{
    lemma_digits_of(v, len, radix);
    assert(0 <= v / radix) by (nonlinear_arith)
        requires
            0 <= v,
            2 <= radix,
    ;
    lemma_mod_bound(v, radix);
    lemma_digits_of(v / radix, len - 1, radix);
    if l == len - 1 {
        lemma_pow0(radix);
        assert(v / 1 == v);
    } else {
        lemma_digit_at(v / radix, len - 1, radix, l);
        let e = (len - 2 - l) as nat;
        lemma_pow_positive(radix, e);
        lemma_div_denominator(v, radix, pow(radix, e));
        lemma_pow_adds(radix, 1, e);
        lemma_pow1(radix);
    }
}

pub proof fn lemma_value_bounds(ds: Seq<u8>, radix: int)
    requires
        digits_below(ds, radix),
        radix >= 2,
    ensures
        0 <= value(ds, radix) < pow(radix, ds.len()),
    decreases ds.len(),
{
    if ds.len() == 0 {
        lemma_pow0(radix);
    } else {
        let rest = ds.drop_last();
        assert(digits_below(rest, radix)) by {
            assert forall|p: int| 0 <= p < rest.len() implies (#[trigger] rest[p]) < radix by {
                assert(rest[p] == ds[p]);
            }
        }
        lemma_value_bounds(rest, radix);
        lemma_pow_adds(radix, rest.len(), 1);
        lemma_pow1(radix);
        let v = value(rest, radix);
        let w = pow(radix, rest.len());
        let d = ds.last() as int;
        assert(ds.last() == ds[ds.len() - 1]);
        assert(0 <= v * radix + d < w * radix) by (nonlinear_arith)
            requires
                0 <= v < w,
                0 <= d < radix,
                radix >= 2,
        ;
    }
}

/// Writing a number down and reading it again gives the number, as far as
/// there is room for it.
pub proof fn lemma_value_of_digits(v: int, len: int, radix: int)
    requires
        0 <= v < pow(radix, len as nat),
        0 <= len,
        2 <= radix <= 256,
    ensures
        value(digits_of(v, len, radix), radix) == v,
    decreases len,
{
    if len == 0 {
        lemma_pow0(radix);
    } else {
        let ds = digits_of(v, len, radix);
        lemma_pow_adds(radix, (len - 1) as nat, 1);
        lemma_pow1(radix);
        lemma_fundamental_div_mod(v, radix);
        lemma_mod_bound(v, radix);
        let w = pow(radix, (len - 1) as nat);
        let q = v / radix;
        assert(0 <= q < w) by (nonlinear_arith)
            requires
                0 <= v < w * radix,
                q == v / radix,
                2 <= radix,
        ;
        lemma_value_of_digits(q, len - 1, radix);
        assert(ds.drop_last() =~= digits_of(q, len - 1, radix));
        assert(q * radix == radix * q) by (nonlinear_arith);
    }
}

pub proof fn lemma_digits_of_value(ds: Seq<u8>, radix: int)
    requires
        digits_below(ds, radix),
        2 <= radix <= 256,
    ensures
        digits_of(value(ds, radix), ds.len() as int, radix) == ds,
    decreases ds.len(),
{
    if ds.len() > 0 {
        let rest = ds.drop_last();
        assert(digits_below(rest, radix)) by {
            assert forall|p: int| 0 <= p < rest.len() implies (#[trigger] rest[p]) < radix by {
                assert(rest[p] == ds[p]);
            }
        }
        lemma_digits_of_value(rest, radix);
        let d = ds.last() as int;
        assert(ds.last() == ds[ds.len() - 1]);
        lemma_fundamental_div_mod_converse(
            value(ds, radix),
            radix,
            value(rest, radix),
            d,
        );
        assert(ds =~= rest.push(ds.last()));
    }
}

/// Sequences of digits of one length are told apart by their values.
pub proof fn lemma_value_injective(a: Seq<u8>, b: Seq<u8>, radix: int)
    requires
        digits_below(a, radix),
        digits_below(b, radix),
        a.len() == b.len(),
        2 <= radix <= 256,
        value(a, radix) == value(b, radix),
    ensures
        a == b,
{
    lemma_digits_of_value(a, radix);
    lemma_digits_of_value(b, radix);
}

pub proof fn lemma_value_append(a: Seq<u8>, b: Seq<u8>, radix: int)
    requires
        radix >= 2,
    ensures
        value(a + b, radix) == value(a, radix) * pow(radix, b.len()) + value(b, radix),
    decreases b.len(),
{
    if b.len() == 0 {
        assert(a + b =~= a);
        lemma_pow0(radix);
    } else {
        assert((a + b).drop_last() =~= a + b.drop_last());
        assert((a + b).last() == b.last());
        lemma_value_append(a, b.drop_last(), radix);
        lemma_pow_adds(radix, (b.len() - 1) as nat, 1);
        lemma_pow1(radix);
        let x = value(a, radix);
        let w = pow(radix, (b.len() - 1) as nat);
        let y = value(b.drop_last(), radix);
        assert((x * w + y) * radix == x * (w * radix) + y * radix) by (nonlinear_arith);
    }
}

/// Of two numbers of one length, the first differing digit decides.
pub proof fn lemma_value_order(pre: Seq<u8>, d: u8, e: u8, a: Seq<u8>, b: Seq<u8>, radix: int)
    requires
        radix >= 2,
        d < e,
        e < radix,
        a.len() == b.len(),
        digits_below(a, radix),
        digits_below(b, radix),
    ensures
        value(pre.push(d) + a, radix) < value(pre.push(e) + b, radix),
{
    lemma_value_append(pre.push(d), a, radix);
    lemma_value_append(pre.push(e), b, radix);
    lemma_value_bounds(a, radix);
    lemma_value_bounds(b, radix);
    assert(pre.push(d).drop_last() =~= pre);
    assert(pre.push(e).drop_last() =~= pre);
    let v = value(pre, radix) * radix;
    let w = pow(radix, a.len());
    let x = value(a, radix);
    let y = value(b, radix);
    assert((v + d as int) * w + x < (v + e as int) * w + y) by (nonlinear_arith)
        requires
            0 <= x < w,
            0 <= y < w,
            d < e,
    ;
}

/// Appending a digit commutes with reducing modulo `m`.
pub proof fn lemma_push_mod(v: int, radix: int, d: int, m: int)
    requires
        m > 0,
    ensures
        ((v % m) * radix + d) % m == (v * radix + d) % m,
{
    let q = v / m;
    lemma_fundamental_div_mod(v, m);
    let t = (v % m) * radix + d;
    assert(v * radix + d == m * (q * radix) + t) by (nonlinear_arith)
        requires
            v == m * q + v % m,
            t == (v % m) * radix + d,
    ;
    vstd::arithmetic::div_mod::lemma_mod_multiples_vanish(q * radix, t, m);
}

/// The base of digits of one or two bits.
pub open spec fn radix_of(bits: u32) -> int {
    if bits == 1 {
        2
    } else {
        4
    }
}

pub proof fn lemma_radix_pow(bits: u32, e: nat)
    requires
        bits == 1 || bits == 2,
    ensures
        pow(radix_of(bits), e) == pow2(bits as nat * e),
    decreases e,
{
    lemma_pow0(radix_of(bits));
    lemma2_to64();
    if e > 0 {
        lemma_radix_pow(bits, (e - 1) as nat);
        lemma_pow_adds(radix_of(bits), (e - 1) as nat, 1);
        lemma_pow1(radix_of(bits));
        assert(bits as nat * e == bits as nat * (e - 1) as nat + bits as nat) by (nonlinear_arith)
            requires
                e > 0,
        ;
        vstd::arithmetic::power2::lemma_pow2_adds(bits as nat * (e - 1) as nat, bits as nat);
    }
}

/// Digit `l` of the `len` last digits of `v`.
pub fn digit_at(v: u64, len: usize, l: usize, bits: u32) -> (d: u8)
    requires
        bits == 1 || bits == 2,
        l < len,
    ensures
        d == digits_of(v as int, len as int, radix_of(bits))[l as int],
        d < radix_of(bits),
{
    let after: usize = len - 1 - l;
    proof {
        lemma_digit_at(v as int, len as int, radix_of(bits), l as int);
        lemma_digits_of(v as int, len as int, radix_of(bits));
        lemma_radix_pow(bits, after as nat);
    }
    if after >= 64 || (bits == 2 && after >= 32) {
        proof {
            let e = bits as nat * after as nat;
            assert(e >= 64) by (nonlinear_arith)
                requires
                    e == bits as nat * after as nat,
                    (bits >= 1 && after >= 64) || (bits == 2 && after >= 32),
            ;
            lemma2_to64();
            if e > 64 {
                vstd::arithmetic::power2::lemma_pow2_strictly_increases(64, e);
            }
            assert((v as int) / (pow2(e) as int) == 0) by (nonlinear_arith)
                requires
                    0 <= v < pow2(e),
            ;
            lemma_small_mod(0, radix_of(bits) as nat);
        }
        0
    } else {
        let shift: u64 = if bits == 1 {
            after as u64
        } else {
            2 * after as u64
        };
        let shifted: u64 = v >> shift;
        proof {
            assert(shift as nat == bits as nat * after as nat) by (nonlinear_arith)
                requires
                    (bits == 1 && shift == after) || (bits == 2 && shift == 2 * after),
            ;
            vstd::bits::lemma_u64_shr_is_div(v, shift);
            assert(shifted & 1 == shifted % 2 && shifted & 3 == shifted % 4) by (bit_vector);
        }
        if bits == 1 {
            (shifted & 1) as u8
        } else {
            (shifted & 3) as u8
        }
    }
}

/// Appends a digit to a number, dropping what leaves the 64 bits.
pub fn push_digit(v: u64, d: u8, bits: u32) -> (r: u64)
    requires
        bits == 1 || bits == 2,
        d < radix_of(bits),
    ensures
        r == (v * radix_of(bits) + d) % 0x1_0000_0000_0000_0000,
{
    let e: u64 = d as u64;
    proof {
        assert(e < 2 ==> ((v << 1) | e) == (v * 2 + e) % 0x1_0000_0000_0000_0000) by (bit_vector);
        assert(e < 4 ==> ((v << 2) | e) == (v * 4 + e) % 0x1_0000_0000_0000_0000) by (bit_vector);
    }
    if bits == 1 {
        (v << 1) | e
    } else {
        (v << 2) | e
    }
}

} // verus!
