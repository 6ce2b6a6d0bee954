//! Little-endian numbers in byte sequences.

use vstd::arithmetic::power::{lemma_pow0, lemma_pow1, lemma_pow_adds, lemma_pow_positive, pow};
use vstd::prelude::*;

verus! {

/// The number that `s` writes, least significant byte first.
pub open spec fn le_value(s: Seq<u8>) -> int
    decreases s.len(),
{
    if s.len() == 0 {
        0
    } else {
        s[0] + 256 * le_value(s.drop_first())
    }
}

/// The `n` low bytes of `x`, least significant first.
pub open spec fn le_bytes(x: int, n: int) -> Seq<u8>
    decreases n,
{
    if n <= 0 {
        Seq::empty()
    } else {
        seq![(x % 256) as u8] + le_bytes(x / 256, n - 1)
    }
}

pub proof fn lemma_le_bytes(x: int, n: int)
    requires
        0 <= x,
        0 <= n,
    ensures
        le_bytes(x, n).len() == n,
        x < pow(256, n as nat) ==> le_value(le_bytes(x, n)) == x,
    decreases n,
{
    if n > 0 {
        lemma_le_bytes(x / 256, n - 1);
        assert(le_bytes(x, n).drop_first() =~= le_bytes(x / 256, n - 1));
        lemma_pow_adds(256, 1, (n - 1) as nat);
        lemma_pow1(256);
        let w = pow(256, (n - 1) as nat);
        if x < pow(256, n as nat) {
            assert(x / 256 < w) by (nonlinear_arith)
                requires
                    0 <= x < 256 * w,
            ;
        }
    } else {
        lemma_pow0(256);
    }
}

pub proof fn lemma_le_value(s: Seq<u8>)
    ensures
        0 <= le_value(s) < pow(256, s.len()),
        le_bytes(le_value(s), s.len() as int) == s,
    decreases s.len(),
{
    if s.len() == 0 {
        lemma_pow0(256);
    } else {
        let rest = s.drop_first();
        lemma_le_value(rest);
        lemma_pow_adds(256, 1, rest.len());
        lemma_pow1(256);
        let v = le_value(rest);
        let w = pow(256, rest.len());
        assert(s[0] + 256 * v < 256 * w) by (nonlinear_arith)
            requires
                0 <= v < w,
                s[0] < 256,
        ;
        let x = le_value(s);
        assert(x % 256 == s[0] && x / 256 == v);
        assert(le_bytes(x, s.len() as int) =~= s) by {
            assert(seq![s[0]] + rest =~= s);
        }
    }
}

/// The number of `n` bytes at offset `at`.
pub open spec fn le_at(s: Seq<u8>, at: int, n: int) -> int {
    le_value(s.subrange(at, at + n))
}

pub proof fn lemma_pow256()
    ensures
        pow(256, 1) == 0x100,
        pow(256, 2) == 0x1_0000,
        pow(256, 4) == 0x1_0000_0000,
        pow(256, 8) == 0x1_0000_0000_0000_0000,
        pow(256, 16) == 0x1_0000_0000_0000_0000_0000_0000_0000_0000,
{
    lemma_pow1(256);
    lemma_pow_adds(256, 1, 1);
    let a = pow(256, 2);
    let b = pow(256, 4);
    let c = pow(256, 8);
    lemma_pow_adds(256, 2, 2);
    assert(a * a == 0x1_0000_0000) by (nonlinear_arith)
        requires
            a == 0x1_0000,
    ;
    lemma_pow_adds(256, 4, 4);
    assert(b * b == 0x1_0000_0000_0000_0000) by (nonlinear_arith)
        requires
            b == 0x1_0000_0000,
    ;
    lemma_pow_adds(256, 8, 8);
    assert(c * c == 0x1_0000_0000_0000_0000_0000_0000_0000_0000) by (nonlinear_arith)
        requires
            c == 0x1_0000_0000_0000_0000,
    ;
}

/// Appends the `n` low bytes of `x`.
pub fn put_le(out: &mut Vec<u8>, x: u128, n: usize)
    ensures
        final(out)@ == old(out)@ + le_bytes(x as int, n as int),
{
    let mut rest: u128 = x;
    let mut left: usize = n;
    let ghost start = out@;
    proof {
        assert(out@ + le_bytes(x as int, n as int) =~= start + le_bytes(x as int, n as int));
    }
    while left > 0
        invariant
            out@ + le_bytes(rest as int, left as int) == start + le_bytes(x as int, n as int),
        decreases left,
    {
        let ghost before = out@;
        let b: u8 = (rest % 256) as u8;
        out.push(b);
        proof {
            assert(before + le_bytes(rest as int, left as int) =~= out@ + le_bytes(
                rest as int / 256,
                left - 1,
            ));
        }
        rest = rest / 256;
        left = left - 1;
    }
    assert(out@ + le_bytes(rest as int, 0) =~= out@);
}

pub fn put_u16(out: &mut Vec<u8>, x: u16)
    ensures
        final(out)@ == old(out)@ + le_bytes(x as int, 2),
{
    put_le(out, x as u128, 2);
}

pub fn put_u32(out: &mut Vec<u8>, x: u32)
    ensures
        final(out)@ == old(out)@ + le_bytes(x as int, 4),
{
    put_le(out, x as u128, 4);
}

pub fn put_u64(out: &mut Vec<u8>, x: u64)
    ensures
        final(out)@ == old(out)@ + le_bytes(x as int, 8),
{
    put_le(out, x as u128, 8);
}

pub fn put_u128(out: &mut Vec<u8>, x: u128)
    ensures
        final(out)@ == old(out)@ + le_bytes(x as int, 16),
{
    put_le(out, x, 16);
}

/// Reads a number of `n` bytes.
pub fn read_le(bytes: &[u8], at: usize, n: usize) -> (x: u128)
    requires
        n <= 16,
        at + n <= bytes@.len(),
    ensures
        x == le_at(bytes@, at as int, n as int),
        x < pow(256, n as nat),
{
    let total: usize = bytes.len();
    let mut x: u128 = 0;
    let mut k: usize = n;
    proof {
        lemma_pow256();
        lemma_pow0(256);
        assert(bytes@.subrange(at + n, at + n).len() == 0);
    }
    while k > 0
        invariant
            k <= n <= 16,
            total == bytes@.len(),
            at + n <= total,
            x == le_value(bytes@.subrange(at + k, at + n)),
            x < pow(256, (n - k) as nat),
        decreases k,
    {
        let b: u8 = bytes[at + k - 1];
        proof {
            let s = bytes@.subrange(at + k - 1, at + n);
            assert(s.drop_first() =~= bytes@.subrange(at + k, at + n));
            assert(s[0] == b);
            lemma_le_value(s);
            lemma_pow_mono(s.len(), 16);
            lemma_pow256();
        }
        x = x * 256 + b as u128;
        k = k - 1;
    }
    x
}

proof fn lemma_pow_mono(a: nat, b: nat)
    requires
        a <= b,
    ensures
        pow(256, a) <= pow(256, b),
{
    lemma_pow_adds(256, a, (b - a) as nat);
    lemma_pow_positive(256, a);
    lemma_pow_positive(256, (b - a) as nat);
    let x = pow(256, a);
    let y = pow(256, (b - a) as nat);
    assert(x <= x * y) by (nonlinear_arith)
        requires
            x > 0,
            y > 0,
    ;
}

pub fn read_u16(bytes: &[u8], at: usize) -> (x: u16)
    requires
        at + 2 <= bytes@.len(),
    ensures
        x == le_at(bytes@, at as int, 2),
{
    let x: u128 = read_le(bytes, at, 2);
    proof {
        lemma_pow256();
    }
    x as u16
}

pub fn read_u32(bytes: &[u8], at: usize) -> (x: u32)
    requires
        at + 4 <= bytes@.len(),
    ensures
        x == le_at(bytes@, at as int, 4),
{
    let x: u128 = read_le(bytes, at, 4);
    proof {
        lemma_pow256();
    }
    x as u32
}

pub fn read_u64(bytes: &[u8], at: usize) -> (x: u64)
    requires
        at + 8 <= bytes@.len(),
    ensures
        x == le_at(bytes@, at as int, 8),
{
    let x: u128 = read_le(bytes, at, 8);
    proof {
        lemma_pow256();
    }
    x as u64
}

pub fn read_u128(bytes: &[u8], at: usize) -> (x: u128)
    requires
        at + 16 <= bytes@.len(),
    ensures
        x == le_at(bytes@, at as int, 16),
{
    read_le(bytes, at, 16)
}

/// Reads a number and moves the offset behind it.
pub fn get_u16(buf: &[u8], o: &mut usize) -> (v: u16)
    requires
        *old(o) + 2 <= buf@.len(),
    ensures
        v == le_at(buf@, *old(o) as int, 2),
        *final(o) == *old(o) + 2,
{
    let total: usize = buf.len();
    assert(*o + 2 <= total);
    let v: u16 = read_u16(buf, *o);
    *o = *o + 2;
    v
}

/// Reads a number and moves the offset behind it.
pub fn get_u64(buf: &[u8], o: &mut usize) -> (v: u64)
    requires
        *old(o) + 8 <= buf@.len(),
    ensures
        v == le_at(buf@, *old(o) as int, 8),
        *final(o) == *old(o) + 8,
{
    let total: usize = buf.len();
    assert(*o + 8 <= total);
    let v: u64 = read_u64(buf, *o);
    *o = *o + 8;
    v
}

/// What was written at an offset is read there.
pub proof fn lemma_le_at(s: Seq<u8>, at: int, n: int, x: int)
    requires
        0 <= at,
        0 <= n,
        at + n <= s.len(),
        0 <= x < pow(256, n as nat),
        s.subrange(at, at + n) == le_bytes(x, n),
    ensures
        le_at(s, at, n) == x,
{
    lemma_le_bytes(x, n);
}

} // verus!
