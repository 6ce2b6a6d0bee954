//! Laws of the parts that the trees are made of: words, numbers in bytes, vectors of
//! bits and digits, partitions.

use vstd::arithmetic::power2::pow2;
use vstd::prelude::*;

use super::{lemma_times_before, times_before};
use crate::bitvector::{bit_digits, BitVector, RSWide};
use crate::bytes::buffer::{aligned_copy, window_start, AlignedBytes};
use crate::bytes::error::LayoutError;
use crate::bytes::le::{
    lemma_le_at, lemma_le_bytes, lemma_pow256, put_u128, put_u16, put_u32, put_u64, read_u128,
    read_u16, read_u32, read_u64,
};
use crate::bytes::level::{begins_at, RSQVectorView};
use crate::bytes::{align_up, checked_region};
use crate::kernel::{rank_in_word, scalar_popcount_u64};
use crate::tree::occurrences;
use crate::utils::{lemma_msb_bounds, msb, select_in_word};
use crate::wavelet::{below, count, lemma_count_mono};

verus! {

/// The highest bit of a number that is not zero.
pub proof fn highest_bit(v: u64, m: u32)
    requires
        call_ensures(msb, (v,), m),
    ensures
        v > 0 ==> pow2(m as nat) <= v < pow2((m + 1) as nat),
        v == 0 ==> m == 0,
{
    lemma_msb_bounds(v);
}

/// Counting the low bits of a word goes on by one bit at a time, up to the whole
/// word.
pub proof fn ones_by_one(
    word: u64,
    i: u32,
    a: usize,
    b: usize,
    none: usize,
    all: usize,
    whole: usize,
)
    requires
        i < 64,
        call_ensures(rank_in_word, (word, 0), none),
        call_ensures(rank_in_word, (word, i), a),
        call_ensures(rank_in_word, (word, (i + 1) as u32), b),
        call_ensures(rank_in_word, (word, 64), all),
        call_ensures(scalar_popcount_u64, (word,), whole),
    ensures
        none == 0,
        b == a + ((word >> (i as u64)) & 1),
        whole == all,
        a <= b <= all,
{
    assert((word >> (i as u64)) & 1 == 0 || (word >> (i as u64)) & 1 == 1) by (bit_vector);
    lemma_ones_mono(word, i + 1, 64);
}

proof fn lemma_ones_mono(word: u64, i: int, j: int)
    requires
        i <= j,
    ensures
        crate::kernel::ones(word, i) <= crate::kernel::ones(word, j),
    decreases j - i,
{
    if i < j {
        lemma_ones_mono(word, i, j - 1);
    }
}

/// The bit that is found is set and has so many set bits below it; none is found only
/// where there are too few.
pub proof fn found_bit(word: u64, k: u64, p: u32, below: usize, whole: usize)
    requires
        call_ensures(select_in_word, (word, k), p),
        p < 64 ==> call_ensures(rank_in_word, (word, p), below),
        call_ensures(scalar_popcount_u64, (word,), whole),
    ensures
        p < 64 <==> k < whole,
        p < 64 ==> (word >> (p as u64)) & 1 == 1 && below == k,
        p <= 64,
{
    if p < 64 {
        lemma_ones_mono(word, p + 1, 64);
    }
}

/// A number of 2 bytes that is put behind others is read back, its low byte stands
/// first, and nothing else has changed.
pub proof fn u16_read_back(out: &mut Vec<u8>, x: u16, done: (), bytes: &[u8], y: u16)
    requires
        call_ensures(put_u16, (out, x), done),
        bytes@ == final(out)@,
        old(out)@.len() <= usize::MAX,
        call_ensures(read_u16, (bytes, old(out)@.len() as usize), y),
    ensures
        y == x,
        final(out)@.len() == old(out)@.len() + 2,
        final(out)@.take(old(out)@.len() as int) == old(out)@,
        final(out)@[old(out)@.len() as int] == x as int % 256,
{
    let at = old(out)@.len() as int;
    lemma_pow256();
    lemma_le_bytes(x as int, 2);
    assert(bytes@.subrange(at, at + 2) =~= crate::bytes::le::le_bytes(x as int, 2));
    lemma_le_at(bytes@, at, 2, x as int);
    assert(final(out)@.take(at) =~= old(out)@);
}

/// A number of 4 bytes that is put behind others is read back, its low byte stands
/// first, and nothing else has changed.
pub proof fn u32_read_back(out: &mut Vec<u8>, x: u32, done: (), bytes: &[u8], y: u32)
    requires
        call_ensures(put_u32, (out, x), done),
        bytes@ == final(out)@,
        old(out)@.len() <= usize::MAX,
        call_ensures(read_u32, (bytes, old(out)@.len() as usize), y),
    ensures
        y == x,
        final(out)@.len() == old(out)@.len() + 4,
        final(out)@.take(old(out)@.len() as int) == old(out)@,
        final(out)@[old(out)@.len() as int] == x as int % 256,
{
    let at = old(out)@.len() as int;
    lemma_pow256();
    lemma_le_bytes(x as int, 4);
    assert(bytes@.subrange(at, at + 4) =~= crate::bytes::le::le_bytes(x as int, 4));
    lemma_le_at(bytes@, at, 4, x as int);
    assert(final(out)@.take(at) =~= old(out)@);
}

/// A number of 8 bytes that is put behind others is read back, its low byte stands
/// first, and nothing else has changed.
pub proof fn u64_read_back(out: &mut Vec<u8>, x: u64, done: (), bytes: &[u8], y: u64)
    requires
        call_ensures(put_u64, (out, x), done),
        bytes@ == final(out)@,
        old(out)@.len() <= usize::MAX,
        call_ensures(read_u64, (bytes, old(out)@.len() as usize), y),
    ensures
        y == x,
        final(out)@.len() == old(out)@.len() + 8,
        final(out)@.take(old(out)@.len() as int) == old(out)@,
        final(out)@[old(out)@.len() as int] == x as int % 256,
{
    let at = old(out)@.len() as int;
    lemma_pow256();
    lemma_le_bytes(x as int, 8);
    assert(bytes@.subrange(at, at + 8) =~= crate::bytes::le::le_bytes(x as int, 8));
    lemma_le_at(bytes@, at, 8, x as int);
    assert(final(out)@.take(at) =~= old(out)@);
}

/// A number of 16 bytes that is put behind others is read back, its low byte stands
/// first, and nothing else has changed.
pub proof fn u128_read_back(out: &mut Vec<u8>, x: u128, done: (), bytes: &[u8], y: u128)
    requires
        call_ensures(put_u128, (out, x), done),
        bytes@ == final(out)@,
        old(out)@.len() <= usize::MAX,
        call_ensures(read_u128, (bytes, old(out)@.len() as usize), y),
    ensures
        y == x,
        final(out)@.len() == old(out)@.len() + 16,
        final(out)@.take(old(out)@.len() as int) == old(out)@,
        final(out)@[old(out)@.len() as int] == x as int % 256,
{
    let at = old(out)@.len() as int;
    lemma_pow256();
    lemma_le_bytes(x as int, 16);
    assert(bytes@.subrange(at, at + 16) =~= crate::bytes::le::le_bytes(x as int, 16));
    lemma_le_at(bytes@, at, 16, x as int);
    assert(final(out)@.take(at) =~= old(out)@);
}

/// Rounding up gives the first multiple that is not smaller.
pub proof fn rounded_up(value: usize, align: usize, r: usize, other: int)
    requires
        call_ensures(align_up, (value, align), r),
        align > 0,
        other % (align as int) == 0,
        value <= other,
    ensures
        value <= r <= other,
        r as int % align as int == 0,
{
    let a = align as int;
    if other < r {
        let d = r - other;
        vstd::arithmetic::div_mod::lemma_sub_mod_noop(r as int, other, a);
        assert(d % a == 0) by {
            assert((r as int % a - other % a) % a == (r - other) % a);
            vstd::arithmetic::div_mod::lemma_small_mod(0, a as nat);
        }
        vstd::arithmetic::div_mod::lemma_small_mod(d as nat, a as nat);
    }
}

/// A region is accepted exactly where it ends inside.
pub proof fn region_accepted(
    off: usize,
    count: usize,
    elem: usize,
    total: usize,
    r: Result<usize, LayoutError>,
)
    requires
        call_ensures(checked_region, (off, count, elem, total), r),
    ensures
        r is Ok <==> off + count * elem <= total,
        r matches Ok(size) ==> size == count * elem,
        r matches Err(e) ==> e == LayoutError::Truncated,
{
}

/// A copy in a window holds the bytes, and begins at a multiple of 64 less than 64
/// bytes into it.
pub proof fn copied(src: &[u8], buf: Vec<u8>, base: usize, r: AlignedBytes, s: &[u8], start: usize)
    requires
        call_ensures(aligned_copy, (src, buf, base), r),
        call_ensures(AlignedBytes::as_slice, (&r,), s),
        call_ensures(window_start, (base,), start),
    ensures
        s@ == src@,
        r.offset() == start,
        (base + r.offset()) % 64 == 0,
        0 <= r.offset() < 64,
{
}

/// A copy of bytes holds them, and begins at a multiple of 64 wherever its buffer
/// lies.
pub proof fn aligned_bytes(src: &[u8], r: AlignedBytes, s: &[u8])
    requires
        call_ensures(AlignedBytes::from_slice, (src,), r),
        call_ensures(AlignedBytes::as_slice, (&r,), s),
    ensures
        s@ == src@,
        src@.len() > 0 ==> exists|buf: &[u8], base: usize| #[trigger]
            begins_at(buf, base) && buf@.len() == src@.len() + 63 && (base + r.offset()) % 64 == 0,
{
}

proof fn lemma_bit_count(bits: Seq<bool>, b: bool, i: int)
    requires
        0 <= i <= bits.len(),
    ensures
        count(
            bit_digits(bits),
            if b {
                1
            } else {
                0
            },
            i,
        ) == occurrences(bits, b, i),
    decreases i,
{
    if i > 0 {
        lemma_bit_count(bits, b, i - 1);
    }
}

/// A vector of bits gives them back and counts them.
pub proof fn bits_counted(
    bv: BitVector,
    rs: RSWide,
    n: usize,
    i: usize,
    b: Option<bool>,
    c: Option<bool>,
    k: Option<usize>,
    zeros: usize,
)
    requires
        call_ensures(RSWide::from, (bv,), rs),
        call_ensures(RSWide::len, (&rs,), n),
        call_ensures(BitVector::get, (&bv, i), b),
        call_ensures(RSWide::get, (&rs, i), c),
        call_ensures(RSWide::rank1, (&rs, i), k),
        call_ensures(RSWide::count_zeros, (&rs,), zeros),
    ensures
        n == bv.bits().len(),
        b == c,
        b is Some <==> i < n,
        b matches Some(x) ==> x == bv.bits()[i as int],
        k is Some <==> i <= n,
        k matches Some(ones) ==> ones == times_before(bv.bits(), true, i as int),
        zeros == times_before(bv.bits(), false, n as int),
{
    let bits = bv.bits();
    lemma_times_before(bits, false, n as int);
    lemma_bit_count(bits, false, n as int);
    if i <= n {
        lemma_times_before(bits, true, i as int);
        lemma_bit_count(bits, true, i as int);
    }
}

/// In a level, rank goes on by one where the digit stands, select undoes rank, all
/// ranks add up to the position, and the smaller digits are counted by the ranks at
/// the end.
pub proof fn level_questions<'a, const B_SIZE: usize>(
    level: RSQVectorView<'a, B_SIZE>,
    n: usize,
    p: usize,
    here: u8,
    d: u8,
    a: usize,
    b: usize,
    all: [usize; 4],
    found: Option<usize>,
    end: usize,
    smaller: usize,
    next: usize,
)
    requires
        level.valid(),
        d < 4,
        call_ensures(RSQVectorView::<'a, B_SIZE>::len, (&level,), n),
        p < n,
        call_ensures(RSQVectorView::<'a, B_SIZE>::get_unchecked, (&level, p), here),
        call_ensures(RSQVectorView::<'a, B_SIZE>::rank_unchecked, (&level, d, p), a),
        call_ensures(
            RSQVectorView::<'a, B_SIZE>::rank_unchecked,
            (&level, d, (p + 1) as usize),
            b,
        ),
        call_ensures(RSQVectorView::<'a, B_SIZE>::rank_unchecked, (&level, d, n), end),
        call_ensures(RSQVectorView::<'a, B_SIZE>::rank_all_unchecked, (&level, p), all),
        call_ensures(RSQVectorView::<'a, B_SIZE>::select, (&level, d, a), found),
        call_ensures(RSQVectorView::<'a, B_SIZE>::occs_smaller_unchecked, (&level, d), smaller),
        call_ensures(
            RSQVectorView::<'a, B_SIZE>::occs_smaller_unchecked,
            (&level, (d + 1) as u8),
            next,
        ),
    ensures
        here < 4,
        b == a + (if here == d {
            1int
        } else {
            0
        }),
        all@[d as int] == a,
        here == d ==> found == Some(p),
        next == smaller + end,
        d == 0 ==> smaller == 0,
        d == 3 ==> next == n,
{
    let s = level.content();
    let (m, q) = (n as int, p as int);
    lemma_below_next(s, d, m);
    if here == d {
        if let Some(x) = found {
            if x < p {
                lemma_count_mono(s, d, x + 1, q);
            } else if x > p {
                lemma_count_mono(s, d, q + 1, x as int);
            }
        } else {
            lemma_count_mono(s, d, q + 1, m);
        }
    }
    if d == 0 {
        lemma_below_none(s, m);
    }
    if d == 3 {
        level.lemma_digits();
        lemma_below_all(s, m);
    }
}

proof fn lemma_below_next(s: Seq<u8>, d: u8, i: int)
    ensures
        below(s, d + 1, i) == below(s, d as int, i) + count(s, d, i),
    decreases i,
{
    if i > 0 {
        lemma_below_next(s, d, i - 1);
    }
}

proof fn lemma_below_none(s: Seq<u8>, i: int)
    ensures
        below(s, 0, i) == 0,
    decreases i,
{
    if i > 0 {
        lemma_below_none(s, i - 1);
    }
}

proof fn lemma_below_all(s: Seq<u8>, i: int)
    requires
        0 <= i <= s.len(),
        forall|j: int| 0 <= j < s.len() ==> (#[trigger] s[j]) < 4,
    ensures
        below(s, 4, i) == i,
    decreases i,
{
    if i > 0 {
        lemma_below_all(s, i - 1);
    }
}

} // verus!
