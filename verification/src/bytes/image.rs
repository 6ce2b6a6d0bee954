//! The bytes of one level of quad digits.
//!
//! Data lines hold 256 rows each: 32 bytes with the high bits of the digits,
//! then 32 bytes with the low bits, the first row in the lowest bit. A
//! superblock covers eight blocks of rows and holds, for every digit, a 128-bit
//! word: how often the digit occurs before the superblock in the high 44 bits,
//! and in seven counters of 12 bits how often it occurs in the superblock
//! before each block but the first. A select sample is written for every
//! 8192nd occurrence of a digit: the superblock it lies in.

use vstd::arithmetic::div_mod::lemma_div_denominator;
use vstd::prelude::*;

use super::le::{le_at, le_bytes, lemma_le_bytes, lemma_pow256};
use crate::wavelet::{count, digits_below, lemma_count_bounds, lemma_count_local, lemma_count_mono};

verus! {

/// Rows of a data line.
pub const LINE_ROWS: u64 = 256;

/// Occurrences between two select samples.
pub const SELECT_SAMPLE_ROWS: u64 = 8192;

/// The first row of block `b`: a block has 512 or 256 rows.
pub open spec fn block_start(b512: bool, b: int) -> int {
    if b512 {
        512 * b
    } else {
        256 * b
    }
}

/// The first row of superblock `s`: a superblock has eight blocks.
pub open spec fn super_start(b512: bool, s: int) -> int {
    if b512 {
        4096 * s
    } else {
        2048 * s
    }
}

/// The superblock of row `p`.
pub open spec fn super_of(b512: bool, p: int) -> int {
    if b512 {
        p / 4096
    } else {
        p / 2048
    }
}

pub open spec fn byte_bit(x: u8, t: int) -> bool {
    (x >> (t as u8)) & 1 == 1
}

/// The high or the low bit of a row.
pub open spec fn row_bit(rows: Seq<u8>, high: bool, p: int) -> bool {
    0 <= p < rows.len() && if high {
        rows[p] >= 2
    } else {
        rows[p] % 2 == 1
    }
}

pub open spec fn line_count(n: int) -> int {
    (n + 255) / 256
}

/// Bit `t` of byte `q` of the data lines.
pub open spec fn data_bit(rows: Seq<u8>, q: int, t: int) -> bool {
    row_bit(rows, q % 64 < 32, 256 * (q / 64) + 8 * (q % 32) + t)
}

/// The bytes are data lines of the rows.
pub open spec fn data_bits(rows: Seq<u8>, data: Seq<u8>) -> bool {
    forall|q: int, t: int|
        0 <= q < data.len() && 0 <= t < 8 ==> #[trigger] byte_bit(data[q], t) == data_bit(
            rows,
            q,
            t,
        )
}

/// How many superblocks `n` rows have: one behind every full superblock.
pub open spec fn super_count(n: int, b512: bool) -> int {
    if n == 0 {
        2
    } else {
        super_of(b512, n) + 1
    }
}

pub open spec fn min(a: int, b: int) -> int {
    if a < b {
        a
    } else {
        b
    }
}

/// Counter `b` of a superblock: the occurrences of `d` in its blocks before
/// block `b`. Counters of blocks behind the last one are zero.
pub open spec fn super_field(rows: Seq<u8>, b512: bool, d: u8, s: int, b: int) -> int {
    let start = super_start(b512, s);
    let n = rows.len() as int;
    if start + block_start(b512, b - 1) <= n {
        count(rows, d, min(start + block_start(b512, b), n)) - count(rows, d, min(start, n))
    } else {
        0
    }
}

/// A word of one count and seven counters.
pub open spec fn pack_word(g: int, f: Seq<int>) -> int {
    f[0] + 0x1000 * f[1] + 0x100_0000 * f[2] + 0x10_0000_0000 * f[3] + 0x1_0000_0000_0000 * f[4]
        + 0x1000_0000_0000_0000 * f[5] + 0x100_0000_0000_0000_0000 * f[6]
        + 0x10_0000_0000_0000_0000_0000 * g
}

pub open spec fn super_fields(rows: Seq<u8>, b512: bool, d: u8, s: int) -> Seq<int> {
    Seq::new(7, |k: int| super_field(rows, b512, d, s, k + 1))
}

/// The word of digit `d` in superblock `s`.
pub open spec fn super_word(rows: Seq<u8>, b512: bool, d: u8, s: int) -> int {
    pack_word(
        count(rows, d, min(super_start(b512, s), rows.len() as int)),
        super_fields(rows, b512, d, s),
    )
}

/// The four words of superblock `s`.
pub open spec fn super_entry(rows: Seq<u8>, b512: bool, s: int) -> Seq<u8> {
    le_bytes(super_word(rows, b512, 0, s), 16) + le_bytes(super_word(rows, b512, 1, s), 16)
        + le_bytes(super_word(rows, b512, 2, s), 16) + le_bytes(super_word(rows, b512, 3, s), 16)
}

/// The first `k` superblocks.
pub open spec fn super_bytes(rows: Seq<u8>, b512: bool, k: int) -> Seq<u8>
    decreases k,
{
    if k <= 0 {
        Seq::empty()
    } else {
        super_bytes(rows, b512, k - 1) + super_entry(rows, b512, k - 1)
    }
}

/// The superblocks of the sampled occurrences of `d` among the first `i` rows.
pub open spec fn samples(rows: Seq<u8>, b512: bool, d: u8, i: int) -> Seq<int>
    decreases i,
{
    if i <= 0 {
        Seq::empty()
    } else if rows[i - 1] == d && count(rows, d, i - 1) % 8192 == 0 {
        samples(rows, b512, d, i - 1).push(super_of(b512, i - 1))
    } else {
        samples(rows, b512, d, i - 1)
    }
}

/// The samples of `d`, a zero where there is none, and the last superblock
/// behind them.
pub open spec fn sample_list(rows: Seq<u8>, b512: bool, d: u8) -> Seq<int> {
    let n = rows.len() as int;
    let s = samples(rows, b512, d, n);
    (if s.len() == 0 {
        seq![0int]
    } else {
        s
    }).push(super_count(n, b512) - 1)
}

/// Numbers as 32-bit words.
pub open spec fn u32_bytes(xs: Seq<int>) -> Seq<u8>
    decreases xs.len(),
{
    if xs.len() == 0 {
        Seq::empty()
    } else {
        u32_bytes(xs.drop_last()) + le_bytes(xs.last(), 4)
    }
}

/// The three sections of bytes are those of a level with these rows.
pub open spec fn encodes_level(
    rows: Seq<u8>,
    b512: bool,
    data: Seq<u8>,
    superblocks: Seq<u8>,
    select: Seq<Seq<u8>>,
) -> bool {
    &&& data.len() == 64 * line_count(rows.len() as int)
    &&& data_bits(rows, data)
    &&& superblocks == super_bytes(rows, b512, super_count(rows.len() as int, b512))
    &&& select.len() == 4
    &&& forall|d: int|
        0 <= d < 4 ==> #[trigger] select[d] == u32_bytes(sample_list(rows, b512, d as u8))
}

proof fn lemma_byte_eq(x: u8, y: u8)
    by (bit_vector)
    requires
        (x >> 0u8) & 1 == (y >> 0u8) & 1,
        (x >> 1u8) & 1 == (y >> 1u8) & 1,
        (x >> 2u8) & 1 == (y >> 2u8) & 1,
        (x >> 3u8) & 1 == (y >> 3u8) & 1,
        (x >> 4u8) & 1 == (y >> 4u8) & 1,
        (x >> 5u8) & 1 == (y >> 5u8) & 1,
        (x >> 6u8) & 1 == (y >> 6u8) & 1,
        (x >> 7u8) & 1 == (y >> 7u8) & 1,
    ensures
        x == y,
{
}

proof fn lemma_bit_value(x: u8, t: u8)
    by (bit_vector)
    ensures
        (x >> t) & 1 == 0 || (x >> t) & 1 == 1,
{
}

/// Bytes with the same bits are the same.
pub proof fn lemma_byte_bits(x: u8, y: u8)
    requires
        forall|t: int| 0 <= t < 8 ==> byte_bit(x, t) == byte_bit(y, t),
    ensures
        x == y,
{
    assert forall|t: u8| 0 <= t < 8 implies (x >> t) & 1 == #[trigger] (y >> t) & 1 by {
        assert(byte_bit(x, t as int) == byte_bit(y, t as int));
        lemma_bit_value(x, t);
        lemma_bit_value(y, t);
    }
    lemma_byte_eq(x, y);
}

/// Rows have one sequence of data lines.
pub proof fn lemma_data_unique(rows: Seq<u8>, data: Seq<u8>, data2: Seq<u8>)
    requires
        data.len() == data2.len(),
        data_bits(rows, data),
        data_bits(rows, data2),
    ensures
        data == data2,
{
    assert forall|q: int| 0 <= q < data.len() implies data[q] == data2[q] by {
        assert forall|t: int| 0 <= t < 8 implies byte_bit(data[q], t) == byte_bit(data2[q], t) by {
            assert(byte_bit(data[q], t) == data_bit(rows, q, t));
            assert(byte_bit(data2[q], t) == data_bit(rows, q, t));
        }
        lemma_byte_bits(data[q], data2[q]);
    }
    assert(data =~= data2);
}

/// The row that data lines hold at position `p`.
pub open spec fn packed_row(data: Seq<u8>, p: int) -> u8 {
    let q = 64 * (p / 256) + (p % 256) / 8;
    if byte_bit(data[q], p % 8) {
        if byte_bit(data[q + 32], p % 8) {
            3
        } else {
            2
        }
    } else {
        if byte_bit(data[q + 32], p % 8) {
            1
        } else {
            0
        }
    }
}

/// The first `n` rows of data lines.
#[verifier::opaque]
pub open spec fn rows_of(data: Seq<u8>, n: int) -> Seq<u8> {
    Seq::new(n as nat, |p: int| packed_row(data, p))
}

pub proof fn lemma_rows_len(data: Seq<u8>, n: int)
    requires
        0 <= n,
    ensures
        rows_of(data, n).len() == n,
        digits_below(rows_of(data, n), 4),
{
    reveal(rows_of);
}

pub proof fn lemma_row_at(data: Seq<u8>, n: int, p: int)
    requires
        0 <= p < n,
    ensures
        rows_of(data, n)[p] == packed_row(data, p),
{
    reveal(rows_of);
}

/// Data lines hold the rows that they were written from.
pub proof fn lemma_rows_of(rows: Seq<u8>, data: Seq<u8>)
    requires
        digits_below(rows, 4),
        data.len() >= 64 * line_count(rows.len() as int),
        data_bits(rows, data),
    ensures
        rows_of(data, rows.len() as int) == rows,
{
    reveal(rows_of);
    let r = rows_of(data, rows.len() as int);
    assert forall|p: int| 0 <= p < rows.len() implies r[p] == rows[p] by {
        let q = 64 * (p / 256) + (p % 256) / 8;
        assert(byte_bit(data[q], p % 8) == data_bit(rows, q, p % 8));
        assert(byte_bit(data[q + 32], p % 8) == data_bit(rows, q + 32, p % 8));
        assert(256 * (q / 64) + 8 * (q % 32) + p % 8 == p);
        assert(256 * ((q + 32) / 64) + 8 * ((q + 32) % 32) + p % 8 == p);
        assert(rows[p] < 4);
    }
    assert(r =~= rows);
}

/// Rows have one image.
pub proof fn lemma_image_unique(
    rows: Seq<u8>,
    b512: bool,
    data: Seq<u8>,
    superblocks: Seq<u8>,
    select: Seq<Seq<u8>>,
    data2: Seq<u8>,
    superblocks2: Seq<u8>,
    select2: Seq<Seq<u8>>,
)
    requires
        encodes_level(rows, b512, data, superblocks, select),
        encodes_level(rows, b512, data2, superblocks2, select2),
    ensures
        data == data2,
        superblocks == superblocks2,
        select == select2,
{
    lemma_data_unique(rows, data, data2);
    assert(select =~= select2);
}

pub proof fn lemma_count_push(rows: Seq<u8>, x: u8)
    ensures
        forall|d: u8, i: int|
            0 <= i <= rows.len() ==> #[trigger] count(rows.push(x), d, i) == count(rows, d, i),
{
    assert forall|d: u8, i: int| 0 <= i <= rows.len() implies #[trigger] count(rows.push(x), d, i)
        == count(rows, d, i) by {
        lemma_count_local(rows.push(x), rows, d, i);
    }
}

/// Counters are small.
pub proof fn lemma_super_field(rows: Seq<u8>, b512: bool, d: u8, s: int, b: int)
    requires
        0 <= s,
        1 <= b <= 7,
    ensures
        0 <= super_field(rows, b512, d, s, b) < 4096,
{
    let start = super_start(b512, s);
    let n = rows.len() as int;
    let x = min(start, n);
    let y = min(start + block_start(b512, b), n);
    lemma_count_mono(rows, d, x, y);
}

/// A word holds its count and its counters.
pub proof fn lemma_pack_word(g: int, f: Seq<int>)
    requires
        f.len() == 7,
        0 <= g < 0x1000_0000_0000,
        forall|k: int| 0 <= k < 7 ==> 0 <= #[trigger] f[k] < 4096,
    ensures
        0 <= pack_word(g, f) < 0x1_0000_0000_0000_0000_0000_0000_0000_0000,
        pack_word(g, f) / 0x10_0000_0000_0000_0000_0000 == g,
        pack_word(g, f) % 4096 == f[0],
        (pack_word(g, f) / 0x1000) % 4096 == f[1],
        (pack_word(g, f) / 0x100_0000) % 4096 == f[2],
        (pack_word(g, f) / 0x10_0000_0000) % 4096 == f[3],
        (pack_word(g, f) / 0x1_0000_0000_0000) % 4096 == f[4],
        (pack_word(g, f) / 0x1000_0000_0000_0000) % 4096 == f[5],
        (pack_word(g, f) / 0x100_0000_0000_0000_0000) % 4096 == f[6],
{
    assert(0 <= f[0] < 4096);
    assert(0 <= f[1] < 4096);
    assert(0 <= f[2] < 4096);
    assert(0 <= f[3] < 4096);
    assert(0 <= f[4] < 4096);
    assert(0 <= f[5] < 4096);
    assert(0 <= f[6] < 4096);
    let w0 = pack_word(g, f);
    let w6 = f[6] + 0x1000 * g;
    let w5 = f[5] + 0x1000 * w6;
    let w4 = f[4] + 0x1000 * w5;
    let w3 = f[3] + 0x1000 * w4;
    let w2 = f[2] + 0x1000 * w3;
    let w1 = f[1] + 0x1000 * w2;
    assert(w0 == f[0] + 0x1000 * w1);
    lemma_peel(w0, f[0], w1);
    lemma_peel(w1, f[1], w2);
    lemma_peel(w2, f[2], w3);
    lemma_peel(w3, f[3], w4);
    lemma_peel(w4, f[4], w5);
    lemma_peel(w5, f[5], w6);
    lemma_peel(w6, f[6], g);
    lemma_div_denominator(w0, 0x1000, 0x1000);
    lemma_div_denominator(w0, 0x100_0000, 0x1000);
    lemma_div_denominator(w0, 0x10_0000_0000, 0x1000);
    lemma_div_denominator(w0, 0x1_0000_0000_0000, 0x1000);
    lemma_div_denominator(w0, 0x1000_0000_0000_0000, 0x1000);
    lemma_div_denominator(w0, 0x100_0000_0000_0000_0000, 0x1000);
}

proof fn lemma_peel(w: int, low: int, high: int)
    requires
        0 <= low < 4096,
        0 <= high,
        w == low + 0x1000 * high,
    ensures
        w / 0x1000 == high,
        w % 0x1000 == low,
{
}

pub proof fn lemma_super_word(rows: Seq<u8>, b512: bool, d: u8, s: int)
    requires
        0 <= s,
        rows.len() < 0x1000_0000_0000,
    ensures
        0 <= super_word(rows, b512, d, s) < 0x1_0000_0000_0000_0000_0000_0000_0000_0000,
{
    let f = super_fields(rows, b512, d, s);
    let start = super_start(b512, s);
    assert forall|k: int| 0 <= k < 7 implies 0 <= #[trigger] f[k] < 4096 by {
        lemma_super_field(rows, b512, d, s, k + 1);
    }
    lemma_count_bounds(rows, d, min(start, rows.len() as int));
    lemma_pack_word(count(rows, d, min(start, rows.len() as int)), f);
}

pub proof fn lemma_super_bytes_len(rows: Seq<u8>, b512: bool, k: int)
    requires
        0 <= k,
        rows.len() < 0x1000_0000_0000,
    ensures
        super_bytes(rows, b512, k).len() == 64 * k,
    decreases k,
{
    if k > 0 {
        lemma_super_bytes_len(rows, b512, k - 1);
        lemma_super_entry(rows, b512, k - 1);
    }
}

proof fn lemma_super_entry(rows: Seq<u8>, b512: bool, s: int)
    requires
        0 <= s,
        rows.len() < 0x1000_0000_0000,
    ensures
        super_entry(rows, b512, s).len() == 64,
        forall|d: int|
            0 <= d < 4 ==> #[trigger] super_entry(rows, b512, s).subrange(16 * d, 16 * d + 16)
                == le_bytes(super_word(rows, b512, d as u8, s), 16),
{
    assert forall|d: u8| 0 <= d < 4 implies #[trigger] super_word(rows, b512, d, s) >= 0
        && le_bytes(super_word(rows, b512, d, s), 16).len() == 16 by {
        lemma_super_word(rows, b512, d, s);
        lemma_le_bytes(super_word(rows, b512, d, s), 16);
    }
    let e = super_entry(rows, b512, s);
    let w0 = le_bytes(super_word(rows, b512, 0, s), 16);
    let w1 = le_bytes(super_word(rows, b512, 1, s), 16);
    let w2 = le_bytes(super_word(rows, b512, 2, s), 16);
    let w3 = le_bytes(super_word(rows, b512, 3, s), 16);
    assert(w0.len() == 16 && w1.len() == 16 && w2.len() == 16 && w3.len() == 16);
    assert(e =~= w0 + w1 + w2 + w3);
    assert(e.subrange(0, 16) =~= w0);
    assert(e.subrange(16, 32) =~= w1);
    assert(e.subrange(32, 48) =~= w2);
    assert(e.subrange(48, 64) =~= w3);
}

/// The words of superblock `s` stand where they are looked for.
pub proof fn lemma_super_bytes_at(rows: Seq<u8>, b512: bool, k: int, s: int, d: int)
    requires
        0 <= s < k,
        0 <= d < 4,
        rows.len() < 0x1000_0000_0000,
    ensures
        super_bytes(rows, b512, k).len() == 64 * k,
        le_at(super_bytes(rows, b512, k), 64 * s + 16 * d, 16) == super_word(
            rows,
            b512,
            d as u8,
            s,
        ),
    decreases k,
{
    lemma_super_bytes_len(rows, b512, k);
    lemma_super_bytes_len(rows, b512, k - 1);
    lemma_super_entry(rows, b512, k - 1);
    let all = super_bytes(rows, b512, k);
    let before = super_bytes(rows, b512, k - 1);
    let e = super_entry(rows, b512, k - 1);
    let at = 64 * s + 16 * d;
    if s == k - 1 {
        assert(all.subrange(at, at + 16) =~= e.subrange(16 * d, 16 * d + 16));
        lemma_super_word(rows, b512, d as u8, s);
        lemma_le_bytes(super_word(rows, b512, d as u8, s), 16);
        lemma_pow256();
    } else {
        lemma_super_bytes_at(rows, b512, k - 1, s, d);
        assert(all.subrange(at, at + 16) =~= before.subrange(at, at + 16));
    }
}

pub proof fn lemma_u32_bytes_len(xs: Seq<int>)
    requires
        forall|k: int| 0 <= k < xs.len() ==> #[trigger] xs[k] >= 0,
    ensures
        u32_bytes(xs).len() == 4 * xs.len(),
    decreases xs.len(),
{
    if xs.len() > 0 {
        assert(xs.last() == xs[xs.len() - 1]);
        assert forall|k: int| 0 <= k < xs.drop_last().len() implies #[trigger] xs.drop_last()[k]
            >= 0 by {
            assert(xs.drop_last()[k] == xs[k]);
        }
        lemma_u32_bytes_len(xs.drop_last());
        lemma_le_bytes(xs.last(), 4);
    }
}

/// Number `k` stands where it is looked for.
pub proof fn lemma_u32_bytes_at(xs: Seq<int>, k: int)
    requires
        forall|j: int| 0 <= j < xs.len() ==> 0 <= #[trigger] xs[j] < 0x1_0000_0000,
        0 <= k < xs.len(),
    ensures
        u32_bytes(xs).len() == 4 * xs.len(),
        le_at(u32_bytes(xs), 4 * k, 4) == xs[k],
    decreases xs.len(),
{
    let rest = xs.drop_last();
    assert forall|j: int| 0 <= j < rest.len() implies 0 <= #[trigger] rest[j] < 0x1_0000_0000 by {
        assert(rest[j] == xs[j]);
    }
    lemma_u32_bytes_len(xs);
    lemma_u32_bytes_len(rest);
    let all = u32_bytes(xs);
    assert(xs.last() == xs[xs.len() - 1]);
    lemma_le_bytes(xs.last(), 4);
    if k == xs.len() - 1 {
        assert(all.subrange(4 * k, 4 * k + 4) =~= le_bytes(xs[k], 4));
        lemma_pow256();
    } else {
        lemma_u32_bytes_at(rest, k);
        assert(all.subrange(4 * k, 4 * k + 4) =~= u32_bytes(rest).subrange(4 * k, 4 * k + 4));
    }
}

pub proof fn lemma_samples(rows: Seq<u8>, b512: bool, d: u8, i: int)
    requires
        0 <= i <= rows.len(),
    ensures
        samples(rows, b512, d, i).len() == (count(rows, d, i) + 8191) / 8192,
        forall|k: int|
            0 <= k < samples(rows, b512, d, i).len() ==> 0 <= #[trigger] samples(
                rows,
                b512,
                d,
                i,
            )[k] <= super_of(b512, i),
        forall|k: int|
            0 <= k < samples(rows, b512, d, i).len() ==> sampled(
                rows,
                b512,
                d,
                k,
                #[trigger] samples(rows, b512, d, i)[k],
            ),
    decreases i,
{
    if i > 0 {
        lemma_samples(rows, b512, d, i - 1);
        lemma_count_bounds(rows, d, i - 1);
        let before = samples(rows, b512, d, i - 1);
        let after = samples(rows, b512, d, i);
        if rows[i - 1] == d && count(rows, d, i - 1) % 8192 == 0 {
            let k = before.len() as int;
            assert(8192 * k == count(rows, d, i - 1));
            assert(sample_at(rows, b512, d, k, after[k], i - 1));
            assert forall|j: int| 0 <= j < after.len() implies 0 <= #[trigger] after[j] <= super_of(b512, i) && sampled(rows, b512, d, j, after[j]) by {
                if j < k {
                    assert(after[j] == before[j]);
                }
            }
        }
    }
}

/// Row `p` is occurrence `8192 * k` of `d` and lies in superblock `x`.
pub open spec fn sample_at(rows: Seq<u8>, b512: bool, d: u8, k: int, x: int, p: int) -> bool {
    &&& 0 <= p < rows.len()
    &&& rows[p] == d
    &&& count(rows, d, p) == 8192 * k
    &&& x == super_of(b512, p)
}

pub open spec fn sampled(rows: Seq<u8>, b512: bool, d: u8, k: int, x: int) -> bool {
    exists|p: int| sample_at(rows, b512, d, k, x, p)
}

} // verus!
