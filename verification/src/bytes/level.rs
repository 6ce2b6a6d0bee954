//! Levels that borrow their bytes.

use vstd::prelude::*;

use super::audit::{audit_level, LevelAudit};
use super::dir::LevelDir;
use super::encoder::{summarizes, MAX_LEVEL_ROWS};
use super::error::LayoutError;
use super::image::{
    block_start, byte_bit, encodes_level, lemma_pack_word, lemma_row_at, lemma_rows_len,
    lemma_samples, lemma_super_bytes_at, lemma_super_field, lemma_u32_bytes_at, line_count, min,
    packed_row, rows_of, sample_at, sample_list, sampled, samples, super_bytes, super_count,
    super_field, super_fields, super_of, super_start, super_word, u32_bytes,
};
use super::layout::{
    dir_aligned, dir_error, dir_inside, dir_len, dir_positions, dir_rows, dir_select,
};
use super::le::{read_u128, read_u32};
use crate::digits::radix_of;
use crate::kernel::bit;
use crate::level::DigitLevel;
use crate::wavelet::{
    below, count, digits_below, lemma_below_bounds, lemma_below_step, lemma_count_bounds,
    lemma_count_mono,
};
use crate::words::{rank_from, select_from, WordGroups};

verus! {

/// One level of quad digits in borrowed bytes.
#[derive(Clone, Copy, Debug)]
pub struct RSQVectorView<'a, const B_SIZE: usize> {
    data: &'a [u8],
    superblocks: &'a [u8],
    select: [&'a [u8]; 4],
    n: usize,
    occs_smaller: [usize; 5],
}

proof fn lemma_load_word(
    b0: u8,
    b1: u8,
    b2: u8,
    b3: u8,
    b4: u8,
    b5: u8,
    b6: u8,
    b7: u8,
    i: u64,
)
    by (bit_vector)
    requires
        i < 64,
    ensures
        (((b0 as u64) | ((b1 as u64) << 8u64) | ((b2 as u64) << 16u64) | ((b3 as u64) << 24u64) | ((
        b4 as u64) << 32u64) | ((b5 as u64) << 40u64) | ((b6 as u64) << 48u64) | ((b7 as u64)
            << 56u64)) >> i) & 1 == if i < 8 {
            ((b0 as u64) >> i) & 1
        } else if i < 16 {
            ((b1 as u64) >> ((i - 8) as u64)) & 1
        } else if i < 24 {
            ((b2 as u64) >> ((i - 16) as u64)) & 1
        } else if i < 32 {
            ((b3 as u64) >> ((i - 24) as u64)) & 1
        } else if i < 40 {
            ((b4 as u64) >> ((i - 32) as u64)) & 1
        } else if i < 48 {
            ((b5 as u64) >> ((i - 40) as u64)) & 1
        } else if i < 56 {
            ((b6 as u64) >> ((i - 48) as u64)) & 1
        } else {
            ((b7 as u64) >> ((i - 56) as u64)) & 1
        },
{
}

proof fn lemma_widen_bit(b: u8, t: u8)
    by (bit_vector)
    requires
        t < 8,
    ensures
        ((b as u64) >> (t as u64)) & 1 == 1u64 <==> (b >> t) & 1 == 1u8,
{
}

/// The 64 bits of eight bytes.
fn load_word(bytes: &[u8], at: usize) -> (word: u64)
    requires
        at + 8 <= bytes@.len(),
    ensures
        forall|i: int|
            0 <= i < 64 ==> #[trigger] bit(word, i) == byte_bit(bytes@[at + i / 8], i % 8),
{
    let total: usize = bytes.len();
    let b0: u8 = bytes[at];
    let b1: u8 = bytes[at + 1];
    let b2: u8 = bytes[at + 2];
    let b3: u8 = bytes[at + 3];
    let b4: u8 = bytes[at + 4];
    let b5: u8 = bytes[at + 5];
    let b6: u8 = bytes[at + 6];
    let b7: u8 = bytes[at + 7];
    let word: u64 = (b0 as u64) | ((b1 as u64) << 8u64) | ((b2 as u64) << 16u64) | ((b3 as u64)
        << 24u64) | ((b4 as u64) << 32u64) | ((b5 as u64) << 40u64) | ((b6 as u64) << 48u64) | ((
    b7 as u64) << 56u64);
    proof {
        assert forall|i: int| 0 <= i < 64 implies #[trigger] bit(word, i) == byte_bit(
            bytes@[at + i / 8],
            i % 8,
        ) by {
            lemma_load_word(b0, b1, b2, b3, b4, b5, b6, b7, i as u64);
            lemma_widen_bit(bytes@[at + i / 8], (i % 8) as u8);
            let k = i / 8;
            assert(k == 0 || k == 1 || k == 2 || k == 3 || k == 4 || k == 5 || k == 6 || k == 7);
            assert((i % 8) as u8 as u64 == (i - 8 * k) as u64);
        }
    }
    word
}

proof fn lemma_match_bits(hi: u64, lo: u64, i: u64)
    by (bit_vector)
    ensures
        (((hi & lo) >> i) & 1 == 1) == ((hi >> i) & 1 == 1 && (lo >> i) & 1 == 1),
{
}

proof fn lemma_not_bit(x: u64, i: u64)
    by (bit_vector)
    requires
        i < 64,
    ensures
        ((!x >> i) & 1 == 1) == ((x >> i) & 1 != 1),
{
}

impl<'a, const B_SIZE: usize> RSQVectorView<'a, B_SIZE> {
    /// Whether blocks have 512 rows.
    pub open spec fn b512() -> bool {
        B_SIZE == 512
    }

    /// The select sections.
    spec fn select_bytes(&self) -> Seq<Seq<u8>> {
        Seq::new(4, |d: int| self.select@[d]@)
    }

    /// The rows of the level.
    pub closed spec fn content(&self) -> Seq<u8> {
        rows_of(self.data@, self.n as int)
    }

    /// The bytes are those of a level.
    #[verifier::opaque]
    pub closed spec fn valid(&self) -> bool {
        &&& self.n <= MAX_LEVEL_ROWS
        &&& encodes_level(
            self.content(),
            Self::b512(),
            self.data@,
            self.superblocks@,
            self.select_bytes(),
        )
        &&& forall|d: int|
            0 <= d < 5 ==> #[trigger] self.occs_smaller@[d] == below(
                self.content(),
                d,
                self.n as int,
            )
    }

    /// The rows hold digits of two bits.
    pub proof fn lemma_digits(&self)
        ensures
            digits_below(self.content(), 4),
    {
        self.lemma_content();
    }

    proof fn lemma_content(&self)
        ensures
            self.content().len() == self.n,
            digits_below(self.content(), 4),
            self.valid() ==> {
                &&& self.n <= MAX_LEVEL_ROWS
                &&& self.data@.len() == 64 * line_count(self.n as int)
                &&& self.superblocks@ == super_bytes(
                    self.content(),
                    Self::b512(),
                    super_count(self.n as int, Self::b512()),
                )
                &&& forall|d: int|
                    0 <= d < 4 ==> #[trigger] self.select@[d]@ == u32_bytes(
                        sample_list(self.content(), Self::b512(), d as u8),
                    )
                &&& forall|d: int|
                    0 <= d < 5 ==> #[trigger] self.occs_smaller@[d] == below(
                        self.content(),
                        d,
                        self.n as int,
                    )
            },
    {
        reveal(RSQVectorView::valid);
        assert forall|d: int| 0 <= d < 4 && self.valid() implies #[trigger] self.select@[d]@
            == u32_bytes(sample_list(self.content(), Self::b512(), d as u8)) by {
            assert(self.select_bytes()[d] == self.select@[d]@);
        }
        lemma_rows_len(self.data@, self.n as int);
    }

    /// The word of digit `d` in superblock `s`.
    fn superblock_word(&self, s: usize, d: u8) -> (w: u128)
        requires
            self.valid(),
            d < 4,
            s < super_count(self.content().len() as int, Self::b512()),
        ensures
            w == super_word(self.content(), Self::b512(), d, s as int),
    {
        proof {
            self.lemma_content();
            lemma_super_bytes_at(
                self.content(),
                Self::b512(),
                super_count(self.n as int, Self::b512()),
                s as int,
                d as int,
            );
        }
        let total: usize = self.superblocks.len();
        assert(64 * s + 64 <= total);
        read_u128(self.superblocks, 64 * s + 16 * (d as usize))
    }
}

/// The occurrences of a digit before a superblock.
fn word_count(w: u128) -> (g: u64)
    requires
        w <= u128::MAX,
    ensures
        g == w as int / 0x10_0000_0000_0000_0000_0000,
{
    (w / 0x10_0000_0000_0000_0000_0000) as u64
}

/// Counter `b` of a word.
fn word_field(w: u128, b: usize) -> (c: u64)
    requires
        1 <= b <= 7,
    ensures
        b == 1 ==> c == w as int % 4096,
        b == 2 ==> c == (w as int / 0x1000) % 4096,
        b == 3 ==> c == (w as int / 0x100_0000) % 4096,
        b == 4 ==> c == (w as int / 0x10_0000_0000) % 4096,
        b == 5 ==> c == (w as int / 0x1_0000_0000_0000) % 4096,
        b == 6 ==> c == (w as int / 0x1000_0000_0000_0000) % 4096,
        b == 7 ==> c == (w as int / 0x100_0000_0000_0000_0000) % 4096,
{
    let shifted: u128 = if b == 1 {
        w
    } else if b == 2 {
        w / 0x1000
    } else if b == 3 {
        w / 0x100_0000
    } else if b == 4 {
        w / 0x10_0000_0000
    } else if b == 5 {
        w / 0x1_0000_0000_0000
    } else if b == 6 {
        w / 0x1000_0000_0000_0000
    } else {
        w / 0x100_0000_0000_0000_0000
    };
    (shifted % 4096) as u64
}

/// Of the blocks of superblock `s`, `b` is the last that begins at or before
/// occurrence `k` of `d`.
spec fn is_last_block(rows: Seq<u8>, b512: bool, d: u8, s: int, k: int, b: int) -> bool {
    let start = super_start(b512, s);
    let n = rows.len() as int;
    &&& 0 <= b < 8
    &&& start + block_start(b512, b) <= n
    &&& count(rows, d, start + block_start(b512, b)) <= k
    &&& forall|c: int|
        b < c < 8 ==> k < count(rows, d, min(start + #[trigger] block_start(b512, c), n))
}

/// What the word of a superblock holds.
proof fn lemma_word_parts(rows: Seq<u8>, b512: bool, d: u8, s: int)
    requires
        0 <= s,
        rows.len() < 0x1000_0000_0000,
    ensures
        ({
            let w = super_word(rows, b512, d, s);
            let f = super_fields(rows, b512, d, s);
            &&& w / 0x10_0000_0000_0000_0000_0000 == count(
                rows,
                d,
                min(super_start(b512, s), rows.len() as int),
            )
            &&& w % 4096 == f[0]
            &&& (w / 0x1000) % 4096 == f[1]
            &&& (w / 0x100_0000) % 4096 == f[2]
            &&& (w / 0x10_0000_0000) % 4096 == f[3]
            &&& (w / 0x1_0000_0000_0000) % 4096 == f[4]
            &&& (w / 0x1000_0000_0000_0000) % 4096 == f[5]
            &&& (w / 0x100_0000_0000_0000_0000) % 4096 == f[6]
        }),
{
    let f = super_fields(rows, b512, d, s);
    assert forall|k: int| 0 <= k < 7 implies 0 <= #[trigger] f[k] < 4096 by {
        lemma_super_field(rows, b512, d, s, k + 1);
    }
    let x = min(super_start(b512, s), rows.len() as int);
    lemma_count_bounds(rows, d, x);
    lemma_pack_word(count(rows, d, x), f);
}

/// Where the bits of row `i` of group `g` lie.
proof fn lemma_group_byte(g: int, i: int)
    requires
        0 <= g,
        0 <= i < 64,
    ensures
        ({
            let p = 64 * g + i;
            &&& 64 * (p / 256) + (p % 256) / 8 == 64 * (g / 4) + 8 * (g % 4) + i / 8
            &&& p % 8 == i % 8
        }),
{
    let p = 64 * g + i;
    assert(p / 256 == g / 4);
    assert(p % 256 == 64 * (g % 4) + i);
}

/// Row `i` of group `g` in terms of the words of the group.
proof fn lemma_match_row(data: Seq<u8>, n: int, g: int, i: int, hi: u64, lo: u64)
    requires
        0 <= g,
        0 <= i < 64,
        64 * g + i < n,
        bit(hi, i) == byte_bit(data[64 * (g / 4) + 8 * (g % 4) + i / 8], i % 8),
        bit(lo, i) == byte_bit(data[64 * (g / 4) + 8 * (g % 4) + 32 + i / 8], i % 8),
    ensures
        rows_of(data, n)[64 * g + i] == (if bit(hi, i) {
            2int
        } else {
            0
        }) + (if bit(lo, i) {
            1int
        } else {
            0
        }),
{
    lemma_group_byte(g, i);
    lemma_row_at(data, n, 64 * g + i);
}

/// The superblock of boundary `p`, its block in the superblock, and the first
/// group of rows of the block.
fn locate(b512: bool, p: usize) -> (r: (usize, usize, usize))
    ensures
        r.0 == super_of(b512, p as int),
        r.1 < 8,
        64 * r.2 == super_start(b512, r.0 as int) + block_start(b512, r.1 as int),
        64 * r.2 <= p,
        super_start(b512, r.0 as int) <= p,
{
    if b512 {
        let s: usize = p / 4096;
        let b: usize = (p % 4096) / 512;
        (s, b, 64 * s + 8 * b)
    } else {
        let s: usize = p / 2048;
        let b: usize = (p % 2048) / 256;
        (s, b, 32 * s + 4 * b)
    }
}

impl<'a, const B_SIZE: usize> WordGroups for RSQVectorView<'a, B_SIZE> {
    open spec fn rows(&self) -> Seq<u8> {
        self.content()
    }

    open spec fn words_wf(&self) -> bool {
        self.valid()
    }

    fn match_word(&self, g: usize, d: u8) -> (word: u64) {
        let total: usize = self.data.len();
        let at: usize = 64 * (g / 4) + 8 * (g % 4);
        proof {
            self.lemma_content();
            assert(at + 40 <= total);
        }
        let hi: u64 = load_word(self.data, at);
        let lo: u64 = load_word(self.data, at + 32);
        let hi_d: u64 = if d / 2 == 1 {
            hi
        } else {
            !hi
        };
        let lo_d: u64 = if d % 2 == 1 {
            lo
        } else {
            !lo
        };
        let word: u64 = if d < 4 {
            hi_d & lo_d
        } else {
            0
        };
        proof {
            let rows = self.content();
            assert forall|i: int| 0 <= i < 64 && 64 * g + i < rows.len() implies (#[trigger] bit(
                word,
                i,
            ) <==> rows[64 * g + i] == d) by {
                assert(bit(hi, i) == byte_bit(self.data@[at + i / 8], i % 8));
                assert(bit(lo, i) == byte_bit(self.data@[at + 32 + i / 8], i % 8));
                lemma_match_row(self.data@, self.n as int, g as int, i, hi, lo);
                lemma_not_bit(hi, i as u64);
                lemma_not_bit(lo, i as u64);
                lemma_match_bits(hi_d, lo_d, i as u64);
                lemma_zero_word(i as u64);
            }
        }
        word
    }
}

proof fn lemma_zero_word(i: u64)
    by (bit_vector)
    ensures
        (0u64 >> i) & 1 == 0,
{
}

impl<'a, const B_SIZE: usize> RSQVectorView<'a, B_SIZE> {
    /// How many of the first `p` rows have digit `d`.
    pub fn rank_unchecked(&self, d: u8, p: usize) -> (k: usize)
        requires
            self.valid(),
            d < 4,
            p <= self.content().len(),
        ensures
            k == count(self.content(), d, p as int),
    {
        let ghost rows = self.content();
        let ghost b512 = Self::b512();
        proof {
            self.lemma_content();
        }
        let (s, b, first) = locate(B_SIZE == 512, p);
        let w: u128 = self.superblock_word(s, d);
        proof {
            lemma_word_parts(rows, b512, d, s as int);
        }
        let g: u64 = word_count(w);
        let ghost start = super_start(b512, s as int);
        let mut before: u64 = g;
        proof {
            lemma_count_mono(rows, d, start, p as int);
            lemma_count_bounds(rows, d, p as int);
        }
        if b > 0 {
            let c: u64 = word_field(w, b);
            proof {
                let f = super_fields(rows, b512, d, s as int);
                assert(c == f[b - 1]);
                assert(c == super_field(rows, b512, d, s as int, b as int));
                lemma_count_mono(rows, d, start + block_start(b512, b as int), p as int);
            }
            before = g + c;
        }
        assert(before == count(rows, d, 64 * first));
        rank_from(self, d, first, before as usize, p)
    }

    /// How often every digit occurs in the first `p` rows.
    pub fn rank_all_unchecked(&self, p: usize) -> (r: [usize; 4])
        requires
            self.valid(),
            p <= self.content().len(),
        ensures
            forall|d: int|
                0 <= d < 4 ==> #[trigger] r@[d] == count(self.content(), d as u8, p as int),
    {
        [
            self.rank_unchecked(0, p),
            self.rank_unchecked(1, p),
            self.rank_unchecked(2, p),
            self.rank_unchecked(3, p),
        ]
    }

    /// Sample `j` of digit `d`.
    fn sample(&self, d: u8, j: usize) -> (x: u32)
        requires
            self.valid(),
            d < 4,
            j < sample_list(self.content(), Self::b512(), d).len(),
        ensures
            x == sample_list(self.content(), Self::b512(), d)[j as int],
            x < super_count(self.content().len() as int, Self::b512()),
    {
        let ghost rows = self.content();
        let ghost list = sample_list(rows, Self::b512(), d);
        proof {
            self.lemma_content();
            lemma_samples(rows, Self::b512(), d, rows.len() as int);
            assert forall|k: int| 0 <= k < list.len() implies 0 <= #[trigger] list[k] < super_count(
                rows.len() as int,
                Self::b512(),
            ) && list[k] < 0x1_0000_0000 by {
                let s = samples(rows, Self::b512(), d, rows.len() as int);
                if k < s.len() {
                    assert(list[k] == s[k]);
                }
            }
            lemma_u32_bytes_at(list, j as int);
        }
        let sel: &[u8] = self.select[d as usize];
        let total: usize = sel.len();
        assert(4 * j + 4 <= total);
        read_u32(sel, 4 * j)
    }

    /// The last block of superblock `s` that begins at or before occurrence `k`
    /// of `d`: its first group of rows, and the occurrences before it.
    fn block_before(&self, d: u8, s: usize, k: usize) -> (r: (usize, usize))
        requires
            self.valid(),
            d < 4,
            s < super_count(self.content().len() as int, Self::b512()),
            super_start(Self::b512(), s as int) <= self.content().len(),
            count(self.content(), d, super_start(Self::b512(), s as int)) <= k < count(
                self.content(),
                d,
                self.content().len() as int,
            ),
        ensures
            exists|b: int| #[trigger]
                is_last_block(self.content(), Self::b512(), d, s as int, k as int, b) && 64 * r.0
                    == super_start(Self::b512(), s as int) + block_start(Self::b512(), b),
            64 * r.0 <= self.content().len(),
            r.1 == count(self.content(), d, 64 * r.0),
            r.1 <= k,
    {
        let ghost rows = self.content();
        let ghost n = rows.len() as int;
        let ghost b512 = Self::b512();
        let ghost start = super_start(b512, s as int);
        let w: u128 = self.superblock_word(s, d);
        proof {
            self.lemma_content();
            lemma_word_parts(rows, b512, d, s as int);
        }
        let g: u64 = word_count(w);
        let mut b: usize = 0;
        let mut before: u64 = g;
        proof {
            lemma_count_bounds(rows, d, n);
            lemma_count_mono(rows, d, start, n);
        }
        while b < 7
            invariant
                b <= 7,
                self.valid(),
                d < 4,
                rows == self.content(),
                n == rows.len(),
                n < 0x1000_0000_0000,
                b512 == Self::b512(),
                start == super_start(b512, s as int),
                w == super_word(rows, b512, d, s as int),
                0 <= start,
                g == count(rows, d, start),
                g <= k < count(rows, d, n) <= n,
                start + block_start(b512, b as int) <= n,
                before == count(rows, d, start + block_start(b512, b as int)),
                before <= k,
            ensures
                start + block_start(b512, b as int) <= n,
                b <= 7,
                before == count(rows, d, start + block_start(b512, b as int)),
                before <= k,
                b < 7 ==> k < count(rows, d, min(start + block_start(b512, b + 1), n)),
            decreases 7 - b,
        {
            proof {
                lemma_word_parts(rows, b512, d, s as int);
                lemma_super_field(rows, b512, d, s as int, b + 1);
            }
            let c: u64 = word_field(w, b + 1);
            proof {
                let f = super_fields(rows, b512, d, s as int);
                assert(c == f[b as int]);
                assert(c == super_field(rows, b512, d, s as int, b + 1));
            }
            if g + c > k as u64 {
                break;
            }
            before = g + c;
            b = b + 1;
        }
        proof {
            assert forall|c: int| b < c < 8 implies k < count(
                rows,
                d,
                min(start + #[trigger] block_start(b512, c), n),
            ) by {
                lemma_count_mono(
                    rows,
                    d,
                    min(start + block_start(b512, b + 1), n),
                    min(start + block_start(b512, c), n),
                );
            }
            assert(is_last_block(rows, b512, d, s as int, k as int, b as int));
        }
        let first: usize = if B_SIZE == 512 {
            64 * s + 8 * b
        } else {
            32 * s + 4 * b
        };
        (first, before as usize)
    }

    /// The position of occurrence `k` of `d`, counting from zero.
    pub fn select(&self, d: u8, k: usize) -> (r: Option<usize>)
        requires
            self.valid(),
            d < 4,
        ensures
            match r {
                Some(p) => p < self.content().len() && self.content()[p as int] == d && count(
                    self.content(),
                    d,
                    p as int,
                ) == k,
                None => count(self.content(), d, self.content().len() as int) <= k,
            },
    {
        let ghost rows = self.content();
        let ghost n = rows.len() as int;
        let ghost b512 = Self::b512();
        proof {
            self.lemma_content();
            lemma_below_step(rows, d, n);
            lemma_below_bounds(rows, d as int, n);
            lemma_count_bounds(rows, d, n);
            assert(self.occs_smaller@[d as int] == below(rows, d as int, n));
            assert(self.occs_smaller@[d as int + 1] == below(rows, d as int + 1, n));
        }
        let total: usize = self.occs_smaller[d as usize + 1] - self.occs_smaller[d as usize];
        if k >= total {
            return None;
        }
        let j: usize = k / 8192;
        proof {
            lemma_samples(rows, b512, d, n);
        }
        let mut s: usize = self.sample(d, j) as usize;
        let last: usize = self.sample(d, j + 1) as usize;
        proof {
            let list = samples(rows, b512, d, n);
            assert(s == list[j as int]);
            assert(sampled(rows, b512, d, j as int, s as int));
            let p = choose|p: int| sample_at(rows, b512, d, j as int, s as int, p);
            lemma_count_mono(rows, d, super_start(b512, s as int), p);
        }
        while s < last
            invariant
                self.valid(),
                d < 4,
                rows == self.content(),
                n == rows.len(),
                n < 0x1000_0000_0000,
                b512 == Self::b512(),
                last < super_count(n, b512),
                s < super_count(n, b512),
                super_start(b512, s as int) <= n,
                count(rows, d, super_start(b512, s as int)) <= k < count(rows, d, n) <= n,
            ensures
                s < super_count(n, b512),
                super_start(b512, s as int) <= n,
                count(rows, d, super_start(b512, s as int)) <= k < count(rows, d, n),
            decreases last - s,
        {
            let w: u128 = self.superblock_word(s + 1, d);
            proof {
                lemma_word_parts(rows, b512, d, s + 1);
            }
            if word_count(w) > k as u64 {
                break;
            }
            s = s + 1;
        }
        let (first, before) = self.block_before(d, s, k);
        Some(select_from(self, d, first, before, k))
    }

    /// The number of rows.
    pub fn len(&self) -> (n: usize)
        ensures
            n == self.content().len(),
    {
        proof {
            self.lemma_content();
        }
        self.n
    }

    /// Whether there are no rows.
    pub fn is_empty(&self) -> (r: bool)
        ensures
            r == (self.content().len() == 0),
    {
        self.len() == 0
    }

    /// The digit of row `p`.
    pub fn get_unchecked(&self, p: usize) -> (d: u8)
        requires
            self.valid(),
            p < self.content().len(),
        ensures
            d == self.content()[p as int],
            d < 4,
    {
        proof {
            self.lemma_content();
            lemma_row_at(self.data@, self.n as int, p as int);
        }
        row_at(self.data, p)
    }

    /// How many rows have a digit smaller than `d`.
    pub fn occs_smaller_unchecked(&self, d: u8) -> (k: usize)
        requires
            self.valid(),
            d <= 4,
        ensures
            k == below(self.content(), d as int, self.content().len() as int),
    {
        proof {
            self.lemma_content();
        }
        self.occs_smaller[d as usize]
    }
}

/// The row that data lines hold at position `p`.
pub(crate) fn row_at(data: &[u8], p: usize) -> (d: u8)
    requires
        64 * (p as int / 256) + 64 <= data@.len(),
    ensures
        d == packed_row(data@, p as int),
        d < 4,
{
    let q: usize = 64 * (p / 256) + (p % 256) / 8;
    let t: u8 = (p % 8) as u8;
    let hi: u8 = (data[q] >> t) & 1;
    let lo: u8 = (data[q + 32] >> t) & 1;
    if hi == 1 {
        if lo == 1 {
            3
        } else {
            2
        }
    } else {
        if lo == 1 {
            1
        } else {
            0
        }
    }
}

impl<'a, const B_SIZE: usize> DigitLevel for RSQVectorView<'a, B_SIZE> {
    open spec fn digits(&self) -> Seq<u8> {
        self.content()
    }

    open spec fn wf(&self) -> bool {
        self.valid()
    }

    open spec fn digit_bits() -> u32 {
        2
    }

    proof fn lemma_level(&self) {
        self.lemma_content();
        assert(radix_of(2) == 4);
    }

    fn bits() -> (b: u32) {
        2
    }

    fn level_len(&self) -> (n: usize) {
        self.len()
    }

    fn digit(&self, p: usize) -> (d: u8) {
        self.get_unchecked(p)
    }

    fn digit_rank(&self, d: u8, p: usize) -> (k: usize) {
        self.rank_unchecked(d, p)
    }

    fn digits_smaller(&self, d: u8) -> (k: usize) {
        self.occs_smaller_unchecked(d)
    }

    fn digit_select(&self, d: u8, k: usize) -> (r: Option<usize>) {
        self.select(d, k)
    }
}

/// Where a slice begins in memory.
///
/// Calls `<[u8]>::as_ptr`. Nothing is stated of the result: it depends on where
/// the bytes happen to lie.
#[verifier::external_body]
pub(crate) fn slice_address(bytes: &[u8]) -> (addr: usize) {
    bytes.as_ptr() as usize
}

/// The slice can be found to begin at `addr`.
pub closed spec fn begins_at(bytes: &[u8], addr: usize) -> bool {
    call_ensures(slice_address, (bytes,), addr)
}

/// What [`slice_address`] gives is where the slice begins.
pub(crate) proof fn lemma_begins_at(bytes: &[u8], addr: usize)
    requires
        call_ensures(slice_address, (bytes,), addr),
    ensures
        begins_at(bytes, addr),
{
}

/// Where a slice begins is what [`slice_address`] gives.
pub(crate) proof fn lemma_address(bytes: &[u8], addr: usize)
    requires
        begins_at(bytes, addr),
    ensures
        call_ensures(slice_address, (bytes,), addr),
{
}

/// The bytes of `count` elements at an offset, where they lie inside.
fn section<'a>(bytes: &'a [u8], off: u64, count: u32, elem: usize) -> (r: Result<
    &'a [u8],
    LayoutError,
>)
    requires
        elem == 64 || elem == 4,
    ensures
        match r {
            Ok(s) => off + elem * count <= bytes@.len() && s@ == bytes@.subrange(
                off as int,
                off + elem * count,
            ),
            Err(e) => off + elem * count > bytes@.len() && e == LayoutError::Truncated,
        },
{
    let total: usize = bytes.len();
    if off > total as u64 || elem as u64 * count as u64 > (total - off as usize) as u64 {
        return Err(LayoutError::Truncated);
    }
    let start: usize = off as usize;
    Ok(vstd::slice::slice_subrange(bytes, start, start + elem * count as usize))
}

/// Whether an offset is a multiple of 64 behind an address.
fn lines_aligned(addr: usize, off: u64) -> (r: bool)
    ensures
        r == ((addr + off) % 64 == 0),
{
    (addr as u64 % 64 + off % 64) % 64 == 0
}

/// Whether an offset is a multiple of 4 behind an address.
fn words_aligned(addr: usize, off: u64) -> (r: bool)
    ensures
        r == ((addr + off) % 4 == 0),
{
    (addr as u64 % 4 + off % 4) % 4 == 0
}

/// The sections are those of a level with `n` rows, and so are the counts.
pub open spec fn sections_ok(
    b512: bool,
    n: int,
    data: Seq<u8>,
    superblocks: Seq<u8>,
    select: Seq<Seq<u8>>,
    occs_smaller: Seq<usize>,
) -> bool {
    &&& 0 <= n <= MAX_LEVEL_ROWS
    &&& encodes_level(rows_of(data, n), b512, data, superblocks, select)
    &&& forall|d: int|
        0 <= d < 5 ==> #[trigger] occs_smaller[d] == below(rows_of(data, n), d, n)
}

impl<'a, const B_SIZE: usize> RSQVectorView<'a, B_SIZE> {
    /// The level of sections that are known to agree.
    pub fn from_sections(
        data: &'a [u8],
        superblocks: &'a [u8],
        select: [&'a [u8]; 4],
        n: usize,
        occs_smaller: [usize; 5],
    ) -> (level: Self)
        requires
            sections_ok(
                Self::b512(),
                n as int,
                data@,
                superblocks@,
                Seq::new(4, |d: int| select@[d]@),
                occs_smaller@,
            ),
        ensures
            level.valid(),
            level.content() == rows_of(data@, n as int),
    {
        let level = RSQVectorView { data, superblocks, select, n, occs_smaller };
        proof {
            reveal(RSQVectorView::valid);
            assert(level.select_bytes() =~= Seq::new(4, |d: int| select@[d]@));
        }
        level
    }

    /// Opens the level of a directory entry. `addr` is the address at which the
    /// bytes begin.
    pub fn from_dir(bytes: &'a [u8], addr: usize, dir: &LevelDir) -> (r: Result<Self, LayoutError>)
        ensures
            match r {
                Ok(level) => {
                    &&& dir_error(bytes@, addr as int, dir@, Self::b512()) is None
                    &&& level.valid()
                    &&& level.content() == dir_rows(bytes@, dir@)
                },
                Err(e) => dir_error(bytes@, addr as int, dir@, Self::b512()) == Some(e),
            },
    {
        let ghost d = dir@;
        let ghost s = bytes@;
        let ghost b512 = Self::b512();
        let total: usize = bytes.len();
        let data = section(bytes, dir.off_data, dir.n_datalines, 64)?;
        let superblocks = section(bytes, dir.off_superblocks, dir.n_superblocks, 64)?;
        assert(d.off_sel[0] == dir.off_sel@[0] && d.n_sel[0] == dir.n_sel@[0]);
        assert(d.off_sel[1] == dir.off_sel@[1] && d.n_sel[1] == dir.n_sel@[1]);
        assert(d.off_sel[2] == dir.off_sel@[2] && d.n_sel[2] == dir.n_sel@[2]);
        assert(d.off_sel[3] == dir.off_sel@[3] && d.n_sel[3] == dir.n_sel@[3]);
        let sel0 = section(bytes, dir.off_sel[0], dir.n_sel[0], 4)?;
        let sel1 = section(bytes, dir.off_sel[1], dir.n_sel[1], 4)?;
        let sel2 = section(bytes, dir.off_sel[2], dir.n_sel[2], 4)?;
        let sel3 = section(bytes, dir.off_sel[3], dir.n_sel[3], 4)?;
        assert(dir_inside(d, s.len() as int));
        if !lines_aligned(addr, dir.off_data) || !lines_aligned(addr, dir.off_superblocks)
            || !words_aligned(addr, dir.off_sel[0]) || !words_aligned(addr, dir.off_sel[1])
            || !words_aligned(addr, dir.off_sel[2]) || !words_aligned(addr, dir.off_sel[3]) {
            return Err(LayoutError::Misaligned);
        }
        assert(dir_aligned(d, addr as int));
        let rows: u64 = dir.position_bits / 2;
        if dir.position_bits % 2 != 0 || rows > usize::MAX as u64 || rows / 256 + (if rows % 256
            == 0 {
            0
        } else {
            1u64
        }) != dir.n_datalines as u64 {
            return Err(LayoutError::Inconsistent { detail: "invalid position metadata" });
        }
        assert(dir_positions(d));
        let n: usize = rows as usize;
        let select: [&'a [u8]; 4] = [sel0, sel1, sel2, sel3];
        let audit: LevelAudit = audit_level(B_SIZE == 512, n, data, superblocks, select);
        let ghost content = dir_rows(s, d);
        proof {
            lemma_rows_len(data@, n as int);
        }
        if dir.n_superblocks != audit.summary.n_superblocks {
            return Err(LayoutError::Inconsistent { detail: "invalid superblock metadata" });
        }
        let mut k: usize = 0;
        let mut occs_smaller: [usize; 5] = [0, 0, 0, 0, 0];
        while k < 5
            invariant
                k <= 5,
                d == dir@,
                s == bytes@,
                content == dir_rows(s, d),
                n == dir_len(d),
                content.len() == n,
                b512 == Self::b512(),
                summarizes(audit.summary, content, b512),
                dir_inside(d, s.len() as int),
                dir_aligned(d, addr as int),
                dir_positions(d),
                d.n_superblocks == super_count(n as int, b512),
                forall|j: int|
                    0 <= j < k ==> #[trigger] d.n_occs_smaller[j] == below(content, j, n as int),
                forall|j: int|
                    0 <= j < k ==> #[trigger] occs_smaller@[j] == below(content, j, n as int),
            decreases 5 - k,
        {
            proof {
                assert(audit.summary.n_occs_smaller@[k as int] == below(
                    content,
                    k as int,
                    n as int,
                ));
                lemma_below_bounds(content, k as int, n as int);
                assert(d.n_occs_smaller[k as int] == dir.n_occs_smaller@[k as int]);
            }
            if dir.n_occs_smaller[k] != audit.summary.n_occs_smaller[k] {
                return Err(LayoutError::Inconsistent { detail: "invalid occurrence metadata" });
            }
            occs_smaller[k] = audit.summary.n_occs_smaller[k] as usize;
            k = k + 1;
        }
        proof {
            assert(select@[0]@ == dir_select(s, d, 0));
            assert(select@[1]@ == dir_select(s, d, 1));
            assert(select@[2]@ == dir_select(s, d, 2));
            assert(select@[3]@ == dir_select(s, d, 3));
            assert forall|j: int| 0 <= j < 4 implies #[trigger] select@[j]@ == dir_select(
                s,
                d,
                j,
            ) by {}
        }
        if !audit.select_ok {
            proof {
                let j = choose|j: int|
                    0 <= j < 4 && #[trigger] select@[j]@ != u32_bytes(
                        sample_list(content, b512, j as u8),
                    );
                assert(dir_select(s, d, j) != u32_bytes(sample_list(content, b512, j as u8)));
            }
            return Err(LayoutError::Inconsistent { detail: "invalid select-sample metadata" });
        }
        assert forall|j: int| 0 <= j < 4 implies #[trigger] dir_select(s, d, j) == u32_bytes(
            sample_list(content, b512, j as u8),
        ) by {
            assert(select@[j]@ == dir_select(s, d, j));
        }
        if !audit.data_ok {
            return Err(LayoutError::Inconsistent { detail: "invalid data-line padding" });
        }
        if !audit.superblocks_ok {
            return Err(LayoutError::Inconsistent { detail: "invalid rank-support data" });
        }
        let level = RSQVectorView { data, superblocks, select, n, occs_smaller };
        proof {
            reveal(RSQVectorView::valid);
            assert(level.content() == content);
            assert forall|j: int| 0 <= j < 4 implies #[trigger] level.select_bytes()[j]
                == u32_bytes(sample_list(content, b512, j as u8)) by {
                assert(select@[j]@ == dir_select(s, d, j));
            }
        }
        Ok(level)
    }
}

} // verus!
