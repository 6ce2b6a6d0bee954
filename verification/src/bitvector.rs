//! Bit vectors with rank and select.

use vstd::prelude::*;

use crate::builder::LevelBuild;
use crate::kernel::bit;
use crate::level::DigitLevel;
use crate::wavelet::{below, count, digits_below, lemma_below_zero};
use crate::words::{rank_from, select_from, WordGroups};

verus! {

/// The bits held in the low bits of words.
pub open spec fn bits_of(words: Seq<u64>, n: int) -> Seq<bool> {
    Seq::new(n as nat, |i: int| bit(words[i / 64], i % 64))
}

/// Bits as digits.
pub open spec fn bit_digits(bits: Seq<bool>) -> Seq<u8> {
    Seq::new(
        bits.len(),
        |i: int|
            if bits[i] {
                1u8
            } else {
                0u8
            },
    )
}

/// A bit vector under construction.
#[derive(Clone, Debug, PartialEq, Eq)]
pub struct BitVectorMut {
    words: Vec<u64>,
    n: usize,
}

/// A bit vector.
#[derive(Clone, Debug, PartialEq, Eq)]
pub struct BitVector {
    words: Vec<u64>,
    n: usize,
}

proof fn lemma_set_bit(word: u64, i: u64, j: u64)
    by (bit_vector)
    requires
        i < 64,
        j < 64,
    ensures
        ((word | (1u64 << i)) >> j) & 1 == if i == j {
            1
        } else {
            (word >> j) & 1
        },
{
}

proof fn lemma_zero_bit(j: u64)
    by (bit_vector)
    ensures
        (0u64 >> j) & 1 == 0,
{
}

proof fn lemma_not_bit(word: u64, j: u64)
    by (bit_vector)
    requires
        j < 64,
    ensures
        ((!word) >> j) & 1 == 1 <==> !((word >> j) & 1 == 1),
{
}

impl BitVectorMut {
    pub closed spec fn wf(&self) -> bool {
        &&& 64 * (self.words.len() - 1) < self.n <= 64 * self.words.len() || (self.n == 0
            && self.words.len() == 0)
        &&& forall|i: int|
            self.n <= i < 64 * self.words.len() ==> !#[trigger] bit(self.words[i / 64], i % 64)
    }

    pub closed spec fn bits(&self) -> Seq<bool> {
        bits_of(self.words@, self.n as int)
    }

    /// An empty bit vector.
    pub fn new() -> (bv: Self)
        ensures
            bv.wf(),
            bv.bits() == Seq::<bool>::empty(),
    {
        let bv = BitVectorMut { words: Vec::new(), n: 0 };
        assert(bv.bits() =~= Seq::<bool>::empty());
        bv
    }

    /// Appends a bit.
    pub fn push(&mut self, b: bool)
        requires
            old(self).wf(),
            old(self).bits().len() < usize::MAX,
        ensures
            final(self).wf(),
            final(self).bits() == old(self).bits().push(b),
    {
        let ghost before = self.bits();
        if self.n % 64 == 0 {
            proof {
                lemma_zero_bit(0);
            }
            self.words.push(0);
            assert forall|i: int| self.n <= i < 64 * self.words.len() implies !#[trigger] bit(
                self.words[i / 64],
                i % 64,
            ) by {
                lemma_zero_bit((i % 64) as u64);
            }
        }
        let w: usize = self.n / 64;
        let at: u64 = (self.n % 64) as u64;
        let ghost words = self.words@;
        if b {
            let word: u64 = self.words[w];
            self.words[w] = word | (1u64 << at);
        }
        self.n = self.n + 1;
        proof {
            assert forall|i: int| 0 <= i < 64 * words.len() implies #[trigger] bit(
                self.words[i / 64],
                i % 64,
            ) == (if i == self.n - 1 {
                b
            } else {
                bit(words[i / 64], i % 64)
            }) by {
                if i / 64 == w {
                    lemma_set_bit(words[w as int], at, (i % 64) as u64);
                }
            }
            assert forall|i: int| 0 <= i < self.n - 1 implies before[i] == bit(
                words[i / 64],
                i % 64,
            ) by {}
            assert(self.bits() =~= before.push(b));
        }
    }
}

impl BitVector {
    pub closed spec fn wf(&self) -> bool {
        &&& self.n <= 64 * self.words.len()
        &&& 64 * self.words.len() < self.n + 64
    }

    pub closed spec fn bits(&self) -> Seq<bool> {
        bits_of(self.words@, self.n as int)
    }

    /// Freezes a bit vector.
    pub fn from(bv: BitVectorMut) -> (r: Self)
        requires
            bv.wf(),
        ensures
            r.wf(),
            r.bits() == bv.bits(),
    {
        BitVector { words: bv.words, n: bv.n }
    }

    /// The number of bits.
    pub fn len(&self) -> (n: usize)
        requires
            self.wf(),
        ensures
            n == self.bits().len(),
    {
        self.n
    }

    /// Bit `i`, or `None` out of bounds.
    pub fn get(&self, i: usize) -> (b: Option<bool>)
        requires
            self.wf(),
        ensures
            b == if i < self.bits().len() {
                Some(self.bits()[i as int])
            } else {
                None
            },
    {
        if i >= self.n {
            return None;
        }
        let at: u64 = (i % 64) as u64;
        Some((self.words[i / 64] >> at) & 1 == 1)
    }
}

impl WordGroups for BitVector {
    open spec fn rows(&self) -> Seq<u8> {
        bit_digits(self.bits())
    }

    open spec fn words_wf(&self) -> bool {
        self.wf()
    }

    fn match_word(&self, g: usize, d: u8) -> (word: u64) {
        let raw: u64 = self.words[g];
        let word: u64 = if d == 1 {
            raw
        } else if d == 0 {
            !raw
        } else {
            0
        };
        proof {
            assert forall|i: int| 0 <= i < 64 && 64 * g + i < self.rows().len() implies (
            #[trigger] bit(word, i) <==> self.rows()[64 * g + i] == d) by {
                lemma_not_bit(raw, i as u64);
                lemma_zero_bit(i as u64);
                assert((64 * g + i) / 64 == g && (64 * g + i) % 64 == i);
            }
        }
        word
    }
}

/// How many rows one rank counter covers.
pub const RANK_BLOCK: usize = 512;

/// A bit vector with rank and select: a counter of ones in front of every
/// block of rows.
#[derive(Clone, Debug, PartialEq, Eq)]
pub struct RSWide {
    bv: BitVector,
    ranks: Vec<usize>,
    n_ones: usize,
}

impl RSWide {
    /// The bits.
    pub closed spec fn bits(&self) -> Seq<bool> {
        self.bv.bits()
    }

    /// Adds the rank counters to a bit vector.
    pub fn from(bv: BitVector) -> (r: Self)
        requires
            bv.wf(),
        ensures
            r.wf(),
            r.bits() == bv.bits(),
    {
        let n: usize = bv.len();
        let ghost rows = bv.rows();
        let mut ranks: Vec<usize> = Vec::new();
        let mut sum: usize = 0;
        let mut block: usize = 0;
        let n_blocks: usize = n / RANK_BLOCK;
        ranks.push(0);
        while block < n_blocks
            invariant
                bv.wf(),
                rows == bv.rows(),
                n == rows.len(),
                n_blocks == n / RANK_BLOCK,
                block <= n_blocks,
                ranks.len() == block + 1,
                sum == count(rows, 1, RANK_BLOCK * block),
                forall|b: int|
                    0 <= b <= block ==> #[trigger] ranks[b] == count(rows, 1, RANK_BLOCK * b),
            decreases n_blocks - block,
        {
            sum = rank_from(&bv, 1, 8 * block, sum, RANK_BLOCK * (block + 1));
            ranks.push(sum);
            block = block + 1;
        }
        let n_ones: usize = rank_from(&bv, 1, 8 * n_blocks, sum, n);
        RSWide { bv, ranks, n_ones }
    }

    /// The number of bits.
    pub fn len(&self) -> (n: usize)
        requires
            self.wf(),
        ensures
            n == self.bits().len(),
    {
        self.bv.len()
    }

    /// Bit `i`, or `None` out of bounds.
    pub fn get(&self, i: usize) -> (b: Option<bool>)
        requires
            self.wf(),
        ensures
            b == if i < self.bits().len() {
                Some(self.bits()[i as int])
            } else {
                None
            },
    {
        self.bv.get(i)
    }

    /// The number of ones among the first `i` bits, or `None` out of bounds.
    pub fn rank1(&self, i: usize) -> (k: Option<usize>)
        requires
            self.wf(),
        ensures
            match k {
                Some(k) => i <= self.bits().len() && k == count(
                    bit_digits(self.bits()),
                    1,
                    i as int,
                ),
                None => i > self.bits().len(),
            },
    {
        if i > self.bv.len() {
            return None;
        }
        let block: usize = i / RANK_BLOCK;
        Some(rank_from(&self.bv, 1, 8 * block, self.ranks[block], i))
    }

    /// The number of zeros.
    pub fn count_zeros(&self) -> (k: usize)
        requires
            self.wf(),
        ensures
            k == count(bit_digits(self.bits()), 0, self.bits().len() as int),
    {
        proof {
            lemma_zeros(self.bits(), self.bits().len() as int);
        }
        self.bv.len() - self.n_ones
    }
}

/// What is not one is zero.
pub proof fn lemma_zeros(bits: Seq<bool>, i: int)
    requires
        0 <= i <= bits.len(),
    ensures
        count(bit_digits(bits), 0, i) + count(bit_digits(bits), 1, i) == i,
        below(bit_digits(bits), 1, i) == count(bit_digits(bits), 0, i),
        0 <= count(bit_digits(bits), 1, i),
        0 <= count(bit_digits(bits), 0, i),
    decreases i,
{
    if i > 0 {
        lemma_zeros(bits, i - 1);
    }
}

impl DigitLevel for RSWide {
    open spec fn digits(&self) -> Seq<u8> {
        bit_digits(self.bits())
    }

    closed spec fn wf(&self) -> bool {
        let rows = self.bv.rows();
        &&& self.bv.wf()
        &&& self.ranks.len() == rows.len() as int / RANK_BLOCK as int + 1
        &&& forall|b: int|
            0 <= b < self.ranks.len() ==> #[trigger] self.ranks[b] == count(
                rows,
                1,
                RANK_BLOCK * b,
            )
        &&& self.n_ones == count(rows, 1, rows.len() as int)
    }

    open spec fn digit_bits() -> u32 {
        1
    }

    proof fn lemma_level(&self) {
    }

    fn bits() -> (b: u32) {
        1
    }

    fn level_len(&self) -> (n: usize) {
        self.bv.len()
    }

    fn digit(&self, p: usize) -> (d: u8) {
        match self.bv.get(p) {
            Some(true) => 1,
            _ => 0,
        }
    }

    fn digit_rank(&self, d: u8, p: usize) -> (k: usize) {
        let block: usize = p / RANK_BLOCK;
        let k1: usize = rank_from(&self.bv, 1, 8 * block, self.ranks[block], p);
        proof {
            lemma_zeros(self.bits(), p as int);
        }
        if d == 1 {
            k1
        } else {
            p - k1
        }
    }

    fn digits_smaller(&self, d: u8) -> (k: usize) {
        proof {
            lemma_below_zero(self.digits(), self.digits().len() as int);
            lemma_zeros(self.bits(), self.bits().len() as int);
        }
        if d == 0 {
            0
        } else {
            self.bv.len() - self.n_ones
        }
    }

    fn digit_select(&self, d: u8, k: usize) -> (r: Option<usize>) {
        let n: usize = self.bv.len();
        let ghost rows = self.bv.rows();
        proof {
            lemma_zeros(self.bits(), self.bits().len() as int);
        }
        let total: usize = if d == 1 {
            self.n_ones
        } else {
            n - self.n_ones
        };
        if k >= total {
            return None;
        }
        let mut lo: usize = 0;
        let mut hi: usize = self.ranks.len();
        let mut before: usize = 0;
        while hi - lo > 1
            invariant
                self.wf(),
                rows == self.bv.rows(),
                rows == self.digits(),
                n == rows.len(),
                d == 0 || d == 1,
                lo < hi <= self.ranks.len(),
                before == count(rows, d, RANK_BLOCK * lo),
                before <= k,
            decreases hi - lo,
        {
            let mid: usize = lo + (hi - lo) / 2;
            proof {
                assert(self.ranks[mid as int] == count(rows, 1, RANK_BLOCK * mid));
                lemma_zeros(self.bits(), RANK_BLOCK * mid);
            }
            let at: usize = if d == 1 {
                self.ranks[mid]
            } else {
                RANK_BLOCK * mid - self.ranks[mid]
            };
            if at <= k {
                lo = mid;
                before = at;
            } else {
                hi = mid;
            }
        }
        Some(select_from(&self.bv, d, 8 * lo, before, k))
    }
}

impl LevelBuild for RSWide {
    open spec fn max_len() -> int {
        0x800_0000_0000
    }

    fn from_digits(digits: Vec<u8>) -> (level: Self) {
        let mut bv: BitVectorMut = BitVectorMut::new();
        let mut i: usize = 0;
        while i < digits.len()
            invariant
                i <= digits.len(),
                digits_below(digits@, 2),
                bv.wf(),
                bv.bits().len() == i,
                forall|j: int| 0 <= j < i ==> #[trigger] bv.bits()[j] == (digits[j] == 1),
            decreases digits.len() - i,
        {
            bv.push(digits[i] == 1);
            i = i + 1;
        }
        let level: RSWide = RSWide::from(BitVector::from(bv));
        assert(level.digits() =~= digits@);
        level
    }
}

} // verus!
