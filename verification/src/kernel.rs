//! Counting the ones of a machine word.

use vstd::prelude::*;

verus! {

/// Bit `i` of `word` is set.
pub open spec fn bit(word: u64, i: int) -> bool {
    (word >> (i as u64)) & 1 == 1
}

/// How many of the low `i` bits of `word` are set.
pub open spec fn ones(word: u64, i: int) -> int
    decreases i,
{
    if i <= 0 {
        0
    } else {
        ones(word, i - 1) + if bit(word, i - 1) {
            1int
        } else {
            0int
        }
    }
}

/// `u64::count_ones` returns the number of ones in the binary representation
/// of the word.
pub assume_specification[ u64::count_ones ](word: u64) -> (r: u32)
    ensures
        r == ones(word, 64),
;

/// Which implementation of the population count a host runs.
#[derive(Clone, Copy, Debug, Eq, PartialEq, Structural)]
pub enum PopcountPath {
    Scalar,
    Popcnt,
}

/// The implementation for a host: the POPCNT instruction where the host has
/// it, the portable one elsewhere.
pub fn selected_popcount_path(has_popcnt: bool) -> (path: PopcountPath)
    ensures
        path == if has_popcnt {
            PopcountPath::Popcnt
        } else {
            PopcountPath::Scalar
        },
{
    if has_popcnt {
        PopcountPath::Popcnt
    } else {
        PopcountPath::Scalar
    }
}

/// The number of ones of `word`.
pub fn scalar_popcount_u64(word: u64) -> (r: usize)
    ensures
        r == ones(word, 64),
{
    word.count_ones() as usize
}

pub proof fn lemma_ones_bounds(word: u64, i: int)
    ensures
        0 <= ones(word, i),
        i >= 0 ==> ones(word, i) <= i,
    decreases i,
{
    if i > 0 {
        lemma_ones_bounds(word, i - 1);
    }
}

pub proof fn lemma_ones_mono(word: u64, i: int, j: int)
    requires
        0 <= i <= j,
    ensures
        ones(word, i) <= ones(word, j) <= ones(word, i) + (j - i),
    decreases j,
{
    if i < j {
        lemma_ones_mono(word, i, j - 1);
    }
}

proof fn lemma_mask_bit(word: u64, mask: u64, i: u64, j: u64)
    by (bit_vector)
    requires
        i < 64,
        j < 64,
        mask == (1u64 << i) - 1,
    ensures
        ((word & mask) >> j) & 1 == if j < i {
            (word >> j) & 1
        } else {
            0
        },
{
}

proof fn lemma_mask(word: u64, mask: u64, i: u64, j: int)
    requires
        i < 64,
        0 <= j <= 64,
        mask == (1u64 << i) - 1,
    ensures
        ones(word & mask, j) == ones(
            word,
            if j < i {
                j
            } else {
                i as int
            },
        ),
    decreases j,
{
    if j > 0 {
        lemma_mask(word, mask, i, j - 1);
        lemma_mask_bit(word, mask, i, (j - 1) as u64);
    }
}

/// How many of the low `i` bits of `word` are set.
pub fn rank_in_word(word: u64, i: u32) -> (r: usize)
    requires
        i <= 64,
    ensures
        r == ones(word, i as int),
{
    if i == 64 {
        scalar_popcount_u64(word)
    } else {
        let j: u64 = i as u64;
        assert(1u64 << j >= 1) by (bit_vector)
            requires
                j < 64,
        ;
        let mask: u64 = (1u64 << j) - 1;
        proof {
            lemma_mask(word, mask, j, 64);
        }
        scalar_popcount_u64(word & mask)
    }
}

} // verus!
