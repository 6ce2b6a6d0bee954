//! Rank and select inside a run of 64-row words.

use vstd::prelude::*;

use crate::kernel::{
    bit, lemma_ones_bounds, lemma_ones_mono, ones, rank_in_word, scalar_popcount_u64,
};
use crate::utils::select_in_word;
use crate::wavelet::{count, lemma_count_bounds};

verus! {

/// `word` tells which of the rows from `64 * g` on have digit `d`.
pub open spec fn matches_group(rows: Seq<u8>, word: u64, g: int, d: u8) -> bool {
    forall|i: int|
        0 <= i < 64 && 64 * g + i < rows.len() ==> (#[trigger] bit(word, i) <==> rows[64 * g + i]
            == d)
}

/// Rows that can be asked, 64 at a time, which of them have a digit.
pub trait WordGroups {
    spec fn rows(&self) -> Seq<u8>;

    spec fn words_wf(&self) -> bool;

    fn match_word(&self, g: usize, d: u8) -> (word: u64)
        requires
            self.words_wf(),
            64 * g < self.rows().len(),
            self.rows().len() <= usize::MAX,
        ensures
            matches_group(self.rows(), word, g as int, d),
    ;
}

/// Counting in a word is counting in its rows.
pub proof fn lemma_group_count(rows: Seq<u8>, word: u64, g: int, d: u8, i: int)
    requires
        matches_group(rows, word, g, d),
        0 <= g,
        0 <= i <= 64,
        64 * g + i <= rows.len(),
    ensures
        count(rows, d, 64 * g + i) == count(rows, d, 64 * g) + ones(word, i),
    decreases i,
{
    if i > 0 {
        lemma_group_count(rows, word, g, d, i - 1);
        assert(bit(word, i - 1) <==> rows[64 * g + i - 1] == d);
    }
}

/// How many of the first `p` rows have digit `d`, given how many of those
/// before group `g` have it.
pub fn rank_from<W: WordGroups>(words: &W, d: u8, g: usize, before: usize, p: usize) -> (k: usize)
    requires
        words.words_wf(),
        words.rows().len() <= usize::MAX,
        64 * g <= p <= words.rows().len(),
        before == count(words.rows(), d, 64 * g),
    ensures
        k == count(words.rows(), d, p as int),
{
    let ghost rows = words.rows();
    let mut cur: usize = g;
    let mut k: usize = before;
    while p - 64 * cur >= 64
        invariant
            rows == words.rows(),
            words.words_wf(),
            rows.len() <= usize::MAX,
            64 * cur <= p <= rows.len(),
            k == count(rows, d, 64 * cur),
        decreases p - 64 * cur,
    {
        let word: u64 = words.match_word(cur, d);
        proof {
            lemma_group_count(rows, word, cur as int, d, 64);
            lemma_count_bounds(rows, d, 64 * cur + 64);
        }
        k = k + scalar_popcount_u64(word);
        cur = cur + 1;
    }
    let rest: usize = p - 64 * cur;
    if rest > 0 {
        let word: u64 = words.match_word(cur, d);
        proof {
            lemma_group_count(rows, word, cur as int, d, rest as int);
            lemma_count_bounds(rows, d, p as int);
        }
        k = k + rank_in_word(word, rest as u32);
    }
    k
}

/// The position of occurrence `k` of `d`, given how many occurrences there are
/// before group `g`.
pub fn select_from<W: WordGroups>(words: &W, d: u8, g: usize, before: usize, k: usize) -> (p: usize)
    requires
        words.words_wf(),
        words.rows().len() <= usize::MAX,
        64 * g <= words.rows().len(),
        before == count(words.rows(), d, 64 * g),
        before <= k < count(words.rows(), d, words.rows().len() as int),
    ensures
        p < words.rows().len(),
        words.rows()[p as int] == d,
        count(words.rows(), d, p as int) == k,
{
    let ghost rows = words.rows();
    let ghost n = rows.len() as int;
    let mut cur: usize = g;
    let mut seen: usize = before;
    loop
        invariant
            rows == words.rows(),
            n == rows.len(),
            words.words_wf(),
            rows.len() <= usize::MAX,
            64 * cur <= n,
            seen == count(rows, d, 64 * cur),
            seen <= k < count(rows, d, n),
        decreases n - 64 * cur,
    {
        proof {
            if 64 * cur == n {
                assert(false);
            }
        }
        let word: u64 = words.match_word(cur, d);
        let here: usize = scalar_popcount_u64(word);
        proof {
            lemma_ones_bounds(word, 64);
        }
        if here <= k - seen {
            proof {
                if 64 * cur + 64 > n {
                    let m = n - 64 * cur;
                    lemma_group_count(rows, word, cur as int, d, m);
                    lemma_ones_mono(word, m, 64);
                }
                lemma_group_count(rows, word, cur as int, d, 64);
            }
            seen = seen + here;
            cur = cur + 1;
        } else {
            let at: u32 = select_in_word(word, (k - seen) as u64);
            proof {
                assert(at < 64);
                if 64 * cur + at >= n {
                    let m = n - 64 * cur;
                    lemma_group_count(rows, word, cur as int, d, m);
                    lemma_ones_mono(word, m, at as int);
                }
                lemma_group_count(rows, word, cur as int, d, at as int);
            }
            return 64 * cur + at as usize;
        }
    }
}

} // verus!
