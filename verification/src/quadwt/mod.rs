//! Quad wavelet trees: levels of two bits of the symbols.

pub mod huffqwt;

use std::ops::Range;

use vstd::arithmetic::power::pow;
use vstd::arithmetic::power2::{lemma_pow2_strictly_increases, pow2};
use vstd::prelude::*;

use crate::binwt::{end_position, first_position, is_max, max_symbol, PositionBound};
use crate::builder::{build_levels, codes_of, left_behind, LevelBuild};
use crate::digits::{lemma_digits_of_value, lemma_radix_pow, lemma_value_bounds, radix_of, value};
use crate::extract::{plain_extract, plain_extract_distinct, plain_occs};
use crate::indexable::WTIndexable;
use crate::iter::{symbols_of, AccessUnsigned, WTIterator};
use crate::level::{level_digits, DigitLevel};
use crate::matrix::{lemma_plain_levels, lemma_plain_path, paths_of, plain_levels};
use crate::plain::{
    in_digits, plain_get, plain_get_and_rank, plain_rank, plain_select, plain_values, plain_wf,
    symbol_of,
};
use crate::qvector::RSQVector;
use crate::sorting::{
    count_all, dedup, lemma_dedup, lemma_occurrences_part, lemma_occurring_at, lemma_occurs,
    lemma_sort_counts,
};
use crate::tree::{
    ascending, count_sum, lemma_element, lemma_represents, lemma_represents_path, lemma_symbol_code,
    occs_ok, occurrences, represents,
};
use crate::utils::{lemma_msb_bounds, msb, msb_of};
use crate::wavelet::path;

verus! {

/// A quad vector that can be a level of a quad wavelet tree.
pub trait RSforWT: LevelBuild {
    proof fn lemma_quad()
        ensures
            Self::digit_bits() == 2,
    ;
}

impl<const B_SIZE: usize> RSforWT for RSQVector<B_SIZE> {
    proof fn lemma_quad() {
    }
}

/// The symbols as numbers.
pub open spec fn vals<T: WTIndexable>(s: Seq<T>) -> Seq<int> {
    s.map_values(|t: T| t.val() as int)
}

/// How many levels symbols up to `m` need.
pub open spec fn quad_levels(m: u64) -> int {
    msb_of(m) / 2 + 1
}

/// A quad wavelet tree over a sequence of unsigned integers.
pub struct QWaveletTree<T, RS> {
    n: usize,
    n_levels: usize,
    sigma: Option<T>,
    qvs: Vec<RS>,
}

/// A quad wavelet tree with blocks of 256 rows.
pub type QWT256<T> = QWaveletTree<T, RSQVector<256>>;

/// A quad wavelet tree with blocks of 512 rows.
pub type QWT512<T> = QWaveletTree<T, RSQVector<512>>;

/// Counting numbers is counting symbols.
pub proof fn lemma_vals_count<T: WTIndexable>(s: Seq<T>, t: T, i: int)
    requires
        0 <= i <= s.len(),
    ensures
        occurrences(vals(s), t.val() as int, i) == occurrences(s, t, i),
    decreases i,
{
    if i > 0 {
        lemma_vals_count(s, t, i - 1);
        s[i - 1].lemma_val();
        t.lemma_val();
    }
}

impl<T: WTIndexable, RS: RSforWT> QWaveletTree<T, RS> {
    /// The digits of the levels.
    pub closed spec fn levels(&self) -> Seq<Seq<u8>> {
        level_digits(self.qvs@)
    }

    /// The levels.
    pub closed spec fn quads(&self) -> Seq<RS> {
        self.qvs@
    }

    /// The number of levels.
    pub closed spec fn level_count(&self) -> nat {
        self.n_levels as nat
    }

    /// The represented sequence.
    pub closed spec fn seq(&self) -> Seq<T> {
        plain_values(self.levels(), self.n as int, 4).map_values(|v: int| symbol_of::<T>(v))
    }

    /// No symbol is larger than those of the sequence.
    pub closed spec fn knows(&self, t: T) -> bool {
        self.sigma is Some && t.val() <= self.sigma->0.val()
    }

    /// The largest symbol, zero where there is none.
    pub closed spec fn largest(&self) -> u64 {
        match self.sigma {
            Some(m) => m.val(),
            None => 0,
        }
    }

    /// The parts of the tree fit together.
    #[verifier::opaque]
    pub closed spec fn wf(&self) -> bool {
        &&& self.qvs.len() == self.n_levels
        &&& plain_wf(self.qvs@, self.n as int)
        &&& self.n == 0 ==> self.n_levels == 0 && self.sigma is None
        &&& self.n > 0 ==> {
            &&& self.sigma is Some
            &&& is_max(self.seq(), self.sigma->0)
            &&& self.n_levels == quad_levels(self.sigma->0.val())
        }
        &&& forall|i: int|
            0 <= i < self.n ==> (#[trigger] self.seq()[i]).val() == plain_values(
                self.levels(),
                self.n as int,
                4,
            )[i]
    }

    /// What a well-formed tree holds.
    pub proof fn lemma_wf(&self)
        requires
            self.wf(),
        ensures
            self.levels().len() == self.level_count(),
            self.quads().len() == self.level_count(),
            self.levels() == level_digits(self.quads()),
            plain_wf(self.quads(), self.seq().len() as int),
            plain_levels(self.levels(), self.seq().len() as int, 4),
            plain_values(self.levels(), self.seq().len() as int, 4) == vals(self.seq()),
            RS::digit_bits() == 2,
            self.level_count() <= 32,
            self.seq().len() == 0 <==> self.level_count() == 0,
            self.seq().len() > 0 ==> self.level_count() == quad_levels(self.largest()),
            self.seq().len() > 0 ==> exists|m: T| is_max(self.seq(), m) && m.val() == self.largest(),
            self.seq().len() == 0 ==> self.largest() == 0,
            self.largest() <= T::max_val(),
            self.seq().len() <= usize::MAX,
            forall|t: T|
                #[trigger] self.knows(t) <==> self.seq().len() > 0 && t.val() <= self.largest(),
    {
        reveal(QWaveletTree::wf);
        RS::lemma_quad();
        assert(plain_values(self.levels(), self.n as int, 4) =~= vals(self.seq())) by {
            assert forall|i: int| 0 <= i < self.n implies plain_values(
                self.levels(),
                self.n as int,
                4,
            )[i] == vals(self.seq())[i] by {
                assert(self.seq()[i].val() == plain_values(self.levels(), self.n as int, 4)[i]);
            }
        }
        if self.n > 0 {
            lemma_msb_bounds(self.sigma->0.val());
            self.sigma->0.lemma_val();
        }
    }

    /// The levels of a tree are those that its sequence gives rise to.
    pub proof fn lemma_represents(&self)
        requires
            self.wf(),
            self.seq().len() > 0,
        ensures
            represents(self.levels(), self.seq(), None, 2),
    {
        self.lemma_wf();
        let lv = self.levels();
        let n = self.n as int;
        let s = self.seq();
        let count = self.n_levels as int;
        lemma_plain_levels(lv, n, 4);
        let codes = codes_of(s, None, count, 2);
        assert forall|i: int| 0 <= i < n implies {
            &&& (#[trigger] s[i]).val() < pow2((2 * count) as nat)
            &&& codes[i] == path(lv, 0, i)
        } by {
            lemma_plain_path(lv, n, 4, 0, i);
            let p = path(lv, 0, i);
            lemma_value_bounds(p, 4);
            lemma_radix_pow(2, p.len());
            lemma_digits_of_value(p, 4);
            assert(vals(s)[i] == value(p, 4));
        }
        assert(codes =~= paths_of(lv, n));
    }

    /// A known symbol is written by as many digits as there are levels.
    pub proof fn lemma_known(&self, t: T)
        requires
            self.wf(),
            self.knows(t),
        ensures
            self.seq().len() > 0,
            self.level_count() > 0,
            in_digits(t.val() as int, self.level_count() as int, 4) == t.val(),
    {
        self.lemma_wf();
        let m = self.largest();
        lemma_msb_bounds(m);
        lemma_radix_pow(2, self.n_levels as nat);
        let e = 2 * self.n_levels;
        assert(2 as nat * self.n_levels as nat == e);
        if msb_of(m) + 1 < e {
            lemma_pow2_strictly_increases((msb_of(m) + 1) as nat, e as nat);
        }
        vstd::arithmetic::div_mod::lemma_small_mod(
            t.val() as nat,
            pow(4, self.n_levels as nat) as nat,
        );
    }

    /// The number of symbols.
    pub fn len(&self) -> (n: usize)
        ensures
            n == self.seq().len(),
    {
        self.n
    }

    /// Whether there are no symbols.
    pub fn is_empty(&self) -> (b: bool)
        ensures
            b == (self.seq().len() == 0),
    {
        self.n == 0
    }

    /// The number of levels.
    pub fn n_levels(&self) -> (l: usize)
        ensures
            l == self.level_count(),
    {
        self.n_levels
    }

    /// The levels.
    pub fn qvs(&self) -> (v: &Vec<RS>)
        ensures
            v@ == self.quads(),
    {
        &self.qvs
    }

    /// The largest symbol, zero where there is none.
    pub fn sigma_raw(&self) -> (t: T)
        requires
            self.wf(),
        ensures
            t.val() == self.largest(),
    {
        match self.sigma {
            Some(m) => m,
            None => {
                proof {
                    T::lemma_truncated(0);
                }
                T::from_u64(0)
            },
        }
    }

    /// The symbol at position `i`, or `None` out of bounds.
    pub fn get(&self, i: usize) -> (r: Option<T>)
        requires
            self.wf(),
        ensures
            r == if i < self.seq().len() {
                Some(self.seq()[i as int])
            } else {
                None
            },
    {
        if i >= self.n {
            return None;
        }
        Some(self.get_unchecked(i))
    }

    /// The symbol at position `i`, which must be in bounds.
    pub fn get_unchecked(&self, i: usize) -> (t: T)
        requires
            self.wf(),
            i < self.seq().len(),
        ensures
            t == self.seq()[i as int],
    {
        proof {
            self.lemma_wf();
        }
        T::from_u64(plain_get(&self.qvs, self.n, i))
    }

    /// How often `symbol` occurs before position `i`. `None` where `i` is out of
    /// bounds or the symbol is larger than all of the sequence.
    pub fn rank(&self, symbol: T, i: usize) -> (r: Option<usize>)
        requires
            self.wf(),
        ensures
            match r {
                Some(k) => {
                    &&& i <= self.seq().len()
                    &&& self.knows(symbol)
                    &&& k == occurrences(self.seq(), symbol, i as int)
                },
                None => i > self.seq().len() || !self.knows(symbol),
            },
    {
        match self.sigma {
            Some(m) => {
                if i > self.n || symbol.to_u64() > m.to_u64() {
                    return None;
                }
                Some(self.rank_unchecked(symbol, i))
            },
            None => None,
        }
    }

    /// How often `symbol`, which the tree must know, occurs before position
    /// `i`, which must be in bounds.
    pub fn rank_unchecked(&self, symbol: T, i: usize) -> (k: usize)
        requires
            self.wf(),
            i <= self.seq().len(),
            self.knows(symbol),
        ensures
            k == occurrences(self.seq(), symbol, i as int),
    {
        proof {
            self.lemma_wf();
            self.lemma_known(symbol);
            lemma_vals_count(self.seq(), symbol, i as int);
        }
        plain_rank(&self.qvs, self.n, symbol.to_u64(), i)
    }

    /// The position of occurrence `i` of `symbol`, counting from zero. `None`
    /// where there are not so many.
    pub fn select(&self, symbol: T, i: usize) -> (r: Option<usize>)
        requires
            self.wf(),
        ensures
            match r {
                Some(p) => {
                    &&& p < self.seq().len()
                    &&& self.seq()[p as int] == symbol
                    &&& occurrences(self.seq(), symbol, p as int) == i
                },
                None => occurrences(self.seq(), symbol, self.seq().len() as int) <= i,
            },
    {
        match self.sigma {
            Some(m) => {
                if symbol.to_u64() > m.to_u64() {
                    proof {
                        self.lemma_wf();
                        let n = self.seq().len() as int;
                        crate::tree::lemma_occurrences_bounds(self.seq(), symbol, n);
                        if occurrences(self.seq(), symbol, n) > 0 {
                            let p = lemma_occurring_at(self.seq(), symbol, n);
                            assert(self.seq()[p].val() <= self.largest());
                        }
                    }
                    return None;
                }
                proof {
                    self.lemma_wf();
                    self.lemma_known(symbol);
                    lemma_vals_count(self.seq(), symbol, self.n as int);
                }
                let r: Option<usize> = plain_select(&self.qvs, self.n, symbol.to_u64(), i);
                proof {
                    if let Some(p) = r {
                        lemma_vals_count(self.seq(), symbol, p as int);
                        assert(vals(self.seq())[p as int] == symbol.val());
                        self.seq()[p as int].lemma_val();
                        symbol.lemma_val();
                    }
                }
                r
            },
            None => {
                proof {
                    reveal(QWaveletTree::wf);
                }
                None
            },
        }
    }

    /// The position of occurrence `i` of `symbol`, which must exist.
    pub fn select_unchecked(&self, symbol: T, i: usize) -> (p: usize)
        requires
            self.wf(),
            i < occurrences(self.seq(), symbol, self.seq().len() as int),
        ensures
            p < self.seq().len(),
            self.seq()[p as int] == symbol,
            occurrences(self.seq(), symbol, p as int) == i,
    {
        let r: Option<usize> = self.select(symbol, i);
        r.unwrap()
    }

    /// The symbol at position `i` with the number of its occurrences up to and
    /// with `i`, or `None` out of bounds.
    pub fn get_and_rank(&self, i: usize) -> (r: Option<(T, usize)>)
        requires
            self.wf(),
        ensures
            match r {
                Some((t, k)) => {
                    &&& i < self.seq().len()
                    &&& t == self.seq()[i as int]
                    &&& k == occurrences(self.seq(), t, i + 1)
                },
                None => i >= self.seq().len(),
            },
    {
        if i >= self.n {
            return None;
        }
        Some(self.get_and_rank_unchecked(i))
    }

    /// The symbol at position `i`, which must be in bounds, with the number of
    /// its occurrences up to and with `i`.
    pub fn get_and_rank_unchecked(&self, i: usize) -> (r: (T, usize))
        requires
            self.wf(),
            i < self.seq().len(),
        ensures
            r.0 == self.seq()[i as int],
            r.1 == occurrences(self.seq(), r.0, i + 1),
    {
        proof {
            self.lemma_wf();
            lemma_vals_count(self.seq(), self.seq()[i as int], i + 1);
        }
        let (v, k) = plain_get_and_rank(&self.qvs, self.n, i);
        (T::from_u64(v), k)
    }

    /// The symbols of a range of positions in ascending order. Empty where the
    /// range is empty, reversed or out of bounds.
    pub fn extract_range(&self, range: Range<usize>) -> (out: Vec<T>)
        requires
            self.wf(),
        ensures
            out@ == if range.start < range.end <= self.seq().len() {
                vals(self.seq()).subrange(range.start as int, range.end as int).sort().map_values(
                    |v: int| symbol_of::<T>(v),
                )
            } else {
                Seq::empty()
            },
    {
        if range.start >= range.end || range.end > self.n {
            return Vec::new();
        }
        proof {
            self.lemma_wf();
        }
        plain_extract(&self.qvs, self.n, range.start, range.end)
    }

    /// The distinct symbols of a range of positions in ascending order. Empty
    /// where the range is empty, reversed or out of bounds.
    pub fn extract_range_distinct(&self, range: Range<usize>) -> (out: Vec<T>)
        requires
            self.wf(),
        ensures
            out@ == if range.start < range.end <= self.seq().len() {
                dedup(
                    vals(self.seq()).subrange(range.start as int, range.end as int).sort(),
                ).map_values(|v: int| symbol_of::<T>(v))
            } else {
                Seq::empty()
            },
    {
        let mut out: Vec<T> = Vec::new();
        self.extract_range_distinct_into(range, &mut out);
        out
    }

    /// Like `extract_range_distinct`, in place of what `out` holds.
    pub fn extract_range_distinct_into(&self, range: Range<usize>, out: &mut Vec<T>)
        requires
            self.wf(),
        ensures
            final(out)@ == if range.start < range.end <= self.seq().len() {
                dedup(
                    vals(self.seq()).subrange(range.start as int, range.end as int).sort(),
                ).map_values(|v: int| symbol_of::<T>(v))
            } else {
                Seq::empty()
            },
    {
        out.clear();
        if range.start >= range.end || range.end > self.n {
            return;
        }
        proof {
            self.lemma_wf();
        }
        plain_extract_distinct(&self.qvs, self.n, range.start, range.end, out);
        proof {
            let r = dedup(
                vals(self.seq()).subrange(range.start as int, range.end as int).sort(),
            ).map_values(|v: int| symbol_of::<T>(v));
            assert(Seq::<T>::empty() + r =~= r);
        }
    }

    /// Lists the symbols that occur in `range` in ascending order, with their
    /// numbers of occurrences. `None` where the range is out of bounds or
    /// reversed.
    pub fn occs_range(&self, range: Range<usize>) -> (r: Option<Vec<(T, usize)>>)
        requires
            self.wf(),
        ensures
            match r {
                Some(out) => {
                    &&& range.start <= range.end <= self.seq().len()
                    &&& occs_ok(self.seq(), range.start as int, range.end as int, out@)
                    &&& count_sum(out@) == range.end - range.start
                    &&& ascending(out@)
                },
                None => !(range.start <= range.end <= self.seq().len()),
            },
    {
        if range.start > range.end || range.end > self.n {
            return None;
        }
        proof {
            self.lemma_wf();
        }
        let out: Vec<(T, usize)> = plain_occs(&self.qvs, self.n, range.start, range.end);
        proof {
            self.lemma_occs(range.start as int, range.end as int, out@);
        }
        Some(out)
    }

    /// Like `occs_range` between two bounds.
    pub fn occs_range_bounds(&self, start: PositionBound, end: PositionBound) -> (r: Option<
        Vec<(T, usize)>,
    >)
        requires
            self.wf(),
        ensures
            ({
                let n = self.seq().len() as int;
                let from = first_position(start);
                let to = end_position(end, n);
                match r {
                    Some(out) => {
                        &&& from <= to <= n
                        &&& occs_ok(self.seq(), from, to, out@)
                        &&& count_sum(out@) == to - from
                        &&& ascending(out@)
                    },
                    None => !(from <= to <= n),
                }
            }),
    {
        let from: usize = match start {
            PositionBound::Included(p) => p,
            PositionBound::Excluded(p) => match p.checked_add(1) {
                Some(q) => q,
                None => {
                    return None;
                },
            },
            PositionBound::Unbounded => 0,
        };
        let to: usize = match end {
            PositionBound::Included(p) => match p.checked_add(1) {
                Some(q) => q,
                None => {
                    return None;
                },
            },
            PositionBound::Excluded(p) => p,
            PositionBound::Unbounded => self.n,
        };
        self.occs_range(from..to)
    }

    proof fn lemma_occs(&self, lo: int, hi: int, out: Seq<(T, usize)>)
        requires
            self.wf(),
            0 <= lo <= hi <= self.seq().len(),
            ({
                let values = vals(self.seq());
                let distinct = dedup(values.subrange(lo, hi).sort());
                &&& out.len() == distinct.len()
                &&& forall|t: int|
                    0 <= t < out.len() ==> (#[trigger] out[t]).0 == symbol_of::<T>(distinct[t])
                        && out[t].1 == occurrences(values, distinct[t], hi) - occurrences(
                        values,
                        distinct[t],
                        lo,
                    )
            }),
        ensures
            occs_ok(self.seq(), lo, hi, out),
            count_sum(out) == hi - lo,
            ascending(out),
    {
        let s = self.seq();
        let values = vals(s);
        let part = values.subrange(lo, hi);
        let sorted = part.sort();
        let distinct = dedup(sorted);
        lemma_sort_counts(part, 0);
        lemma_dedup(sorted);
        assert forall|t: int| 0 <= t < out.len() implies (#[trigger] out[t]).0.val() == distinct[t]
            && out[t].1 == occurrences(s, out[t].0, hi) - occurrences(s, out[t].0, lo) && out[t].1
            > 0 && out[t].1 == occurrences(sorted, distinct[t], sorted.len() as int) by {
            let v = distinct[t];
            assert(sorted.contains(v));
            lemma_sort_counts(part, v);
            let j = choose|j: int| 0 <= j < sorted.len() && sorted[j] == v;
            lemma_occurs(sorted, j);
            let i = lemma_occurring_at(part, v, part.len() as int);
            assert(values[lo + i] == v);
            s[lo + i].lemma_val();
            T::lemma_width();
            assert(v % 0x1_0000_0000_0000_0000 == v) by {
                vstd::arithmetic::div_mod::lemma_small_mod(v as nat, 0x1_0000_0000_0000_0000);
            }
            assert(out[t].0 == s[lo + i]);
            lemma_occurrences_part(values, v, lo, hi);
            lemma_vals_count(s, out[t].0, lo);
            lemma_vals_count(s, out[t].0, hi);
        }
        assert forall|t: int, u: int| 0 <= t < u < out.len() implies (#[trigger] out[t]).0.val() < (
        #[trigger] out[u]).0.val() by {
            assert(distinct[t] < distinct[u]);
        }
        assert forall|i: int| lo <= i < hi implies exists|t: int|
            0 <= t < out.len() && (#[trigger] out[t]).0 == #[trigger] s[i] by {
            let v = values[i];
            assert(part[i - lo] == v);
            lemma_occurs(part, i - lo);
            lemma_sort_counts(part, v);
            let j = lemma_occurring_at(sorted, v, sorted.len() as int);
            assert(distinct.contains(sorted[j]));
            let t = choose|t: int| 0 <= t < distinct.len() && distinct[t] == v;
            assert(out[t].0.val() == distinct[t]);
            out[t].0.lemma_val();
            s[i].lemma_val();
            assert(out[t].0 == s[i]);
        }
        lemma_sum(out, distinct, sorted);
    }

    /// A walk over the symbols.
    pub fn iter(&self) -> (it: WTIterator<'_, Self>)
        requires
            self.wf(),
        ensures
            it.wf(),
            it.remaining() == self.seq().map_values(|t: T| Some(t)),
    {
        assert(symbols_of(self) =~= self.seq().map_values(|t: T| Some(t)));
        WTIterator::new(self)
    }

    /// The represented sequence.
    pub fn into_vec(self) -> (v: Vec<T>)
        requires
            self.wf(),
        ensures
            v@ == self.seq(),
    {
        let it = self.iter();
        let v: Vec<T> = it.collect();
        assert(v@ =~= self.seq());
        v
    }

    /// The tree of the empty sequence.
    pub fn default() -> (tree: Self)
        ensures
            tree.wf(),
            tree.seq() == Seq::<T>::empty(),
    {
        let tree = QWaveletTree { n: 0, n_levels: 0, sigma: None, qvs: Vec::new() };
        proof {
            reveal(QWaveletTree::wf);
            assert(tree.seq() =~= Seq::<T>::empty());
        }
        tree
    }

    /// Builds the tree of `sequence`, which is rearranged on the way.
    pub fn new(sequence: &mut [T]) -> (tree: Self)
        requires
            old(sequence)@.len() <= RS::max_len(),
        ensures
            tree.wf(),
            tree.seq() == old(sequence)@,
            old(sequence)@.len() == 0 ==> {
                &&& tree.level_count() == 0
                &&& forall|t: T| !tree.knows(t)
                &&& final(sequence)@ == old(sequence)@
            },
            forall|m: T|
                #[trigger] is_max(old(sequence)@, m) ==> {
                    &&& tree.level_count() == quad_levels(m.val())
                    &&& forall|t: T| #[trigger] tree.knows(t) <==> t.val() <= m.val()
                },
            old(sequence)@.len() > 0 ==> final(sequence)@ == left_behind(
                old(sequence)@,
                None,
                tree.level_count() as int,
                2,
            ),
    {
        let n: usize = sequence.len();
        let ghost s = sequence@;
        if n == 0 {
            let tree = Self::default();
            proof {
                tree.lemma_wf();
                assert forall|m: T| !#[trigger] is_max(s, m) by {}
            }
            return tree;
        }
        let sigma: T = max_symbol(sequence);
        proof {
            assert forall|m: T| #[trigger] is_max(s, m) implies m.val() == sigma.val() by {
                let a = choose|a: int| 0 <= a < s.len() && #[trigger] s[a] == m;
                let b = choose|b: int| 0 <= b < s.len() && #[trigger] s[b] == sigma;
                assert(s[a].val() <= sigma.val());
                assert(s[b].val() <= m.val());
            }
        }
        let n_levels: usize = msb(sigma.to_u64()) as usize / 2 + 1;
        proof {
            RS::lemma_quad();
            lemma_msb_bounds(sigma.val());
            let e = 2 * n_levels;
            if msb_of(sigma.val()) + 1 < e {
                lemma_pow2_strictly_increases((msb_of(sigma.val()) + 1) as nat, e as nat);
            }
            assert forall|i: int| 0 <= i < s.len() implies (#[trigger] s[i]).val() < pow2(
                (2 * n_levels) as nat,
            ) by {}
        }
        let qvs: Vec<RS> = build_levels(sequence, None, n_levels);
        let tree = QWaveletTree { n, n_levels, sigma: Some(sigma), qvs };
        proof {
            let lv = tree.levels();
            assert(lv.len() == n_levels);
            assert(represents(lv, s, None, 2));
            lemma_represents(lv, s, None, 2);
            let values = plain_values(lv, n as int, 4);
            assert forall|i: int| 0 <= i < n implies (#[trigger] values[i]) == s[i].val()
                && tree.seq()[i] == s[i] by {
                lemma_represents_path(lv, s, None, 2, i);
                lemma_element(s, None, n_levels as int, 2, i);
                lemma_symbol_code(s, None, n_levels as int, 2, s[i]);
                s[i].lemma_val();
                vstd::arithmetic::div_mod::lemma_small_mod(
                    s[i].val() as nat,
                    0x1_0000_0000_0000_0000,
                );
            }
            assert(tree.seq() =~= s) by {
                assert forall|i: int| 0 <= i < n implies tree.seq()[i] == s[i] by {
                    assert(values[i] == s[i].val());
                }
            }
            assert(plain_wf(qvs@, n as int)) by {
                assert(radix_of(2) == 4);
            }
            reveal(QWaveletTree::wf);
            assert forall|i: int| 0 <= i < n implies (#[trigger] tree.seq()[i]).val()
                == values[i] by {
                assert(values[i] == s[i].val());
            }
        }
        tree
    }

    /// The tree of `v`.
    pub fn from(v: Vec<T>) -> (tree: Self)
        requires
            v.len() <= RS::max_len(),
        ensures
            tree.wf(),
            tree.seq() == v@,
            v.len() == 0 ==> tree.level_count() == 0 && forall|t: T| !tree.knows(t),
            forall|m: T|
                #[trigger] is_max(v@, m) ==> {
                    &&& tree.level_count() == quad_levels(m.val())
                    &&& forall|t: T| #[trigger] tree.knows(t) <==> t.val() <= m.val()
                },
    {
        let mut w: Vec<T> = v;
        Self::new(w.as_mut_slice())
    }
}

proof fn lemma_sum<T: WTIndexable>(out: Seq<(T, usize)>, distinct: Seq<int>, sorted: Seq<int>)
    requires
        out.len() == distinct.len(),
        forall|t: int|
            0 <= t < out.len() ==> (#[trigger] out[t]).1 == occurrences(
                sorted,
                distinct[t],
                sorted.len() as int,
            ),
    ensures
        count_sum(out) == count_all(distinct, sorted),
    decreases out.len(),
{
    if out.len() > 0 {
        assert(out.last() == out[out.len() - 1]);
        assert forall|t: int| 0 <= t < out.drop_last().len() implies (
        #[trigger] out.drop_last()[t]).1 == occurrences(
            sorted,
            distinct.drop_last()[t],
            sorted.len() as int,
        ) by {
            assert(out.drop_last()[t] == out[t]);
        }
        lemma_sum(out.drop_last(), distinct.drop_last(), sorted);
    }
}

impl<T: WTIndexable, RS: RSforWT> AccessUnsigned for QWaveletTree<T, RS> {
    type Item = T;

    open spec fn symbol_count(&self) -> nat {
        self.seq().len()
    }

    open spec fn symbol_at(&self, i: int) -> Option<T> {
        Some(self.seq()[i])
    }

    open spec fn access_wf(&self) -> bool {
        self.wf()
    }

    fn sequence_len(&self) -> (n: usize) {
        self.n
    }

    fn symbol(&self, i: usize) -> (r: Option<T>) {
        self.get(i)
    }
}

} // verus!
