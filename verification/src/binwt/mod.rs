//! Binary wavelet trees, plain or compressed with Huffman codes.

pub mod occs_range;
pub mod parts;
mod validate;

pub use self::occs_range::{end_position, first_position, OccsRangeIter, PositionBound};
pub use self::parts::{is_max, WaveletTreeParts};

use vstd::arithmetic::power2::{lemma2_to64, lemma_pow2_strictly_increases, pow2};
use vstd::prelude::*;

use crate::builder::{build_levels, codes_of, left_behind, symbol_code, LevelBuild};
use crate::codes::{
    coded, codes_greedy, craft_wm_codes, is_depth, lemma_code_digits, lens_ok, table_ok, PrefixCode,
};
use crate::digits::{lemma_digits_of_value, lemma_radix_pow, lemma_value_bounds, radix_of, value};
use crate::huffman::{
    code_lens, codes_fail, codes_for, cost, digit_lens, frequencies_of, frequency_table,
    huffman_lens, lemma_frequency, lens_of, long_needed, minimum_redundancy, symbol_frequencies,
    too_many, used_symbols,
};
use crate::indexable::WTIndexable;
use crate::iter::{symbols_of, AccessUnsigned, WTIterator};
use crate::lengths::{lemma_level_cost, rows_from};
use crate::level::{code_of, descend, levels_wf, rank_walk, select_walk, DigitLevel};
use crate::matrix::{lemma_plain_levels, lemma_plain_path, paths_of, plain_levels};
use crate::tables::{
    decode_symbol, decode_table, lemma_row_symbol, row_sorted, rows_view, tables_agree,
};
use crate::tree::{
    has_symbol, lemma_element, lemma_represents, lemma_represents_at, lemma_represents_path,
    lemma_represents_symbol, lemma_symbol_code, occurrences, represents,
};
use crate::utils::{lemma_msb_bounds, msb, msb_of};
use crate::wavelet::{digits_below, path, pcount, walk_fits};

verus! {

/// A bit vector that can be a level of a binary wavelet tree.
pub trait BinRSforWT: LevelBuild {
    proof fn lemma_binary()
        ensures
            Self::digit_bits() == 1,
    ;
}

impl BinRSforWT for crate::bitvector::RSWide {
    proof fn lemma_binary() {
    }
}

/// A binary wavelet tree over a sequence of unsigned integers. Where it is
/// `COMPRESSED`, symbols are represented by Huffman codes.
#[derive(Clone, Debug, PartialEq, Eq)]
pub struct WaveletTree<T, BRS, const COMPRESSED: bool> {
    parts: WaveletTreeParts<T, BRS>,
}

/// A plain binary wavelet tree.
pub type WT<T> = WaveletTree<T, crate::bitvector::RSWide, false>;

/// A binary wavelet tree compressed with Huffman codes.
pub type HWT<T> = WaveletTree<T, crate::bitvector::RSWide, true>;

impl<T: WTIndexable, BRS: BinRSforWT, const COMPRESSED: bool> WaveletTree<T, BRS, COMPRESSED> {
    /// The digits of the levels.
    pub closed spec fn levels(&self) -> Seq<Seq<u8>> {
        self.parts.levels()
    }

    /// The codes of the symbols, where they have any.
    pub closed spec fn table(&self) -> Option<Seq<PrefixCode>> {
        match self.parts.codes_encode {
            Some(codes) => Some(codes@),
            None => None,
        }
    }

    /// The number of levels.
    pub closed spec fn level_count(&self) -> nat {
        self.parts.n_levels as nat
    }

    /// The parts that the tree is made of.
    pub closed spec fn view_parts(&self) -> WaveletTreeParts<T, BRS> {
        self.parts
    }

    /// What the levels hold at position `i`.
    pub closed spec fn at(&self, i: int) -> Option<T> {
        self.parts.at(COMPRESSED, i)
    }

    /// The represented sequence.
    pub closed spec fn seq(&self) -> Seq<T> {
        self.parts.seq(COMPRESSED)
    }

    /// The tree has a representation for `t`: in a plain tree, `t` is no larger
    /// than the largest symbol; in a compressed one, `t` has a code.
    pub closed spec fn knows(&self, t: T) -> bool {
        if COMPRESSED {
            self.parts.codes_encode is Some && coded(self.parts.codes_encode->0@, t.val() as int)
        } else {
            self.parts.sigma is Some && t.val() <= self.parts.sigma->0.val()
        }
    }

    spec fn shape_ok(&self) -> bool {
        &&& self.parts.bvs.len() == self.parts.n_levels
        &&& self.parts.lens.len() == self.parts.n_levels
        &&& levels_wf(self.parts.bvs@)
        &&& forall|l: int|
            0 <= l < self.parts.n_levels ==> #[trigger] self.parts.lens[l] == self.parts.bvs[l].digits().len()
    }

    spec fn plain_ok(&self) -> bool {
        &&& self.parts.codes_encode is None
        &&& self.parts.codes_decode is None
        &&& self.parts.n == 0 ==> self.parts.sigma is None
        &&& self.parts.n > 0 ==> {
            &&& self.parts.sigma is Some
            &&& self.parts.n_levels == msb_of(self.parts.sigma->0.val()) + 1
            &&& self.parts.n_levels <= T::bit_width()
            &&& forall|l: int| 0 <= l < self.parts.n_levels ==> #[trigger] self.parts.lens[l] == self.parts.n
            &&& is_max(self.seq(), self.parts.sigma->0)
        }
    }

    spec fn tables_ok(&self) -> bool {
        let encode = self.parts.codes_encode->0@;
        let decode = rows_view(self.parts.codes_decode->0@);
        &&& decode.len() == self.parts.n_levels + 1
        &&& tables_agree(encode, decode)
        &&& forall|s: int|
            #![trigger encode[s]]
            coded(encode, s) ==> encode[s].len <= self.parts.n_levels && encode[s].content < pow2(
                encode[s].len as nat,
            )
    }

    spec fn compressed_ok(&self) -> bool {
        &&& self.parts.sigma is None
        &&& self.parts.n == 0 ==> self.parts.codes_encode is None && self.parts.codes_decode is None
        &&& self.parts.n > 0 ==> {
            &&& self.parts.n_levels <= 32
            &&& self.parts.codes_encode is Some
            &&& self.parts.codes_decode is Some
            &&& self.tables_ok()
            &&& forall|i: int| 0 <= i < self.parts.n ==> (#[trigger] self.at(i)) is Some
        }
    }

    /// The parts of the tree fit together.
    pub closed spec fn wf(&self) -> bool {
        &&& self.shape_ok()
        &&& self.parts.n == 0 <==> self.parts.n_levels == 0
        &&& self.parts.n > 0 ==> self.parts.n_levels <= 64 && self.parts.lens[0] == self.parts.n
        &&& if COMPRESSED {
            self.compressed_ok()
        } else {
            self.plain_ok()
        }
    }

    /// The levels are those that the represented sequence gives rise to. This
    /// holds of every tree that was built from a sequence, and of every plain
    /// tree.
    pub closed spec fn canonical(&self) -> bool {
        self.parts.n > 0 ==> {
            &&& represents(self.levels(), self.seq(), self.table(), 1)
            &&& COMPRESSED ==> self.parts.codes_decode->0[0].len() == 0
        }
    }

    /// The levels of a canonical tree are those that its sequence gives rise to.
    pub proof fn lemma_represents(&self)
        requires
            self.wf(),
            self.canonical(),
            self.seq().len() > 0,
        ensures
            represents(self.levels(), self.seq(), self.table(), 1),
            self.levels().len() == self.level_count(),
            forall|l: int|
                0 <= l < self.level_count() ==> (#[trigger] self.view_parts().lens[l])
                    == self.levels()[l].len(),
    {
        self.lemma_bits();
    }

    /// The levels of a compressed tree that was built from a sequence have as
    /// many bits as the sequence takes with the codes of the tree.
    pub proof fn lemma_level_bits(&self)
        requires
            self.wf(),
            self.canonical(),
            COMPRESSED,
            self.seq().len() > 0,
        ensures
            self.table() is Some,
            ({
                let codes = self.table()->0;
                let freqs = frequency_table(self.seq(), codes.len() as int);
                let used = used_symbols(freqs);
                rows_from(self.levels(), 0) == cost(
                    frequencies_of(freqs, used),
                    lens_of(digit_lens(codes, 1), used),
                )
            }),
    {
        self.lemma_represents();
        assert(self.table()->0.len() == self.parts.codes_encode->0.len());
        lemma_level_cost(self.levels(), self.seq(), self.table()->0, 1);
    }

    proof fn lemma_bits(&self)
        requires
            self.shape_ok(),
        ensures
            BRS::digit_bits() == 1,
            radix_of(BRS::digit_bits()) == 2,
            self.levels().len() == self.parts.n_levels,
            forall|l: int|
                0 <= l < self.parts.n_levels ==> digits_below(#[trigger] self.levels()[l], 2)
                    && self.levels()[l].len() == self.parts.lens[l],
    {
        BRS::lemma_binary();
        assert forall|l: int| 0 <= l < self.parts.n_levels implies digits_below(
            #[trigger] self.levels()[l],
            2,
        ) && self.levels()[l].len() == self.parts.lens[l] by {
            assert(self.parts.bvs[l].wf());
            self.parts.bvs[l].lemma_level();
            assert(self.parts.lens[l] == self.parts.bvs[l].digits().len());
        }
    }

    /// Paths are short enough for a word.
    proof fn lemma_path_value(&self, i: int)
        requires
            self.shape_ok(),
            self.parts.n_levels <= 64,
        ensures
            path(self.levels(), 0, i).len() <= self.parts.n_levels,
            0 <= value(path(self.levels(), 0, i), 2) < 0x1_0000_0000_0000_0000,
            self.parts.n_levels <= 32 ==> value(path(self.levels(), 0, i), 2) < 0x1_0000_0000,
    {
        self.lemma_bits();
        let p = path(self.levels(), 0, i);
        lemma_path_digits(self.levels(), 0, i, 2);
        lemma_value_bounds(p, 2);
        lemma_radix_pow(1, p.len());
        lemma2_to64();
        if p.len() < 64 {
            lemma_pow2_strictly_increases(p.len(), 64);
        }
        if p.len() < 32 {
            lemma_pow2_strictly_increases(p.len(), 32);
        }
    }

    /// A plain tree is the tree of the sequence that its levels hold.
    pub proof fn lemma_plain_canonical(&self)
        requires
            self.wf(),
            !COMPRESSED,
        ensures
            self.canonical(),
    {
        if self.parts.n > 0 {
            self.lemma_bits();
            let lv = self.levels();
            let n = self.parts.n as int;
            let s = self.seq();
            assert(plain_levels(lv, n, 2)) by {
                assert forall|l: int| 0 <= l < lv.len() implies (#[trigger] lv[l]).len() == n
                    && digits_below(lv[l], 2) by {
                    assert(self.parts.lens[l] == self.parts.n);
                }
            }
            lemma_plain_levels(lv, n, 2);
            let codes = codes_of(s, None, self.parts.n_levels as int, 1);
            assert forall|i: int| 0 <= i < n implies {
                &&& (#[trigger] s[i]).val() < pow2((1 * self.parts.n_levels) as nat)
                &&& codes[i] == path(lv, 0, i)
            } by {
                lemma_plain_path(lv, n, 2, 0, i);
                let p = path(lv, 0, i);
                lemma_value_bounds(p, 2);
                lemma_radix_pow(1, p.len());
                self.lemma_path_value(i);
                T::lemma_width();
                lemma2_to64();
                if self.parts.n_levels < T::bit_width() {
                    lemma_pow2_strictly_increases(self.parts.n_levels as nat, T::bit_width());
                }
                T::lemma_truncated(value(p, 2) as u64);
                lemma_digits_of_value(p, 2);
            }
            assert(codes =~= paths_of(lv, n));
        }
    }

    /// Reading a canonical tree gives the represented sequence.
    proof fn lemma_at(&self, i: int)
        requires
            self.wf(),
            0 <= i < self.parts.n,
        ensures
            self.at(i) == Some(self.seq()[i]),
    {
    }

    /// The number of symbols.
    pub fn len(&self) -> (n: usize)
        requires
            self.wf(),
        ensures
            n == self.seq().len(),
    {
        self.parts.n
    }

    /// Whether there are no symbols.
    pub fn is_empty(&self) -> (b: bool)
        requires
            self.wf(),
        ensures
            b == (self.seq().len() == 0),
    {
        self.parts.n == 0
    }

    /// The number of levels.
    pub fn n_levels(&self) -> (l: usize)
        requires
            self.wf(),
        ensures
            l == self.level_count(),
            l == self.levels().len(),
    {
        self.parts.n_levels
    }

    /// Reads position `i` of the levels.
    fn read(&self, i: usize) -> (r: Option<T>)
        requires
            self.shape_ok(),
            self.parts.n_levels <= 64,
            COMPRESSED ==> {
                &&& self.parts.n_levels <= 32
                &&& self.parts.codes_decode is Some ==> forall|l: int|
                    0 <= l < self.parts.codes_decode->0.len() ==> row_sorted(
                        (#[trigger] self.parts.codes_decode->0[l])@,
                    )
            },
        ensures
            r == self.at(i as int),
    {
        proof {
            self.lemma_bits();
            self.lemma_path_value(i as int);
        }
        let (result, depth) = descend(&self.parts.bvs, i);
        proof {
            let v = value(path(self.levels(), 0, i as int), 2);
            vstd::arithmetic::div_mod::lemma_small_mod(v as nat, 0x1_0000_0000_0000_0000);
            assert(result == v);
        }
        if COMPRESSED {
            match &self.parts.codes_decode {
                Some(rows) => if depth < rows.len() {
                    decode_symbol(&rows[depth], result as u32)
                } else {
                    None
                },
                None => None,
            }
        } else {
            Some(T::from_u64(result))
        }
    }

    /// The symbol at position `i`, or `None` out of bounds.
    pub fn get(&self, i: usize) -> (r: Option<T>)
        requires
            self.wf(),
        ensures
            r == if i < self.seq().len() {
                Some(self.seq()[i as int])
            } else {
                None
            },
    {
        if i >= self.parts.n {
            return None;
        }
        proof {
            self.lemma_rows_sorted();
            self.lemma_at(i as int);
        }
        self.read(i)
    }

    proof fn lemma_rows_sorted(&self)
        requires
            self.wf(),
        ensures
            COMPRESSED && self.parts.codes_decode is Some ==> forall|l: int|
                0 <= l < self.parts.codes_decode->0.len() ==> row_sorted(
                    (#[trigger] self.parts.codes_decode->0[l])@,
                ),
    {
        if COMPRESSED && self.parts.codes_decode is Some {
            let decode = rows_view(self.parts.codes_decode->0@);
            assert forall|l: int| 0 <= l < self.parts.codes_decode->0.len() implies row_sorted(
                (#[trigger] self.parts.codes_decode->0[l])@,
            ) by {
                assert(row_sorted(decode[l]));
            }
        }
    }

    /// The symbol at position `i`, which must be in bounds.
    pub fn get_unchecked(&self, i: usize) -> (t: T)
        requires
            self.wf(),
            i < self.seq().len(),
        ensures
            t == self.seq()[i as int],
    {
        let r: Option<T> = self.get(i);
        r.unwrap()
    }

    /// The code of a known symbol as a word and a number of digits.
    fn code_word(&self, symbol: T) -> (r: Option<(u64, usize)>)
        requires
            self.wf(),
        ensures
            match r {
                Some(c) => {
                    &&& self.knows(symbol)
                    &&& self.parts.n > 0
                    &&& 0 < c.1 <= self.parts.n_levels
                    &&& code_of(c.0, c.1 as int, 1) == symbol_code(
                        self.table(),
                        self.parts.n_levels as int,
                        1,
                        symbol,
                    )
                    &&& has_symbol(self.levels(), self.table(), 1, symbol)
                },
                None => !self.knows(symbol),
            },
    {
        proof {
            self.lemma_bits();
        }
        if COMPRESSED {
            match &self.parts.codes_encode {
                Some(codes) => {
                    let s: u64 = symbol.to_u64();
                    if s >= codes.len() as u64 {
                        return None;
                    }
                    let code: PrefixCode = codes[s as usize];
                    if code.len == 0 {
                        return None;
                    }
                    assert(coded(codes@, s as int));
                    assert(codes@[s as int].len <= self.parts.n_levels);
                    assert(code.len as int / 1 == code.len);
                    Some((code.content as u64, code.len as usize))
                },
                None => None,
            }
        } else {
            match &self.parts.sigma {
                Some(sigma) => {
                    let s: u64 = symbol.to_u64();
                    if s > sigma.to_u64() {
                        return None;
                    }
                    proof {
                        lemma_msb_bounds(sigma.val());
                        assert(1 * self.levels().len() == self.parts.n_levels);
                    }
                    Some((s, self.parts.n_levels))
                },
                None => None,
            }
        }
    }

    /// How often `symbol` occurs before position `i`. `None` where `i` is out of
    /// bounds or the tree does not know the symbol.
    ///
    /// In a tree that is not canonical the count is of the rows whose path
    /// starts with the symbol's code, and is `None` where the code leaves the
    /// levels.
    pub fn rank(&self, symbol: T, i: usize) -> (r: Option<usize>)
        requires
            self.wf(),
        ensures
            i > self.seq().len() || !self.knows(symbol) ==> r is None,
            i <= self.seq().len() && self.knows(symbol) ==> {
                let code = symbol_code(
                    self.table(),
                    self.level_count() as int,
                    1,
                    symbol,
                );
                match r {
                    Some(k) => walk_fits(self.levels(), code, i as int) && k == pcount(
                        self.levels(),
                        0,
                        code,
                        0,
                        i as int,
                    ),
                    None => !walk_fits(self.levels(), code, i as int),
                }
            },
            self.canonical() && i <= self.seq().len() && self.knows(symbol) ==> r == Some(
                occurrences(self.seq(), symbol, i as int) as usize,
            ) && occurrences(self.seq(), symbol, i as int) <= usize::MAX,
    {
        if i > self.parts.n {
            return None;
        }
        match self.code_word(symbol) {
            Some((content, len)) => {
                proof {
                    self.lemma_bits();
                    if self.canonical() {
                        lemma_represents_symbol(
                            self.levels(),
                            self.seq(),
                            self.table(),
                            1,
                            symbol,
                        );
                        crate::wavelet::lemma_walk_fits_mono(
                            self.levels(),
                            symbol_code(self.table(), self.parts.n_levels as int, 1, symbol),
                            i as int,
                            self.parts.n as int,
                        );
                    }
                }
                rank_walk(&self.parts.bvs, content, len, i)
            },
            None => None,
        }
    }

    /// How often `symbol`, which the tree must know, occurs before position
    /// `i`, which must be in bounds.
    pub fn rank_unchecked(&self, symbol: T, i: usize) -> (k: usize)
        requires
            self.wf(),
            self.canonical(),
            i <= self.seq().len(),
            self.knows(symbol),
        ensures
            k == occurrences(self.seq(), symbol, i as int),
    {
        let r: Option<usize> = self.rank(symbol, i);
        proof {
            crate::tree::lemma_occurrences_bounds(self.seq(), symbol, i as int);
        }
        r.unwrap()
    }

    /// The position of occurrence `i` of `symbol`, counting from zero. `None`
    /// where there are not so many, or the tree does not know the symbol.
    ///
    /// In a tree that is not canonical the occurrences are the rows whose path
    /// starts with the symbol's code.
    pub fn select(&self, symbol: T, i: usize) -> (r: Option<usize>)
        requires
            self.wf(),
        ensures
            !self.knows(symbol) ==> r is None,
            self.knows(symbol) ==> {
                let code = symbol_code(
                    self.table(),
                    self.level_count() as int,
                    1,
                    symbol,
                );
                let n = self.seq().len() as int;
                match r {
                    Some(p) => {
                        &&& p < n
                        &&& code.is_prefix_of(path(self.levels(), 0, p as int))
                        &&& pcount(self.levels(), 0, code, 0, p as int) == i
                    },
                    None => walk_fits(self.levels(), code, n) ==> pcount(
                        self.levels(),
                        0,
                        code,
                        0,
                        n,
                    ) <= i,
                }
            },
            self.canonical() && self.knows(symbol) ==> match r {
                Some(p) => {
                    &&& p < self.seq().len()
                    &&& self.seq()[p as int] == symbol
                    &&& occurrences(self.seq(), symbol, p as int) == i
                },
                None => occurrences(self.seq(), symbol, self.seq().len() as int) <= i,
            },
    {
        match self.code_word(symbol) {
            Some((content, len)) => {
                let r: Option<usize> = select_walk(&self.parts.bvs, content, len, i);
                proof {
                    self.lemma_bits();
                    assert(self.levels()[0].len() == self.parts.lens[0]);
                    if self.canonical() {
                        lemma_represents_symbol(
                            self.levels(),
                            self.seq(),
                            self.table(),
                            1,
                            symbol,
                        );
                        if let Some(p) = r {
                            lemma_represents_at(
                                self.levels(),
                                self.seq(),
                                self.table(),
                                1,
                                symbol,
                                p as int,
                            );
                        }
                    }
                }
                r
            },
            None => None,
        }
    }

    /// The position of occurrence `i` of `symbol`, which must exist.
    pub fn select_unchecked(&self, symbol: T, i: usize) -> (p: usize)
        requires
            self.wf(),
            self.canonical(),
            self.knows(symbol),
            i < occurrences(self.seq(), symbol, self.seq().len() as int),
        ensures
            p < self.seq().len(),
            self.seq()[p as int] == symbol,
            occurrences(self.seq(), symbol, p as int) == i,
    {
        let r: Option<usize> = self.select(symbol, i);
        r.unwrap()
    }

    /// A walk over the symbols.
    pub fn iter(&self) -> (it: WTIterator<'_, Self>)
        requires
            self.wf(),
        ensures
            it.wf(),
            it.remaining() == self.seq().map_values(|t: T| Some(t)),
    {
        proof {
            assert(symbols_of(self) =~= self.seq().map_values(|t: T| Some(t))) by {
                assert forall|i: int| 0 <= i < self.parts.n implies self.at(i) == Some(
                    self.seq()[i],
                ) by {
                    self.lemma_at(i);
                }
            }
        }
        WTIterator::new(self)
    }

    /// The tree itself.
    pub fn as_ref(&self) -> (r: &Self)
        ensures
            r == self,
    {
        self
    }

    /// The represented sequence.
    pub fn into_vec(self) -> (v: Vec<T>)
        requires
            self.wf(),
        ensures
            v@ == self.seq(),
    {
        let it = self.iter();
        let v: Vec<T> = it.collect();
        assert(v@ =~= self.seq());
        v
    }
}

/// Digits of a path are digits of the levels.
pub proof fn lemma_path_digits(levels: Seq<Seq<u8>>, l: int, p: int, radix: int)
    requires
        0 <= l <= levels.len(),
        forall|m: int| 0 <= m < levels.len() ==> digits_below(#[trigger] levels[m], radix),
    ensures
        digits_below(path(levels, l, p), radix),
        path(levels, l, p).len() <= levels.len() - l,
    decreases levels.len() - l,
{
    if l < levels.len() && 0 <= p < levels[l].len() {
        let rest = path(levels, l + 1, crate::wavelet::step(levels[l], p));
        lemma_path_digits(levels, l + 1, crate::wavelet::step(levels[l], p), radix);
        assert(digits_below(levels[l], radix));
        assert forall|q: int| 0 <= q < path(levels, l, p).len() implies (#[trigger] path(
            levels,
            l,
            p,
        )[q]) < radix by {
            if q > 0 {
                assert(path(levels, l, p)[q] == rest[q - 1]);
            }
        }
    }
}

impl<T: WTIndexable, BRS: BinRSforWT, const COMPRESSED: bool> AccessUnsigned for WaveletTree<
    T,
    BRS,
    COMPRESSED,
> {
    type Item = T;

    open spec fn symbol_count(&self) -> nat {
        self.seq().len()
    }

    open spec fn symbol_at(&self, i: int) -> Option<T> {
        Some(self.seq()[i])
    }

    open spec fn access_wf(&self) -> bool {
        self.wf()
    }

    fn sequence_len(&self) -> (n: usize) {
        self.parts.n
    }

    fn symbol(&self, i: usize) -> (r: Option<T>) {
        self.get(i)
    }
}

/// The largest symbol of a sequence.
pub fn max_symbol<T: WTIndexable>(sequence: &[T]) -> (m: T)
    requires
        sequence@.len() > 0,
    ensures
        is_max(sequence@, m),
{
    let mut m: T = sequence[0];
    let mut i: usize = 1;
    assert(sequence@[0] == m);
    while i < sequence.len()
        invariant
            1 <= i <= sequence@.len(),
            forall|j: int| 0 <= j < i ==> (#[trigger] sequence@[j]).val() <= m.val(),
            exists|j: int| 0 <= j < i && #[trigger] sequence@[j] == m,
        decreases sequence@.len() - i,
    {
        if sequence[i].to_u64() > m.to_u64() {
            m = sequence[i];
            assert(sequence@[i as int] == m);
        }
        i = i + 1;
    }
    m
}

pub fn level_lens<L: DigitLevel>(levels: &Vec<L>) -> (lens: Vec<usize>)
    requires
        levels_wf(levels@),
    ensures
        lens.len() == levels.len(),
        forall|l: int| 0 <= l < levels.len() ==> #[trigger] lens[l] == levels[l].digits().len(),
{
    let mut lens: Vec<usize> = Vec::with_capacity(levels.len());
    let mut l: usize = 0;
    while l < levels.len()
        invariant
            l <= levels.len(),
            levels_wf(levels@),
            lens.len() == l,
            forall|m: int| 0 <= m < l ==> #[trigger] lens[m] == levels[m].digits().len(),
        decreases levels.len() - l,
    {
        lens.push(levels[l].level_len());
        l = l + 1;
    }
    lens
}

impl<T: WTIndexable, BRS: BinRSforWT, const COMPRESSED: bool> WaveletTree<T, BRS, COMPRESSED> {
    /// The tree of the empty sequence.
    pub fn default() -> (tree: Self)
        ensures
            tree.wf(),
            tree.canonical(),
            tree.seq() == Seq::<T>::empty(),
            tree.level_count() == 0,
            forall|t: T| !tree.knows(t),
    {
        let tree = WaveletTree {
            parts: WaveletTreeParts {
                n: 0,
                n_levels: 0,
                sigma: None,
                codes_encode: None,
                codes_decode: None,
                bvs: Vec::new(),
                lens: Vec::new(),
            },
        };
        assert(tree.seq() =~= Seq::<T>::empty());
        tree
    }
}

impl<T: WTIndexable, BRS: BinRSforWT> WaveletTree<T, BRS, false> {
    /// Builds the plain tree of `sequence`, which is rearranged on the way.
    #[verifier::rlimit(60)]
    #[verifier::spinoff_prover]
    pub fn new(sequence: &mut [T]) -> (tree: Self)
        requires
            old(sequence)@.len() <= BRS::max_len(),
        ensures
            tree.wf(),
            tree.canonical(),
            tree.seq() == old(sequence)@,
            old(sequence)@.len() == 0 ==> {
                &&& tree.level_count() == 0
                &&& forall|t: T| !tree.knows(t)
                &&& final(sequence)@ == old(sequence)@
            },
            forall|m: T|
                #[trigger] is_max(old(sequence)@, m) ==> {
                    &&& tree.level_count() == msb_of(m.val()) + 1
                    &&& forall|t: T| #[trigger] tree.knows(t) <==> t.val() <= m.val()
                },
            old(sequence)@.len() > 0 ==> final(sequence)@ == left_behind(
                old(sequence)@,
                None,
                tree.level_count() as int,
                1,
            ),
    {
        let n: usize = sequence.len();
        let ghost s = sequence@;
        if n == 0 {
            proof {
                assert forall|m: T| !#[trigger] is_max(s, m) by {}
            }
            return Self::default();
        }
        let sigma: T = max_symbol(sequence);
        let n_levels: usize = msb(sigma.to_u64()) as usize + 1;
        proof {
            BRS::lemma_binary();
            lemma_msb_bounds(sigma.val());
            assert(1 * n_levels == n_levels);
            assert forall|i: int| 0 <= i < s.len() implies (#[trigger] s[i]).val() < pow2(
                (1 * n_levels) as nat,
            ) by {}
        }
        let bvs: Vec<BRS> = build_levels(sequence, None, n_levels);
        let lens: Vec<usize> = level_lens(&bvs);
        let tree = WaveletTree {
            parts: WaveletTreeParts {
                n,
                n_levels,
                sigma: Some(sigma),
                codes_encode: None,
                codes_decode: None,
                bvs,
                lens,
            },
        };
        proof {
            let lv = tree.levels();
            assert(lv.len() == n_levels);
            assert(represents(lv, s, None, 1));
            lemma_represents(lv, s, None, 1);
            assert forall|i: int| 0 <= i < n implies (#[trigger] tree.at(i)) == Some(s[i]) by {
                lemma_represents_path(lv, s, None, 1, i);
                lemma_element(s, None, n_levels as int, 1, i);
                lemma_symbol_code(s, None, n_levels as int, 1, s[i]);
                s[i].lemma_val();
            }
            assert forall|i: int| 0 <= i < n implies #[trigger] tree.seq()[i] == s[i] by {
                assert(tree.at(i) == Some(s[i]));
            }
            assert(tree.seq() =~= s);
            assert forall|l: int| 0 <= l < n_levels implies #[trigger] tree.parts.lens[l] == n by {
                assert(lv[l].len() == s.len());
            }
            T::lemma_width();
            sigma.lemma_val();
            if msb_of(sigma.val()) >= T::bit_width() {
                if msb_of(sigma.val()) > T::bit_width() {
                    lemma_pow2_strictly_increases(T::bit_width(), msb_of(sigma.val()) as nat);
                }
            }
            assert forall|m: T| #[trigger] is_max(s, m) implies m.val() == sigma.val() by {
                let a = choose|a: int| 0 <= a < s.len() && #[trigger] s[a] == m;
                let b = choose|b: int| 0 <= b < s.len() && #[trigger] s[b] == sigma;
                assert(s[a].val() <= sigma.val());
                assert(s[b].val() <= m.val());
            }
        }
        tree
    }

    /// The plain tree of `v`.
    pub fn from(v: Vec<T>) -> (tree: Self)
        requires
            v.len() <= BRS::max_len(),
        ensures
            tree.wf(),
            tree.canonical(),
            tree.seq() == v@,
            v.len() == 0 ==> tree.level_count() == 0 && forall|t: T| !tree.knows(t),
            forall|m: T|
                #[trigger] is_max(v@, m) ==> {
                    &&& tree.level_count() == msb_of(m.val()) + 1
                    &&& forall|t: T| #[trigger] tree.knows(t) <==> t.val() <= m.val()
                },
    {
        let mut w: Vec<T> = v;
        Self::new(w.as_mut_slice())
    }
}

impl<T: WTIndexable, BRS: BinRSforWT> WaveletTree<T, BRS, true> {
    /// Builds the tree of `sequence` with codes of the given lengths, zero for
    /// no code. `None` where the lengths admit no code of at most 32 bits, or
    /// leave a symbol of the sequence without a code.
    pub fn from_code_lengths(sequence: &mut [T], code_lens: &Vec<u32>) -> (r: Option<Self>)
        requires
            0 < old(sequence)@.len() <= BRS::max_len(),
            code_lens.len() <= T::max_val() + 1,
        ensures
            r is Some <==> lens_ok(code_lens@, 1) && forall|i: int|
                0 <= i < old(sequence)@.len() ==> {
                    let v = (#[trigger] old(sequence)@[i]).val() as int;
                    v < code_lens.len() && code_lens[v] > 0
                },
            r is None ==> final(sequence)@ == old(sequence)@,
            r matches Some(tree) ==> {
                &&& tree.wf()
                &&& tree.canonical()
                &&& tree.seq() == old(sequence)@
                &&& forall|t: T|
                    #[trigger] tree.knows(t) <==> t.val() < code_lens.len() && code_lens[t.val() as int]
                        > 0
                &&& forall|v: int| 0 <= v < code_lens.len() ==> (#[trigger] code_lens[v])
                    <= tree.level_count()
                &&& exists|v: int|
                    0 <= v < code_lens.len() && (#[trigger] code_lens[v]) == tree.level_count()
                &&& tree.table() is Some
                &&& digit_lens(tree.table()->0, 1) == code_lens@
                &&& codes_greedy(tree.table()->0, 1)
                &&& final(sequence)@ == left_behind(
                    old(sequence)@,
                    tree.table(),
                    tree.level_count() as int,
                    1,
                )
            },
    {
        let n: usize = sequence.len();
        let ghost s = sequence@;
        let mut i: usize = 0;
        while i < n
            invariant
                i <= n,
                n == sequence@.len(),
                sequence@ == s,
                forall|j: int|
                    0 <= j < i ==> {
                        let v = (#[trigger] s[j]).val() as int;
                        v < code_lens.len() && code_lens[v] > 0
                    },
            decreases n - i,
        {
            let v: u64 = sequence[i].to_u64();
            if v >= code_lens.len() as u64 || code_lens[v as usize] == 0 {
                assert(!({
                    let v = s[i as int].val() as int;
                    v < code_lens.len() && code_lens[v] > 0
                }));
                return None;
            }
            i = i + 1;
        }
        let codes: Vec<PrefixCode> = match craft_wm_codes(code_lens, 1) {
            Some(codes) => codes,
            None => {
                return None;
            },
        };
        let mut max_len: u32 = 0;
        let mut v: usize = 0;
        while v < codes.len()
            invariant
                v <= codes.len(),
                codes.len() == code_lens.len(),
                forall|t: int| 0 <= t < code_lens.len() ==> (#[trigger] codes[t]).len
                    == code_lens[t] * 1,
                forall|t: int| 0 <= t < v ==> (#[trigger] codes[t]).len <= max_len,
                max_len > 0 ==> exists|t: int| 0 <= t < v && (#[trigger] codes[t]).len == max_len,
            decreases codes.len() - v,
        {
            if codes[v].len > max_len {
                max_len = codes[v].len;
            }
            v = v + 1;
        }
        let n_levels: usize = max_len as usize;
        proof {
            BRS::lemma_binary();
            assert forall|t: int| 0 <= t < code_lens.len() implies (#[trigger] code_lens[t])
                <= n_levels by {
                assert(codes[t].len <= max_len);
            }
            assert(table_ok(codes@, n_levels as int, 1));
            assert forall|j: int| 0 <= j < s.len() implies coded(
                codes@,
                (#[trigger] s[j]).val() as int,
            ) by {
                assert(codes[s[j].val() as int].len == code_lens[s[j].val() as int] * 1);
            }
            assert(coded(codes@, s[0].val() as int));
            assert(max_len > 0);
            let t = choose|t: int| 0 <= t < v && (#[trigger] codes[t]).len == max_len;
            assert(coded(codes@, t));
            assert(codes@[t].len <= 32);
        }
        let decode: Vec<Vec<(u32, T)>> = decode_table(
            &codes,
            max_len,
            Ghost(n_levels as int),
            Ghost(1u32),
        );
        let bvs: Vec<BRS> = build_levels(sequence, Some(&codes), n_levels);
        let lens: Vec<usize> = level_lens(&bvs);
        let tree = WaveletTree {
            parts: WaveletTreeParts {
                n,
                n_levels,
                sigma: None,
                codes_encode: Some(codes),
                codes_decode: Some(decode),
                bvs,
                lens,
            },
        };
        proof {
            let lv = tree.levels();
            let table = tree.table();
            assert(lv.len() == n_levels);
            assert(represents(lv, s, table, 1));
            lemma_represents(lv, s, table, 1);
            assert forall|j: int| 0 <= j < n implies (#[trigger] tree.at(j)) == Some(s[j]) by {
                lemma_represents_path(lv, s, table, 1, j);
                lemma_element(s, table, n_levels as int, 1, j);
                lemma_symbol_code(s, table, n_levels as int, 1, s[j]);
                let x = s[j].val() as int;
                lemma_code_digits(codes@, n_levels as int, 1, x);
                assert(codes@[x].len as int / 1 == codes@[x].len);
                lemma_row_symbol(codes@, rows_view(decode@), s[j]);
            }
            assert forall|i: int| 0 <= i < n implies #[trigger] tree.seq()[i] == s[i] by {
                assert(tree.at(i) == Some(s[i]));
            }
            assert(tree.seq() =~= s);
            assert(lv[0].len() == tree.parts.lens[0]);
            assert(digit_lens(codes@, 1) =~= code_lens@) by {
                assert forall|x: int| 0 <= x < codes.len() implies codes@[x].len / 1u32
                    == code_lens@[x] by {
                    assert(codes[x].len == code_lens[x] * 1);
                }
            }
            assert forall|x: int| coded(codes@, x) implies codes@[x].len <= n_levels
                && #[trigger] codes@[x].content < pow2(codes@[x].len as nat) by {}
            assert forall|t: T| #[trigger] tree.knows(t) <==> t.val() < code_lens.len()
                && code_lens[t.val() as int] > 0 by {
                if t.val() < code_lens.len() {
                    assert(codes[t.val() as int].len == code_lens[t.val() as int] * 1);
                }
            }
        }
        Some(tree)
    }

    /// Builds the tree of `sequence`, which is rearranged on the way, with a
    /// minimum-redundancy code for its symbols. `None` where a code would be
    /// longer than 32 bits, or the symbols too large or too many for a table.
    pub fn new(sequence: &mut [T]) -> (r: Option<Self>)
        requires
            old(sequence)@.len() <= BRS::max_len(),
        ensures
            match r {
                Some(tree) => {
                    &&& tree.wf()
                    &&& tree.canonical()
                    &&& tree.seq() == old(sequence)@
                    &&& forall|t: T| #[trigger] tree.knows(t) <==> old(sequence)@.contains(t)
                    &&& old(sequence)@.len() == 0 ==> final(sequence)@ == old(sequence)@
                        && tree.level_count() == 0
                    &&& old(sequence)@.len() > 0 ==> {
                        let codes = tree.table()->0;
                        &&& tree.table() is Some
                        &&& forall|m: T| #[trigger]
                            is_max(old(sequence)@, m) ==> codes.len() == m.val() + 1
                        &&& codes_for(frequency_table(old(sequence)@, codes.len() as int), codes, 1)
                        &&& minimum_redundancy(
                            frequency_table(old(sequence)@, codes.len() as int),
                            digit_lens(codes, 1),
                            1,
                        )
                        &&& !codes_fail(frequency_table(old(sequence)@, codes.len() as int), 1)
                        &&& is_depth(codes, tree.level_count() as int, 1)
                        &&& final(sequence)@ == left_behind(
                            old(sequence)@,
                            tree.table(),
                            tree.level_count() as int,
                            1,
                        )
                    }
                },
                None => {
                    &&& final(sequence)@ == old(sequence)@
                    &&& old(sequence)@.len() > 0
                    &&& forall|m: T|
                        #[trigger] is_max(old(sequence)@, m) ==> m.val() >= usize::MAX || {
                            let freqs = frequency_table(old(sequence)@, m.val() + 1);
                            &&& codes_fail(freqs, 1)
                            &&& used_symbols(freqs).len() > 32
                            &&& too_many(freqs, 1) || long_needed(freqs, 1)
                        }
                },
            },
    {
        let n: usize = sequence.len();
        let ghost s = sequence@;
        if n == 0 {
            return Some(Self::default());
        }
        let sigma: T = max_symbol(sequence);
        let top: u64 = sigma.to_u64();
        proof {
            assert forall|m: T| #[trigger] is_max(s, m) implies m.val() == sigma.val() by {
                let a = choose|a: int| 0 <= a < s.len() && #[trigger] s[a] == m;
                let b = choose|b: int| 0 <= b < s.len() && #[trigger] s[b] == sigma;
                assert(s[a].val() <= sigma.val());
                assert(s[b].val() <= m.val());
            }
        }
        if top >= usize::MAX as u64 {
            return None;
        }
        let size: usize = top as usize + 1;
        let frequencies: Vec<usize> = match symbol_frequencies(sequence, size) {
            Some(table) => table,
            None => {
                proof {
                    let i = choose|i: int|
                        0 <= i < sequence@.len() && (#[trigger] sequence@[i]).val() >= size;
                    assert(s[i].val() <= sigma.val());
                }
                return None;
            },
        };
        let lens: Vec<u32> = match huffman_lens(&frequencies, 1) {
            Some(lens) => lens,
            None => {
                return None;
            },
        };
        proof {
            sigma.lemma_val();
            assert forall|v: int| 0 <= v < size implies (#[trigger] lens[v] > 0 <==> exists|j: int|
                0 <= j < s.len() && (#[trigger] s[j]).val() == v) by {
                lemma_frequency(s, size as int, v);
            }
            assert forall|i: int| 0 <= i < s.len() implies {
                let v = (#[trigger] s[i]).val() as int;
                v < lens.len() && lens[v] > 0
            } by {
                assert(s[i].val() < size);
                assert(lens[s[i].val() as int] > 0);
            }
        }
        let r: Option<Self> = Self::from_code_lengths(sequence, &lens);
        proof {
            match &r {
                Some(tree) => {
                    let codes = tree.table()->0;
                    let depth = tree.level_count() as int;
                    assert(codes.len() == lens.len());
                    assert forall|v: int| 0 <= v < codes.len() implies (#[trigger] codes[v]).len
                        == lens[v] by {
                        assert(digit_lens(codes, 1)[v] == lens[v]);
                    }
                    assert(digit_lens(codes, 1) =~= lens@);
                    assert forall|v: int| 0 <= v < frequencies.len() implies #[trigger] code_lens(
                        frequencies@,
                        1,
                    )[v] * 1u32 <= 32 by {
                        assert(lens[v] * 1u32 <= 32);
                    }
                    let v = choose|v: int| 0 <= v < lens.len() && (#[trigger] lens[v]) == depth;
                    assert(codes[v].len == 1 * depth);
                    assert(is_depth(codes, depth, 1));
                    assert forall|t: T| #[trigger] tree.knows(t) <==> s.contains(t) by {
                        if tree.knows(t) {
                            let j = choose|j: int|
                                0 <= j < s.len() && (#[trigger] s[j]).val() == t.val() as int;
                            s[j].lemma_val();
                            t.lemma_val();
                            assert(s[j] == t);
                        }
                        if s.contains(t) {
                            let j = choose|j: int| 0 <= j < s.len() && s[j] == t;
                            assert(s[j].val() < size);
                            assert(lens[s[j].val() as int] > 0);
                        }
                    }
                },
                None => {
                    assert(!lens_ok(lens@, 1));
                    let v = choose|v: int|
                        0 <= v < lens.len() && !(#[trigger] lens[v] * 1u32 <= 32);
                    assert(code_lens(frequencies@, 1)[v] * 1u32 > 32);
                    assert(minimum_redundancy(frequencies@, lens@, 1));
                    assert(lens[v] <= used_symbols(frequencies@).len());
                },
            }
        }
        r
    }

    /// The compressed tree of `v`.
    pub fn from(v: Vec<T>) -> (r: Option<Self>)
        requires
            v.len() <= BRS::max_len(),
        ensures
            match r {
                Some(tree) => {
                    &&& tree.wf()
                    &&& tree.canonical()
                    &&& tree.seq() == v@
                    &&& forall|t: T| #[trigger] tree.knows(t) <==> v@.contains(t)
                    &&& v.len() == 0 ==> tree.level_count() == 0
                    &&& v.len() > 0 ==> {
                        let codes = tree.table()->0;
                        &&& tree.table() is Some
                        &&& forall|m: T| #[trigger] is_max(v@, m) ==> codes.len() == m.val() + 1
                        &&& codes_for(frequency_table(v@, codes.len() as int), codes, 1)
                        &&& minimum_redundancy(
                            frequency_table(v@, codes.len() as int),
                            digit_lens(codes, 1),
                            1,
                        )
                        &&& !codes_fail(frequency_table(v@, codes.len() as int), 1)
                        &&& is_depth(codes, tree.level_count() as int, 1)
                    }
                },
                None => {
                    &&& v.len() > 0
                    &&& forall|m: T|
                        #[trigger] is_max(v@, m) ==> m.val() >= usize::MAX || {
                            let freqs = frequency_table(v@, m.val() + 1);
                            &&& codes_fail(freqs, 1)
                            &&& used_symbols(freqs).len() > 32
                            &&& too_many(freqs, 1) || long_needed(freqs, 1)
                        }
                },
            },
    {
        let mut w: Vec<T> = v;
        Self::new(w.as_mut_slice())
    }
}

} // verus!
