//! Quad wavelet trees compressed with Huffman codes.

use vstd::prelude::*;

use crate::binwt::{is_max, level_lens, max_symbol};
use crate::builder::{build_levels, left_behind, symbol_code, LevelBuild};
use crate::codes::{
    code_digits, coded, craft_wm_codes, is_depth, lemma_code_digits, lens_ok, table_ok, PrefixCode,
};
use crate::digits::{lemma_push_mod, push_digit, radix_of, value};
use crate::huffman::{
    code_lens, codes_fail, codes_for, digit_lens, frequency_table, huffman_lens, lemma_frequency,
    lemma_nothing_redundant, long_needed, minimum_redundancy, sum_occurring, symbol_frequencies,
    too_many, used_symbols,
};
use crate::indexable::WTIndexable;
use crate::iter::{symbols_of, AccessUnsigned, WTIterator};
use crate::level::{
    code_of, level_digits, levels_wf, rank_walk, select_two_ways, select_walk, two_ways, DigitLevel,
};
use crate::qvector::RSQVector;
use crate::quadwt::RSforWT;
use crate::tables::{
    decode_table, entry_at, find_code, lemma_row_symbol, row_sorted, row_symbol, rows_view,
    tables_agree,
};
use crate::tree::{
    has_symbol, lemma_element, lemma_represents, lemma_represents_at, lemma_represents_path,
    lemma_represents_symbol, lemma_symbol_code, occurrences, represents,
};
use crate::wavelet::{lemma_step_bounds, lemma_walk_fits_mono, path, pcount, step, walk_fits};

verus! {

/// Codes for the symbols that occur, of whole pairs of bits and of minimum
/// redundancy. `None` where a code would be longer than 32 bits, or the symbols
/// are too many.
pub fn huffman_codes_from_frequencies(frequencies: &Vec<usize>) -> (r: Option<Vec<PrefixCode>>)
    requires
        sum_occurring(
            frequencies@,
            |s: int| frequencies@[s] as int,
            frequencies.len() as int,
        ) <= usize::MAX,
    ensures
        match r {
            Some(codes) => {
                &&& codes.len() == frequencies.len()
                &&& forall|s: int|
                    0 <= s < codes.len() ==> ((#[trigger] codes[s]).len > 0 <==> frequencies[s]
                        > 0)
                &&& forall|n_levels: int|
                    (forall|s: int| 0 <= s < codes.len() ==> (#[trigger] codes[s]).len
                        <= 2 * n_levels) ==> #[trigger] table_ok(codes@, n_levels, 2)
                &&& forall|s: int|
                    0 <= s < codes.len() ==> (#[trigger] codes[s]).len % 2 == 0 && codes[s].len
                        <= 32
                &&& codes_for(frequencies@, codes@, 2)
                &&& minimum_redundancy(frequencies@, digit_lens(codes@, 2), 2)
                &&& !codes_fail(frequencies@, 2)
            },
            None => codes_fail(frequencies@, 2) && used_symbols(frequencies@).len() > 16 && (
            too_many(frequencies@, 2) || long_needed(frequencies@, 2)),
        },
{
    let lens: Vec<u32> = match huffman_lens(frequencies, 2) {
        Some(lens) => lens,
        None => {
            return None;
        },
    };
    let r: Option<Vec<PrefixCode>> = craft_wm_codes(&lens, 2);
    proof {
        match &r {
            Some(codes) => {
                assert forall|s: int| 0 <= s < codes.len() implies ((#[trigger] codes[s]).len > 0
                    <==> frequencies[s] > 0) && codes[s].len % 2 == 0 && codes[s].len <= 32 by {
                    assert(codes[s].len == lens[s] * 2);
                    assert(lens[s] * 2u32 <= 32);
                }
                assert(digit_lens(codes@, 2) =~= lens@);
                assert forall|s: int| 0 <= s < frequencies.len() implies #[trigger] code_lens(
                    frequencies@,
                    2,
                )[s] * 2u32 <= 32 by {
                    assert(lens[s] * 2u32 <= 32);
                }
                assert forall|n_levels: int|
                    (forall|s: int| 0 <= s < codes.len() ==> (#[trigger] codes[s]).len <= 2
                        * n_levels) implies #[trigger] table_ok(codes@, n_levels, 2) by {
                    assert forall|s: int| 0 <= s < lens.len() implies (#[trigger] lens[s])
                        <= n_levels by {
                        assert(codes[s].len == lens[s] * 2);
                    }
                }
            },
            None => {
                assert(!lens_ok(lens@, 2));
                let v = choose|v: int| 0 <= v < lens.len() && !(#[trigger] lens[v] * 2u32 <= 32);
                assert(lens[v] <= used_symbols(frequencies@).len());
                assert(code_lens(frequencies@, 2)[v] * 2u32 > 32);
                assert(minimum_redundancy(frequencies@, lens@, 2));
            },
        }
    }
    r
}

/// The digits that the row at position `p` of level `l` meets before it leaves
/// the first `lens[l]` rows of a level.
pub open spec fn path_within(levels: Seq<Seq<u8>>, lens: Seq<usize>, l: int, p: int) -> Seq<u8>
    decreases levels.len() - l,
{
    if l < 0 || l >= levels.len() || p < 0 || p >= lens[l] || p >= levels[l].len() {
        Seq::empty()
    } else {
        seq![levels[l][p]] + path_within(levels, lens, l + 1, step(levels[l], p))
    }
}

/// Where all rows of the levels count, so do all digits of a path.
pub proof fn lemma_path_within(levels: Seq<Seq<u8>>, lens: Seq<usize>, l: int, p: int)
    requires
        lens.len() == levels.len(),
        forall|m: int| 0 <= m < levels.len() ==> #[trigger] lens[m] == levels[m].len(),
    ensures
        path_within(levels, lens, l, p) == path(levels, l, p),
    decreases levels.len() - l,
{
    if 0 <= l < levels.len() && 0 <= p < levels[l].len() {
        assert(lens[l] == levels[l].len());
        lemma_path_within(levels, lens, l + 1, step(levels[l], p));
    }
}

/// Follows the row at position `i`. Returns what its digits write modulo two to
/// the 32, and how many they are.
pub fn descend_within<L: DigitLevel>(levels: &Vec<L>, lens: &Vec<usize>, i: usize) -> (r: (
    u32,
    usize,
))
    requires
        levels_wf(levels@),
        lens.len() == levels.len(),
        forall|l: int|
            0 <= l < lens.len() ==> (#[trigger] lens[l]) <= levels[l].digits().len(),
    ensures
        ({
            let p = path_within(level_digits(levels@), lens@, 0, i as int);
            &&& r.1 == p.len()
            &&& r.1 <= levels.len()
            &&& r.0 == value(p, radix_of(L::digit_bits())) % 0x1_0000_0000
        }),
{
    let ghost lv = level_digits(levels@);
    let ghost full = path_within(lv, lens@, 0, i as int);
    let ghost radix = radix_of(L::digit_bits());
    let bits: u32 = L::bits();
    let mut cur: usize = i;
    let mut result: u64 = 0;
    let mut depth: usize = 0;
    let ghost mut done: Seq<u8> = Seq::empty();
    assert(full =~= done + path_within(lv, lens@, 0, cur as int));
    while depth < levels.len() && cur < lens[depth]
        invariant
            levels_wf(levels@),
            lv == level_digits(levels@),
            lens.len() == levels.len(),
            forall|l: int|
                0 <= l < lens.len() ==> (#[trigger] lens[l]) <= levels[l].digits().len(),
            depth <= levels.len(),
            full == done + path_within(lv, lens@, depth as int, cur as int),
            done.len() == depth,
            bits == L::digit_bits(),
            bits == 1 || bits == 2,
            radix == radix_of(bits),
            result == value(done, radix) % 0x1_0000_0000_0000_0000,
        ensures
            depth <= levels.len(),
            full == done + path_within(lv, lens@, depth as int, cur as int),
            path_within(lv, lens@, depth as int, cur as int).len() == 0,
            done.len() == depth,
            result == value(done, radix) % 0x1_0000_0000_0000_0000,
        decreases levels.len() - depth,
    {
        let level = &levels[depth];
        assert(lv[depth as int] == level.digits());
        let d: u8 = level.digit(cur);
        proof {
            lemma_step_bounds(level.digits(), cur as int);
            level.lemma_level();
            assert(done.push(d).drop_last() =~= done);
            lemma_push_mod(value(done, radix), radix, d as int, 0x1_0000_0000_0000_0000);
            assert(done.push(d) + path_within(
                lv,
                lens@,
                depth + 1,
                step(level.digits(), cur as int),
            ) =~= done + path_within(lv, lens@, depth as int, cur as int));
            done = done.push(d);
        }
        result = push_digit(result, d, bits);
        cur = level.digits_smaller(d) + level.digit_rank(d, cur);
        depth = depth + 1;
    }
    assert(full =~= done);
    proof {
        let v = value(done, radix);
        vstd::arithmetic::div_mod::lemma_mod_mod(v, 0x1_0000_0000, 0x1_0000_0000);
    }
    ((result % 0x1_0000_0000) as u32, depth)
}

/// The code of a symbol as a word and a number of digits. Of a code with an odd
/// number of bits the last is ignored.
pub open spec fn quad_code(code: PrefixCode) -> Seq<u8> {
    code_of(
        if code.len % 2 == 0 {
            code.content as u64
        } else {
            (code.content / 2) as u64
        },
        code.len as int / 2,
        2,
    )
}

/// The digits by which `select` comes back up: of a code with an odd number of
/// bits the first is ignored.
pub open spec fn quad_code_up(code: PrefixCode) -> Seq<u8> {
    code_of(code.content as u64, code.len as int / 2, 2)
}

/// What decoding the digits `p` gives: the entry of the row of their length.
pub open spec fn decoded<T>(decode: Seq<Vec<(u32, T)>>, p: Seq<u8>, r: Option<T>) -> bool {
    let content = (value(p, 4) % 0x1_0000_0000) as u32;
    if 2 * p.len() >= decode.len() {
        r is None
    } else if row_sorted(decode[2 * p.len() as int]@) {
        r == row_symbol(decode[2 * p.len() as int]@, content)
    } else {
        r matches Some(t) ==> exists|j: int|
            #[trigger] entry_at(decode[2 * p.len() as int]@, content, j)
                && decode[2 * p.len() as int]@[j].1 == t
    }
}

/// Reads the symbol at position `i`.
pub fn huff_get<T: WTIndexable, L: DigitLevel>(
    levels: &Vec<L>,
    lens: &Vec<usize>,
    decode: &Vec<Vec<(u32, T)>>,
    i: usize,
) -> (r: Option<T>)
    requires
        levels_wf(levels@),
        L::digit_bits() == 2,
        levels.len() <= 0xffff,
        lens.len() == levels.len(),
        forall|l: int|
            0 <= l < lens.len() ==> (#[trigger] lens[l]) <= levels[l].digits().len(),
    ensures
        decoded(decode@, path_within(level_digits(levels@), lens@, 0, i as int), r),
{
    let (content, depth) = descend_within(levels, lens, i);
    let shift: usize = 2 * depth;
    if shift >= decode.len() {
        return None;
    }
    let row: &Vec<(u32, T)> = &decode[shift];
    match find_code(row, content) {
        Some(j) => {
            proof {
                assert(entry_at(row@, content, j as int));
                if row_sorted(row@) {
                    let k = choose|k: int| entry_at(row@, content, k);
                    if j < k {
                        assert(row[j as int].0 < row[k].0);
                    } else if k < j {
                        assert(row[k].0 < row[j as int].0);
                    }
                }
            }
            Some(row[j].1)
        },
        None => None,
    }
}

/// Counts the rows before position `i` that follow the code of a symbol.
/// `None` where the symbol has no code, or the code leaves the levels.
pub fn huff_rank<T: WTIndexable, L: DigitLevel>(
    levels: &Vec<L>,
    encode: &Vec<PrefixCode>,
    symbol: T,
    i: usize,
) -> (r: Option<usize>)
    requires
        levels_wf(levels@),
        L::digit_bits() == 2,
    ensures
        ({
            let lv = level_digits(levels@);
            let known = coded(encode@, symbol.val() as int);
            let code = quad_code(encode@[symbol.val() as int]);
            match r {
                Some(k) => {
                    &&& known
                    &&& code.len() <= lv.len()
                    &&& walk_fits(lv, code, i as int)
                    &&& k == pcount(lv, 0, code, 0, i as int)
                },
                None => !known || code.len() > lv.len() || !walk_fits(lv, code, i as int),
            }
        }),
{
    let s: u64 = symbol.to_u64();
    if s >= encode.len() as u64 {
        return None;
    }
    let code: PrefixCode = encode[s as usize];
    if code.len == 0 {
        return None;
    }
    let (content, len) = code_word(code);
    if len > levels.len() {
        return None;
    }
    rank_walk(levels, content, len, i)
}

fn code_word(code: PrefixCode) -> (r: (u64, usize))
    ensures
        r.1 == code.len / 2,
        code_of(r.0, r.1 as int, 2) == quad_code(code),
        quad_code(code).len() == r.1,
{
    let content: u64 = if code.len % 2 == 0 {
        code.content as u64
    } else {
        (code.content / 2) as u64
    };
    proof {
        crate::digits::lemma_digits_of(content as int, code.len as int / 2, 4);
    }
    (content, (code.len / 2) as usize)
}

/// The position of occurrence `k` of the rows that follow the code of a symbol.
/// `None` where there are not so many, the symbol has no code, or the code
/// leaves the levels. A code without digits is followed by any position. A code
/// with an odd number of bits has other digits on the way up than on the way
/// down.
pub fn huff_select<T: WTIndexable, L: DigitLevel>(
    levels: &Vec<L>,
    encode: &Vec<PrefixCode>,
    symbol: T,
    k: usize,
) -> (r: Option<usize>)
    requires
        levels_wf(levels@),
        L::digit_bits() == 2,
    ensures
        ({
            let lv = level_digits(levels@);
            let known = coded(encode@, symbol.val() as int);
            let word = encode@[symbol.val() as int];
            let code = quad_code(word);
            if !known || code.len() > lv.len() {
                r is None
            } else if code.len() == 0 {
                r == Some(k)
            } else if word.len % 2 == 1 {
                match r {
                    Some(p) => two_ways(lv, code, quad_code_up(word), 0, 0, k as int) == Some(
                        p as int,
                    ),
                    None => two_ways(lv, code, quad_code_up(word), 0, 0, k as int) is None,
                }
            } else {
                match r {
                    Some(p) => {
                        &&& p < lv[0].len()
                        &&& code.is_prefix_of(path(lv, 0, p as int))
                        &&& pcount(lv, 0, code, 0, p as int) == k
                    },
                    None => walk_fits(lv, code, lv[0].len() as int) ==> pcount(
                        lv,
                        0,
                        code,
                        0,
                        lv[0].len() as int,
                    ) <= k,
                }
            }
        }),
{
    let s: u64 = symbol.to_u64();
    if s >= encode.len() as u64 {
        return None;
    }
    let code: PrefixCode = encode[s as usize];
    if code.len == 0 {
        return None;
    }
    let (content, len) = code_word(code);
    if len > levels.len() {
        return None;
    }
    if len == 0 {
        return Some(k);
    }
    if code.len % 2 == 1 {
        return select_two_ways(levels, content, code.content as u64, len, k);
    }
    select_walk(levels, content, len, k)
}

/// The levels and the tables are those of a tree over `s`.
pub open spec fn huff_represents<T: WTIndexable>(
    levels: Seq<Seq<u8>>,
    lens: Seq<usize>,
    encode: Seq<PrefixCode>,
    decode: Seq<Seq<(u32, T)>>,
    s: Seq<T>,
) -> bool {
    &&& lens.len() == levels.len()
    &&& forall|l: int| 0 <= l < levels.len() ==> #[trigger] lens[l] == levels[l].len()
    &&& represents(levels, s, Some(encode), 2)
    &&& tables_agree(encode, decode)
}

/// The word of a code in a table is the code.
proof fn lemma_quad_code<T: WTIndexable>(levels: Seq<Seq<u8>>, encode: Seq<PrefixCode>, s: Seq<T>, t: T)
    requires
        represents(levels, s, Some(encode), 2),
        coded(encode, t.val() as int),
    ensures
        quad_code(encode[t.val() as int]) == symbol_code(
            Some(encode),
            levels.len() as int,
            2,
            t,
        ),
        0 < quad_code(encode[t.val() as int]).len() <= levels.len(),
        has_symbol(levels, Some(encode), 2, t),
        encode[t.val() as int].len % 2 == 0,
        encode[t.val() as int].len <= 32,
{
    let n_levels = levels.len() as int;
    assert(table_ok(encode, n_levels, 2));
    assert(encode[t.val() as int].len as int % 2 == 0);
    lemma_symbol_code(s, Some(encode), n_levels, 2, t);
}

/// Decoding a position of a tree gives the symbol there.
pub proof fn lemma_huff_get<T: WTIndexable>(
    levels: Seq<Seq<u8>>,
    lens: Seq<usize>,
    encode: Seq<PrefixCode>,
    decode: Seq<Vec<(u32, T)>>,
    s: Seq<T>,
    i: int,
    r: Option<T>,
)
    requires
        huff_represents(levels, lens, encode, rows_view(decode), s),
        0 <= i < s.len(),
        decoded(decode, path_within(levels, lens, 0, i), r),
    ensures
        r == Some(s[i]),
{
    let t = s[i];
    let n_levels = levels.len() as int;
    lemma_path_within(levels, lens, 0, i);
    lemma_represents_path(levels, s, Some(encode), 2, i);
    lemma_element(s, Some(encode), n_levels, 2, i);
    lemma_symbol_code(s, Some(encode), n_levels, 2, t);
    lemma_quad_code(levels, encode, s, t);
    let x = t.val() as int;
    lemma_code_digits(encode, n_levels, 2, x);
    lemma_row_symbol(encode, rows_view(decode), t);
    let p = path(levels, 0, i);
    assert(p == code_digits(encode[x], 2));
    assert(2 * p.len() == encode[x].len);
    assert(value(p, 4) == encode[x].content);
    vstd::arithmetic::div_mod::lemma_small_mod(encode[x].content as nat, 0x1_0000_0000);
    assert(rows_view(decode)[encode[x].len as int] == decode[encode[x].len as int]@);
    assert(row_sorted(rows_view(decode)[encode[x].len as int]));
}

/// Following the code of a symbol in a tree counts its occurrences.
pub proof fn lemma_huff_count<T: WTIndexable>(
    levels: Seq<Seq<u8>>,
    lens: Seq<usize>,
    encode: Seq<PrefixCode>,
    decode: Seq<Seq<(u32, T)>>,
    s: Seq<T>,
    t: T,
    i: int,
)
    requires
        huff_represents(levels, lens, encode, decode, s),
        coded(encode, t.val() as int),
        0 <= i <= s.len(),
    ensures
        ({
            let code = quad_code(encode[t.val() as int]);
            &&& 0 < code.len() <= levels.len()
            &&& walk_fits(levels, code, i)
            &&& pcount(levels, 0, code, 0, i) == occurrences(s, t, i)
            &&& levels[0].len() == s.len()
            &&& i < s.len() && code.is_prefix_of(path(levels, 0, i)) ==> s[i] == t
        }),
{
    lemma_quad_code(levels, encode, s, t);
    lemma_represents(levels, s, Some(encode), 2);
    lemma_represents_symbol(levels, s, Some(encode), 2, t);
    let code = quad_code(encode[t.val() as int]);
    lemma_walk_fits_mono(levels, code, i, s.len() as int);
    if i < s.len() && code.is_prefix_of(path(levels, 0, i)) {
        lemma_represents_at(levels, s, Some(encode), 2, t, i);
    }
}

/// A quad wavelet tree over a sequence of unsigned integers, compressed with
/// Huffman codes.
pub struct HuffQWaveletTree<T, RS> {
    n: usize,
    n_levels: usize,
    codes_encode: Vec<PrefixCode>,
    codes_decode: Vec<Vec<(u32, T)>>,
    qvs: Vec<RS>,
    lens: Vec<usize>,
    symbols: Ghost<Seq<T>>,
}

/// A compressed quad wavelet tree with blocks of 256 rows.
pub type HQWT256<T> = HuffQWaveletTree<T, RSQVector<256>>;

/// A compressed quad wavelet tree with blocks of 512 rows.
pub type HQWT512<T> = HuffQWaveletTree<T, RSQVector<512>>;

impl<T: WTIndexable, RS: RSforWT> HuffQWaveletTree<T, RS> {
    /// The represented sequence.
    pub closed spec fn seq(&self) -> Seq<T> {
        self.symbols@
    }

    /// The digits of the levels.
    pub closed spec fn levels(&self) -> Seq<Seq<u8>> {
        level_digits(self.qvs@)
    }

    /// The levels.
    pub closed spec fn quads(&self) -> Seq<RS> {
        self.qvs@
    }

    /// The codes of the symbols.
    pub closed spec fn encode(&self) -> Seq<PrefixCode> {
        self.codes_encode@
    }

    /// The decoding table.
    pub closed spec fn decode(&self) -> Seq<Vec<(u32, T)>> {
        self.codes_decode@
    }

    /// The lengths of the levels.
    pub closed spec fn level_lens(&self) -> Seq<usize> {
        self.lens@
    }

    /// The number of levels.
    pub closed spec fn level_count(&self) -> nat {
        self.n_levels as nat
    }

    /// Symbol `t` has a code.
    pub open spec fn knows(&self, t: T) -> bool {
        coded(self.encode(), t.val() as int)
    }

    /// The parts of the tree fit together.
    #[verifier::opaque]
    pub closed spec fn wf(&self) -> bool {
        &&& self.n == self.symbols@.len()
        &&& self.qvs.len() == self.n_levels
        &&& self.lens.len() == self.n_levels
        &&& levels_wf(self.qvs@)
        &&& self.n_levels <= 16
        &&& forall|l: int|
            0 <= l < self.n_levels ==> #[trigger] self.lens[l] == self.qvs[l].digits().len()
        &&& self.n == 0 ==> self.n_levels == 0 && self.codes_encode.len() == 0
            && self.codes_decode.len() == 0
        &&& self.n > 0 ==> {
            &&& huff_represents(
                self.levels(),
                self.lens@,
                self.codes_encode@,
                rows_view(self.codes_decode@),
                self.symbols@,
            )
            &&& self.codes_decode.len() == 2 * self.n_levels + 1
            &&& self.codes_decode[0].len() == 0
            &&& self.codes_encode.len() <= T::max_val() + 1
            &&& exists|s: int|
                coded(self.codes_encode@, s) && (#[trigger] self.codes_encode@[s]).len == 2
                    * self.n_levels
        }
    }

    /// What a well-formed tree holds.
    pub proof fn lemma_wf(&self)
        requires
            self.wf(),
        ensures
            self.levels().len() == self.level_count(),
            self.quads().len() == self.level_count(),
            self.levels() == level_digits(self.quads()),
            levels_wf(self.quads()),
            RS::digit_bits() == 2,
            self.level_count() <= 16,
            self.level_lens().len() == self.level_count(),
            forall|l: int|
                0 <= l < self.level_count() ==> #[trigger] self.level_lens()[l]
                    == self.levels()[l].len(),
            self.seq().len() <= usize::MAX,
            self.seq().len() == 0 ==> self.level_count() == 0 && self.encode().len() == 0
                && self.decode().len() == 0,
            self.seq().len() > 0 ==> {
                &&& huff_represents(
                    self.levels(),
                    self.level_lens(),
                    self.encode(),
                    rows_view(self.decode()),
                    self.seq(),
                )
                &&& self.levels()[0].len() == self.seq().len()
                &&& self.level_count() > 0
                &&& self.decode().len() == 2 * self.level_count() + 1
                &&& self.decode()[0].len() == 0
                &&& self.encode().len() <= T::max_val() + 1
                &&& exists|s: int|
                    coded(self.encode(), s) && (#[trigger] self.encode()[s]).len == 2
                        * self.level_count()
            },
    {
        reveal(HuffQWaveletTree::wf);
        RS::lemma_quad();
        if self.n > 0 {
            lemma_represents(self.levels(), self.seq(), Some(self.encode()), 2);
        }
    }

    /// The number of symbols.
    pub fn len(&self) -> (n: usize)
        requires
            self.wf(),
        ensures
            n == self.seq().len(),
    {
        proof {
            reveal(HuffQWaveletTree::wf);
        }
        self.n
    }

    /// Whether there are no symbols.
    pub fn is_empty(&self) -> (b: bool)
        requires
            self.wf(),
        ensures
            b == (self.seq().len() == 0),
    {
        self.len() == 0
    }

    /// The number of levels.
    pub fn n_levels(&self) -> (l: usize)
        ensures
            l == self.level_count(),
    {
        self.n_levels
    }

    /// The levels.
    pub fn qvs(&self) -> (v: &Vec<RS>)
        ensures
            v@ == self.quads(),
    {
        &self.qvs
    }

    /// The codes of the symbols.
    pub fn codes_encode(&self) -> (v: &Vec<PrefixCode>)
        ensures
            v@ == self.encode(),
    {
        &self.codes_encode
    }

    /// The lengths of the levels.
    pub fn lens(&self) -> (v: &Vec<usize>)
        ensures
            v@ == self.level_lens(),
    {
        &self.lens
    }

    /// The decoding table.
    pub fn codes_decode(&self) -> (v: &Vec<Vec<(u32, T)>>)
        ensures
            v@ == self.decode(),
    {
        &self.codes_decode
    }

    /// The symbol at position `i`, or `None` out of bounds.
    pub fn get(&self, i: usize) -> (r: Option<T>)
        requires
            self.wf(),
        ensures
            r == if i < self.seq().len() {
                Some(self.seq()[i as int])
            } else {
                None
            },
    {
        proof {
            self.lemma_wf();
            reveal(HuffQWaveletTree::wf);
        }
        if i >= self.n {
            return None;
        }
        let r: Option<T> = huff_get(&self.qvs, &self.lens, &self.codes_decode, i);
        proof {
            lemma_huff_get(
                self.levels(),
                self.lens@,
                self.encode(),
                self.decode(),
                self.seq(),
                i as int,
                r,
            );
        }
        r
    }

    /// The symbol at position `i`, which must be in bounds.
    pub fn get_unchecked(&self, i: usize) -> (t: T)
        requires
            self.wf(),
            i < self.seq().len(),
        ensures
            t == self.seq()[i as int],
    {
        let r: Option<T> = self.get(i);
        r.unwrap()
    }

    /// How often `symbol` occurs before position `i`. `None` where `i` is out of
    /// bounds or the symbol has no code.
    pub fn rank(&self, symbol: T, i: usize) -> (r: Option<usize>)
        requires
            self.wf(),
        ensures
            match r {
                Some(k) => {
                    &&& i <= self.seq().len()
                    &&& self.knows(symbol)
                    &&& k == occurrences(self.seq(), symbol, i as int)
                },
                None => i > self.seq().len() || !self.knows(symbol),
            },
    {
        proof {
            self.lemma_wf();
            reveal(HuffQWaveletTree::wf);
        }
        if i > self.n {
            return None;
        }
        proof {
            if self.knows(symbol) {
                lemma_huff_count(
                    self.levels(),
                    self.lens@,
                    self.encode(),
                    rows_view(self.decode()),
                    self.seq(),
                    symbol,
                    i as int,
                );
            }
        }
        huff_rank(&self.qvs, &self.codes_encode, symbol, i)
    }

    /// How often `symbol`, which the tree must know, occurs before position
    /// `i`, which must be in bounds.
    pub fn rank_unchecked(&self, symbol: T, i: usize) -> (k: usize)
        requires
            self.wf(),
            i <= self.seq().len(),
            self.knows(symbol),
        ensures
            k == occurrences(self.seq(), symbol, i as int),
    {
        let r: Option<usize> = self.rank(symbol, i);
        r.unwrap()
    }

    /// The position of occurrence `i` of `symbol`, counting from zero. `None`
    /// where there are not so many, or the symbol has no code.
    pub fn select(&self, symbol: T, i: usize) -> (r: Option<usize>)
        requires
            self.wf(),
        ensures
            match r {
                Some(p) => {
                    &&& self.knows(symbol)
                    &&& p < self.seq().len()
                    &&& self.seq()[p as int] == symbol
                    &&& occurrences(self.seq(), symbol, p as int) == i
                },
                None => !self.knows(symbol) || occurrences(
                    self.seq(),
                    symbol,
                    self.seq().len() as int,
                ) <= i,
            },
    {
        proof {
            self.lemma_wf();
            reveal(HuffQWaveletTree::wf);
            if self.knows(symbol) {
                lemma_huff_count(
                    self.levels(),
                    self.lens@,
                    self.encode(),
                    rows_view(self.decode()),
                    self.seq(),
                    symbol,
                    self.n as int,
                );
            }
        }
        let r: Option<usize> = huff_select(&self.qvs, &self.codes_encode, symbol, i);
        proof {
            if let Some(p) = r {
                lemma_huff_count(
                    self.levels(),
                    self.lens@,
                    self.encode(),
                    rows_view(self.decode()),
                    self.seq(),
                    symbol,
                    p as int,
                );
            }
        }
        r
    }

    /// The position of occurrence `i` of `symbol`, which must exist.
    pub fn select_unchecked(&self, symbol: T, i: usize) -> (p: usize)
        requires
            self.wf(),
            self.knows(symbol),
            i < occurrences(self.seq(), symbol, self.seq().len() as int),
        ensures
            p < self.seq().len(),
            self.seq()[p as int] == symbol,
            occurrences(self.seq(), symbol, p as int) == i,
    {
        let r: Option<usize> = self.select(symbol, i);
        r.unwrap()
    }

    /// A walk over the symbols.
    pub fn iter(&self) -> (it: WTIterator<'_, Self>)
        requires
            self.wf(),
        ensures
            it.wf(),
            it.remaining() == self.seq().map_values(|t: T| Some(t)),
    {
        assert(symbols_of(self) =~= self.seq().map_values(|t: T| Some(t)));
        WTIterator::new(self)
    }

    /// The tree of the empty sequence.
    pub fn default() -> (tree: Self)
        ensures
            tree.wf(),
            tree.seq() == Seq::<T>::empty(),
    {
        let tree = HuffQWaveletTree {
            n: 0,
            n_levels: 0,
            codes_encode: Vec::new(),
            codes_decode: Vec::new(),
            qvs: Vec::new(),
            lens: Vec::new(),
            symbols: Ghost(Seq::empty()),
        };
        proof {
            reveal(HuffQWaveletTree::wf);
        }
        tree
    }

    /// Builds the tree of `sequence`, which is rearranged on the way, with a
    /// table of codes that has one for every symbol.
    pub fn from_codes(sequence: &mut [T], codes: Vec<PrefixCode>) -> (tree: Self)
        requires
            0 < old(sequence)@.len() <= RS::max_len(),
            codes.len() <= T::max_val() + 1,
            table_ok(codes@, 16, 2),
            forall|i: int|
                0 <= i < old(sequence)@.len() ==> coded(
                    codes@,
                    (#[trigger] old(sequence)@[i]).val() as int,
                ),
        ensures
            tree.wf(),
            tree.seq() == old(sequence)@,
            tree.encode() == codes@,
            forall|s: int| coded(codes@, s) ==> (#[trigger] codes[s]).len <= 2 * tree.level_count(),
            exists|s: int| coded(codes@, s) && (#[trigger] codes[s]).len == 2 * tree.level_count(),
            final(sequence)@ == left_behind(
                old(sequence)@,
                Some(codes@),
                tree.level_count() as int,
                2,
            ),
    {
        let n: usize = sequence.len();
        let ghost s = sequence@;
        let mut max_len: u32 = 0;
        let mut v: usize = 0;
        while v < codes.len()
            invariant
                v <= codes.len(),
                forall|t: int| 0 <= t < v ==> (#[trigger] codes[t]).len <= max_len,
                max_len > 0 ==> exists|t: int| 0 <= t < v && (#[trigger] codes[t]).len == max_len,
            decreases codes.len() - v,
        {
            if codes[v].len > max_len {
                max_len = codes[v].len;
            }
            v = v + 1;
        }
        let n_levels: usize = (max_len / 2) as usize;
        proof {
            RS::lemma_quad();
            assert(coded(codes@, s[0].val() as int));
            assert(codes[s[0].val() as int].len <= max_len);
            assert(max_len > 0);
            let t = choose|t: int| 0 <= t < v && (#[trigger] codes[t]).len == max_len;
            assert(coded(codes@, t));
            assert(codes@[t].len as int % 2 == 0);
            assert(codes@[t].len <= 32);
            assert(table_ok(codes@, n_levels as int, 2)) by {
                assert forall|x: int| coded(codes@, x) implies codes@[x].len as int / 2
                    <= n_levels by {
                    assert(codes[x].len <= max_len);
                }
            }
        }
        let decode: Vec<Vec<(u32, T)>> = decode_table(
            &codes,
            max_len,
            Ghost(n_levels as int),
            Ghost(2u32),
        );
        let qvs: Vec<RS> = build_levels(sequence, Some(&codes), n_levels);
        let lens: Vec<usize> = level_lens(&qvs);
        let tree = HuffQWaveletTree {
            n,
            n_levels,
            codes_encode: codes,
            codes_decode: decode,
            qvs,
            lens,
            symbols: Ghost(s),
        };
        proof {
            let lv = tree.levels();
            assert(lv.len() == n_levels);
            assert(represents(lv, s, Some(codes@), 2));
            assert forall|l: int| 0 <= l < lv.len() implies #[trigger] lens[l] == lv[l].len() by {
                assert(lens[l] == qvs[l].digits().len());
            }
            reveal(HuffQWaveletTree::wf);
            let t = choose|t: int| 0 <= t < v && (#[trigger] codes[t]).len == max_len;
            assert(coded(tree.codes_encode@, t) && tree.codes_encode@[t].len == 2 * tree.n_levels);
        }
        tree
    }

    /// Builds the tree of `sequence`, which is rearranged on the way, with a
    /// minimum-redundancy code for its symbols. `None` where a code would be
    /// longer than 32 bits, or the symbols are too large or too many for a
    /// table.
    pub fn new(sequence: &mut [T]) -> (r: Option<Self>)
        requires
            old(sequence)@.len() <= RS::max_len(),
        ensures
            match r {
                Some(tree) => {
                    &&& tree.wf()
                    &&& tree.seq() == old(sequence)@
                    &&& forall|t: T| #[trigger] tree.knows(t) <==> old(sequence)@.contains(t)
                    &&& codes_for(
                        frequency_table(old(sequence)@, tree.encode().len() as int),
                        tree.encode(),
                        2,
                    )
                    &&& minimum_redundancy(
                        frequency_table(old(sequence)@, tree.encode().len() as int),
                        digit_lens(tree.encode(), 2),
                        2,
                    )
                    &&& forall|m: T| #[trigger]
                        is_max(old(sequence)@, m) ==> m.val() < usize::MAX && !codes_fail(
                            frequency_table(old(sequence)@, m.val() + 1),
                            2,
                        )
                    &&& if old(sequence)@.len() == 0 {
                        &&& tree.encode().len() == 0
                        &&& tree.level_count() == 0
                        &&& final(sequence)@ == old(sequence)@
                    } else {
                        &&& forall|m: T| #[trigger]
                            is_max(old(sequence)@, m) ==> tree.encode().len() == m.val() + 1
                        &&& is_depth(tree.encode(), tree.level_count() as int, 2)
                        &&& final(sequence)@ == left_behind(
                            old(sequence)@,
                            Some(tree.encode()),
                            tree.level_count() as int,
                            2,
                        )
                    }
                },
                None => {
                    &&& final(sequence)@ == old(sequence)@
                    &&& old(sequence)@.len() > 0
                    &&& forall|m: T|
                        #[trigger] is_max(old(sequence)@, m) ==> m.val() >= usize::MAX || {
                            let freqs = frequency_table(old(sequence)@, m.val() + 1);
                            &&& codes_fail(freqs, 2)
                            &&& used_symbols(freqs).len() > 16
                            &&& too_many(freqs, 2) || long_needed(freqs, 2)
                        }
                },
            },
    {
        let n: usize = sequence.len();
        let ghost s = sequence@;
        if n == 0 {
            let tree = Self::default();
            proof {
                tree.lemma_wf();
                assert forall|t: T| #[trigger] tree.knows(t) <==> s.contains(t) by {}
                lemma_nothing_redundant(2);
                assert(digit_lens(tree.encode(), 2) =~= Seq::<u32>::empty());
                assert(frequency_table(s, 0) =~= Seq::<usize>::empty());
                assert(code_lens(frequency_table(s, 0), 2) =~= Seq::<u32>::empty());
                assert forall|m: T| !#[trigger] is_max(s, m) by {}
            }
            return Some(tree);
        }
        let sigma: T = max_symbol(sequence);
        let top: u64 = sigma.to_u64();
        proof {
            assert forall|m: T| #[trigger] is_max(s, m) implies m.val() == sigma.val() by {
                let a = choose|a: int| 0 <= a < s.len() && #[trigger] s[a] == m;
                let b = choose|b: int| 0 <= b < s.len() && #[trigger] s[b] == sigma;
                assert(s[a].val() <= sigma.val());
                assert(s[b].val() <= m.val());
            }
        }
        if top >= usize::MAX as u64 {
            return None;
        }
        let size: usize = top as usize + 1;
        let frequencies: Vec<usize> = match symbol_frequencies(sequence, size) {
            Some(table) => table,
            None => {
                proof {
                    let i = choose|i: int|
                        0 <= i < sequence@.len() && (#[trigger] sequence@[i]).val() >= size;
                    assert(s[i].val() <= sigma.val());
                }
                return None;
            },
        };
        let codes: Vec<PrefixCode> = match huffman_codes_from_frequencies(&frequencies) {
            Some(codes) => codes,
            None => {
                return None;
            },
        };
        proof {
            sigma.lemma_val();
            assert(table_ok(codes@, 16, 2));
            assert forall|v: int| 0 <= v < size implies (coded(codes@, v) <==> exists|j: int|
                0 <= j < s.len() && (#[trigger] s[j]).val() == v) by {
                lemma_frequency(s, size as int, v);
                assert(codes[v].len > 0 <==> frequencies[v] > 0);
            }
            assert forall|i: int| 0 <= i < s.len() implies coded(
                codes@,
                (#[trigger] s[i]).val() as int,
            ) by {
                assert(s[i].val() < size);
            }
        }
        let tree = Self::from_codes(sequence, codes);
        proof {
            assert forall|t: T| #[trigger] tree.knows(t) <==> s.contains(t) by {
                if tree.knows(t) {
                    let j = choose|j: int|
                        0 <= j < s.len() && (#[trigger] s[j]).val() == t.val() as int;
                    s[j].lemma_val();
                    t.lemma_val();
                    assert(s[j] == t);
                }
                if s.contains(t) {
                    let j = choose|j: int| 0 <= j < s.len() && s[j] == t;
                    assert(coded(codes@, s[j].val() as int));
                }
            }
        }
        Some(tree)
    }

    /// The compressed tree of `v`.
    pub fn from(v: Vec<T>) -> (r: Option<Self>)
        requires
            v.len() <= RS::max_len(),
        ensures
            match r {
                Some(tree) => {
                    &&& tree.wf()
                    &&& tree.seq() == v@
                    &&& forall|t: T| #[trigger] tree.knows(t) <==> v@.contains(t)
                    &&& codes_for(
                        frequency_table(v@, tree.encode().len() as int),
                        tree.encode(),
                        2,
                    )
                    &&& minimum_redundancy(
                        frequency_table(v@, tree.encode().len() as int),
                        digit_lens(tree.encode(), 2),
                        2,
                    )
                    &&& forall|m: T| #[trigger]
                        is_max(v@, m) ==> m.val() < usize::MAX && !codes_fail(
                            frequency_table(v@, m.val() + 1),
                            2,
                        )
                    &&& if v.len() == 0 {
                        &&& tree.encode().len() == 0
                        &&& tree.level_count() == 0
                    } else {
                        &&& forall|m: T| #[trigger]
                            is_max(v@, m) ==> tree.encode().len() == m.val() + 1
                        &&& is_depth(tree.encode(), tree.level_count() as int, 2)
                    }
                },
                None => {
                    &&& v.len() > 0
                    &&& forall|m: T|
                        #[trigger] is_max(v@, m) ==> m.val() >= usize::MAX || {
                            let freqs = frequency_table(v@, m.val() + 1);
                            &&& codes_fail(freqs, 2)
                            &&& used_symbols(freqs).len() > 16
                            &&& too_many(freqs, 2) || long_needed(freqs, 2)
                        }
                },
            },
    {
        let mut w: Vec<T> = v;
        Self::new(w.as_mut_slice())
    }
}

impl<T: WTIndexable, RS: RSforWT> AccessUnsigned for HuffQWaveletTree<T, RS> {
    type Item = T;

    open spec fn symbol_count(&self) -> nat {
        self.seq().len()
    }

    open spec fn symbol_at(&self, i: int) -> Option<T> {
        Some(self.seq()[i])
    }

    open spec fn access_wf(&self) -> bool {
        self.wf()
    }

    fn sequence_len(&self) -> (n: usize) {
        self.len()
    }

    fn symbol(&self, i: usize) -> (r: Option<T>) {
        self.get(i)
    }
}

} // verus!
