//! Accepting a tree from its parts.

use vstd::arithmetic::power2::{lemma2_to64, lemma_pow2_strictly_increases, pow2};
use vstd::prelude::*;

use super::parts::{decode_defects, encode_defect, encode_defects, entry_defect, row_defects};
use super::{is_max, BinRSforWT, WaveletTree, WaveletTreeParts};
use crate::builder::{codes_of, lemma_arranged};
use crate::codes::{coded, PrefixCode};
use crate::indexable::WTIndexable;
use crate::level::{levels_wf, DigitLevel};
use crate::matrix::{buckets, digits_at, rows_at};
use crate::tables::{
    entry_at, lemma_row_symbol, row_encodes, row_has, row_sorted, row_symbol, rows_view,
    tables_agree,
};
use crate::tree::represents;
use crate::utils::{msb, msb_of};
use crate::wavelet::lemma_below_bounds;

verus! {

proof fn lemma_encode_defects<T: WTIndexable>(
    encode: Seq<PrefixCode>,
    decode: Seq<Seq<(u32, T)>>,
    n_levels: int,
    s: int,
)
    requires
        0 <= s,
        encode_defects(encode, decode, n_levels, s) is None,
    ensures
        forall|t: int|
            s <= t < encode.len() ==> #[trigger] encode_defect(
                encode,
                decode,
                n_levels,
                t,
            ) is None,
    decreases encode.len() - s,
{
    if s < encode.len() {
        lemma_encode_defects(encode, decode, n_levels, s + 1);
    }
}

proof fn lemma_row_defects<T: WTIndexable>(
    encode: Seq<PrefixCode>,
    row: Seq<(u32, T)>,
    len: int,
    j: int,
)
    requires
        0 <= j,
        row_defects(encode, row, len, j) is None,
    ensures
        forall|k: int| j <= k < row.len() ==> entry_defect(encode, #[trigger] row[k], len) is None,
    decreases row.len() - j,
{
    if j < row.len() {
        lemma_row_defects(encode, row, len, j + 1);
    }
}

proof fn lemma_decode_defects<T: WTIndexable>(
    encode: Seq<PrefixCode>,
    decode: Seq<Seq<(u32, T)>>,
    len: int,
)
    requires
        0 <= len,
        decode_defects(encode, decode, len) is None,
    ensures
        forall|k: int| len <= k < decode.len() ==> row_encodes(encode, #[trigger] decode[k], k),
    decreases decode.len() - len,
{
    if len < decode.len() {
        lemma_decode_defects(encode, decode, len + 1);
        lemma_row_defects(encode, decode[len], len, 0);
        assert(row_encodes(encode, decode[len], len)) by {
            assert forall|j: int| 0 <= j < decode[len].len() implies {
                let e = #[trigger] decode[len][j];
                e.1.val() < encode.len() && encode[e.1.val() as int].content == e.0
                    && encode[e.1.val() as int].len == len
            } by {
                assert(entry_defect(encode, decode[len][j], len) is None);
            }
        }
    }
}

/// Whether the codes of a row ascend.
fn check_sorted<T>(row: &Vec<(u32, T)>) -> (b: bool)
    ensures
        b == row_sorted(row@),
{
    let mut i: usize = 1;
    while i < row.len()
        invariant
            1 <= i,
            i <= row.len() || row.len() == 0,
            forall|a: int, b: int|
                0 <= a < b < i && b < row.len() ==> (#[trigger] row[a]).0 < (#[trigger] row[b]).0,
        decreases row.len() - i,
    {
        if row[i - 1].0 >= row[i].0 {
            assert(!(row@[i - 1].0 < row@[i as int].0));
            return false;
        }
        assert forall|a: int, b: int|
            0 <= a < b < i + 1 && b < row.len() implies (#[trigger] row[a]).0 < (
        #[trigger] row[b]).0 by {
            if b == i && a < i - 1 {
                assert(row[a].0 < row[i - 1].0);
            }
        }
        i = i + 1;
    }
    true
}

fn check_rows<T>(decode: &Vec<Vec<(u32, T)>>) -> (b: bool)
    ensures
        b <==> forall|l: int| 0 <= l < decode.len() ==> row_sorted((#[trigger] decode[l])@),
{
    let mut l: usize = 0;
    while l < decode.len()
        invariant
            l <= decode.len(),
            forall|m: int| 0 <= m < l ==> row_sorted((#[trigger] decode[m])@),
        decreases decode.len() - l,
    {
        if !check_sorted(&decode[l]) {
            assert(!row_sorted(decode[l as int]@));
            return false;
        }
        l = l + 1;
    }
    true
}

/// Whether `content` fits in `len` bits.
fn fits_in(content: u32, len: u32) -> (b: bool)
    requires
        0 < len,
    ensures
        b == !(len < 32 && content >= pow2(len as nat)),
{
    if len >= 32 {
        return true;
    }
    let l: u64 = len as u64;
    proof {
        lemma2_to64();
        lemma_pow2_strictly_increases(len as nat, 64);
        vstd::bits::lemma_u64_shl_is_mul(1, l);
    }
    (content as u64) < (1u64 << l)
}

fn check_encode<T: WTIndexable>(
    encode: &Vec<PrefixCode>,
    decode: &Vec<Vec<(u32, T)>>,
    n_levels: usize,
) -> (r: Option<&'static str>)
    requires
        decode.len() == n_levels + 1,
        forall|l: int| 0 <= l < decode.len() ==> row_sorted((#[trigger] decode[l])@),
    ensures
        r == encode_defects(encode@, rows_view(decode@), n_levels as int, 0),
{
    let ghost rows = rows_view(decode@);
    let mut s: usize = 0;
    while s < encode.len()
        invariant
            s <= encode.len(),
            decode.len() == n_levels + 1,
            rows == rows_view(decode@),
            forall|l: int| 0 <= l < decode.len() ==> row_sorted((#[trigger] decode[l])@),
            encode_defects(encode@, rows, n_levels as int, 0) == encode_defects(
                encode@,
                rows,
                n_levels as int,
                s as int,
            ),
        decreases encode.len() - s,
    {
        let code: PrefixCode = encode[s];
        if code.len != 0 {
            if code.len as usize > n_levels || !fits_in(code.content, code.len) {
                return Some("compressed wavelet-tree encoder contains an invalid code");
            }
            let row = &decode[code.len as usize];
            assert(rows[code.len as int] == row@);
            let found: bool = match crate::tables::decode_symbol(row, code.content) {
                Some(t) => t.to_u64() == s as u64,
                None => false,
            };
            if !found {
                return Some("compressed wavelet-tree encode/decode tables disagree");
            }
        }
        s = s + 1;
    }
    None
}

fn check_row<T: WTIndexable>(encode: &Vec<PrefixCode>, row: &Vec<(u32, T)>, len: usize) -> (r: Option<
    &'static str,
>)
    ensures
        r == row_defects(encode@, row@, len as int, 0),
{
    let mut j: usize = 0;
    while j < row.len()
        invariant
            j <= row.len(),
            row_defects(encode@, row@, len as int, 0) == row_defects(
                encode@,
                row@,
                len as int,
                j as int,
            ),
        decreases row.len() - j,
    {
        let s: u64 = row[j].1.to_u64();
        if s >= encode.len() as u64 {
            return Some("compressed wavelet-tree decoder symbol is out of range");
        }
        let code: PrefixCode = encode[s as usize];
        if code.len as usize != len || code.content != row[j].0 {
            return Some("compressed wavelet-tree decode/encode tables disagree");
        }
        j = j + 1;
    }
    None
}

fn check_decode<T: WTIndexable>(encode: &Vec<PrefixCode>, decode: &Vec<Vec<(u32, T)>>) -> (r: Option<
    &'static str,
>)
    ensures
        r == decode_defects(encode@, rows_view(decode@), 1),
{
    let ghost rows = rows_view(decode@);
    let mut len: usize = 1;
    while len < decode.len()
        invariant
            1 <= len,
            rows == rows_view(decode@),
            decode_defects(encode@, rows, 1) == decode_defects(encode@, rows, len as int),
        decreases decode.len() - len,
    {
        assert(rows[len as int] == decode[len as int]@);
        match check_row(encode, &decode[len], len) {
            Some(e) => {
                return Some(e);
            },
            None => {},
        }
        len = len + 1;
    }
    None
}

impl<T: WTIndexable, BRS: BinRSforWT, const COMPRESSED: bool> WaveletTree<T, BRS, COMPRESSED> {
    /// The levels are well-formed bit vectors.
    pub closed spec fn bvs_wf(&self) -> bool {
        levels_wf(self.parts.bvs@)
    }

    /// A tree whose tables have no defect has tables that belong together.
    proof fn lemma_tables(&self)
        requires
            COMPRESSED,
            self.parts.n_levels <= 32,
            self.parts.table_defect(COMPRESSED) is None,
        ensures
            self.tables_ok(),
    {
        let encode = self.parts.codes_encode->0@;
        let decode = rows_view(self.parts.codes_decode->0@);
        lemma_encode_defects(encode, decode, self.parts.n_levels as int, 0);
        lemma_decode_defects(encode, decode, 1);
        lemma2_to64();
        assert forall|s: int|
            #![trigger encode[s]]
            coded(encode, s) implies {
            &&& encode[s].len < decode.len()
            &&& row_has(decode[encode[s].len as int], encode[s].content, s)
            &&& encode[s].len <= self.parts.n_levels
            &&& encode[s].content < pow2(encode[s].len as nat)
        } by {
            assert(encode_defect(encode, decode, self.parts.n_levels as int, s) is None);
            let row = decode[encode[s].len as int];
            let j = choose|j: int| entry_at(row, encode[s].content, j);
            assert(row_symbol(row, encode[s].content) is Some);
            assert(entry_at(row, encode[s].content, j));
        }
    }

    /// Checks that the parts of the tree fit together.
    #[verifier::loop_isolation(false)]
    fn validate_deserialized(&self) -> (r: Result<(), &'static str>)
        requires
            self.bvs_wf(),
        ensures
            match self.parts.defect(COMPRESSED) {
                Some(e) => r == Err::<(), &'static str>(e),
                None => r is Ok && self.wf(),
            },
    {
        if self.parts.bvs.len() != self.parts.n_levels || self.parts.lens.len() != self.parts.n_levels {
            return Err("wavelet-tree level metadata has inconsistent lengths");
        }
        if self.parts.n == 0 {
            if self.parts.n_levels != 0 || self.parts.sigma.is_some() || self.parts.codes_encode.is_some()
                || self.parts.codes_decode.is_some() {
                return Err("empty wavelet tree contains non-empty metadata");
            }
            return Ok(());
        }
        if self.parts.n_levels == 0 || self.parts.n_levels > T::width() as usize {
            return Err("wavelet-tree level count exceeds the symbol type width");
        }
        if COMPRESSED && self.parts.n_levels > 32 {
            return Err("compressed wavelet-tree code exceeds 32 bits");
        }
        let mut level: usize = 0;
        while level < self.parts.n_levels
            invariant
                level <= self.parts.n_levels,
                self.bvs_wf(),
                self.parts.bvs.len() == self.parts.n_levels,
                self.parts.lens.len() == self.parts.n_levels,
                self.parts.level_defects(COMPRESSED, 0) == self.parts.level_defects(COMPRESSED, level as int),
            decreases self.parts.n_levels - level,
        {
            let len: usize = self.parts.lens[level];
            assert(self.parts.bvs[level as int].wf());
            if len > self.parts.n {
                return Err("wavelet-tree level exceeds the sequence length");
            }
            if len != self.parts.bvs[level].level_len() {
                return Err("wavelet-tree level length disagrees with its bitvector");
            }
            if !COMPRESSED && len != self.parts.n {
                return Err("plain wavelet-tree levels must match the sequence length");
            }
            if COMPRESSED && level > 0 && len > self.parts.lens[level - 1] {
                return Err("compressed wavelet-tree level lengths must be non-increasing");
            }
            level = level + 1;
        }
        if COMPRESSED && self.parts.lens[0] != self.parts.n {
            return Err("compressed wavelet-tree first level must match the sequence length");
        }
        proof {
            self.parts.lemma_level_defects(COMPRESSED, 0);
            T::lemma_width();
            assert forall|l: int| 0 <= l < self.parts.n_levels implies #[trigger] self.parts.lens[l]
                == self.parts.bvs[l].digits().len() by {
                assert(self.parts.level_defect(COMPRESSED, l) is None);
            }
            assert(self.parts.level_defect(COMPRESSED, 0) is None);
        }
        if COMPRESSED {
            if self.parts.sigma.is_some() {
                return Err("compressed wavelet tree must not contain plain sigma metadata");
            }
            let encode: &Vec<PrefixCode> = match &self.parts.codes_encode {
                Some(encode) => encode,
                None => {
                    return Err("compressed wavelet tree is missing its encoder");
                },
            };
            let decode: &Vec<Vec<(u32, T)>> = match &self.parts.codes_decode {
                Some(decode) => decode,
                None => {
                    return Err("compressed wavelet tree is missing its decoder");
                },
            };
            if decode.len() != self.parts.n_levels + 1 {
                return Err("compressed wavelet-tree decoder has the wrong depth");
            }
            let ghost rows = rows_view(decode@);
            let sorted: bool = check_rows(decode);
            proof {
                if sorted {
                    assert forall|l: int| 0 <= l < rows.len() implies row_sorted(
                        #[trigger] rows[l],
                    ) by {
                        assert(row_sorted(decode[l]@));
                    }
                } else {
                    let l = choose|l: int|
                        0 <= l < decode.len() && !row_sorted((#[trigger] decode[l])@);
                    assert(!row_sorted(rows[l]));
                }
            }
            if !sorted {
                return Err("compressed wavelet-tree decoder rows must be strictly sorted");
            }
            match check_encode(encode, decode, self.parts.n_levels) {
                Some(e) => {
                    return Err(e);
                },
                None => {},
            }
            match check_decode(encode, decode) {
                Some(e) => {
                    return Err(e);
                },
                None => {},
            }
        } else {
            if self.parts.codes_encode.is_some() || self.parts.codes_decode.is_some() {
                return Err("plain wavelet tree contains compressed-code metadata");
            }
            match &self.parts.sigma {
                Some(sigma) => {
                    let m: u32 = msb(sigma.to_u64());
                    if self.parts.n_levels != m as usize + 1 {
                        return Err("plain wavelet-tree sigma disagrees with its level count");
                    }
                },
                None => {
                    return Err("plain wavelet tree is missing sigma metadata");
                },
            }
        }
        let mut actual_sigma: u64 = 0;
        let mut index: usize = 0;
        let ghost s = self.seq();
        while index < self.parts.n
            invariant
                index <= self.parts.n,
                s == self.seq(),
                self.shape_ok(),
                self.parts.n_levels <= 64,
                COMPRESSED ==> {
                    &&& self.parts.n_levels <= 32
                    &&& self.parts.codes_decode is Some ==> forall|l: int|
                        0 <= l < self.parts.codes_decode->0.len() ==> row_sorted(
                            (#[trigger] self.parts.codes_decode->0[l])@,
                        )
                },
                forall|i: int|
                    0 <= i < index ==> (#[trigger] self.parts.at(COMPRESSED, i)) is Some,
                forall|i: int| 0 <= i < index ==> (#[trigger] s[i]).val() <= actual_sigma,
                index > 0 ==> exists|i: int|
                    0 <= i < index && (#[trigger] s[i]).val() == actual_sigma,
            decreases self.parts.n - index,
        {
            match self.read(index) {
                Some(symbol) => {
                    let v: u64 = symbol.to_u64();
                    assert(s[index as int] == symbol);
                    if v > actual_sigma || index == 0 {
                        actual_sigma = v;
                    }
                },
                None => {
                    assert(self.parts.at(COMPRESSED, index as int) is None);
                    return Err("wavelet-tree payload cannot decode every declared position");
                },
            }
            index = index + 1;
        }
        proof {
            if COMPRESSED {
                self.lemma_tables();
            }
        }
        if !COMPRESSED {
            match &self.parts.sigma {
                Some(sigma) => {
                    proof {
                        let k = choose|k: int|
                            0 <= k < s.len() && (#[trigger] s[k]).val() == actual_sigma;
                        if sigma.val() == actual_sigma {
                            s[k].lemma_val();
                            sigma.lemma_val();
                            assert(s[k] == *sigma);
                            assert(is_max(s, *sigma));
                        } else if is_max(s, *sigma) {
                            let j = choose|j: int| 0 <= j < s.len() && #[trigger] s[j] == *sigma;
                            assert(s[j].val() <= actual_sigma);
                            assert(s[k].val() <= sigma.val());
                        }
                    }
                    if sigma.to_u64() != actual_sigma {
                        return Err("plain wavelet-tree sigma disagrees with its encoded payload");
                    }
                },
                None => {},
            }
        }
        proof {
            assert(self.shape_ok());
            assert(self.parts.defect(COMPRESSED) is None);
            if COMPRESSED {
                assert forall|j: int| 0 <= j < self.parts.n implies (#[trigger] self.at(
                    j,
                )) is Some by {
                    assert(self.parts.at(COMPRESSED, j) is Some);
                }
                assert(self.compressed_ok());
            } else {
                assert forall|l: int| 0 <= l < self.parts.n_levels implies #[trigger] self.parts.lens[l]
                    == self.parts.n by {
                    assert(self.parts.level_defect(COMPRESSED, l) is None);
                }
                assert(self.plain_ok());
            }
        }
        Ok(())
    }

    /// A tree made of these parts, or the reason for which they are refused.
    pub fn from_parts(parts: WaveletTreeParts<T, BRS>) -> (r: Result<Self, &'static str>)
        requires
            levels_wf(parts.bvs@),
        ensures
            match parts.defect(COMPRESSED) {
                Some(e) => r == Err::<Self, &'static str>(e),
                None => r is Ok && r->Ok_0.view_parts() == parts && r->Ok_0.wf()
                    && r->Ok_0.seq() == parts.seq(COMPRESSED),
            },
    {
        let tree = WaveletTree { parts };
        match tree.validate_deserialized() {
            Ok(_) => Ok(tree),
            Err(e) => Err(e),
        }
    }
}

impl<T: WTIndexable, BRS: BinRSforWT> WaveletTreeParts<T, BRS> {
    proof fn lemma_level_defects(&self, compressed: bool, l: int)
        requires
            0 <= l,
            self.level_defects(compressed, l) is None,
        ensures
            forall|m: int|
                l <= m < self.n_levels ==> (#[trigger] self.level_defect(compressed, m)) is None,
        decreases self.n_levels - l,
    {
        if l < self.n_levels {
            self.lemma_level_defects(compressed, l + 1);
        }
    }

    /// No later level is longer.
    proof fn lemma_lens_order(&self, l: int, m: int)
        requires
            0 <= l <= m < self.n_levels,
            forall|k: int| 0 <= k < self.n_levels ==> (#[trigger] self.level_defect(true, k)) is None,
        ensures
            self.lens[m] <= self.lens[l],
        decreases m - l,
    {
        if l < m {
            assert(self.level_defect(true, m) is None);
            self.lemma_lens_order(l, m - 1);
        }
    }

    /// What is known of the parts of a plain tree that are accepted: the levels
    /// have the length of the sequence, every position holds a symbol, the
    /// largest of these is `sigma`, and there are as many levels as it has bits.
    pub proof fn lemma_accepted_plain(&self)
        requires
            self.n > 0,
            self.defect(false) is None,
        ensures
            self.bvs.len() == self.n_levels,
            self.lens.len() == self.n_levels,
            1 <= self.n_levels <= T::bit_width(),
            forall|l: int|
                0 <= l < self.n_levels ==> #[trigger] self.lens[l] == self.n && self.lens[l]
                    == self.bvs[l].digits().len(),
            self.codes_encode is None,
            self.codes_decode is None,
            forall|i: int| 0 <= i < self.n ==> (#[trigger] self.at(false, i)) is Some,
            self.sigma is Some,
            is_max(self.seq(false), self.sigma->0),
            self.n_levels == msb_of(self.sigma->0.val()) + 1,
    {
        self.lemma_level_defects(false, 0);
        assert forall|l: int| 0 <= l < self.n_levels implies #[trigger] self.lens[l] == self.n
            && self.lens[l] == self.bvs[l].digits().len() by {
            assert(self.level_defect(false, l) is None);
        }
    }

    /// What is known of the parts of a compressed tree that are accepted: levels
    /// do not grow, every position holds a symbol, the rows of the decoding table
    /// ascend, and the two tables are inverse to each other.
    pub proof fn lemma_accepted_compressed(&self)
        requires
            self.n > 0,
            self.defect(true) is None,
        ensures
            self.bvs.len() == self.n_levels,
            self.lens.len() == self.n_levels,
            1 <= self.n_levels <= T::bit_width(),
            self.n_levels <= 32,
            self.lens[0] == self.n,
            forall|l: int|
                0 <= l < self.n_levels ==> #[trigger] self.lens[l] == self.bvs[l].digits().len(),
            forall|l: int, m: int|
                0 <= l <= m < self.n_levels ==> (#[trigger] self.lens[m]) <= (
                #[trigger] self.lens[l]),
            self.sigma is None,
            self.codes_encode is Some,
            self.codes_decode is Some,
            forall|i: int| 0 <= i < self.n ==> (#[trigger] self.at(true, i)) is Some,
            ({
                let encode = self.codes_encode->0@;
                let decode = rows_view(self.codes_decode->0@);
                &&& decode.len() == self.n_levels + 1
                &&& forall|len: int| 0 <= len < decode.len() ==> row_sorted(#[trigger] decode[len])
                &&& forall|len: int, content: u32, t: T|
                    0 < len < decode.len() ==> (#[trigger] decode[len].contains((content, t)) <==> {
                        &&& t.val() < encode.len()
                        &&& encode[t.val() as int].len == len
                        &&& encode[t.val() as int].content == content
                    })
                &&& forall|s: int|
                    0 <= s < encode.len() ==> (#[trigger] encode[s]).len <= self.n_levels
            }),
    {
        let encode = self.codes_encode->0@;
        let decode = rows_view(self.codes_decode->0@);
        let n_levels = self.n_levels as int;
        self.lemma_level_defects(true, 0);
        assert forall|l: int| 0 <= l < self.n_levels implies #[trigger] self.lens[l]
            == self.bvs[l].digits().len() by {
            assert(self.level_defect(true, l) is None);
        }
        assert forall|l: int, m: int| 0 <= l <= m < self.n_levels implies (#[trigger] self.lens[m])
            <= (#[trigger] self.lens[l]) by {
            self.lemma_lens_order(l, m);
        }
        lemma_encode_defects(encode, decode, n_levels, 0);
        lemma_decode_defects(encode, decode, 1);
        assert forall|s: int| 0 <= s < encode.len() implies (#[trigger] encode[s]).len
            <= n_levels by {
            assert(encode_defect(encode, decode, n_levels, s) is None);
        }
        assert forall|len: int, content: u32, t: T| 0 < len < decode.len() implies (
        #[trigger] decode[len].contains((content, t)) <==> {
            &&& t.val() < encode.len()
            &&& encode[t.val() as int].len == len
            &&& encode[t.val() as int].content == content
        }) by {
            let row = decode[len];
            let s = t.val() as int;
            assert(row_encodes(encode, row, len));
            if row.contains((content, t)) {
                let j = choose|j: int| 0 <= j < row.len() && row[j] == (content, t);
                assert(row[j].1.val() < encode.len());
            }
            if s < encode.len() && encode[s].len == len && encode[s].content == content {
                assert(encode_defect(encode, decode, n_levels, s) is None);
                assert(row_symbol(row, content) is Some);
                let j = choose|j: int| entry_at(row, content, j);
                assert(entry_at(row, content, j));
                assert(row[j].1.val() == t.val());
                row[j].1.lemma_val();
                t.lemma_val();
                assert(row[j] == (content, t));
            }
        }
    }
}

proof fn lemma_no_level_defects<T: WTIndexable, BRS: BinRSforWT>(
    parts: WaveletTreeParts<T, BRS>,
    compressed: bool,
    l: int,
)
    requires
        forall|m: int|
            0 <= m < parts.n_levels ==> (#[trigger] parts.level_defect(compressed, m)) is None,
        0 <= l,
    ensures
        parts.level_defects(compressed, l) is None,
    decreases parts.n_levels - l,
{
    if l < parts.n_levels {
        assert(parts.level_defect(compressed, l) is None);
        lemma_no_level_defects(parts, compressed, l + 1);
    }
}

proof fn lemma_no_encode_defects<T: WTIndexable>(
    encode: Seq<PrefixCode>,
    decode: Seq<Seq<(u32, T)>>,
    n_levels: int,
    s: int,
)
    requires
        tables_agree(encode, decode),
        forall|x: int|
            #![trigger encode[x]]
            coded(encode, x) ==> encode[x].len <= n_levels && encode[x].content < pow2(
                encode[x].len as nat,
            ),
        0 <= s,
    ensures
        encode_defects(encode, decode, n_levels, s) is None,
    decreases encode.len() - s,
{
    if s < encode.len() {
        let code = encode[s];
        if code.len > 0 {
            assert(coded(encode, s));
            let row = decode[code.len as int];
            assert(row_has(row, code.content, s));
            let j = choose|j: int| #[trigger] entry_at(row, code.content, j) && row[j].1.val() == s;
            lemma_row_symbol(encode, decode, row[j].1);
        }
        lemma_no_encode_defects(encode, decode, n_levels, s + 1);
    }
}

proof fn lemma_no_row_defects<T: WTIndexable>(
    encode: Seq<PrefixCode>,
    row: Seq<(u32, T)>,
    len: int,
    j: int,
)
    requires
        row_encodes(encode, row, len),
        0 <= j,
    ensures
        row_defects(encode, row, len, j) is None,
    decreases row.len() - j,
{
    if j < row.len() {
        lemma_no_row_defects(encode, row, len, j + 1);
    }
}

proof fn lemma_no_decode_defects<T: WTIndexable>(
    encode: Seq<PrefixCode>,
    decode: Seq<Seq<(u32, T)>>,
    len: int,
)
    requires
        tables_agree(encode, decode),
        0 < len,
    ensures
        decode_defects(encode, decode, len) is None,
    decreases decode.len() - len,
{
    if len < decode.len() {
        lemma_no_row_defects(encode, decode[len], len, 0);
        lemma_no_decode_defects(encode, decode, len + 1);
    }
}

/// No level of a tree has more rows than the one before.
proof fn lemma_level_order<T: WTIndexable>(
    levels: Seq<Seq<u8>>,
    s: Seq<T>,
    table: Option<Seq<PrefixCode>>,
    l: int,
)
    requires
        represents(levels, s, table, 1),
        0 <= l < levels.len(),
    ensures
        levels[l].len() <= s.len(),
        l > 0 ==> levels[l].len() <= levels[l - 1].len(),
{
    let n_levels = levels.len() as int;
    lemma_arranged(s, table, n_levels, 1, l);
    let codes = codes_of(s, table, n_levels, 1);
    assert(levels[l] == digits_at(rows_at(codes, l, 2), l));
    if l > 0 {
        let rows = rows_at(codes, l - 1, 2);
        assert(levels[l - 1] == digits_at(rows, l - 1));
        lemma_below_bounds(buckets(rows, l - 1, 2), 2, rows.len() as int);
    }
}

impl<T: WTIndexable, BRS: BinRSforWT, const COMPRESSED: bool> WaveletTree<T, BRS, COMPRESSED> {
    /// The parts that the tree is made of.
    pub fn parts(&self) -> (parts: &WaveletTreeParts<T, BRS>)
        ensures
            *parts == self.view_parts(),
            self.wf() ==> levels_wf(parts.bvs@),
    {
        &self.parts
    }

    /// Takes the tree apart.
    pub fn into_parts(self) -> (parts: WaveletTreeParts<T, BRS>)
        ensures
            parts == self.view_parts(),
            self.wf() ==> levels_wf(parts.bvs@),
    {
        self.parts
    }

    /// A tree is its parts.
    pub proof fn lemma_parts(&self, other: Self)
        requires
            self.view_parts() == other.view_parts(),
        ensures
            *self == other,
    {
    }

    /// The parts of a tree that was built from a sequence are accepted again,
    /// unless it is compressed and has more levels than its symbols have bits.
    pub proof fn lemma_parts_accepted(&self)
        requires
            self.wf(),
            self.canonical(),
            COMPRESSED ==> self.level_count() <= T::bit_width(),
        ensures
            self.view_parts().defect(COMPRESSED) is None,
            self.view_parts().seq(COMPRESSED) == self.seq(),
    {
        let parts = self.parts;
        if parts.n > 0 {
            assert forall|l: int| 0 <= l < parts.n_levels implies (#[trigger] parts.level_defect(
                COMPRESSED,
                l,
            )) is None by {
                assert(parts.lens[l] == parts.bvs[l].digits().len());
                assert(self.levels()[l] == parts.bvs[l].digits());
                if COMPRESSED {
                    lemma_level_order(self.levels(), self.seq(), self.table(), l);
                    if l > 0 {
                        assert(parts.lens[l - 1] == parts.bvs[l - 1].digits().len());
                    }
                }
            }
            lemma_no_level_defects(parts, COMPRESSED, 0);
            if COMPRESSED {
                let encode = parts.codes_encode->0@;
                let decode = rows_view(parts.codes_decode->0@);
                lemma_no_encode_defects(encode, decode, parts.n_levels as int, 0);
                lemma_no_decode_defects(encode, decode, 1);
                assert forall|i: int| 0 <= i < parts.n implies (#[trigger] parts.at(
                    COMPRESSED,
                    i,
                )) is Some by {
                    assert(self.at(i) is Some);
                }
            }
        }
    }
}

} // verus!
