//! The parts of a tree.

use vstd::arithmetic::power2::pow2;
use vstd::prelude::*;

use super::BinRSforWT;
use crate::codes::PrefixCode;
use crate::digits::value;
use crate::indexable::WTIndexable;
use crate::level::{level_digits, DigitLevel};
use crate::tables::{row_sorted, row_symbol, rows_view};
use crate::utils::msb_of;
use crate::wavelet::{child, path};

verus! {

/// The parts that a binary wavelet tree is made of.
#[derive(Clone, Debug, PartialEq, Eq)]
pub struct WaveletTreeParts<T, BRS> {
    /// The length of the represented sequence.
    pub n: usize,
    /// The number of levels.
    pub n_levels: usize,
    /// The largest symbol of a plain tree.
    pub sigma: Option<T>,
    /// The codes of a compressed tree, by symbol.
    pub codes_encode: Option<Vec<PrefixCode>>,
    /// The symbols of a compressed tree, by length and content of the code.
    pub codes_decode: Option<Vec<Vec<(u32, T)>>>,
    /// The levels.
    pub bvs: Vec<BRS>,
    /// The length of each level.
    pub lens: Vec<usize>,
}

/// The largest element is `m`.
pub open spec fn is_max<T: WTIndexable>(s: Seq<T>, m: T) -> bool {
    &&& forall|i: int| 0 <= i < s.len() ==> (#[trigger] s[i]).val() <= m.val()
    &&& exists|i: int| 0 <= i < s.len() && #[trigger] s[i] == m
}

/// What is wrong with a code of the encoding table.
pub open spec fn encode_defect<T: WTIndexable>(
    encode: Seq<PrefixCode>,
    decode: Seq<Seq<(u32, T)>>,
    n_levels: int,
    s: int,
) -> Option<&'static str> {
    let code = encode[s];
    if code.len == 0 {
        None
    } else if code.len > n_levels || (code.len < 32 && code.content >= pow2(code.len as nat)) {
        Some("compressed wavelet-tree encoder contains an invalid code")
    } else if match row_symbol(decode[code.len as int], code.content) {
        Some(t) => t.val() != s,
        None => true,
    } {
        Some("compressed wavelet-tree encode/decode tables disagree")
    } else {
        None
    }
}

/// What is wrong with the first wrong code from symbol `s` on.
pub open spec fn encode_defects<T: WTIndexable>(
    encode: Seq<PrefixCode>,
    decode: Seq<Seq<(u32, T)>>,
    n_levels: int,
    s: int,
) -> Option<&'static str>
    decreases encode.len() - s,
{
    if s >= encode.len() {
        None
    } else {
        match encode_defect(encode, decode, n_levels, s) {
            Some(e) => Some(e),
            None => encode_defects(encode, decode, n_levels, s + 1),
        }
    }
}

/// What is wrong with an entry of a decoding row.
pub open spec fn entry_defect<T: WTIndexable>(
    encode: Seq<PrefixCode>,
    entry: (u32, T),
    len: int,
) -> Option<&'static str> {
    let s = entry.1.val() as int;
    if s >= encode.len() {
        Some("compressed wavelet-tree decoder symbol is out of range")
    } else if encode[s].len != len || encode[s].content != entry.0 {
        Some("compressed wavelet-tree decode/encode tables disagree")
    } else {
        None
    }
}

pub open spec fn row_defects<T: WTIndexable>(
    encode: Seq<PrefixCode>,
    row: Seq<(u32, T)>,
    len: int,
    j: int,
) -> Option<&'static str>
    decreases row.len() - j,
{
    if j >= row.len() {
        None
    } else {
        match entry_defect(encode, row[j], len) {
            Some(e) => Some(e),
            None => row_defects(encode, row, len, j + 1),
        }
    }
}

/// What is wrong with the first wrong row from length `len` on.
pub open spec fn decode_defects<T: WTIndexable>(
    encode: Seq<PrefixCode>,
    decode: Seq<Seq<(u32, T)>>,
    len: int,
) -> Option<&'static str>
    decreases decode.len() - len,
{
    if len >= decode.len() {
        None
    } else {
        match row_defects(encode, decode[len], len, 0) {
            Some(e) => Some(e),
            None => decode_defects(encode, decode, len + 1),
        }
    }
}

impl<T: WTIndexable, BRS: BinRSforWT> WaveletTreeParts<T, BRS> {
    /// The digits of the levels.
    pub open spec fn levels(&self) -> Seq<Seq<u8>> {
        level_digits(self.bvs@)
    }

    /// What the levels hold at position `i`: the symbol whose code is the path
    /// from there.
    pub open spec fn at(&self, compressed: bool, i: int) -> Option<T> {
        let p = path(self.levels(), 0, i);
        if compressed {
            match self.codes_decode {
                Some(rows) => if p.len() < rows.len() {
                    row_symbol(rows[p.len() as int]@, value(p, 2) as u32)
                } else {
                    None
                },
                None => None,
            }
        } else {
            Some(T::truncated(value(p, 2) as u64))
        }
    }

    /// The represented sequence.
    pub open spec fn seq(&self, compressed: bool) -> Seq<T> {
        Seq::new(self.n as nat, |i: int| self.at(compressed, i)->0)
    }

    /// The symbol at which the way down the levels along the digits `code` ends.
    pub open spec fn leaf_symbol(&self, compressed: bool, code: Seq<u8>) -> Option<T> {
        if compressed {
            match self.codes_decode {
                Some(rows) => if code.len() < rows.len() {
                    row_symbol(rows[code.len() as int]@, value(code, 2) as u32)
                } else {
                    None
                },
                None => None,
            }
        } else if code.len() == self.n_levels {
            Some(T::truncated(value(code, 2) as u64))
        } else {
            None
        }
    }

    /// The symbols below the rows `lo..hi` of level `l`, which the digits `code`
    /// lead to, with the number of rows that end at each. Smaller digits come
    /// first. A `None` stands where rows go on and the levels do not.
    pub open spec fn walk(
        &self,
        compressed: bool,
        l: int,
        lo: int,
        hi: int,
        code: Seq<u8>,
    ) -> Seq<Option<(T, usize)>>
        decreases self.n_levels - l,
    {
        if lo >= hi {
            Seq::empty()
        } else {
            match self.leaf_symbol(compressed, code) {
                Some(t) => seq![Some((t, (hi - lo) as usize))],
                None => if l >= self.n_levels || hi > self.levels()[l].len() {
                    seq![None]
                } else {
                    let s = self.levels()[l];
                    self.walk(compressed, l + 1, child(s, 0, lo), child(s, 0, hi), code.push(0))
                        + self.walk(
                        compressed,
                        l + 1,
                        child(s, 1, lo),
                        child(s, 1, hi),
                        code.push(1),
                    )
                },
            }
        }
    }

    /// What is wrong with level `l`.
    pub open spec fn level_defect(&self, compressed: bool, l: int) -> Option<&'static str> {
        let len = self.lens[l];
        if len > self.n {
            Some("wavelet-tree level exceeds the sequence length")
        } else if len != self.bvs[l].digits().len() {
            Some("wavelet-tree level length disagrees with its bitvector")
        } else if !compressed && len != self.n {
            Some("plain wavelet-tree levels must match the sequence length")
        } else if compressed && l > 0 && len > self.lens[l - 1] {
            Some("compressed wavelet-tree level lengths must be non-increasing")
        } else {
            None
        }
    }

    /// What is wrong with the first wrong level from `l` on.
    pub open spec fn level_defects(&self, compressed: bool, l: int) -> Option<&'static str>
        decreases self.n_levels - l,
    {
        if l >= self.n_levels {
            None
        } else {
            match self.level_defect(compressed, l) {
                Some(e) => Some(e),
                None => self.level_defects(compressed, l + 1),
            }
        }
    }

    pub open spec fn table_defect(&self, compressed: bool) -> Option<&'static str> {
        if compressed {
            if self.sigma is Some {
                Some("compressed wavelet tree must not contain plain sigma metadata")
            } else if self.codes_encode is None {
                Some("compressed wavelet tree is missing its encoder")
            } else if self.codes_decode is None {
                Some("compressed wavelet tree is missing its decoder")
            } else {
                let encode = self.codes_encode->0@;
                let decode = rows_view(self.codes_decode->0@);
                if decode.len() != self.n_levels + 1 {
                    Some("compressed wavelet-tree decoder has the wrong depth")
                } else if !(forall|l: int|
                    0 <= l < decode.len() ==> row_sorted(#[trigger] decode[l])) {
                    Some("compressed wavelet-tree decoder rows must be strictly sorted")
                } else {
                    match encode_defects(encode, decode, self.n_levels as int, 0) {
                        Some(e) => Some(e),
                        None => decode_defects(encode, decode, 1),
                    }
                }
            }
        } else if self.codes_encode is Some || self.codes_decode is Some {
            Some("plain wavelet tree contains compressed-code metadata")
        } else if self.sigma is None {
            Some("plain wavelet tree is missing sigma metadata")
        } else if self.n_levels != msb_of(self.sigma->0.val()) + 1 {
            Some("plain wavelet-tree sigma disagrees with its level count")
        } else {
            None
        }
    }

    pub open spec fn payload_defect(&self, compressed: bool) -> Option<&'static str> {
        if exists|i: int| 0 <= i < self.n && (#[trigger] self.at(compressed, i)) is None {
            Some("wavelet-tree payload cannot decode every declared position")
        } else if !compressed && !is_max(self.seq(compressed), self.sigma->0) {
            Some("plain wavelet-tree sigma disagrees with its encoded payload")
        } else {
            None
        }
    }

    /// What is wrong with the parts of the tree: the first of the reasons for
    /// which they are refused.
    pub open spec fn defect(&self, compressed: bool) -> Option<&'static str> {
        if self.bvs.len() != self.n_levels || self.lens.len() != self.n_levels {
            Some("wavelet-tree level metadata has inconsistent lengths")
        } else if self.n == 0 {
            if self.n_levels != 0 || self.sigma is Some || self.codes_encode is Some
                || self.codes_decode is Some {
                Some("empty wavelet tree contains non-empty metadata")
            } else {
                None
            }
        } else if self.n_levels == 0 || self.n_levels > T::bit_width() {
            Some("wavelet-tree level count exceeds the symbol type width")
        } else if compressed && self.n_levels > 32 {
            Some("compressed wavelet-tree code exceeds 32 bits")
        } else {
            match self.level_defects(compressed, 0) {
                Some(e) => Some(e),
                None => if compressed && self.lens[0] != self.n {
                    Some("compressed wavelet-tree first level must match the sequence length")
                } else {
                    match self.table_defect(compressed) {
                        Some(e) => Some(e),
                        None => self.payload_defect(compressed),
                    }
                },
            }
        }
    }
}

} // verus!
