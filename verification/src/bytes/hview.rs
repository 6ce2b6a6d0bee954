//! A compressed quad wavelet tree in borrowed bytes.

use vstd::prelude::*;

use super::container::{
    check_header, container_levels, dirs_error, header_error, lemma_dir_sub, lemma_fault,
    lemma_le_at_sub, size_at, HQWB_MAGIC,
};
use super::dir::{dir_of, HqwtLevelDir};
use super::error::LayoutError;
use super::layout::dir_rows;
use super::le::{get_u16, get_u64, le_at, read_u32, read_u64};
use super::level::{begins_at, lemma_begins_at, slice_address, RSQVectorView};
use super::{
    align_up, aligned, checked_region, ensure_le, host_answers, HEADER_SIZE, HQWT_LEVEL_DIR_SIZE,
};
use crate::codes::{coded, PrefixCode};
use crate::indexable::WTIndexable;
use crate::level::{level_digits, levels_wf, two_ways, DigitLevel};
use crate::quadwt::huffqwt::{
    decoded, huff_get, huff_rank, huff_represents, huff_select, lemma_huff_count, lemma_huff_get,
    path_within, quad_code, quad_code_up,
};
use crate::tables::rows_view;
use crate::tree::occurrences;
use crate::wavelet::{path, pcount, walk_fits};

verus! {

/// A compressed quad wavelet tree over the bytes of a container. The levels are
/// borrowed, the code tables are owned.
#[derive(Clone, Debug)]
pub struct HqwtView<'a, T, const B_SIZE: usize> {
    n: usize,
    n_levels: usize,
    codes_encode: Vec<PrefixCode>,
    codes_decode: Vec<Vec<(u32, T)>>,
    levels: Vec<RSQVectorView<'a, B_SIZE>>,
    lens: Vec<usize>,
}

/// The number of levels of a compressed container.
pub open spec fn hqwb_level_count(s: Seq<u8>) -> int {
    le_at(s, 16, 2)
}

/// The number of codes of a compressed container.
pub open spec fn hqwb_encode_len(s: Seq<u8>) -> int {
    le_at(s, 18, 2)
}

/// The number of rows of the decoding table of a compressed container.
pub open spec fn hqwb_bucket_count(s: Seq<u8>) -> int {
    le_at(s, 20, 2)
}

/// Where the code tables of a compressed container begin.
pub open spec fn hqwb_tables_at(s: Seq<u8>) -> int {
    aligned(HEADER_SIZE + HQWT_LEVEL_DIR_SIZE * hqwb_level_count(s), 8)
}

/// The codes at offset `at`.
pub open spec fn encode_at(s: Seq<u8>, at: int, count: int) -> Seq<PrefixCode> {
    Seq::new(
        count as nat,
        |i: int|
            PrefixCode {
                content: le_at(s, at + 8 * i, 4) as u32,
                len: le_at(s, at + 8 * i + 4, 4) as u32,
            },
    )
}

/// Where row `b` of the decoding table at offset `at` begins.
pub open spec fn bucket_at(s: Seq<u8>, at: int, b: int) -> int
    decreases b,
{
    if b <= 0 {
        at
    } else {
        let before = bucket_at(s, at, b - 1);
        before + 4 + 12 * le_at(s, before, 4)
    }
}

/// Row `b` of the decoding table lies inside of the bytes.
pub open spec fn bucket_inside(s: Seq<u8>, at: int, b: int) -> bool {
    let p = bucket_at(s, at, b);
    p + 4 <= s.len() && p + 4 + 12 * le_at(s, p, 4) <= s.len()
}

/// The entries of a row at offset `p`.
pub open spec fn row_at<T: WTIndexable>(s: Seq<u8>, p: int) -> Seq<(u32, T)> {
    Seq::new(
        le_at(s, p, 4) as nat,
        |j: int|
            (
                le_at(s, p + 4 + 12 * j, 4) as u32,
                T::truncated(size_at(s, p + 4 + 12 * j + 4).val()),
            ),
    )
}

/// The decoding table at offset `at`.
pub open spec fn decode_at<T: WTIndexable>(s: Seq<u8>, at: int, count: int) -> Seq<Seq<(u32, T)>> {
    Seq::new(count as nat, |b: int| row_at::<T>(s, bucket_at(s, at, b)))
}

/// Where the decoding table of a compressed container begins.
pub open spec fn hqwb_decode_at(s: Seq<u8>) -> int {
    hqwb_tables_at(s) + 8 * hqwb_encode_len(s)
}

/// The rows of the levels of a compressed container.
pub open spec fn hqwb_levels(s: Seq<u8>) -> Seq<Seq<u8>> {
    container_levels(s, HQWT_LEVEL_DIR_SIZE as int, hqwb_level_count(s))
}

/// How many rows of the levels count.
pub open spec fn hqwb_lens(s: Seq<u8>) -> Seq<usize> {
    Seq::new(
        hqwb_level_count(s) as nat,
        |l: int| size_at(s, HEADER_SIZE + HQWT_LEVEL_DIR_SIZE * l + 128),
    )
}

/// The row counts do not contradict the levels and the number of symbols.
pub open spec fn hqwb_lens_ok(s: Seq<u8>) -> bool {
    &&& size_at(s, 8) == if hqwb_level_count(s) == 0 {
        0
    } else {
        hqwb_lens(s)[0]
    }
    &&& forall|l: int|
        0 <= l < hqwb_level_count(s) ==> (#[trigger] hqwb_lens(s)[l]) <= hqwb_levels(s)[l].len()
}

/// Why the bytes, where they begin at address `addr`, are not a compressed
/// container of symbols of `width` bits.
pub open spec fn hqwb_error(s: Seq<u8>, addr: int, b512: bool, width: int) -> Option<LayoutError> {
    if let Some(e) = header_error(s, HQWB_MAGIC@, b512, width) {
        Some(e)
    } else if s.len() < HEADER_SIZE + HQWT_LEVEL_DIR_SIZE * hqwb_level_count(s) {
        Some(LayoutError::Truncated)
    } else if s.len() < hqwb_decode_at(s) {
        Some(LayoutError::Truncated)
    } else if exists|b: int|
        0 <= b < hqwb_bucket_count(s) && !#[trigger] bucket_inside(s, hqwb_decode_at(s), b) {
        Some(LayoutError::Truncated)
    } else if let Some(e) = dirs_error(
        s,
        addr,
        b512,
        HQWT_LEVEL_DIR_SIZE as int,
        hqwb_level_count(s),
        0,
    ) {
        Some(e)
    } else if !hqwb_lens_ok(s) {
        Some(LayoutError::Inconsistent { detail: "HQWT logical level length exceeds payload" })
    } else {
        None
    }
}

/// Reads the codes at offset `at`.
fn read_encode(bytes: &[u8], at: usize, count: usize) -> (codes: Vec<PrefixCode>)
    requires
        at + 8 * count <= bytes@.len(),
    ensures
        codes@ == encode_at(bytes@, at as int, count as int),
{
    let total: usize = bytes.len();
    let mut codes: Vec<PrefixCode> = Vec::with_capacity(count);
    let mut i: usize = 0;
    while i < count
        invariant
            i <= count,
            total == bytes@.len(),
            at + 8 * count <= total,
            codes.len() == i,
            forall|k: int|
                0 <= k < i ==> #[trigger] codes[k] == encode_at(
                    bytes@,
                    at as int,
                    count as int,
                )[k],
        decreases count - i,
    {
        let base: usize = at + i * 8;
        let content: u32 = read_u32(bytes, base);
        let len: u32 = read_u32(bytes, base + 4);
        codes.push(PrefixCode { content, len });
        i = i + 1;
    }
    assert(codes@ =~= encode_at(bytes@, at as int, count as int));
    codes
}

/// Reads the entries of a row at offset `p`.
fn read_row<T: WTIndexable>(bytes: &[u8], p: usize, n_entries: usize) -> (row: Vec<(u32, T)>)
    requires
        p + 4 + 12 * n_entries <= bytes@.len(),
        n_entries == le_at(bytes@, p as int, 4),
    ensures
        row@ == row_at::<T>(bytes@, p as int),
{
    let total: usize = bytes.len();
    let mut row: Vec<(u32, T)> = Vec::with_capacity(n_entries);
    let mut j: usize = 0;
    while j < n_entries
        invariant
            j <= n_entries,
            total == bytes@.len(),
            p + 4 + 12 * n_entries <= total,
            n_entries == le_at(bytes@, p as int, 4),
            row.len() == j,
            forall|k: int| 0 <= k < j ==> #[trigger] row[k] == row_at::<T>(bytes@, p as int)[k],
        decreases n_entries - j,
    {
        let at: usize = p + 4 + 12 * j;
        let content: u32 = read_u32(bytes, at);
        let sym_u: usize = <usize as WTIndexable>::from_u64(read_u64(bytes, at + 4));
        row.push((content, T::from_u64(sym_u.to_u64())));
        j = j + 1;
    }
    assert(row@ =~= row_at::<T>(bytes@, p as int));
    row
}

/// Reads the decoding table at offset `at`. `None` where it does not lie inside
/// of the bytes.
fn read_decode<T: WTIndexable>(bytes: &[u8], at: usize, count: usize) -> (r: Result<
    Vec<Vec<(u32, T)>>,
    LayoutError,
>)
    requires
        at <= bytes@.len(),
    ensures
        match r {
            Ok(decode) => {
                &&& rows_view(decode@) == decode_at::<T>(bytes@, at as int, count as int)
                &&& forall|b: int|
                    0 <= b < count ==> #[trigger] bucket_inside(bytes@, at as int, b)
            },
            Err(e) => {
                &&& exists|b: int|
                    0 <= b < count && !#[trigger] bucket_inside(bytes@, at as int, b)
                &&& e == LayoutError::Truncated
            },
        },
{
    let total: usize = bytes.len();
    let mut decode: Vec<Vec<(u32, T)>> = Vec::with_capacity(count);
    let mut p: usize = at;
    let mut b: usize = 0;
    while b < count
        invariant
            b <= count,
            total == bytes@.len(),
            p == bucket_at(bytes@, at as int, b as int),
            p <= total,
            decode.len() == b,
            forall|k: int| 0 <= k < b ==> #[trigger] bucket_inside(bytes@, at as int, k),
            forall|k: int|
                0 <= k < b ==> (#[trigger] decode[k])@ == row_at::<T>(
                    bytes@,
                    bucket_at(bytes@, at as int, k),
                ),
        decreases count - b,
    {
        match checked_region(p, 1, 4, total) {
            Ok(_) => {},
            Err(e) => {
                assert(!bucket_inside(bytes@, at as int, b as int));
                return Err(e);
            },
        }
        let entries: u32 = read_u32(bytes, p);
        let n_entries: usize = entries as usize;
        match checked_region(p + 4, n_entries, 12, total) {
            Ok(_) => {},
            Err(e) => {
                assert(!bucket_inside(bytes@, at as int, b as int));
                return Err(e);
            },
        }
        let row: Vec<(u32, T)> = read_row(bytes, p, n_entries);
        let ghost before = decode@;
        decode.push(row);
        assert(forall|k: int| 0 <= k < b ==> decode@[k] == before[k]);
        assert(bucket_inside(bytes@, at as int, b as int));
        p = p + 4 + 12 * n_entries;
        b = b + 1;
    }
    assert(rows_view(decode@) =~= decode_at::<T>(bytes@, at as int, count as int));
    Ok(decode)
}

impl<'a, T: WTIndexable, const B_SIZE: usize> HqwtView<'a, T, B_SIZE> {
    /// The digits of the levels.
    pub closed spec fn level_rows(&self) -> Seq<Seq<u8>> {
        level_digits(self.levels@)
    }

    /// The number of symbols.
    pub closed spec fn count(&self) -> nat {
        self.n as nat
    }

    /// The number of levels.
    pub closed spec fn level_count(&self) -> nat {
        self.n_levels as nat
    }

    /// The codes of the symbols.
    pub closed spec fn encode(&self) -> Seq<PrefixCode> {
        self.codes_encode@
    }

    /// The decoding table.
    pub closed spec fn decode(&self) -> Seq<Vec<(u32, T)>> {
        self.codes_decode@
    }

    /// How many rows of the levels count.
    pub closed spec fn row_counts(&self) -> Seq<usize> {
        self.lens@
    }

    /// The parts of the view fit together.
    #[verifier::opaque]
    pub closed spec fn wf(&self) -> bool {
        &&& self.levels.len() == self.n_levels
        &&& self.lens.len() == self.n_levels
        &&& self.n_levels <= 0xffff
        &&& levels_wf(self.levels@)
        &&& forall|l: int|
            0 <= l < self.n_levels ==> (#[trigger] self.lens[l]) <= self.levels[l].digits().len()
        &&& self.n == if self.n_levels == 0 {
            0
        } else {
            self.lens[0]
        }
    }

    /// The view is one of these bytes.
    pub open spec fn shows(&self, s: Seq<u8>) -> bool {
        &&& self.count() == size_at(s, 8)
        &&& self.level_count() == hqwb_level_count(s)
        &&& self.level_rows() == hqwb_levels(s)
        &&& self.row_counts() == hqwb_lens(s)
        &&& self.encode() == encode_at(s, hqwb_tables_at(s), hqwb_encode_len(s))
        &&& rows_view(self.decode()) == decode_at::<T>(
            s,
            hqwb_decode_at(s),
            hqwb_bucket_count(s),
        )
    }

    /// What opening the bytes at an address gives.
    pub open spec fn opened(r: Result<Self, LayoutError>, s: Seq<u8>, addr: int) -> bool {
        match r {
            Ok(view) => {
                &&& hqwb_error(s, addr, B_SIZE == 512, T::bit_width() as int) is None
                &&& view.wf()
                &&& view.shows(s)
            },
            Err(e) => hqwb_error(s, addr, B_SIZE == 512, T::bit_width() as int) == Some(e),
        }
    }

    /// The view is one of a tree over `seq`.
    pub open spec fn represents(&self, seq: Seq<T>) -> bool {
        &&& seq.len() == self.count()
        &&& seq.len() == 0 ==> self.encode().len() == 0
        &&& seq.len() > 0 ==> huff_represents(
            self.level_rows(),
            self.row_counts(),
            self.encode(),
            rows_view(self.decode()),
            seq,
        )
    }

    /// Opens a view of the bytes of a compressed container.
    pub fn from_bytes(bytes: &'a [u8]) -> (r: Result<Self, LayoutError>)
        ensures
            r == Err::<Self, LayoutError>(LayoutError::BigEndian) || exists|addr: int|
                0 <= addr <= usize::MAX && #[trigger] Self::opened(r, bytes@, addr),
            r == Err::<Self, LayoutError>(LayoutError::BigEndian) ==> host_answers(
                Err(LayoutError::BigEndian),
            ) && exists|host: Result<(), LayoutError>| #[trigger]
                call_ensures(ensure_le, (), host) && host is Err,
            r != Err::<Self, LayoutError>(LayoutError::BigEndian) ==> host_answers(Ok(()))
                && exists|addr: usize| #[trigger]
                begins_at(bytes, addr) && Self::opened(r, bytes@, addr as int),
    {
        let host: Result<(), LayoutError> = ensure_le();
        assert(call_ensures(ensure_le, (), host));
        match host {
            Ok(()) => {},
            Err(e) => {
                return Err(e);
            },
        }
        let addr: usize = slice_address(bytes);
        proof {
            lemma_begins_at(bytes, addr);
        }
        let r = Self::from_bytes_at(bytes, addr);
        assert(Self::opened(r, bytes@, addr as int));
        proof {
            lemma_fault(
                bytes@,
                HQWB_MAGIC@,
                addr as int,
                B_SIZE == 512,
                T::bit_width() as int,
                HQWT_LEVEL_DIR_SIZE as int,
                hqwb_level_count(bytes@),
                0,
            );
        }
        r
    }

    /// Opens a view of the bytes of a compressed container that begin at address
    /// `addr`.
    pub fn from_bytes_at(bytes: &'a [u8], addr: usize) -> (r: Result<Self, LayoutError>)
        ensures
            Self::opened(r, bytes@, addr as int),
    {
        let ghost s = bytes@;
        let ghost b512 = B_SIZE == 512;
        let ghost size = HQWT_LEVEL_DIR_SIZE as int;
        let total: usize = bytes.len();
        match check_header(bytes, HQWB_MAGIC, B_SIZE == 512, T::width()) {
            Ok(()) => {},
            Err(e) => {
                return Err(e);
            },
        }
        let mut o: usize = 8;
        let n: usize = <usize as WTIndexable>::from_u64(get_u64(bytes, &mut o));
        let n_levels: usize = get_u16(bytes, &mut o) as usize;
        let encode_len: usize = get_u16(bytes, &mut o) as usize;
        let decode_n_buckets: usize = get_u16(bytes, &mut o) as usize;
        let dir_end: usize = HEADER_SIZE + n_levels * HQWT_LEVEL_DIR_SIZE;
        if total < dir_end {
            return Err(LayoutError::Truncated);
        }
        let p: usize = align_up(dir_end, 8);
        let encode_bytes: usize = match checked_region(p, encode_len, 8, total) {
            Ok(size) => size,
            Err(e) => {
                return Err(e);
            },
        };
        let codes_encode: Vec<PrefixCode> = read_encode(bytes, p, encode_len);
        let codes_decode: Vec<Vec<(u32, T)>> = match read_decode(
            bytes,
            p + encode_bytes,
            decode_n_buckets,
        ) {
            Ok(decode) => decode,
            Err(e) => {
                return Err(e);
            },
        };
        let mut levels: Vec<RSQVectorView<'a, B_SIZE>> = Vec::with_capacity(n_levels);
        let mut lens: Vec<usize> = Vec::with_capacity(n_levels);
        let mut li: usize = 0;
        while li < n_levels
            invariant
                li <= n_levels,
                n_levels <= 0xffff,
                s == bytes@,
                total == s.len(),
                b512 == (B_SIZE == 512),
                size == HQWT_LEVEL_DIR_SIZE,
                n_levels == hqwb_level_count(s),
                HEADER_SIZE + n_levels * HQWT_LEVEL_DIR_SIZE <= total,
                hqwb_decode_at(s) <= total,
                forall|b: int|
                    0 <= b < hqwb_bucket_count(s) ==> #[trigger] bucket_inside(
                        s,
                        hqwb_decode_at(s),
                        b,
                    ),
                header_error(s, HQWB_MAGIC@, b512, T::bit_width() as int) is None,
                levels.len() == li,
                lens.len() == li,
                levels_wf(levels@),
                forall|l: int|
                    0 <= l < li ==> (#[trigger] levels[l]).content() == dir_rows(
                        s,
                        dir_of(s, HEADER_SIZE + size * l),
                    ),
                forall|l: int|
                    0 <= l < li ==> #[trigger] lens[l] == size_at(s, HEADER_SIZE + size * l + 128),
                dirs_error(s, addr as int, b512, size, n_levels as int, 0) == dirs_error(
                    s,
                    addr as int,
                    b512,
                    size,
                    n_levels as int,
                    li as int,
                ),
            decreases n_levels - li,
        {
            let dir_off: usize = HEADER_SIZE + li * HQWT_LEVEL_DIR_SIZE;
            let entry: &[u8] = vstd::slice::slice_subrange(
                bytes,
                dir_off,
                dir_off + HQWT_LEVEL_DIR_SIZE,
            );
            proof {
                lemma_dir_sub(s, dir_off as int, dir_off + HQWT_LEVEL_DIR_SIZE);
                lemma_le_at_sub(s, dir_off as int, dir_off + HQWT_LEVEL_DIR_SIZE, 128, 8);
            }
            match HqwtLevelDir::read(entry) {
                Ok(dir) => {
                    match RSQVectorView::<'a, B_SIZE>::from_dir(bytes, addr, &dir.plain) {
                        Ok(level) => {
                            let ghost before = levels@;
                            levels.push(level);
                            assert(forall|l: int| 0 <= l < li ==> levels@[l] == before[l]);
                            lens.push(<usize as WTIndexable>::from_u64(dir.level_len));
                        },
                        Err(e) => {
                            return Err(e);
                        },
                    }
                },
                Err(e) => {
                    return Err(e);
                },
            }
            li = li + 1;
        }
        proof {
            assert(level_digits(levels@) =~= hqwb_levels(s));
            assert(lens@ =~= hqwb_lens(s));
        }
        let mut consistent: bool = n == if n_levels == 0 {
            0
        } else {
            lens[0]
        };
        let mut li: usize = 0;
        while li < n_levels
            invariant
                li <= n_levels,
                n_levels == hqwb_level_count(s),
                levels.len() == n_levels,
                lens.len() == n_levels,
                level_digits(levels@) == hqwb_levels(s),
                lens@ == hqwb_lens(s),
                n == size_at(s, 8),
                consistent == (n == (if n_levels == 0 {
                    0usize
                } else {
                    hqwb_lens(s)[0]
                }) && forall|l: int|
                    0 <= l < li ==> (#[trigger] hqwb_lens(s)[l]) <= hqwb_levels(s)[l].len()),
            decreases n_levels - li,
        {
            assert(level_digits(levels@)[li as int] == levels[li as int].content());
            assert(hqwb_lens(s)[li as int] == lens[li as int]);
            if lens[li] > levels[li].len() {
                consistent = false;
            }
            li = li + 1;
        }
        if !consistent {
            return Err(
                LayoutError::Inconsistent { detail: "HQWT logical level length exceeds payload" },
            );
        }
        let view = HqwtView { n, n_levels, codes_encode, codes_decode, levels, lens };
        proof {
            reveal(HqwtView::wf);
            assert forall|l: int| 0 <= l < n_levels implies (#[trigger] lens[l])
                <= levels[l].digits().len() by {
                assert(hqwb_lens(s)[l] <= hqwb_levels(s)[l].len());
                assert(level_digits(levels@)[l] == levels[l].content());
            }
        }
        Ok(view)
    }

    /// The number of symbols.
    pub fn len(&self) -> (n: usize)
        ensures
            n == self.count(),
    {
        self.n
    }

    /// Whether there are no symbols.
    pub fn is_empty(&self) -> (b: bool)
        ensures
            b == (self.count() == 0),
    {
        self.n == 0
    }

    /// The number of levels.
    pub fn n_levels(&self) -> (l: usize)
        ensures
            l == self.level_count(),
    {
        self.n_levels
    }

    /// The levels.
    pub fn levels(&self) -> (levels: &[RSQVectorView<'a, B_SIZE>])
        ensures
            level_digits(levels@) == self.level_rows(),
            self.wf() ==> levels_wf(levels@),
    {
        proof {
            reveal(HqwtView::wf);
        }
        self.levels.as_slice()
    }

    /// The codes of the symbols.
    pub fn codes_encode(&self) -> (codes: &[PrefixCode])
        ensures
            codes@ == self.encode(),
    {
        self.codes_encode.as_slice()
    }

    /// The decoding table.
    pub fn codes_decode(&self) -> (rows: &[Vec<(u32, T)>])
        ensures
            rows@ == self.decode(),
    {
        self.codes_decode.as_slice()
    }

    /// How many rows of the levels count.
    pub fn level_lens(&self) -> (lens: &[usize])
        ensures
            lens@ == self.row_counts(),
    {
        self.lens.as_slice()
    }

    /// The symbol at position `i`, or `None` out of bounds. `None` as well where
    /// the decoding table has no symbol for what the levels hold there.
    pub fn get(&self, i: usize) -> (r: Option<T>)
        requires
            self.wf(),
        ensures
            i >= self.count() ==> r is None,
            i < self.count() ==> decoded(
                self.decode(),
                path_within(self.level_rows(), self.row_counts(), 0, i as int),
                r,
            ),
            forall|seq: Seq<T>|
                #[trigger] self.represents(seq) ==> r == if i < seq.len() {
                    Some(seq[i as int])
                } else {
                    None
                },
    {
        if i >= self.n {
            return None;
        }
        proof {
            reveal(HqwtView::wf);
        }
        let r: Option<T> = huff_get(&self.levels, &self.lens, &self.codes_decode, i);
        proof {
            assert forall|seq: Seq<T>| #[trigger] self.represents(seq) implies r == Some(
                seq[i as int],
            ) by {
                lemma_huff_get(
                    self.level_rows(),
                    self.lens@,
                    self.encode(),
                    self.decode(),
                    seq,
                    i as int,
                    r,
                );
            }
        }
        r
    }

    /// The symbol at position `i`, which must be in bounds, of a tree over
    /// `seq`.
    pub fn get_unchecked(&self, i: usize) -> (t: T)
        requires
            self.wf(),
            i < self.count(),
            exists|seq: Seq<T>| self.represents(seq),
        ensures
            forall|seq: Seq<T>| #[trigger] self.represents(seq) ==> t == seq[i as int],
    {
        let r: Option<T> = self.get(i);
        r.unwrap()
    }

    /// How often `symbol` occurs before position `i`. `None` where `i` is out of
    /// bounds, the symbol has no code, or the code leaves the levels.
    pub fn rank(&self, symbol: T, i: usize) -> (r: Option<usize>)
        requires
            self.wf(),
        ensures
            ({
                let known = coded(self.encode(), symbol.val() as int);
                let code = quad_code(self.encode()[symbol.val() as int]);
                let lv = self.level_rows();
                match r {
                    Some(k) => {
                        &&& i <= self.count()
                        &&& known
                        &&& code.len() <= lv.len()
                        &&& walk_fits(lv, code, i as int)
                        &&& k == pcount(lv, 0, code, 0, i as int)
                    },
                    None => i > self.count() || !known || code.len() > lv.len() || !walk_fits(
                        lv,
                        code,
                        i as int,
                    ),
                }
            }),
            forall|seq: Seq<T>|
                #[trigger] self.represents(seq) ==> match r {
                    Some(k) => {
                        &&& i <= seq.len()
                        &&& coded(self.encode(), symbol.val() as int)
                        &&& k == occurrences(seq, symbol, i as int)
                    },
                    None => i > seq.len() || !coded(self.encode(), symbol.val() as int),
                },
    {
        if i > self.n {
            return None;
        }
        proof {
            reveal(HqwtView::wf);
        }
        let r: Option<usize> = huff_rank(&self.levels, &self.codes_encode, symbol, i);
        proof {
            assert forall|seq: Seq<T>| #[trigger] self.represents(seq) implies match r {
                Some(k) => {
                    &&& i <= seq.len()
                    &&& coded(self.encode(), symbol.val() as int)
                    &&& k == occurrences(seq, symbol, i as int)
                },
                None => i > seq.len() || !coded(self.encode(), symbol.val() as int),
            } by {
                if coded(self.encode(), symbol.val() as int) {
                    lemma_huff_count(
                        self.level_rows(),
                        self.lens@,
                        self.encode(),
                        rows_view(self.decode()),
                        seq,
                        symbol,
                        i as int,
                    );
                }
            }
        }
        r
    }

    /// The position of occurrence `i` of `symbol`, counting from zero. `None`
    /// where there are not so many, the symbol has no code, or the code leaves
    /// the levels.
    pub fn select(&self, symbol: T, i: usize) -> (r: Option<usize>)
        requires
            self.wf(),
        ensures
            ({
                let known = coded(self.encode(), symbol.val() as int);
                let word = self.encode()[symbol.val() as int];
                let code = quad_code(word);
                let lv = self.level_rows();
                if !known || code.len() > lv.len() {
                    r is None
                } else if code.len() == 0 {
                    r == Some(i)
                } else if word.len % 2 == 1 {
                    match r {
                        Some(p) => two_ways(lv, code, quad_code_up(word), 0, 0, i as int) == Some(
                            p as int,
                        ),
                        None => two_ways(lv, code, quad_code_up(word), 0, 0, i as int) is None,
                    }
                } else {
                    match r {
                        Some(p) => {
                            &&& p < lv[0].len()
                            &&& code.is_prefix_of(path(lv, 0, p as int))
                            &&& pcount(lv, 0, code, 0, p as int) == i
                        },
                        None => walk_fits(lv, code, lv[0].len() as int) ==> pcount(
                            lv,
                            0,
                            code,
                            0,
                            lv[0].len() as int,
                        ) <= i,
                    }
                }
            }),
            forall|seq: Seq<T>|
                #[trigger] self.represents(seq) ==> match r {
                    Some(p) => {
                        &&& coded(self.encode(), symbol.val() as int)
                        &&& p < seq.len()
                        &&& seq[p as int] == symbol
                        &&& occurrences(seq, symbol, p as int) == i
                    },
                    None => !coded(self.encode(), symbol.val() as int) || occurrences(
                        seq,
                        symbol,
                        seq.len() as int,
                    ) <= i,
                },
    {
        proof {
            reveal(HqwtView::wf);
        }
        let r: Option<usize> = huff_select(&self.levels, &self.codes_encode, symbol, i);
        proof {
            assert forall|seq: Seq<T>| #[trigger] self.represents(seq) implies match r {
                Some(p) => {
                    &&& coded(self.encode(), symbol.val() as int)
                    &&& p < seq.len()
                    &&& seq[p as int] == symbol
                    &&& occurrences(seq, symbol, p as int) == i
                },
                None => !coded(self.encode(), symbol.val() as int) || occurrences(
                    seq,
                    symbol,
                    seq.len() as int,
                ) <= i,
            } by {
                if coded(self.encode(), symbol.val() as int) {
                    lemma_huff_count(
                        self.level_rows(),
                        self.lens@,
                        self.encode(),
                        rows_view(self.decode()),
                        seq,
                        symbol,
                        seq.len() as int,
                    );
                    if let Some(p) = r {
                        lemma_huff_count(
                            self.level_rows(),
                            self.lens@,
                            self.encode(),
                            rows_view(self.decode()),
                            seq,
                            symbol,
                            p as int,
                        );
                    }
                }
            }
        }
        r
    }

    /// How often `symbol`, which must have a code, occurs before position `i`,
    /// which must be in bounds, in a tree over some sequence.
    pub fn rank_unchecked(&self, symbol: T, i: usize) -> (k: usize)
        requires
            self.wf(),
            i <= self.count(),
            coded(self.encode(), symbol.val() as int),
            exists|seq: Seq<T>| self.represents(seq),
        ensures
            forall|seq: Seq<T>|
                #[trigger] self.represents(seq) ==> k == occurrences(seq, symbol, i as int),
    {
        let r: Option<usize> = self.rank(symbol, i);
        proof {
            let seq = choose|seq: Seq<T>| self.represents(seq);
            assert(self.represents(seq));
        }
        r.unwrap()
    }

    /// The position of occurrence `i` of `symbol`, which must exist, in a tree
    /// over some sequence.
    pub fn select_unchecked(&self, symbol: T, i: usize) -> (p: usize)
        requires
            self.wf(),
            coded(self.encode(), symbol.val() as int),
            exists|seq: Seq<T>|
                self.represents(seq) && i < occurrences(seq, symbol, seq.len() as int),
        ensures
            forall|seq: Seq<T>|
                #[trigger] self.represents(seq) ==> {
                    &&& p < seq.len()
                    &&& seq[p as int] == symbol
                    &&& occurrences(seq, symbol, p as int) == i
                },
    {
        let r: Option<usize> = self.select(symbol, i);
        proof {
            let seq = choose|seq: Seq<T>|
                self.represents(seq) && i < occurrences(seq, symbol, seq.len() as int);
            assert(self.represents(seq));
        }
        r.unwrap()
    }
}

} // verus!
