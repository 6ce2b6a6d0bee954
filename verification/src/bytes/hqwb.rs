//! Writing compressed containers.

use vstd::prelude::*;

use super::container::{size_at, HQWB_MAGIC};
use super::dir::{dir_bytes, dir_fits, dir_of, lemma_dir_bytes, DirView, HqwtLevelDir, LevelDir};
use super::error::LayoutError;
use super::hview::{
    bucket_at, bucket_inside, decode_at, encode_at, hqwb_bucket_count, hqwb_decode_at,
    hqwb_encode_len, hqwb_error, hqwb_lens, hqwb_lens_ok, hqwb_level_count, hqwb_levels,
    hqwb_tables_at, row_at, HqwtView,
};
use super::le::{
    le_at, le_bytes, lemma_le_at, lemma_le_bytes, lemma_pow256, put_le, put_u16, put_u32, put_u64,
};
use super::payload::{is_image, lemma_two_parts, padding, payload, LevelImage};
use super::qwtb::{
    dir_shape, header_start, images_ok, lemma_dir_len, lemma_header_start, lemma_levels_open,
    lemma_placed_fits, lemma_placed_shape, placed_dirs,
};
use super::writer::{
    append, images_of, lemma_images_of, pad_to, place_levels, put_header_start, put_payload,
};
use super::{align_up, aligned, lemma_aligned, FORMAT_VERSION, HEADER_SIZE, HQWT_LEVEL_DIR_SIZE};
use crate::codes::PrefixCode;
use crate::indexable::WTIndexable;
use crate::level::DigitLevel;
use crate::quadwt::huffqwt::HuffQWaveletTree;
use crate::qvector::RSQVector;
use crate::tables::{lemma_entry_total, lemma_row_total, rows_view, tables_agree};

verus! {

/// Codes as pairs of 32-bit words.
pub open spec fn encode_bytes(codes: Seq<PrefixCode>) -> Seq<u8>
    decreases codes.len(),
{
    if codes.len() == 0 {
        Seq::empty()
    } else {
        encode_bytes(codes.drop_last()) + (le_bytes(codes.last().content as int, 4) + le_bytes(
            codes.last().len as int,
            4,
        ))
    }
}

/// The entries of a row of a decoding table.
pub open spec fn row_bytes<T: WTIndexable>(row: Seq<(u32, T)>) -> Seq<u8>
    decreases row.len(),
{
    if row.len() == 0 {
        Seq::empty()
    } else {
        row_bytes(row.drop_last()) + (le_bytes(row.last().0 as int, 4) + le_bytes(
            row.last().1.val() as int,
            8,
        ))
    }
}

/// A row of a decoding table behind its length.
pub open spec fn bucket_bytes<T: WTIndexable>(row: Seq<(u32, T)>) -> Seq<u8> {
    le_bytes(row.len() as int, 4) + row_bytes(row)
}

pub open spec fn decode_bytes<T: WTIndexable>(rows: Seq<Seq<(u32, T)>>) -> Seq<u8>
    decreases rows.len(),
{
    if rows.len() == 0 {
        Seq::empty()
    } else {
        decode_bytes(rows.drop_last()) + bucket_bytes(rows.last())
    }
}

/// The directory entries of a compressed container.
pub open spec fn hdirs_bytes(dirs: Seq<DirView>, lens: Seq<u64>, l: int) -> Seq<u8>
    decreases l,
{
    if l <= 0 {
        Seq::empty()
    } else {
        hdirs_bytes(dirs, lens, l - 1) + (dir_bytes(dirs[l - 1]) + le_bytes(lens[l - 1] as int, 8))
    }
}

/// The header of a compressed container.
pub open spec fn hqwb_header(
    b512: bool,
    width: int,
    n: int,
    levels: int,
    encode_len: int,
    buckets: int,
) -> Seq<u8> {
    header_start(HQWB_MAGIC@, b512, width, n) + le_bytes(levels, 2) + le_bytes(encode_len, 2)
        + le_bytes(buckets, 2) + le_bytes(0, 10)
}

/// The header and the directory of a compressed container.
pub open spec fn hqwb_head(
    b512: bool,
    width: int,
    n: int,
    dirs: Seq<DirView>,
    lens: Seq<u64>,
    encode_len: int,
    buckets: int,
) -> Seq<u8> {
    hqwb_header(b512, width, n, dirs.len() as int, encode_len, buckets) + hdirs_bytes(
        dirs,
        lens,
        dirs.len() as int,
    )
}

/// The code tables of a compressed container.
pub open spec fn tables_bytes<T: WTIndexable>(
    encode: Seq<PrefixCode>,
    decode: Seq<Seq<(u32, T)>>,
) -> Seq<u8> {
    encode_bytes(encode) + decode_bytes(decode)
}

/// Everything before the payload of a compressed container.
pub open spec fn hqwb_front<T: WTIndexable>(
    b512: bool,
    width: int,
    n: int,
    dirs: Seq<DirView>,
    lens: Seq<u64>,
    encode: Seq<PrefixCode>,
    decode: Seq<Seq<(u32, T)>>,
) -> Seq<u8> {
    let head = hqwb_head(
        b512,
        width,
        n,
        dirs,
        lens,
        encode.len() as int,
        decode.len() as int,
    );
    head + padding(head.len() as int, 8) + tables_bytes(encode, decode)
}

/// Where the payload of a compressed container begins.
pub open spec fn hqwb_base<T: WTIndexable>(
    levels: int,
    encode: Seq<PrefixCode>,
    decode: Seq<Seq<(u32, T)>>,
) -> int {
    aligned(HEADER_SIZE + HQWT_LEVEL_DIR_SIZE * levels, 8) + tables_bytes(encode, decode).len()
}

/// A compressed container.
pub open spec fn hqwb_bytes<T: WTIndexable>(
    rows: Seq<Seq<u8>>,
    images: Seq<LevelImage>,
    lens: Seq<u64>,
    encode: Seq<PrefixCode>,
    decode: Seq<Seq<(u32, T)>>,
    b512: bool,
    width: int,
    n: int,
) -> Seq<u8> {
    let base = hqwb_base(rows.len() as int, encode, decode);
    hqwb_front(b512, width, n, placed_dirs(rows, images, b512, base), lens, encode, decode)
        + payload(base, images, rows.len() as int)
}

/// Codes are read as they were written.
proof fn lemma_encode_at(s: Seq<u8>, at: int, codes: Seq<PrefixCode>)
    requires
        0 <= at,
        at + encode_bytes(codes).len() <= s.len(),
        s.subrange(at, at + encode_bytes(codes).len()) == encode_bytes(codes),
    ensures
        encode_bytes(codes).len() == 8 * codes.len(),
        encode_at(s, at, codes.len() as int) == codes,
    decreases codes.len(),
{
    if codes.len() > 0 {
        let rest = codes.drop_last();
        let c = codes.last();
        let k = rest.len() as int;
        let a = encode_bytes(rest);
        let x = le_bytes(c.content as int, 4);
        let y = le_bytes(c.len as int, 4);
        lemma_two_parts(s, at, a, x + y);
        lemma_encode_at(s, at, rest);
        lemma_two_parts(s, at + 8 * k, x, y);
        lemma_pow256();
        lemma_le_bytes(c.content as int, 4);
        lemma_le_bytes(c.len as int, 4);
        lemma_le_at(s, at + 8 * k, 4, c.content as int);
        lemma_le_at(s, at + 8 * k + 4, 4, c.len as int);
        let got = encode_at(s, at, codes.len() as int);
        assert forall|i: int| 0 <= i < codes.len() implies got[i] == codes[i] by {
            if i < k {
                assert(encode_at(s, at, k)[i] == rest[i]);
            }
        }
        assert(got =~= codes);
    } else {
        assert(encode_at(s, at, 0) =~= codes);
    }
}

/// The entries of a row are read as they were written.
proof fn lemma_row_entries<T: WTIndexable>(s: Seq<u8>, at: int, row: Seq<(u32, T)>)
    requires
        0 <= at,
        at + row_bytes(row).len() <= s.len(),
        s.subrange(at, at + row_bytes(row).len()) == row_bytes(row),
        forall|j: int| 0 <= j < row.len() ==> (#[trigger] row[j]).1.val() <= usize::MAX,
    ensures
        row_bytes(row).len() == 12 * row.len(),
        forall|j: int|
            0 <= j < row.len() ==> {
                let e = #[trigger] row[j];
                &&& le_at(s, at + 12 * j, 4) as u32 == e.0
                &&& T::truncated(size_at(s, at + 12 * j + 4).val()) == e.1
            },
    decreases row.len(),
{
    if row.len() > 0 {
        let rest = row.drop_last();
        let e = row.last();
        let k = rest.len() as int;
        let x = le_bytes(e.0 as int, 4);
        let y = le_bytes(e.1.val() as int, 8);
        assert forall|j: int| 0 <= j < rest.len() implies (#[trigger] rest[j]).1.val()
            <= usize::MAX by {
            assert(rest[j] == row[j]);
        }
        lemma_two_parts(s, at, row_bytes(rest), x + y);
        lemma_row_entries(s, at, rest);
        lemma_two_parts(s, at + 12 * k, x, y);
        lemma_pow256();
        lemma_le_bytes(e.0 as int, 4);
        lemma_le_bytes(e.1.val() as int, 8);
        lemma_le_at(s, at + 12 * k, 4, e.0 as int);
        lemma_le_at(s, at + 12 * k + 4, 8, e.1.val() as int);
        assert(e == row[k]);
        <usize as WTIndexable>::lemma_truncated(e.1.val());
        e.1.lemma_val();
        assert forall|j: int| 0 <= j < row.len() implies {
            let e = #[trigger] row[j];
            &&& le_at(s, at + 12 * j, 4) as u32 == e.0
            &&& T::truncated(size_at(s, at + 12 * j + 4).val()) == e.1
        } by {
            if j < k {
                assert(rest[j] == row[j]);
            }
        }
    }
}

/// A row is read as it was written.
proof fn lemma_bucket<T: WTIndexable>(s: Seq<u8>, p: int, row: Seq<(u32, T)>)
    requires
        0 <= p,
        row.len() < 0x1_0000_0000,
        p + bucket_bytes(row).len() <= s.len(),
        s.subrange(p, p + bucket_bytes(row).len()) == bucket_bytes(row),
        forall|j: int| 0 <= j < row.len() ==> (#[trigger] row[j]).1.val() <= usize::MAX,
    ensures
        le_at(s, p, 4) == row.len(),
        bucket_bytes(row).len() == 4 + 12 * row.len(),
        row_at::<T>(s, p) == row,
{
    let head = le_bytes(row.len() as int, 4);
    lemma_pow256();
    lemma_le_bytes(row.len() as int, 4);
    lemma_two_parts(s, p, head, row_bytes(row));
    lemma_le_at(s, p, 4, row.len() as int);
    lemma_row_entries(s, p + 4, row);
    let got = row_at::<T>(s, p);
    assert forall|j: int| 0 <= j < row.len() implies got[j] == row[j] by {
        let e = row[j];
        assert(le_at(s, p + 4 + 12 * j, 4) as u32 == e.0);
    }
    assert(got =~= row);
}

/// A decoding table is read as it was written.
proof fn lemma_decode_at<T: WTIndexable>(s: Seq<u8>, at: int, rows: Seq<Seq<(u32, T)>>)
    requires
        0 <= at,
        at + decode_bytes(rows).len() <= s.len(),
        s.subrange(at, at + decode_bytes(rows).len()) == decode_bytes(rows),
        forall|b: int| 0 <= b < rows.len() ==> (#[trigger] rows[b]).len() < 0x1_0000_0000,
        forall|b: int, j: int|
            0 <= b < rows.len() && 0 <= j < rows[b].len() ==> (#[trigger] rows[b][j]).1.val()
                <= usize::MAX,
    ensures
        bucket_at(s, at, rows.len() as int) == at + decode_bytes(rows).len(),
        forall|b: int| 0 <= b < rows.len() ==> #[trigger] bucket_inside(s, at, b),
        decode_at::<T>(s, at, rows.len() as int) == rows,
    decreases rows.len(),
{
    if rows.len() > 0 {
        let rest = rows.drop_last();
        let k = rest.len() as int;
        let last = rows.last();
        assert(last == rows[k]);
        assert forall|b: int| 0 <= b < rest.len() implies (#[trigger] rest[b]).len()
            < 0x1_0000_0000 by {
            assert(rest[b] == rows[b]);
        }
        assert forall|b: int, j: int| 0 <= b < rest.len() && 0 <= j < rest[b].len() implies (
        #[trigger] rest[b][j]).1.val() <= usize::MAX by {
            assert(rest[b] == rows[b]);
            assert(rows[b][j].1.val() <= usize::MAX);
        }
        lemma_two_parts(s, at, decode_bytes(rest), bucket_bytes(last));
        lemma_decode_at(s, at, rest);
        let p = at + decode_bytes(rest).len();
        assert forall|j: int| 0 <= j < last.len() implies (#[trigger] last[j]).1.val()
            <= usize::MAX by {
            assert(rows[k][j].1.val() <= usize::MAX);
        }
        lemma_bucket(s, p, last);
        assert(bucket_at(s, at, k) == p);
        assert(bucket_inside(s, at, k));
        let got = decode_at::<T>(s, at, rows.len() as int);
        assert forall|b: int| 0 <= b < rows.len() implies got[b] == rows[b] by {
            if b < k {
                assert(decode_at::<T>(s, at, k)[b] == rest[b]);
            }
        }
        assert(got =~= rows);
    } else {
        assert(decode_at::<T>(s, at, 0) =~= rows);
    }
}

proof fn lemma_hdirs_len(dirs: Seq<DirView>, lens: Seq<u64>, l: int)
    requires
        0 <= l <= dirs.len(),
        forall|k: int| 0 <= k < dirs.len() ==> dir_shape(#[trigger] dirs[k]),
    ensures
        hdirs_bytes(dirs, lens, l).len() == 136 * l,
    decreases l,
{
    if l > 0 {
        lemma_hdirs_len(dirs, lens, l - 1);
        assert(dir_shape(dirs[l - 1]));
        lemma_dir_len(dirs[l - 1]);
        lemma_le_bytes(lens[l - 1] as int, 8);
    }
}

/// The directory entry at offset `at` is `d`, for a level of `len` rows.
pub open spec fn entry_reads(s: Seq<u8>, at: int, d: DirView, len: u64) -> bool {
    &&& dir_of(s, at) == d
    &&& le_at(s, at + 128, 8) == len
}

/// Entries are read as they were written.
proof fn lemma_hdirs(s: Seq<u8>, at: int, dirs: Seq<DirView>, lens: Seq<u64>, l: int)
    requires
        0 <= at,
        0 <= l <= dirs.len(),
        forall|k: int| 0 <= k < dirs.len() ==> dir_fits(#[trigger] dirs[k]),
        at + hdirs_bytes(dirs, lens, l).len() <= s.len(),
        s.subrange(at, at + hdirs_bytes(dirs, lens, l).len()) == hdirs_bytes(dirs, lens, l),
    ensures
        hdirs_bytes(dirs, lens, l).len() == 136 * l,
        forall|k: int|
            0 <= k < l ==> entry_reads(s, at + 136 * k, #[trigger] dirs[k], lens[k]),
    decreases l,
{
    if l > 0 {
        let k = l - 1;
        let a = hdirs_bytes(dirs, lens, k);
        let d = dir_bytes(dirs[k]);
        let n = le_bytes(lens[k] as int, 8);
        assert(dir_fits(dirs[k]));
        lemma_dir_len(dirs[k]);
        lemma_two_parts(s, at, a, d + n);
        lemma_hdirs(s, at, dirs, lens, k);
        lemma_two_parts(s, at + 136 * k, d, n);
        lemma_pow256();
        lemma_le_bytes(lens[k] as int, 8);
        lemma_dir_bytes(dirs[k], s, at + 136 * k);
        lemma_le_at(s, at + 136 * k + 128, 8, lens[k] as int);
    }
}

/// How long the front of a compressed container is.
pub proof fn lemma_hqwb_front_len<T: WTIndexable>(
    b512: bool,
    width: int,
    n: int,
    dirs: Seq<DirView>,
    lens: Seq<u64>,
    encode: Seq<PrefixCode>,
    decode: Seq<Seq<(u32, T)>>,
)
    requires
        0 <= width,
        0 <= n,
        forall|k: int| 0 <= k < dirs.len() ==> dir_shape(#[trigger] dirs[k]),
    ensures
        hqwb_head(
            b512,
            width,
            n,
            dirs,
            lens,
            encode.len() as int,
            decode.len() as int,
        ).len() == HEADER_SIZE + HQWT_LEVEL_DIR_SIZE * dirs.len(),
        hqwb_header(
            b512,
            width,
            n,
            dirs.len() as int,
            encode.len() as int,
            decode.len() as int,
        ).len() == HEADER_SIZE,
        hqwb_front(b512, width, n, dirs, lens, encode, decode).len() == hqwb_base(
            dirs.len() as int,
            encode,
            decode,
        ),
{
    lemma_le_bytes(FORMAT_VERSION as int, 2);
    lemma_le_bytes(width, 1);
    lemma_le_bytes(n, 8);
    lemma_le_bytes(dirs.len() as int, 2);
    lemma_le_bytes(encode.len() as int, 2);
    lemma_le_bytes(decode.len() as int, 2);
    lemma_le_bytes(0, 10);
    lemma_hdirs_len(dirs, lens, dirs.len() as int);
    lemma_aligned(HEADER_SIZE + HQWT_LEVEL_DIR_SIZE * dirs.len(), 8);
}

/// The tables can be written.
pub open spec fn tables_fit<T: WTIndexable>(
    encode: Seq<PrefixCode>,
    decode: Seq<Seq<(u32, T)>>,
) -> bool {
    &&& encode.len() < 0x1_0000
    &&& decode.len() < 0x1_0000
    &&& forall|b: int| 0 <= b < decode.len() ==> (#[trigger] decode[b]).len() < 0x1_0000_0000
    &&& forall|b: int, j: int|
        0 <= b < decode.len() && 0 <= j < decode[b].len() ==> (#[trigger] decode[b][j]).1.val()
            <= usize::MAX
}

/// What the header of a compressed container says.
proof fn lemma_hqwb_header(
    s: Seq<u8>,
    b512: bool,
    width: int,
    n: int,
    levels: int,
    encode_len: int,
    buckets: int,
)
    requires
        0 <= width < 32,
        0 <= n < 0x1_0000_0000_0000_0000,
        0 <= levels < 0x1_0000,
        0 <= encode_len < 0x1_0000,
        0 <= buckets < 0x1_0000,
        s.len() >= HEADER_SIZE,
        s.subrange(0, 32) == hqwb_header(b512, width, n, levels, encode_len, buckets),
    ensures
        super::container::header_error(s, HQWB_MAGIC@, b512, 8 * width) is None,
        le_at(s, 8, 8) == n,
        hqwb_level_count(s) == levels,
        hqwb_encode_len(s) == encode_len,
        hqwb_bucket_count(s) == buckets,
{
    let start = header_start(HQWB_MAGIC@, b512, width, n);
    let a = le_bytes(levels, 2);
    let b = le_bytes(encode_len, 2);
    let c = le_bytes(buckets, 2);
    let z = le_bytes(0, 10);
    lemma_pow256();
    lemma_le_bytes(FORMAT_VERSION as int, 2);
    lemma_le_bytes(width, 1);
    lemma_le_bytes(n, 8);
    lemma_le_bytes(levels, 2);
    lemma_le_bytes(encode_len, 2);
    lemma_le_bytes(buckets, 2);
    lemma_le_bytes(0, 10);
    assert(start.len() == 16);
    lemma_two_parts(s, 0, start + a + b + c, z);
    lemma_two_parts(s, 0, start + a + b, c);
    lemma_two_parts(s, 0, start + a, b);
    lemma_two_parts(s, 0, start, a);
    lemma_header_start(s, HQWB_MAGIC@, b512, width, n);
    lemma_le_at(s, 16, 2, levels);
    lemma_le_at(s, 18, 2, encode_len);
    lemma_le_at(s, 20, 2, buckets);
}

/// What the front of a compressed container says.
#[verifier::rlimit(30)]
#[verifier::spinoff_prover]
proof fn lemma_hqwb_front<T: WTIndexable>(
    s: Seq<u8>,
    b512: bool,
    width: int,
    n: int,
    dirs: Seq<DirView>,
    lens: Seq<u64>,
    encode: Seq<PrefixCode>,
    decode: Seq<Seq<(u32, T)>>,
)
    requires
        0 <= width < 32,
        0 <= n < 0x1_0000_0000_0000_0000,
        dirs.len() < 0x1_0000,
        lens.len() == dirs.len(),
        tables_fit(encode, decode),
        forall|k: int| 0 <= k < dirs.len() ==> dir_fits(#[trigger] dirs[k]),
        s.len() >= hqwb_front(b512, width, n, dirs, lens, encode, decode).len(),
        s.subrange(0, hqwb_front(b512, width, n, dirs, lens, encode, decode).len() as int)
            == hqwb_front(b512, width, n, dirs, lens, encode, decode),
    ensures
        super::container::header_error(s, HQWB_MAGIC@, b512, 8 * width) is None,
        le_at(s, 8, 8) == n,
        hqwb_level_count(s) == dirs.len(),
        hqwb_encode_len(s) == encode.len(),
        hqwb_bucket_count(s) == decode.len(),
        s.len() >= HEADER_SIZE + HQWT_LEVEL_DIR_SIZE * dirs.len(),
        hqwb_decode_at(s) <= s.len(),
        encode_at(s, hqwb_tables_at(s), encode.len() as int) == encode,
        decode_at::<T>(s, hqwb_decode_at(s), decode.len() as int) == decode,
        forall|b: int|
            0 <= b < decode.len() ==> #[trigger] bucket_inside(s, hqwb_decode_at(s), b),
        forall|l: int|
            0 <= l < dirs.len() ==> entry_reads(s, 32 + 136 * l, #[trigger] dirs[l], lens[l]),
{
    let count = dirs.len() as int;
    let header = hqwb_header(
        b512,
        width,
        n,
        count,
        encode.len() as int,
        decode.len() as int,
    );
    let entries = hdirs_bytes(dirs, lens, count);
    let head = header + entries;
    let pad = padding(head.len() as int, 8);
    let enc = encode_bytes(encode);
    let dec = decode_bytes(decode);
    assert forall|k: int| 0 <= k < dirs.len() implies dir_shape(#[trigger] dirs[k]) by {
        assert(dir_fits(dirs[k]));
    }
    let at = (head + pad).len() as int;
    assert(head.len() == 32 + 136 * count && at == aligned(head.len() as int, 8) && header.len()
        == 32 && at + enc.len() + dec.len() <= s.len()) by {
        lemma_hqwb_front_len(b512, width, n, dirs, lens, encode, decode);
        lemma_aligned(head.len() as int, 8);
    }
    assert(s.subrange(0, head.len() as int) == head && s.subrange(at, at + enc.len()) == enc
        && s.subrange(at + enc.len(), at + enc.len() + dec.len()) == dec) by {
        lemma_two_parts(s, 0, head + pad, enc + dec);
        lemma_two_parts(s, 0, head, pad);
        lemma_two_parts(s, at, enc, dec);
    }
    assert(s.subrange(0, 32) == header && s.subrange(32, 32int + entries.len()) == entries) by {
        lemma_two_parts(s, 0, header, entries);
    }
    lemma_hqwb_header(
        s,
        b512,
        width,
        n,
        count,
        encode.len() as int,
        decode.len() as int,
    );
    lemma_hdirs(s, 32, dirs, lens, count);
    lemma_encode_at(s, at, encode);
    assert(at == hqwb_tables_at(s));
    assert(at + enc.len() == hqwb_decode_at(s));
    lemma_decode_at(s, at + enc.len(), decode);
}

/// What was written as a compressed container is opened as one, wherever it
/// begins at a multiple of 64: with the same number of symbols, the same code
/// tables and the same levels.
#[verifier::rlimit(60)]
#[verifier::spinoff_prover]
pub proof fn lemma_hqwb_opens<T: WTIndexable>(
    rows: Seq<Seq<u8>>,
    images: Seq<LevelImage>,
    lens: Seq<u64>,
    encode: Seq<PrefixCode>,
    decode: Seq<Seq<(u32, T)>>,
    b512: bool,
    width: int,
    n: int,
    addr: int,
)
    requires
        images_ok(rows, images, b512),
        rows.len() < 0x1_0000,
        lens.len() == rows.len(),
        forall|l: int| 0 <= l < rows.len() ==> #[trigger] lens[l] == rows[l].len(),
        tables_fit(encode, decode),
        0 <= width < 32,
        n == if rows.len() == 0 {
            0
        } else {
            rows[0].len()
        },
        hqwb_bytes(rows, images, lens, encode, decode, b512, width, n).len()
            < 0x1_0000_0000_0000_0000,
        addr % 64 == 0,
    ensures
        ({
            let s = hqwb_bytes(rows, images, lens, encode, decode, b512, width, n);
            &&& hqwb_error(s, addr, b512, 8 * width) is None
            &&& size_at(s, 8) == n
            &&& hqwb_level_count(s) == rows.len()
            &&& hqwb_levels(s) == rows
            &&& hqwb_lens(s).map_values(|x: usize| x as u64) == lens
            &&& encode_at(s, hqwb_tables_at(s), hqwb_encode_len(s)) == encode
            &&& decode_at::<T>(s, hqwb_decode_at(s), hqwb_bucket_count(s)) == decode
        }),
{
    let base = hqwb_base(rows.len() as int, encode, decode);
    let dirs = placed_dirs(rows, images, b512, base);
    let front = hqwb_front(b512, width, n, dirs, lens, encode, decode);
    let s = hqwb_bytes(rows, images, lens, encode, decode, b512, width, n);
    let size = HQWT_LEVEL_DIR_SIZE as int;
    if rows.len() > 0 {
        assert(lens[0] == rows[0].len());
    }
    lemma_aligned(HEADER_SIZE + HQWT_LEVEL_DIR_SIZE * rows.len(), 8);
    lemma_placed_shape(rows, images, b512, base);
    lemma_hqwb_front_len(b512, width, n, dirs, lens, encode, decode);
    lemma_placed_fits(front, rows, images, b512);
    assert(s.subrange(0, front.len() as int) =~= front);
    lemma_hqwb_front(s, b512, width, n, dirs, lens, encode, decode);
    <usize as WTIndexable>::lemma_truncated(n as u64);
    assert forall|l: int| 0 <= l < rows.len() implies dir_of(s, HEADER_SIZE + size * l)
        == #[trigger] dirs[l] by {
        assert(entry_reads(s, 32 + 136 * l, dirs[l], lens[l]));
    }
    lemma_levels_open(front, rows, images, b512, size, addr);
    assert forall|l: int| 0 <= l < rows.len() implies #[trigger] lens[l] == rows[l].len()
        && lens[l] <= usize::MAX by {
        assert(is_image(rows[l], b512, images[l]));
    }
    lemma_lens_open(s, rows, lens, dirs);
}

/// Row counts are read as they were written.
proof fn lemma_lens_open(s: Seq<u8>, rows: Seq<Seq<u8>>, lens: Seq<u64>, dirs: Seq<DirView>)
    requires
        lens.len() == rows.len(),
        dirs.len() == rows.len(),
        forall|l: int|
            0 <= l < rows.len() ==> #[trigger] lens[l] == rows[l].len() && lens[l] <= usize::MAX,
        forall|l: int|
            0 <= l < dirs.len() ==> entry_reads(s, 32 + 136 * l, #[trigger] dirs[l], lens[l]),
        hqwb_level_count(s) == rows.len(),
        hqwb_levels(s) == rows,
        size_at(s, 8) == if rows.len() == 0 {
            0
        } else {
            rows[0].len()
        },
    ensures
        hqwb_lens(s).map_values(|x: usize| x as u64) == lens,
        hqwb_lens_ok(s),
{
    let got = hqwb_lens(s);
    assert forall|l: int| 0 <= l < rows.len() implies got[l] == lens[l] by {
        assert(entry_reads(s, 32 + 136 * l, dirs[l], lens[l]));
        assert(got[l] == size_at(s, 32 + 136 * l + 128));
        <usize as WTIndexable>::lemma_truncated(lens[l]);
    }
    assert(got.map_values(|x: usize| x as u64) =~= lens);
    assert forall|l: int| 0 <= l < hqwb_level_count(s) implies (#[trigger] hqwb_lens(s)[l])
        <= hqwb_levels(s)[l].len() by {
        assert(lens[l] == rows[l].len());
    }
    if rows.len() > 0 {
        assert(lens[0] == rows[0].len());
    }
}

/// Appends codes.
pub fn put_encode(out: &mut Vec<u8>, codes: &Vec<PrefixCode>)
    ensures
        final(out)@ == old(out)@ + encode_bytes(codes@),
{
    let ghost first = out@;
    let mut i: usize = 0;
    assert(codes@.take(0) =~= Seq::<PrefixCode>::empty());
    assert(out@ =~= first + encode_bytes(codes@.take(0)));
    while i < codes.len()
        invariant
            i <= codes.len(),
            out@ == first + encode_bytes(codes@.take(i as int)),
        decreases codes.len() - i,
    {
        let code: PrefixCode = codes[i];
        put_u32(out, code.content);
        put_u32(out, code.len);
        proof {
            let more = codes@.take(i + 1);
            assert(more.drop_last() =~= codes@.take(i as int));
            assert(more.last() == code);
            assert(out@ =~= first + encode_bytes(more));
        }
        i = i + 1;
    }
    assert(codes@.take(i as int) =~= codes@);
}

fn put_row<T: WTIndexable>(out: &mut Vec<u8>, row: &Vec<(u32, T)>)
    requires
        row.len() < 0x1_0000_0000,
    ensures
        final(out)@ == old(out)@ + bucket_bytes(row@),
{
    let ghost first = out@;
    put_u32(out, row.len() as u32);
    let ghost head = out@;
    let mut j: usize = 0;
    assert(row@.take(0) =~= Seq::<(u32, T)>::empty());
    assert(out@ =~= head + row_bytes(row@.take(0)));
    while j < row.len()
        invariant
            j <= row.len(),
            out@ == head + row_bytes(row@.take(j as int)),
        decreases row.len() - j,
    {
        put_u32(out, row[j].0);
        put_u64(out, row[j].1.to_u64());
        proof {
            let more = row@.take(j + 1);
            assert(more.drop_last() =~= row@.take(j as int));
            assert(more.last() == row[j as int]);
            assert(out@ =~= head + row_bytes(more));
        }
        j = j + 1;
    }
    assert(row@.take(j as int) =~= row@);
    assert(out@ =~= first + bucket_bytes(row@));
}

/// Appends a decoding table.
pub fn put_decode<T: WTIndexable>(out: &mut Vec<u8>, decode: &Vec<Vec<(u32, T)>>)
    requires
        forall|b: int| 0 <= b < decode.len() ==> (#[trigger] decode[b]).len() < 0x1_0000_0000,
    ensures
        final(out)@ == old(out)@ + decode_bytes(rows_view(decode@)),
{
    let ghost first = out@;
    let ghost rows = rows_view(decode@);
    let mut b: usize = 0;
    assert(rows.take(0) =~= Seq::<Seq<(u32, T)>>::empty());
    assert(out@ =~= first + decode_bytes(rows.take(0)));
    while b < decode.len()
        invariant
            b <= decode.len(),
            rows == rows_view(decode@),
            forall|k: int| 0 <= k < decode.len() ==> (#[trigger] decode[k]).len() < 0x1_0000_0000,
            out@ == first + decode_bytes(rows.take(b as int)),
        decreases decode.len() - b,
    {
        put_row(out, &decode[b]);
        proof {
            let more = rows.take(b + 1);
            assert(more.drop_last() =~= rows.take(b as int));
            assert(more.last() == decode[b as int]@);
            assert(out@ =~= first + decode_bytes(more));
        }
        b = b + 1;
    }
    assert(rows.take(b as int) =~= rows);
}

/// Appends the header and the directory of a compressed container.
pub fn put_hqwb_head(
    out: &mut Vec<u8>,
    b512: bool,
    width: u8,
    n: u64,
    dirs: &Vec<LevelDir>,
    lens: &Vec<u64>,
    encode_len: u16,
    buckets: u16,
)
    requires
        dirs.len() < 0x1_0000,
        lens.len() == dirs.len(),
    ensures
        final(out)@ == old(out)@ + hqwb_head(
            b512,
            width as int,
            n as int,
            dirs@.map_values(|d: LevelDir| d@),
            lens@,
            encode_len as int,
            buckets as int,
        ),
{
    let ghost first = out@;
    let ghost views = dirs@.map_values(|d: LevelDir| d@);
    put_header_start(out, HQWB_MAGIC, b512, width, n);
    put_u16(out, dirs.len() as u16);
    put_u16(out, encode_len);
    put_u16(out, buckets);
    put_le(out, 0, 10);
    let ghost header = hqwb_header(
        b512,
        width as int,
        n as int,
        dirs.len() as int,
        encode_len as int,
        buckets as int,
    );
    assert(out@ =~= first + header);
    let mut l: usize = 0;
    assert(out@ =~= first + header + hdirs_bytes(views, lens@, 0));
    while l < dirs.len()
        invariant
            l <= dirs.len(),
            lens.len() == dirs.len(),
            views == dirs@.map_values(|d: LevelDir| d@),
            out@ == first + header + hdirs_bytes(views, lens@, l as int),
        decreases dirs.len() - l,
    {
        let dir = HqwtLevelDir { plain: dirs[l], level_len: lens[l] };
        dir.write(out);
        assert(out@ =~= first + header + hdirs_bytes(views, lens@, l + 1));
        l = l + 1;
    }
    assert(out@ =~= first + hqwb_head(
        b512,
        width as int,
        n as int,
        views,
        lens@,
        encode_len as int,
        buckets as int,
    ));
}

/// How many rows each level has.
pub open spec fn row_counts(rows: Seq<Seq<u8>>) -> Seq<u64> {
    Seq::new(rows.len(), |l: int| rows[l].len() as u64)
}

/// The container of a compressed tree.
pub open spec fn huff_tree_bytes<T: WTIndexable, const B_SIZE: usize>(
    tree: HuffQWaveletTree<T, RSQVector<B_SIZE>>,
) -> Seq<u8> {
    hqwb_bytes(
        tree.levels(),
        images_of(tree.quads()),
        row_counts(tree.levels()),
        tree.encode(),
        rows_view(tree.decode()),
        B_SIZE == 512,
        T::bit_width() as int / 8,
        tree.seq().len() as int,
    )
}

/// The tables of a tree with few enough codes can be written.
proof fn lemma_tables_fit<T: WTIndexable, const B_SIZE: usize>(
    tree: HuffQWaveletTree<T, RSQVector<B_SIZE>>,
)
    requires
        tree.wf(),
        tree.encode().len() < 0x1_0000,
    ensures
        tables_fit(tree.encode(), rows_view(tree.decode())),
        forall|b: int|
            0 <= b < tree.decode().len() ==> (#[trigger] tree.decode()[b]).len() < 0x1_0000_0000,
{
    tree.lemma_wf();
    lemma_rows_fit(tree.encode(), rows_view(tree.decode()));
    assert forall|b: int| 0 <= b < tree.decode().len() implies (#[trigger] tree.decode()[b]).len()
        < 0x1_0000_0000 by {
        assert(rows_view(tree.decode())[b] == tree.decode()[b]@);
    }
}

/// Tables with few enough codes can be written.
pub proof fn lemma_rows_fit<T: WTIndexable>(encode: Seq<PrefixCode>, decode: Seq<Seq<(u32, T)>>)
    requires
        tables_agree(encode, decode),
        encode.len() < 0x1_0000,
        decode.len() < 0x1_0000,
        decode.len() > 0 ==> decode[0].len() == 0,
    ensures
        tables_fit(encode, decode),
{
    lemma_entry_total(encode, decode);
    assert forall|b: int| 0 <= b < decode.len() implies (#[trigger] decode[b]).len()
        < 0x1_0000_0000 by {
        lemma_row_total(decode, decode.len() as int, b);
    }
}

/// The container of a compressed quad wavelet tree.
pub fn hqwt_to_bytes<T: WTIndexable, const B_SIZE: usize>(
    tree: &HuffQWaveletTree<T, RSQVector<B_SIZE>>,
) -> (r: Result<Vec<u8>, LayoutError>)
    requires
        tree.wf(),
    ensures
        match r {
            Ok(bytes) => tree.encode().len() < 0x1_0000 && bytes@ == huff_tree_bytes(*tree),
            Err(e) => {
                &&& tree.encode().len() >= 0x1_0000 || huff_tree_bytes(*tree).len() > usize::MAX
                &&& e == LayoutError::TooLarge
            },
        },
{
    let ghost rows = tree.levels();
    let ghost images = images_of(tree.quads());
    let ghost b512 = B_SIZE == 512;
    let ghost lens = row_counts(rows);
    let ghost encode = tree.encode();
    let ghost decode = rows_view(tree.decode());
    if tree.codes_encode().len() >= 0x1_0000 {
        return Err(LayoutError::TooLarge);
    }
    proof {
        tree.lemma_wf();
        lemma_tables_fit(*tree);
        lemma_images_of(tree.quads());
        T::lemma_width();
    }
    let n_levels: usize = tree.n_levels();
    let width: u8 = (T::width() / 8) as u8;
    let n: u64 = tree.len() as u64;
    let mut tables: Vec<u8> = Vec::new();
    put_encode(&mut tables, tree.codes_encode());
    put_decode(&mut tables, tree.codes_decode());
    assert(tables@ =~= tables_bytes(encode, decode));
    let head_len: usize = align_up(HEADER_SIZE + HQWT_LEVEL_DIR_SIZE * n_levels, 8);
    let ghost base_int = hqwb_base(rows.len() as int, encode, decode);
    let ghost dirs_spec = placed_dirs(rows, images, b512, base_int);
    proof {
        assert(base_int == head_len + tables@.len());
        lemma_placed_shape(rows, images, b512, base_int);
        lemma_hqwb_front_len(b512, width as int, n as int, dirs_spec, lens, encode, decode);
    }
    let base: usize = match head_len.checked_add(tables.len()) {
        Some(base) => base,
        None => {
            return Err(LayoutError::TooLarge);
        },
    };
    let (dirs, end) = match place_levels(tree.qvs(), base as u64) {
        Some(placed) => placed,
        None => {
            return Err(LayoutError::TooLarge);
        },
    };
    if end > usize::MAX as u64 {
        return Err(LayoutError::TooLarge);
    }
    let mut counts: Vec<u64> = Vec::with_capacity(n_levels);
    let mut l: usize = 0;
    while l < n_levels
        invariant
            l <= n_levels,
            n_levels == tree.level_count(),
            tree.wf(),
            rows == tree.levels(),
            counts.len() == l,
            forall|m: int| 0 <= m < l ==> #[trigger] counts[m] == rows[m].len() as u64,
        decreases n_levels - l,
    {
        proof {
            tree.lemma_wf();
        }
        counts.push(tree.lens()[l] as u64);
        l = l + 1;
    }
    assert(counts@ =~= lens);
    let mut out: Vec<u8> = Vec::new();
    put_hqwb_head(
        &mut out,
        B_SIZE == 512,
        width,
        n,
        &dirs,
        &counts,
        tree.codes_encode().len() as u16,
        tree.codes_decode().len() as u16,
    );
    let ghost head = hqwb_head(
        b512,
        width as int,
        n as int,
        dirs_spec,
        lens,
        encode.len() as int,
        decode.len() as int,
    );
    assert(out@ =~= head);
    pad_to(&mut out, 8);
    append(&mut out, tables.as_slice());
    assert(out@ =~= hqwb_front(b512, width as int, n as int, dirs_spec, lens, encode, decode));
    put_payload(&mut out, tree.qvs());
    Ok(out)
}

/// The container of a compressed quad wavelet tree with blocks of 256 rows.
pub fn hqwt256_to_bytes<T: WTIndexable>(tree: &HuffQWaveletTree<T, RSQVector<256>>) -> (r: Result<
    Vec<u8>,
    LayoutError,
>)
    requires
        tree.wf(),
    ensures
        match r {
            Ok(bytes) => tree.encode().len() < 0x1_0000 && bytes@ == huff_tree_bytes(*tree),
            Err(e) => {
                &&& tree.encode().len() >= 0x1_0000 || huff_tree_bytes(*tree).len() > usize::MAX
                &&& e == LayoutError::TooLarge
            },
        },
{
    hqwt_to_bytes(tree)
}

/// The container of a compressed tree can be opened wherever it begins at a
/// multiple of 64, and shows the sequence of the tree, with the same codes.
#[verifier::rlimit(50)]
#[verifier::spinoff_prover]
pub proof fn lemma_huff_tree_opens<T: WTIndexable, const B_SIZE: usize>(
    tree: HuffQWaveletTree<T, RSQVector<B_SIZE>>,
    addr: int,
    view: HqwtView<'_, T, B_SIZE>,
)
    requires
        tree.wf(),
        tree.encode().len() < 0x1_0000,
        huff_tree_bytes(tree).len() <= usize::MAX,
        addr % 64 == 0,
    ensures
        hqwb_error(huff_tree_bytes(tree), addr, B_SIZE == 512, T::bit_width() as int) is None,
        view.shows(huff_tree_bytes(tree)) ==> {
            &&& view.represents(tree.seq())
            &&& view.level_count() == tree.level_count()
            &&& view.encode() == tree.encode()
        },
{
    let s = huff_tree_bytes(tree);
    let rows = tree.levels();
    let images = images_of(tree.quads());
    let decode = rows_view(tree.decode());
    tree.lemma_wf();
    lemma_tables_fit(tree);
    lemma_images_of(tree.quads());
    T::lemma_width();
    lemma_hqwb_opens(
        rows,
        images,
        row_counts(rows),
        tree.encode(),
        decode,
        B_SIZE == 512,
        T::bit_width() as int / 8,
        tree.seq().len() as int,
        addr,
    );
    let got = hqwb_lens(s);
    assert(got =~= tree.level_lens()) by {
        let wide = got.map_values(|x: usize| x as u64);
        assert(wide.len() == got.len());
        assert forall|l: int| 0 <= l < got.len() implies got[l] == tree.level_lens()[l] by {
            assert(wide[l] == row_counts(rows)[l]);
        }
    }
}

} // verus!
