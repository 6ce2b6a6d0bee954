//! Where the levels of a container are placed.

use vstd::prelude::*;

use super::aligned;
use super::dir::{DirView, LevelDir};
use super::encoder::{summarizes, LevelSummary, MAX_LEVEL_ROWS};
use super::error::DirectQwtBuildError;
use super::image::{
    data_bits, encodes_level, lemma_rows_of, lemma_samples, lemma_super_bytes_len,
    lemma_u32_bytes_len, line_count, sample_list, samples, super_bytes, super_count, u32_bytes,
};
use super::layout::{
    dir_aligned, dir_data, dir_error, dir_inside, dir_positions, dir_rows, dir_select,
    dir_superblocks,
};
use super::lemma_aligned;
use crate::wavelet::{below, digits_below, lemma_count_bounds};

verus! {

/// The sections of a level.
#[verifier::ext_equal]
pub struct LevelImage {
    pub data: Seq<u8>,
    pub superblocks: Seq<u8>,
    pub select: Seq<Seq<u8>>,
}

/// The image is that of a level with these rows.
#[verifier::opaque]
pub open spec fn is_image(rows: Seq<u8>, b512: bool, im: LevelImage) -> bool {
    encodes_level(rows, b512, im.data, im.superblocks, im.select)
}

/// Zeros up to the next multiple of `align`.
pub open spec fn padding(at: int, align: int) -> Seq<u8> {
    Seq::new((aligned(at, align) - at) as nat, |i: int| 0u8)
}

pub open spec fn image_bytes(im: LevelImage) -> Seq<u8> {
    im.data + im.superblocks + im.select[0] + im.select[1] + im.select[2] + im.select[3]
}

/// The bytes of the first `l` levels, placed from offset `base` on.
pub open spec fn payload(base: int, images: Seq<LevelImage>, l: int) -> Seq<u8>
    decreases l,
{
    if l <= 0 {
        Seq::empty()
    } else {
        let before = payload(base, images, l - 1);
        before + padding(base + before.len(), 64) + image_bytes(images[l - 1])
    }
}

/// Where level `l` begins.
pub open spec fn image_off(base: int, images: Seq<LevelImage>, l: int) -> int {
    aligned(base + payload(base, images, l).len(), 64)
}

/// The directory entry of a level that begins at `off`.
pub open spec fn dir_at(rows: Seq<u8>, b512: bool, off: int) -> DirView {
    let n = rows.len() as int;
    let sup = off + 64 * line_count(n);
    let sel = sup + 64 * super_count(n, b512);
    let c0 = 4 * sample_list(rows, b512, 0).len();
    let c1 = 4 * sample_list(rows, b512, 1).len();
    let c2 = 4 * sample_list(rows, b512, 2).len();
    DirView {
        off_data: off,
        n_datalines: line_count(n),
        position_bits: 2 * n,
        off_superblocks: sup,
        n_superblocks: super_count(n, b512),
        off_sel: seq![sel, sel + c0, sel + c0 + c1, sel + c0 + c1 + c2],
        n_sel: Seq::new(4, |k: int| sample_list(rows, b512, k as u8).len() as int),
        n_occs_smaller: Seq::new(5, |k: int| below(rows, k, n)),
    }
}

/// How many bytes a level has.
pub open spec fn image_len(rows: Seq<u8>, b512: bool) -> int {
    let n = rows.len() as int;
    64 * line_count(n) + 64 * super_count(n, b512) + 4 * (sample_list(rows, b512, 0).len()
        + sample_list(rows, b512, 1).len() + sample_list(rows, b512, 2).len() + sample_list(
        rows,
        b512,
        3,
    ).len())
}

pub proof fn lemma_sample_list(rows: Seq<u8>, b512: bool, d: u8)
    requires
        rows.len() <= MAX_LEVEL_ROWS,
    ensures
        forall|k: int|
            0 <= k < sample_list(rows, b512, d).len() ==> 0 <= #[trigger] sample_list(
                rows,
                b512,
                d,
            )[k] < 0x1_0000_0000,
        2 <= sample_list(rows, b512, d).len() <= 0x1000_0000,
        u32_bytes(sample_list(rows, b512, d)).len() == 4 * sample_list(rows, b512, d).len(),
{
    let n = rows.len() as int;
    let list = sample_list(rows, b512, d);
    let s = samples(rows, b512, d, n);
    lemma_samples(rows, b512, d, n);
    lemma_count_bounds(rows, d, n);
    assert forall|k: int| 0 <= k < list.len() implies 0 <= #[trigger] list[k] < 0x1_0000_0000 by {
        if k < s.len() {
            assert(list[k] == s[k]);
        }
    }
    lemma_u32_bytes_len(list);
}

/// How large the sections of an image are.
pub proof fn lemma_image_len(rows: Seq<u8>, b512: bool, im: LevelImage)
    requires
        is_image(rows, b512, im),
        rows.len() <= MAX_LEVEL_ROWS,
    ensures
        im.data.len() == 64 * line_count(rows.len() as int),
        im.superblocks.len() == 64 * super_count(rows.len() as int, b512),
        im.select.len() == 4,
        forall|k: int|
            0 <= k < 4 ==> (#[trigger] im.select[k]).len() == 4 * sample_list(
                rows,
                b512,
                k as u8,
            ).len(),
        image_bytes(im).len() == image_len(rows, b512),
        0 <= line_count(rows.len() as int) < 0x1_0000_0000,
        0 < super_count(rows.len() as int, b512) < 0x1_0000_0000,
        forall|k: int|
            0 <= k < 4 ==> 2 <= #[trigger] sample_list(rows, b512, k as u8).len() <= 0x1000_0000,
        0 <= image_len(rows, b512) <= 0x80_0000_0000,
{
    reveal(is_image);
    lemma_super_bytes_len(rows, b512, super_count(rows.len() as int, b512));
    assert forall|k: int| 0 <= k < 4 implies (#[trigger] im.select[k]).len() == 4 * sample_list(
        rows,
        b512,
        k as u8,
    ).len() by {
        lemma_sample_list(rows, b512, k as u8);
    }
    assert forall|k: int| 0 <= k < 4 implies 2 <= #[trigger] sample_list(
        rows,
        b512,
        k as u8,
    ).len() <= 0x1000_0000 by {
        lemma_sample_list(rows, b512, k as u8);
    }
    assert(im.select[0].len() == 4 * sample_list(rows, b512, 0).len());
    assert(im.select[1].len() == 4 * sample_list(rows, b512, 1).len());
    assert(im.select[2].len() == 4 * sample_list(rows, b512, 2).len());
    assert(im.select[3].len() == 4 * sample_list(rows, b512, 3).len());
    assert(sample_list(rows, b512, 0).len() <= 0x1000_0000);
    assert(sample_list(rows, b512, 1).len() <= 0x1000_0000);
    assert(sample_list(rows, b512, 2).len() <= 0x1000_0000);
    assert(sample_list(rows, b512, 3).len() <= 0x1000_0000);
}

pub proof fn lemma_payload_prefix(base: int, images: Seq<LevelImage>, l: int, m: int)
    requires
        0 <= l <= m,
    ensures
        payload(base, images, l).len() <= payload(base, images, m).len(),
        payload(base, images, m).take(payload(base, images, l).len() as int) == payload(
            base,
            images,
            l,
        ),
    decreases m - l,
{
    let a = payload(base, images, l);
    let b = payload(base, images, m);
    if l == m {
        assert(b.take(a.len() as int) =~= a);
    } else {
        lemma_payload_prefix(base, images, l, m - 1);
        let c = payload(base, images, m - 1);
        assert(b.take(a.len() as int) =~= c.take(a.len() as int));
    }
}

/// Level `l` stands where its directory entry says.
pub proof fn lemma_payload_at(front: Seq<u8>, images: Seq<LevelImage>, l: int)
    requires
        0 <= l < images.len(),
    ensures
        ({
            let base = front.len() as int;
            let s = front + payload(base, images, images.len() as int);
            let off = image_off(base, images, l);
            let bytes = image_bytes(images[l]);
            &&& base <= off
            &&& off % 64 == 0
            &&& off + bytes.len() <= s.len()
            &&& s.subrange(off, off + bytes.len()) == bytes
            &&& image_off(base, images, l) + bytes.len() == base + payload(
                base,
                images,
                l + 1,
            ).len()
        }),
{
    let base = front.len() as int;
    let all = payload(base, images, images.len() as int);
    let s = front + all;
    let before = payload(base, images, l);
    let upto = payload(base, images, l + 1);
    let bytes = image_bytes(images[l]);
    let off = image_off(base, images, l);
    lemma_aligned(base + before.len(), 64);
    lemma_payload_prefix(base, images, l + 1, images.len() as int);
    assert(upto == before + padding(base + before.len(), 64) + bytes);
    let x = s.subrange(off, off + bytes.len());
    assert forall|i: int| 0 <= i < bytes.len() implies #[trigger] x[i] == bytes[i] by {
        assert(x[i] == all[off - base + i]);
        assert(all.take(upto.len() as int)[off - base + i] == upto[off - base + i]);
    }
    assert(x =~= bytes);
}

/// Two parts that stand behind each other.
pub proof fn lemma_two_parts(s: Seq<u8>, off: int, a: Seq<u8>, b: Seq<u8>)
    requires
        0 <= off,
        off + (a + b).len() <= s.len(),
        s.subrange(off, off + (a + b).len()) == a + b,
    ensures
        s.subrange(off, off + a.len()) == a,
        s.subrange(off + a.len(), off + a.len() + b.len()) == b,
{
    let t = s.subrange(off, off + (a + b).len());
    let x = s.subrange(off, off + a.len());
    let y = s.subrange(off + a.len(), off + a.len() + b.len());
    assert forall|i: int| 0 <= i < a.len() implies #[trigger] x[i] == a[i] by {
        assert(t[i] == (a + b)[i]);
    }
    assert forall|i: int| 0 <= i < b.len() implies #[trigger] y[i] == b[i] by {
        assert(t[a.len() + i] == (a + b)[a.len() + i]);
    }
    assert(x =~= a);
    assert(y =~= b);
}

/// The sections of an image inside of its bytes.
proof fn lemma_image_sections(s: Seq<u8>, off: int, im: LevelImage)
    requires
        0 <= off,
        off + image_bytes(im).len() <= s.len(),
        s.subrange(off, off + image_bytes(im).len()) == image_bytes(im),
    ensures
        ({
            let o1 = off + im.data.len();
            let o2 = o1 + im.superblocks.len();
            let o3 = o2 + im.select[0].len();
            let o4 = o3 + im.select[1].len();
            let o5 = o4 + im.select[2].len();
            &&& s.subrange(off, o1) == im.data
            &&& s.subrange(o1, o2) == im.superblocks
            &&& s.subrange(o2, o3) == im.select[0]
            &&& s.subrange(o3, o4) == im.select[1]
            &&& s.subrange(o4, o5) == im.select[2]
            &&& s.subrange(o5, o5 + im.select[3].len()) == im.select[3]
            &&& o5 + im.select[3].len() == off + image_bytes(im).len()
        }),
{
    let p1 = im.data + im.superblocks;
    let p2 = p1 + im.select[0];
    let p3 = p2 + im.select[1];
    let p4 = p3 + im.select[2];
    lemma_two_parts(s, off, p4, im.select[3]);
    lemma_two_parts(s, off, p3, im.select[2]);
    lemma_two_parts(s, off, p2, im.select[1]);
    lemma_two_parts(s, off, p1, im.select[0]);
    lemma_two_parts(s, off, im.data, im.superblocks);
}

/// The sections of an image are those of its directory entry.
proof fn lemma_image_parts(s: Seq<u8>, off: int, rows: Seq<u8>, b512: bool, im: LevelImage)
    requires
        is_image(rows, b512, im),
        rows.len() <= MAX_LEVEL_ROWS,
        0 <= off,
        off + image_bytes(im).len() <= s.len(),
        s.subrange(off, off + image_bytes(im).len()) == image_bytes(im),
    ensures
        ({
            let d = dir_at(rows, b512, off);
            &&& dir_inside(d, s.len() as int)
            &&& dir_data(s, d) == im.data
            &&& dir_superblocks(s, d) == im.superblocks
            &&& forall|k: int| 0 <= k < 4 ==> #[trigger] dir_select(s, d, k) == im.select[k]
        }),
{
    lemma_image_len(rows, b512, im);
    lemma_image_sections(s, off, im);
    let d = dir_at(rows, b512, off);
    assert(im.select[0].len() == 4 * d.n_sel[0]);
    assert(im.select[1].len() == 4 * d.n_sel[1]);
    assert(im.select[2].len() == 4 * d.n_sel[2]);
    assert(im.select[3].len() == 4 * d.n_sel[3]);
    assert(dir_select(s, d, 0) == im.select[0]);
    assert(dir_select(s, d, 1) == im.select[1]);
    assert(dir_select(s, d, 2) == im.select[2]);
    assert(dir_select(s, d, 3) == im.select[3]);
    assert(dir_inside(d, s.len() as int)) by {
        assert forall|k: int| 0 <= k < 4 implies (#[trigger] d.off_sel[k]) + 4 * d.n_sel[k]
            <= s.len() by {
            assert(k == 0 || k == 1 || k == 2 || k == 3);
        }
    }
    assert forall|k: int| 0 <= k < 4 implies #[trigger] dir_select(s, d, k) == im.select[k] by {
        assert(k == 0 || k == 1 || k == 2 || k == 3);
    }
}

/// A level that was placed can be opened again.
pub proof fn lemma_level_opens(
    front: Seq<u8>,
    images: Seq<LevelImage>,
    l: int,
    rows: Seq<u8>,
    b512: bool,
    addr: int,
)
    requires
        0 <= l < images.len(),
        is_image(rows, b512, images[l]),
        digits_below(rows, 4),
        rows.len() <= MAX_LEVEL_ROWS,
        rows.len() <= usize::MAX,
        addr % 64 == 0,
    ensures
        ({
            let base = front.len() as int;
            let s = front + payload(base, images, images.len() as int);
            let d = dir_at(rows, b512, image_off(base, images, l));
            &&& dir_error(s, addr, d, b512) is None
            &&& dir_rows(s, d) == rows
        }),
{
    let base = front.len() as int;
    let s = front + payload(base, images, images.len() as int);
    let off = image_off(base, images, l);
    lemma_payload_at(front, images, l);
    lemma_image_parts(s, off, rows, b512, images[l]);
    lemma_dir_opens(s, addr, off, rows, b512, images[l]);
}

/// A level that begins at a multiple of 64 is aligned.
proof fn lemma_dir_aligned(addr: int, off: int, rows: Seq<u8>, b512: bool)
    requires
        addr % 64 == 0,
        off % 64 == 0,
    ensures
        dir_aligned(dir_at(rows, b512, off), addr),
{
    let d = dir_at(rows, b512, off);
    assert(d.off_sel[0] % 4 == 0);
    assert(d.off_sel[1] % 4 == 0);
    assert(d.off_sel[2] % 4 == 0);
    assert(d.off_sel[3] % 4 == 0);
    assert forall|k: int| 0 <= k < 4 implies (addr + #[trigger] d.off_sel[k]) % 4 == 0 by {
        assert(k == 0 || k == 1 || k == 2 || k == 3);
    }
}

/// The directory entry of an aligned level is no error.
#[verifier::rlimit(60)]
#[verifier::spinoff_prover]
proof fn lemma_dir_opens(
    s: Seq<u8>,
    addr: int,
    off: int,
    rows: Seq<u8>,
    b512: bool,
    im: LevelImage,
)
    requires
        is_image(rows, b512, im),
        digits_below(rows, 4),
        rows.len() <= MAX_LEVEL_ROWS,
        rows.len() <= usize::MAX,
        addr % 64 == 0,
        off % 64 == 0,
        ({
            let d = dir_at(rows, b512, off);
            &&& dir_inside(d, s.len() as int)
            &&& dir_data(s, d) == im.data
            &&& dir_superblocks(s, d) == im.superblocks
            &&& forall|k: int| 0 <= k < 4 ==> #[trigger] dir_select(s, d, k) == im.select[k]
        }),
    ensures
        dir_error(s, addr, dir_at(rows, b512, off), b512) is None,
        dir_rows(s, dir_at(rows, b512, off)) == rows,
{
    let d = dir_at(rows, b512, off);
    let n = rows.len() as int;
    assert(dir_rows(s, d) == rows && data_bits(rows, dir_data(s, d))) by {
        reveal(is_image);
        lemma_rows_of(rows, im.data);
    }
    assert(dir_superblocks(s, d) == super_bytes(rows, b512, super_count(n, b512))) by {
        reveal(is_image);
    }
    assert forall|k: int| 0 <= k < 4 implies #[trigger] dir_select(s, d, k) == u32_bytes(
        sample_list(rows, b512, k as u8),
    ) by {
        reveal(is_image);
        assert(im.select[k] == u32_bytes(sample_list(rows, b512, k as u8)));
    }
    lemma_dir_aligned(addr, off, rows, b512);
    assert(dir_positions(d));
    assert forall|k: int| 0 <= k < 5 implies #[trigger] d.n_occs_smaller[k] == below(
        rows,
        k,
        n,
    ) by {}
}

/// How many bytes a level with this summary has.
pub open spec fn summary_len(summary: LevelSummary) -> int {
    64 * summary.n_datalines + 64 * summary.n_superblocks + 4 * (summary.n_sel@[0]
        + summary.n_sel@[1] + summary.n_sel@[2] + summary.n_sel@[3])
}

/// The directory entry of a level with this summary that begins at `off`.
pub open spec fn summary_dir(summary: LevelSummary, off: int) -> DirView {
    let sup = off + 64 * summary.n_datalines;
    let sel = sup + 64 * summary.n_superblocks;
    let c0 = 4 * summary.n_sel@[0];
    let c1 = 4 * summary.n_sel@[1];
    let c2 = 4 * summary.n_sel@[2];
    DirView {
        off_data: off,
        n_datalines: summary.n_datalines as int,
        position_bits: summary.position_bits as int,
        off_superblocks: sup,
        n_superblocks: summary.n_superblocks as int,
        off_sel: seq![sel, sel + c0, sel + c0 + c1, sel + c0 + c1 + c2],
        n_sel: summary.n_sel@.map_values(|x: u32| x as int),
        n_occs_smaller: summary.n_occs_smaller@.map_values(|x: u64| x as int),
    }
}

/// The entry of a summary is that of the rows it summarizes.
pub proof fn lemma_summary_dir(summary: LevelSummary, rows: Seq<u8>, b512: bool, off: int)
    requires
        summarizes(summary, rows, b512),
    ensures
        summary_dir(summary, off) == dir_at(rows, b512, off),
        summary_len(summary) == image_len(rows, b512),
        summary_len(summary) == summary.aux_bytes,
{
    let a = summary_dir(summary, off);
    let b = dir_at(rows, b512, off);
    assert(summary.n_sel@[0] == sample_list(rows, b512, 0).len());
    assert(summary.n_sel@[1] == sample_list(rows, b512, 1).len());
    assert(summary.n_sel@[2] == sample_list(rows, b512, 2).len());
    assert(summary.n_sel@[3] == sample_list(rows, b512, 3).len());
    assert forall|k: int| 0 <= k < 4 implies a.n_sel[k] == b.n_sel[k] by {
        assert(summary.n_sel@[k] == sample_list(rows, b512, k as u8).len());
    }
    assert forall|k: int| 0 <= k < 5 implies a.n_occs_smaller[k] == b.n_occs_smaller[k] by {
        assert(summary.n_occs_smaller@[k] == below(rows, k, rows.len() as int));
    }
    assert(a.off_sel =~= b.off_sel);
    assert(a.n_sel =~= b.n_sel);
    assert(a.n_occs_smaller =~= b.n_occs_smaller);
}

/// The directory entry of a level that is placed behind `cursor`, and the
/// offset behind the level.
pub fn place_level(cursor: u64, summary: &LevelSummary) -> (r: Result<
    (LevelDir, u64),
    DirectQwtBuildError,
>)
    ensures
        match r {
            Ok((dir, end)) => {
                &&& dir@ == summary_dir(*summary, aligned(cursor as int, 64))
                &&& end == aligned(cursor as int, 64) + summary_len(*summary)
            },
            Err(e) => {
                &&& cursor + 63 > u64::MAX || aligned(cursor as int, 64) + summary_len(*summary)
                    > u64::MAX
                &&& e == DirectQwtBuildError::Overflow("output payload bytes")
            },
        },
{
    proof {
        lemma_aligned(cursor as int, 64);
    }
    if cursor > u64::MAX - 63 {
        return Err(DirectQwtBuildError::Overflow("output payload bytes"));
    }
    let off_data: u64 = (cursor + 63) / 64 * 64;
    let lines: u64 = 64 * summary.n_datalines as u64;
    let supers: u64 = 64 * summary.n_superblocks as u64;
    let c0: u64 = 4 * summary.n_sel[0] as u64;
    let c1: u64 = 4 * summary.n_sel[1] as u64;
    let c2: u64 = 4 * summary.n_sel[2] as u64;
    let c3: u64 = 4 * summary.n_sel[3] as u64;
    let end: u64 = match off_data.checked_add(lines + supers + c0 + c1 + c2 + c3) {
        Some(end) => end,
        None => {
            return Err(DirectQwtBuildError::Overflow("output payload bytes"));
        },
    };
    let off_superblocks: u64 = off_data + lines;
    let s0: u64 = off_superblocks + supers;
    let s1: u64 = s0 + c0;
    let s2: u64 = s1 + c1;
    let s3: u64 = s2 + c2;
    let dir = LevelDir {
        off_data,
        n_datalines: summary.n_datalines,
        position_bits: summary.position_bits,
        off_superblocks,
        n_superblocks: summary.n_superblocks,
        off_sel: [s0, s1, s2, s3],
        n_sel: summary.n_sel,
        n_occs_smaller: summary.n_occs_smaller,
    };
    assert(dir@.off_sel =~= summary_dir(*summary, off_data as int).off_sel);
    Ok((dir, end))
}

} // verus!
