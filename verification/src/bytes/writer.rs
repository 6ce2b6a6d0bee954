//! Writing the parts that containers share.

use vstd::prelude::*;

use super::dir::{DirView, LevelDir};
use super::encoder::{LevelSummary, MAX_LEVEL_ROWS};
use super::le::{put_le, put_u16, put_u64};
use super::payload::{
    dir_at, image_bytes, image_off, is_image, lemma_image_len, lemma_payload_at,
    lemma_payload_prefix, lemma_summary_dir, padding, payload, place_level, LevelImage,
};
use super::qwtb::{dirs_bytes, header_start, images_ok, placed_dirs};
use super::{aligned, lemma_aligned, FLAG_B512, FORMAT_VERSION};
use crate::level::{level_digits, levels_wf, DigitLevel};
use crate::qvector::RSQVector;
use crate::wavelet::digits_below;

verus! {

/// The sections of levels.
pub open spec fn images_of<const B_SIZE: usize>(levels: Seq<RSQVector<B_SIZE>>) -> Seq<LevelImage> {
    Seq::new(
        levels.len(),
        |l: int|
            LevelImage {
                data: levels[l].sections().0,
                superblocks: levels[l].sections().1,
                select: levels[l].sections().2,
            },
    )
}

/// The sections of well-formed levels are images of their rows.
pub proof fn lemma_images_of<const B_SIZE: usize>(levels: Seq<RSQVector<B_SIZE>>)
    requires
        levels_wf(levels),
    ensures
        images_ok(level_digits(levels), images_of(levels), B_SIZE == 512),
{
    let rows = level_digits(levels);
    let images = images_of(levels);
    assert forall|l: int| 0 <= l < rows.len() implies {
        &&& is_image(#[trigger] rows[l], B_SIZE == 512, images[l])
        &&& digits_below(rows[l], 4)
        &&& rows[l].len() <= MAX_LEVEL_ROWS
        &&& rows[l].len() <= usize::MAX
    } by {
        assert(levels[l].wf());
        levels[l].lemma_sections();
        levels[l].lemma_level();
        reveal(is_image);
    }
}

/// Appends zeros up to the next multiple of `align`.
pub fn pad_to(out: &mut Vec<u8>, align: usize)
    requires
        0 < align,
        aligned(old(out)@.len() as int, align as int) <= usize::MAX,
    ensures
        final(out)@ == old(out)@ + padding(old(out)@.len() as int, align as int),
{
    let ghost first = out@;
    let ghost target = aligned(first.len() as int, align as int);
    proof {
        lemma_aligned(first.len() as int, align as int);
    }
    let over: usize = out.len() % align;
    let missing: usize = if over == 0 {
        0
    } else {
        align - over
    };
    proof {
        lemma_missing(first.len() as int, align as int);
        assert(missing == target - first.len());
    }
    let mut k: usize = 0;
    assert(out@ =~= first + Seq::new(0, |i: int| 0u8));
    while k < missing
        invariant
            k <= missing,
            out@ == first + Seq::new(k as nat, |i: int| 0u8),
        decreases missing - k,
    {
        out.push(0u8);
        k = k + 1;
        assert(out@ =~= first + Seq::new(k as nat, |i: int| 0u8));
    }
    assert(out@ =~= first + padding(first.len() as int, align as int));
}

proof fn lemma_missing(x: int, align: int)
    requires
        0 <= x,
        0 < align,
    ensures
        aligned(x, align) - x == if x % align == 0 {
            0
        } else {
            align - x % align
        },
{
    vstd::arithmetic::div_mod::lemma_fundamental_div_mod(x, align);
    let q = x / align;
    let r = x % align;
    vstd::arithmetic::div_mod::lemma_mod_bound(x, align);
    if r == 0 {
        assert(q * align == align * q) by (nonlinear_arith);
        vstd::arithmetic::div_mod::lemma_fundamental_div_mod_converse(
            x + align - 1,
            align,
            q,
            align - 1,
        );
    } else {
        assert(align * (q + 1) == align * q + align) by (nonlinear_arith);
        assert((q + 1) * align == align * (q + 1)) by (nonlinear_arith);
        vstd::arithmetic::div_mod::lemma_fundamental_div_mod_converse(
            x + align - 1,
            align,
            q + 1,
            r - 1,
        );
    }
}

pub fn append(out: &mut Vec<u8>, bytes: &[u8])
    ensures
        final(out)@ == old(out)@ + bytes@,
{
    let ghost first = out@;
    let mut i: usize = 0;
    assert(bytes@.take(0) =~= Seq::<u8>::empty());
    assert(out@ =~= first + bytes@.take(0));
    while i < bytes.len()
        invariant
            i <= bytes@.len(),
            out@ == first + bytes@.take(i as int),
        decreases bytes@.len() - i,
    {
        out.push(bytes[i]);
        i = i + 1;
        assert(out@ =~= first + bytes@.take(i as int));
    }
    assert(bytes@.take(i as int) =~= bytes@);
}

/// Appends the part of a header that both formats share.
pub fn put_header_start(out: &mut Vec<u8>, magic: [u8; 4], b512: bool, width: u8, n: u64)
    ensures
        final(out)@ == old(out)@ + header_start(magic@, b512, width as int, n as int),
{
    let ghost first = out@;
    out.push(magic[0]);
    out.push(magic[1]);
    out.push(magic[2]);
    out.push(magic[3]);
    assert(out@ =~= first + magic@);
    put_u16(out, FORMAT_VERSION);
    out.push(
        if b512 {
            FLAG_B512
        } else {
            0
        },
    );
    put_le(out, width as u128, 1);
    put_u64(out, n);
    assert(out@ =~= first + header_start(magic@, b512, width as int, n as int));
}

/// The directory entries of levels that are placed from `base` on, and the
/// offset behind them.
pub fn place_levels<const B_SIZE: usize>(levels: &Vec<RSQVector<B_SIZE>>, base: u64) -> (r: Option<
    (Vec<LevelDir>, u64),
>)
    requires
        levels_wf(levels@),
    ensures
        ({
            let rows = level_digits(levels@);
            let images = images_of(levels@);
            let total = base + payload(base as int, images, levels.len() as int).len();
            match r {
                Some((dirs, end)) => {
                    &&& end == total
                    &&& dirs@.map_values(|d: LevelDir| d@) == placed_dirs(
                        rows,
                        images,
                        B_SIZE == 512,
                        base as int,
                    )
                },
                None => total > u64::MAX,
            }
        }),
{
    let ghost rows = level_digits(levels@);
    let ghost images = images_of(levels@);
    let ghost b512 = B_SIZE == 512;
    let ghost front: Seq<u8> = Seq::new(base as nat, |i: int| 0u8);
    proof {
        lemma_images_of(levels@);
    }
    let mut dirs: Vec<LevelDir> = Vec::with_capacity(levels.len());
    let mut cursor: u64 = base;
    let mut l: usize = 0;
    while l < levels.len()
        invariant
            l <= levels.len(),
            levels_wf(levels@),
            rows == level_digits(levels@),
            images == images_of(levels@),
            b512 == (B_SIZE == 512),
            images_ok(rows, images, b512),
            front.len() == base,
            cursor == base + payload(base as int, images, l as int).len(),
            dirs.len() == l,
            forall|m: int|
                0 <= m < l ==> (#[trigger] dirs[m])@ == dir_at(
                    rows[m],
                    b512,
                    image_off(base as int, images, m),
                ),
        decreases levels.len() - l,
    {
        let level = &levels[l];
        assert(level.wf());
        assert(rows[l as int] == level.content());
        let summary: LevelSummary = level.summary();
        proof {
            assert(is_image(rows[l as int], b512, images[l as int]));
            lemma_image_len(rows[l as int], b512, images[l as int]);
            lemma_payload_at(front, images, l as int);
            lemma_aligned(cursor as int, 64);
            lemma_summary_dir(
                summary,
                rows[l as int],
                b512,
                image_off(base as int, images, l as int),
            );
        }
        match place_level(cursor, &summary) {
            Ok((dir, end)) => {
                let ghost before = dirs@;
                dirs.push(dir);
                assert(forall|m: int| 0 <= m < l ==> dirs@[m] == before[m]);
                cursor = end;
            },
            Err(_) => {
                proof {
                    lemma_payload_prefix(base as int, images, l + 1, levels.len() as int);
                }
                return None;
            },
        }
        l = l + 1;
    }
    assert(dirs@.map_values(|d: LevelDir| d@) =~= placed_dirs(rows, images, b512, base as int));
    Some((dirs, cursor))
}

/// Appends the directory entries.
pub fn put_dirs(out: &mut Vec<u8>, dirs: &Vec<LevelDir>)
    ensures
        final(out)@ == old(out)@ + dirs_bytes(dirs@.map_values(|d: LevelDir| d@)),
{
    let ghost first = out@;
    let ghost views = dirs@.map_values(|d: LevelDir| d@);
    let mut l: usize = 0;
    assert(views.take(0) =~= Seq::<DirView>::empty());
    assert(out@ =~= first + dirs_bytes(views.take(0)));
    while l < dirs.len()
        invariant
            l <= dirs.len(),
            views == dirs@.map_values(|d: LevelDir| d@),
            out@ == first + dirs_bytes(views.take(l as int)),
        decreases dirs.len() - l,
    {
        dirs[l].write(out);
        proof {
            let more = views.take(l + 1);
            assert(more.drop_last() =~= views.take(l as int));
            assert(more.last() == dirs[l as int]@);
            assert(out@ =~= first + dirs_bytes(more));
        }
        l = l + 1;
    }
    assert(views.take(l as int) =~= views);
}

/// Appends the levels.
pub fn put_payload<const B_SIZE: usize>(out: &mut Vec<u8>, levels: &Vec<RSQVector<B_SIZE>>)
    requires
        levels_wf(levels@),
        old(out)@.len() + payload(
            old(out)@.len() as int,
            images_of(levels@),
            levels.len() as int,
        ).len() <= usize::MAX,
    ensures
        final(out)@ == old(out)@ + payload(
            old(out)@.len() as int,
            images_of(levels@),
            levels.len() as int,
        ),
{
    let ghost front = out@;
    let ghost base = front.len() as int;
    let ghost images = images_of(levels@);
    let mut l: usize = 0;
    assert(out@ =~= front + payload(base, images, 0));
    while l < levels.len()
        invariant
            l <= levels.len(),
            levels_wf(levels@),
            images == images_of(levels@),
            base == front.len(),
            base + payload(base, images, levels.len() as int).len() <= usize::MAX,
            out@ == front + payload(base, images, l as int),
        decreases levels.len() - l,
    {
        let ghost before = out@;
        let ghost im = images[l as int];
        proof {
            lemma_payload_prefix(base, images, l + 1, levels.len() as int);
            lemma_payload_at(front, images, l as int);
        }
        let level = &levels[l];
        assert(level.wf());
        pad_to(out, 64);
        let ghost padded = out@;
        append(out, level.data());
        append(out, level.superblocks());
        append(out, level.select_samples(0));
        append(out, level.select_samples(1));
        append(out, level.select_samples(2));
        append(out, level.select_samples(3));
        proof {
            assert(out@ =~= padded + image_bytes(im));
            assert(out@ =~= front + payload(base, images, l + 1));
        }
        l = l + 1;
    }
}

} // verus!
