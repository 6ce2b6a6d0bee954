//! Writing plain containers.

use vstd::prelude::*;

use super::container::{container_levels, dirs_error, header_error, size_at, QWTB_MAGIC};
use super::dir::{dir_bytes, dir_fits, dir_of, lemma_dir_bytes, DirView, LevelDir};
use super::encoder::MAX_LEVEL_ROWS;
use super::error::LayoutError;
use super::layout::{dir_error, dir_rows};
use super::le::{
    le_at, le_bytes, lemma_le_at, lemma_le_bytes, lemma_pow256, put_le, put_u16, put_u64,
};
use super::payload::{
    dir_at, image_off, is_image, lemma_image_len, lemma_level_opens, lemma_payload_at, padding,
    payload, LevelImage,
};
use super::view::{qwtb_error, qwtb_level_count, qwtb_levels, QwtView};
use super::{
    align_up, aligned, lemma_aligned, FLAG_B512, FLAG_PREFETCH, FORMAT_VERSION, HEADER_SIZE,
    LEVEL_DIR_SIZE,
};
use super::writer::{
    images_of, lemma_images_of, pad_to, place_levels, put_dirs, put_header_start, put_payload,
};
use crate::indexable::WTIndexable;
use crate::level::DigitLevel;
use crate::plain::symbol_of;
use crate::quadwt::{lemma_vals_count, vals, QWaveletTree};
use crate::qvector::RSQVector;
use crate::tree::occurrences;
use crate::wavelet::digits_below;

verus! {

/// The flags of a container.
pub open spec fn flags_of(b512: bool) -> u8 {
    if b512 {
        FLAG_B512
    } else {
        0
    }
}

/// The part of a header that both formats share.
pub open spec fn header_start(magic: Seq<u8>, b512: bool, width: int, n: int) -> Seq<u8> {
    magic + le_bytes(FORMAT_VERSION as int, 2) + seq![flags_of(b512)] + le_bytes(width, 1)
        + le_bytes(n, 8)
}

/// The directory entries.
pub open spec fn dirs_bytes(dirs: Seq<DirView>) -> Seq<u8>
    decreases dirs.len(),
{
    if dirs.len() == 0 {
        Seq::empty()
    } else {
        dirs_bytes(dirs.drop_last()) + dir_bytes(dirs.last())
    }
}

/// The header of a plain container.
pub open spec fn qwtb_header(b512: bool, width: int, n: int, sigma: int, levels: int) -> Seq<u8> {
    header_start(QWTB_MAGIC@, b512, width, n) + le_bytes(sigma, 8) + le_bytes(levels, 2)
        + le_bytes(0, 6)
}

/// Everything before the payload of a plain container.
pub open spec fn qwtb_front(b512: bool, width: int, n: int, sigma: int, dirs: Seq<DirView>) -> Seq<
    u8,
> {
    let head = qwtb_header(b512, width, n, sigma, dirs.len() as int) + dirs_bytes(dirs);
    head + padding(head.len() as int, 64)
}

/// Where the payload of a plain container begins.
pub open spec fn qwtb_base(levels: int) -> int {
    aligned(HEADER_SIZE + LEVEL_DIR_SIZE * levels, 64)
}

/// The directory entries of levels that are placed from `base` on.
pub open spec fn placed_dirs(
    rows: Seq<Seq<u8>>,
    images: Seq<LevelImage>,
    b512: bool,
    base: int,
) -> Seq<DirView> {
    Seq::new(rows.len(), |l: int| dir_at(rows[l], b512, image_off(base, images, l)))
}

/// A plain container.
pub open spec fn qwtb_bytes(
    rows: Seq<Seq<u8>>,
    images: Seq<LevelImage>,
    b512: bool,
    width: int,
    n: int,
    sigma: int,
) -> Seq<u8> {
    let base = qwtb_base(rows.len() as int);
    qwtb_front(b512, width, n, sigma, placed_dirs(rows, images, b512, base)) + payload(
        base,
        images,
        rows.len() as int,
    )
}

/// The images are those of the rows.
pub open spec fn images_ok(rows: Seq<Seq<u8>>, images: Seq<LevelImage>, b512: bool) -> bool {
    &&& images.len() == rows.len()
    &&& forall|l: int|
        0 <= l < rows.len() ==> {
            &&& is_image(#[trigger] rows[l], b512, images[l])
            &&& digits_below(rows[l], 4)
            &&& rows[l].len() <= MAX_LEVEL_ROWS
            &&& rows[l].len() <= usize::MAX
        }
}

/// The lists of an entry have their lengths, and no number is negative.
pub open spec fn dir_shape(d: DirView) -> bool {
    &&& 0 <= d.off_data
    &&& 0 <= d.n_datalines
    &&& 0 <= d.position_bits
    &&& 0 <= d.off_superblocks
    &&& 0 <= d.n_superblocks
    &&& d.off_sel.len() == 4
    &&& forall|k: int| 0 <= k < 4 ==> 0 <= #[trigger] d.off_sel[k]
    &&& d.n_sel.len() == 4
    &&& forall|k: int| 0 <= k < 4 ==> 0 <= #[trigger] d.n_sel[k]
    &&& d.n_occs_smaller.len() == 5
    &&& forall|k: int| 0 <= k < 5 ==> 0 <= #[trigger] d.n_occs_smaller[k]
}

pub proof fn lemma_dirs_bytes(dirs: Seq<DirView>, l: int)
    requires
        forall|k: int| 0 <= k < dirs.len() ==> dir_shape(#[trigger] dirs[k]),
    ensures
        dirs_bytes(dirs).len() == 128 * dirs.len(),
        0 <= l < dirs.len() ==> dirs_bytes(dirs).subrange(128 * l, 128 * l + 128) == dir_bytes(
            dirs[l],
        ) && dir_bytes(dirs[l]).len() == 128,
    decreases dirs.len(),
{
    if dirs.len() > 0 {
        let rest = dirs.drop_last();
        assert forall|k: int| 0 <= k < rest.len() implies dir_shape(#[trigger] rest[k]) by {
            assert(rest[k] == dirs[k]);
        }
        lemma_dirs_bytes(rest, l);
        let last = dirs.last();
        assert(dir_shape(dirs[dirs.len() - 1]));
        lemma_dir_len(last);
        let all = dirs_bytes(dirs);
        if 0 <= l < rest.len() {
            assert(all.subrange(128 * l, 128 * l + 128) =~= dirs_bytes(rest).subrange(
                128 * l,
                128 * l + 128,
            ));
        } else if l == rest.len() {
            assert(all.subrange(128 * l, 128 * l + 128) =~= dir_bytes(last));
        }
    }
}

pub proof fn lemma_dir_len(d: DirView)
    requires
        dir_shape(d),
    ensures
        dir_bytes(d).len() == 128,
{
    lemma_le_bytes(d.off_data, 8);
    lemma_le_bytes(d.n_datalines, 4);
    lemma_le_bytes(0, 4);
    lemma_le_bytes(d.position_bits, 8);
    lemma_le_bytes(d.off_superblocks, 8);
    lemma_le_bytes(d.n_superblocks, 4);
    super::dir::lemma_u64_bytes_len(d.off_sel);
    super::image::lemma_u32_bytes_len(d.n_sel);
    super::dir::lemma_u64_bytes_len(d.n_occs_smaller);
}

/// The entries of placed levels are well shaped.
pub proof fn lemma_placed_shape(
    rows: Seq<Seq<u8>>,
    images: Seq<LevelImage>,
    b512: bool,
    base: int,
)
    requires
        0 <= base,
    ensures
        forall|l: int|
            0 <= l < rows.len() ==> dir_shape(#[trigger] placed_dirs(rows, images, b512, base)[l]),
{
    let dirs = placed_dirs(rows, images, b512, base);
    assert forall|l: int| 0 <= l < rows.len() implies dir_shape(#[trigger] dirs[l]) by {
        let d = dirs[l];
        lemma_aligned(base + payload(base, images, l).len(), 64);
        assert forall|k: int| 0 <= k < 4 implies 0 <= #[trigger] d.off_sel[k] by {
            assert(k == 0 || k == 1 || k == 2 || k == 3);
        }
        assert forall|k: int| 0 <= k < 5 implies 0 <= #[trigger] d.n_occs_smaller[k] by {
            crate::wavelet::lemma_below_bounds(rows[l], k, rows[l].len() as int);
        }
    }
}

/// The entries of levels that are placed inside of `2^64` bytes fit.
pub proof fn lemma_placed_fits(
    front: Seq<u8>,
    rows: Seq<Seq<u8>>,
    images: Seq<LevelImage>,
    b512: bool,
)
    requires
        images_ok(rows, images, b512),
        front.len() + payload(front.len() as int, images, rows.len() as int).len()
            < 0x1_0000_0000_0000_0000,
    ensures
        forall|l: int|
            0 <= l < rows.len() ==> dir_fits(
                #[trigger] placed_dirs(rows, images, b512, front.len() as int)[l],
            ),
{
    let base = front.len() as int;
    let dirs = placed_dirs(rows, images, b512, base);
    assert forall|l: int| 0 <= l < rows.len() implies dir_fits(#[trigger] dirs[l]) by {
        assert(is_image(rows[l], b512, images[l]));
        lemma_payload_at(front, images, l);
        lemma_image_len(rows[l], b512, images[l]);
        let d = dirs[l];
        let n = rows[l].len() as int;
        assert forall|k: int| 0 <= k < 4 implies 0 <= #[trigger] d.n_sel[k] < 0x1_0000_0000 by {
            assert(super::image::sample_list(rows[l], b512, k as u8).len() <= 0x1000_0000);
        }
        assert(0 <= d.n_sel[0] && 0 <= d.n_sel[1] && 0 <= d.n_sel[2] && 0 <= d.n_sel[3]);
        assert forall|k: int| 0 <= k < 4 implies 0 <= #[trigger] d.off_sel[k]
            < 0x1_0000_0000_0000_0000 by {
            assert(k == 0 || k == 1 || k == 2 || k == 3);
        }
        assert forall|k: int| 0 <= k < 5 implies 0 <= #[trigger] d.n_occs_smaller[k]
            < 0x1_0000_0000_0000_0000 by {
            crate::wavelet::lemma_below_bounds(rows[l], k, n);
        }
    }
}

proof fn lemma_flags()
    ensures
        0u8 & FLAG_PREFETCH == 0,
        FLAG_B512 & FLAG_PREFETCH == 0,
        0u8 & FLAG_B512 == 0,
        FLAG_B512 & FLAG_B512 != 0,
{
    assert(0u8 & 2u8 == 0 && 1u8 & 2u8 == 0 && 0u8 & 1u8 == 0 && 1u8 & 1u8 == 1) by (bit_vector);
}

/// A header says what it was written for.
pub proof fn lemma_header_start(
    s: Seq<u8>,
    magic: Seq<u8>,
    b512: bool,
    width: int,
    n: int,
)
    requires
        s.len() >= HEADER_SIZE,
        magic.len() == 4,
        0 <= width < 32,
        0 <= n < 0x1_0000_0000_0000_0000,
        s.subrange(0, 16) == header_start(magic, b512, width, n),
    ensures
        header_error(s, magic, b512, 8 * width) is None,
        le_at(s, 8, 8) == n,
        header_start(magic, b512, width, n).len() == 16,
{
    lemma_flags();
    lemma_pow256();
    lemma_le_bytes(FORMAT_VERSION as int, 2);
    lemma_le_bytes(width, 1);
    lemma_le_bytes(n, 8);
    let h = header_start(magic, b512, width, n);
    let version = le_bytes(FORMAT_VERSION as int, 2);
    assert(h.len() == 16);
    assert(s.subrange(0, 4) =~= magic) by {
        assert(h.subrange(0, 4) =~= magic);
        assert(s.subrange(0, 16).subrange(0, 4) =~= s.subrange(0, 4));
    }
    assert(s.subrange(4, 6) =~= version) by {
        assert(h.subrange(4, 6) =~= version);
        assert(s.subrange(0, 16).subrange(4, 6) =~= s.subrange(4, 6));
    }
    lemma_le_at(s, 4, 2, FORMAT_VERSION as int);
    assert(s[6] == flags_of(b512)) by {
        assert(s.subrange(0, 16)[6] == h[6]);
    }
    assert(s[7] == width) by {
        assert(s.subrange(0, 16)[7] == h[7]);
        assert(h[7] == le_bytes(width, 1)[0]);
        assert(le_bytes(width, 1)[0] == (width % 256) as u8);
    }
    assert(s.subrange(8, 16) =~= le_bytes(n, 8)) by {
        assert(h.subrange(8, 16) =~= le_bytes(n, 8));
        assert(s.subrange(0, 16).subrange(8, 16) =~= s.subrange(8, 16));
    }
    lemma_le_at(s, 8, 8, n);
}

/// What the front of a plain container says.
proof fn lemma_qwtb_front(
    s: Seq<u8>,
    b512: bool,
    width: int,
    n: int,
    sigma: int,
    dirs: Seq<DirView>,
)
    requires
        0 <= width < 32,
        0 <= n < 0x1_0000_0000_0000_0000,
        0 <= sigma < 0x1_0000_0000_0000_0000,
        dirs.len() < 0x1_0000,
        forall|l: int| 0 <= l < dirs.len() ==> dir_fits(#[trigger] dirs[l]),
        s.len() >= qwtb_front(b512, width, n, sigma, dirs).len(),
        s.subrange(0, qwtb_front(b512, width, n, sigma, dirs).len() as int) == qwtb_front(
            b512,
            width,
            n,
            sigma,
            dirs,
        ),
    ensures
        qwtb_front(b512, width, n, sigma, dirs).len() == qwtb_base(dirs.len() as int),
        header_error(s, QWTB_MAGIC@, b512, 8 * width) is None,
        le_at(s, 8, 8) == n,
        le_at(s, 16, 8) == sigma,
        le_at(s, 24, 2) == dirs.len(),
        s.len() >= HEADER_SIZE + LEVEL_DIR_SIZE * dirs.len(),
        forall|l: int|
            0 <= l < dirs.len() ==> dir_of(s, HEADER_SIZE + LEVEL_DIR_SIZE * l)
                == #[trigger] dirs[l],
{
    let count = dirs.len() as int;
    let front = qwtb_front(b512, width, n, sigma, dirs);
    let start = header_start(QWTB_MAGIC@, b512, width, n);
    let header = qwtb_header(b512, width, n, sigma, count);
    let entries = dirs_bytes(dirs);
    let head = header + entries;
    lemma_pow256();
    lemma_le_bytes(FORMAT_VERSION as int, 2);
    lemma_le_bytes(width, 1);
    lemma_le_bytes(n, 8);
    lemma_le_bytes(sigma, 8);
    lemma_le_bytes(count, 2);
    lemma_le_bytes(0, 6);
    assert forall|l: int| 0 <= l < dirs.len() implies dir_shape(#[trigger] dirs[l]) by {
        assert(dir_fits(dirs[l]));
    }
    lemma_dirs_bytes(dirs, 0);
    assert(start.len() == 16);
    assert(header.len() == 32);
    lemma_aligned(head.len() as int, 64);
    assert forall|i: int| 0 <= i < front.len() implies s[i] == front[i] by {
        assert(s.subrange(0, front.len() as int)[i] == front[i]);
    }
    assert(s.subrange(0, 16) =~= start);
    lemma_header_start(s, QWTB_MAGIC@, b512, width, n);
    assert(s.subrange(16, 24) =~= le_bytes(sigma, 8)) by {
        assert forall|i: int| 0 <= i < 8 implies s[16 + i] == le_bytes(sigma, 8)[i] by {
            assert(front[16 + i] == header[16 + i]);
        }
    }
    lemma_le_at(s, 16, 8, sigma);
    assert(s.subrange(24, 26) =~= le_bytes(count, 2)) by {
        assert forall|i: int| 0 <= i < 2 implies s[24 + i] == le_bytes(count, 2)[i] by {
            assert(front[24 + i] == header[24 + i]);
        }
    }
    lemma_le_at(s, 24, 2, count);
    assert forall|l: int| 0 <= l < dirs.len() implies dir_of(
        s,
        HEADER_SIZE + LEVEL_DIR_SIZE * l,
    ) == #[trigger] dirs[l] by {
        lemma_dirs_bytes(dirs, l);
        let at = 32 + 128 * l;
        let x = s.subrange(at, at + 128);
        let y = entries.subrange(128 * l, 128 * l + 128);
        assert forall|i: int| 0 <= i < 128 implies #[trigger] x[i] == y[i] by {
            assert(front[at + i] == head[at + i]);
            assert(head[at + i] == entries[128 * l + i]);
        }
        assert(x =~= y);
        lemma_dir_bytes(dirs[l], s, at);
    }
}

/// What was written as a plain container is opened as one, wherever it begins
/// at a multiple of 64: with the same number of symbols, the same largest
/// symbol and the same levels.
pub proof fn lemma_qwtb_opens(
    rows: Seq<Seq<u8>>,
    images: Seq<LevelImage>,
    b512: bool,
    width: int,
    n: int,
    sigma: int,
    addr: int,
)
    requires
        images_ok(rows, images, b512),
        rows.len() < 0x1_0000,
        forall|l: int| 0 <= l < rows.len() ==> (#[trigger] rows[l]).len() == n,
        0 <= width < 32,
        0 <= n <= usize::MAX,
        0 <= sigma <= usize::MAX,
        qwtb_bytes(rows, images, b512, width, n, sigma).len() < 0x1_0000_0000_0000_0000,
        addr % 64 == 0,
    ensures
        ({
            let s = qwtb_bytes(rows, images, b512, width, n, sigma);
            &&& qwtb_error(s, addr, b512, 8 * width) is None
            &&& size_at(s, 8) == n
            &&& size_at(s, 16) == sigma
            &&& qwtb_level_count(s) == rows.len()
            &&& qwtb_levels(s) == rows
        }),
{
    let base = qwtb_base(rows.len() as int);
    let dirs = placed_dirs(rows, images, b512, base);
    let front = qwtb_front(b512, width, n, sigma, dirs);
    let all = payload(base, images, rows.len() as int);
    let s = qwtb_bytes(rows, images, b512, width, n, sigma);
    let size = LEVEL_DIR_SIZE as int;
    lemma_qwtb_front_len(b512, width, n, sigma, rows, images);
    lemma_placed_fits(front, rows, images, b512);
    assert(s.subrange(0, front.len() as int) =~= front);
    lemma_qwtb_front(s, b512, width, n, sigma, dirs);
    <usize as WTIndexable>::lemma_truncated(n as u64);
    <usize as WTIndexable>::lemma_truncated(sigma as u64);
    lemma_levels_open(front, rows, images, b512, size, addr);
}

/// Levels that stand where their directory entries say are opened as they were
/// written.
pub proof fn lemma_levels_open(
    front: Seq<u8>,
    rows: Seq<Seq<u8>>,
    images: Seq<LevelImage>,
    b512: bool,
    size: int,
    addr: int,
)
    requires
        images_ok(rows, images, b512),
        addr % 64 == 0,
        ({
            let base = front.len() as int;
            let s = front + payload(base, images, rows.len() as int);
            let dirs = placed_dirs(rows, images, b512, base);
            forall|l: int|
                0 <= l < rows.len() ==> dir_of(s, HEADER_SIZE + size * l) == #[trigger] dirs[l]
        }),
    ensures
        ({
            let s = front + payload(front.len() as int, images, rows.len() as int);
            &&& dirs_error(s, addr, b512, size, rows.len() as int, 0) is None
            &&& container_levels(s, size, rows.len() as int) == rows
        }),
{
    let base = front.len() as int;
    let s = front + payload(base, images, rows.len() as int);
    let dirs = placed_dirs(rows, images, b512, base);
    assert forall|l: int| 0 <= l < rows.len() implies {
        let d = dir_of(s, #[trigger] (HEADER_SIZE + size * l));
        dir_error(s, addr, d, b512) is None && dir_rows(s, d) == rows[l]
    } by {
        assert(is_image(rows[l], b512, images[l]));
        assert(dirs[l] == dir_of(s, HEADER_SIZE + size * l));
        lemma_level_opens(front, images, l, rows[l], b512, addr);
    }
    lemma_no_dirs_error(s, addr, b512, size, rows.len() as int, 0);
    let got = container_levels(s, size, rows.len() as int);
    assert forall|l: int| 0 <= l < rows.len() implies got[l] == rows[l] by {
        assert(dir_rows(s, dir_of(s, HEADER_SIZE + size * l)) == rows[l]);
    }
    assert(got =~= rows);
}

proof fn lemma_no_dirs_error(
    s: Seq<u8>,
    addr: int,
    b512: bool,
    size: int,
    count: int,
    l: int,
)
    requires
        forall|k: int|
            0 <= k < count ==> dir_error(
                s,
                addr,
                dir_of(s, #[trigger] (HEADER_SIZE + size * k)),
                b512,
            ) is None,
        0 <= l,
    ensures
        dirs_error(s, addr, b512, size, count, l) is None,
    decreases count - l,
{
    if l < count {
        assert(dir_error(s, addr, dir_of(s, HEADER_SIZE + size * l), b512) is None);
        lemma_no_dirs_error(s, addr, b512, size, count, l + 1);
    }
}

/// The front of a plain container ends where the payload begins.
pub proof fn lemma_qwtb_front_len(
    b512: bool,
    width: int,
    n: int,
    sigma: int,
    rows: Seq<Seq<u8>>,
    images: Seq<LevelImage>,
)
    requires
        0 <= width,
        0 <= n,
        0 <= sigma,
    ensures
        ({
            let base = qwtb_base(rows.len() as int);
            let dirs = placed_dirs(rows, images, b512, base);
            qwtb_front(b512, width, n, sigma, dirs).len() == base
        }),
{
    let base = qwtb_base(rows.len() as int);
    let dirs = placed_dirs(rows, images, b512, base);
    lemma_le_bytes(FORMAT_VERSION as int, 2);
    lemma_le_bytes(width, 1);
    lemma_le_bytes(n, 8);
    lemma_le_bytes(sigma, 8);
    lemma_le_bytes(dirs.len() as int, 2);
    lemma_le_bytes(0, 6);
    lemma_aligned(HEADER_SIZE + LEVEL_DIR_SIZE * rows.len(), 64);
    lemma_placed_shape(rows, images, b512, base);
    lemma_dirs_bytes(dirs, 0);
}

/// The container of a tree.
pub open spec fn tree_bytes<T: WTIndexable, const B_SIZE: usize>(
    tree: QWaveletTree<T, RSQVector<B_SIZE>>,
) -> Seq<u8> {
    qwtb_bytes(
        tree.levels(),
        images_of(tree.quads()),
        B_SIZE == 512,
        T::bit_width() as int / 8,
        tree.seq().len() as int,
        tree.largest() as int,
    )
}

/// Everything before the payload of a plain container.
pub fn put_qwtb_front(
    out: &mut Vec<u8>,
    b512: bool,
    width: u8,
    n: u64,
    sigma: u64,
    dirs: &Vec<LevelDir>,
)
    requires
        dirs.len() < 0x1_0000,
        old(out)@.len() == 0,
    ensures
        final(out)@ == qwtb_front(
            b512,
            width as int,
            n as int,
            sigma as int,
            dirs@.map_values(|d: LevelDir| d@),
        ),
{
    let ghost views = dirs@.map_values(|d: LevelDir| d@);
    let ghost header = qwtb_header(
        b512,
        width as int,
        n as int,
        sigma as int,
        dirs.len() as int,
    );
    put_header_start(out, QWTB_MAGIC, b512, width, n);
    put_u64(out, sigma);
    put_u16(out, dirs.len() as u16);
    put_le(out, 0, 6);
    assert(out@ =~= header);
    put_dirs(out, dirs);
    proof {
        lemma_le_bytes(FORMAT_VERSION as int, 2);
        lemma_le_bytes(width as int, 1);
        lemma_le_bytes(n as int, 8);
        lemma_le_bytes(sigma as int, 8);
        lemma_le_bytes(dirs.len() as int, 2);
        lemma_le_bytes(0, 6);
        assert forall|l: int| 0 <= l < views.len() implies dir_shape(#[trigger] views[l]) by {}
        lemma_dirs_bytes(views, 0);
        lemma_aligned(out@.len() as int, 64);
    }
    pad_to(out, 64);
}

/// The container of a quad wavelet tree.
pub fn qwt_to_bytes<T: WTIndexable, const B_SIZE: usize>(
    tree: &QWaveletTree<T, RSQVector<B_SIZE>>,
) -> (r: Result<Vec<u8>, LayoutError>)
    requires
        tree.wf(),
    ensures
        match r {
            Ok(bytes) => bytes@ == tree_bytes(*tree),
            Err(e) => tree_bytes(*tree).len() > usize::MAX && e == LayoutError::TooLarge,
        },
{
    let ghost rows = tree.levels();
    let ghost images = images_of(tree.quads());
    let ghost b512 = B_SIZE == 512;
    proof {
        tree.lemma_wf();
        lemma_images_of(tree.quads());
        T::lemma_width();
    }
    let n_levels: usize = tree.n_levels();
    let width: u8 = (T::width() / 8) as u8;
    let sigma: u64 = tree.sigma_raw().to_u64();
    let n: u64 = tree.len() as u64;
    let base: usize = align_up(HEADER_SIZE + LEVEL_DIR_SIZE * n_levels, 64);
    proof {
        assert(base == qwtb_base(rows.len() as int));
        lemma_qwtb_front_len(b512, width as int, n as int, sigma as int, rows, images);
    }
    let (dirs, end) = match place_levels(tree.qvs(), base as u64) {
        Some(placed) => placed,
        None => {
            return Err(LayoutError::TooLarge);
        },
    };
    if end > usize::MAX as u64 {
        return Err(LayoutError::TooLarge);
    }
    let mut out: Vec<u8> = Vec::new();
    put_qwtb_front(&mut out, B_SIZE == 512, width, n, sigma, &dirs);
    put_payload(&mut out, tree.qvs());
    Ok(out)
}

/// The container of a quad wavelet tree with blocks of 256 rows.
pub fn qwt256_to_bytes<T: WTIndexable>(tree: &QWaveletTree<T, RSQVector<256>>) -> (r: Result<
    Vec<u8>,
    LayoutError,
>)
    requires
        tree.wf(),
    ensures
        match r {
            Ok(bytes) => bytes@ == tree_bytes(*tree),
            Err(e) => tree_bytes(*tree).len() > usize::MAX && e == LayoutError::TooLarge,
        },
{
    qwt_to_bytes(tree)
}

/// The container of a tree can be opened wherever it begins at a multiple of
/// 64, and shows the sequence of the tree: the same symbols, the same number
/// of levels and the same largest symbol.
pub proof fn lemma_tree_opens<T: WTIndexable, const B_SIZE: usize>(
    tree: QWaveletTree<T, RSQVector<B_SIZE>>,
    addr: int,
    view: QwtView<'_, T, B_SIZE>,
)
    requires
        tree.wf(),
        tree_bytes(tree).len() <= usize::MAX,
        tree.largest() <= usize::MAX,
        addr % 64 == 0,
    ensures
        qwtb_error(tree_bytes(tree), addr, B_SIZE == 512, T::bit_width() as int) is None,
        view.wf() && view.shows(tree_bytes(tree)) ==> {
            &&& view.count() == tree.seq().len()
            &&& view.level_count() == tree.level_count()
            &&& view.largest().val() == tree.largest()
            &&& view.values() == vals(tree.seq())
        },
{
    let s = tree_bytes(tree);
    let rows = tree.levels();
    let images = images_of(tree.quads());
    tree.lemma_wf();
    lemma_images_of(tree.quads());
    T::lemma_width();
    lemma_qwtb_opens(
        rows,
        images,
        B_SIZE == 512,
        T::bit_width() as int / 8,
        tree.seq().len() as int,
        tree.largest() as int,
        addr,
    );
    if view.wf() && view.shows(s) {
        view.lemma_wf();
        T::lemma_truncated(tree.largest());
    }
}

/// The queries of a view of a tree's container count as the tree does.
pub proof fn lemma_tree_queries<T: WTIndexable, const B_SIZE: usize>(
    tree: QWaveletTree<T, RSQVector<B_SIZE>>,
    view: QwtView<'_, T, B_SIZE>,
    symbol: T,
    i: int,
)
    requires
        tree.wf(),
        tree_bytes(tree).len() <= usize::MAX,
        tree.largest() <= usize::MAX,
        view.wf(),
        view.shows(tree_bytes(tree)),
        0 <= i <= tree.seq().len(),
    ensures
        tree.knows(symbol) ==> occurrences(view.values(), view.reduced(symbol), i) == occurrences(
            tree.seq(),
            symbol,
            i,
        ),
        i < tree.seq().len() ==> symbol_of::<T>(view.values()[i]) == tree.seq()[i],
        tree.knows(symbol) <==> tree.seq().len() > 0 && symbol.val() <= view.largest().val(),
{
    lemma_tree_opens(tree, 0, view);
    tree.lemma_wf();
    if tree.knows(symbol) {
        tree.lemma_known(symbol);
        lemma_vals_count(tree.seq(), symbol, i);
    }
    if i < tree.seq().len() {
        let t = tree.seq()[i];
        assert(vals(tree.seq())[i] == t.val());
        t.lemma_val();
        vstd::arithmetic::div_mod::lemma_small_mod(t.val() as nat, 0x1_0000_0000_0000_0000);
    }
}

} // verus!
