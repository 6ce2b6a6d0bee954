//! Building plain containers from a stream of symbols, within a budget.
//!
//! The symbols are read from a file that can be read again, and scratch files
//! hold them between passes. Nothing in memory grows with their number. This
//! module decides what is read, written and refused; the files are the
//! caller's.

use vstd::arithmetic::power2::{lemma_pow2_strictly_increases, pow2};
use vstd::prelude::*;

use super::encoder::{LevelOutput, MAX_LEVEL_ROWS};
use super::error::{DirectQwtBuildError, LayoutError};
use super::image::{
    lemma_image_unique, lemma_samples, line_count, sample_list, samples, super_count,
};
use super::dir::LevelDir;
use super::passes::{
    extended, lemma_passes, no_image, passes_follow, placement_fits, scratch_peak, DirectPasses,
    FinishedLevel,
};
use super::payload::{dir_at, image_len, image_off, is_image, lemma_image_len, payload, LevelImage};
use super::qwtb::{
    lemma_qwtb_front_len, placed_dirs, put_qwtb_front, qwtb_base, qwtb_bytes, qwtb_front,
    tree_bytes,
};
use super::writer::{images_of, lemma_images_of};
use super::{align_up, aligned, lemma_aligned, HEADER_SIZE, LEVEL_DIR_SIZE};
use crate::binwt::is_max;
use crate::builder::{codable, symbol_code};
use crate::indexable::WTIndexable;
use crate::matrix::bucket;
use crate::quadwt::{quad_levels, QWaveletTree};
use crate::qvector::RSQVector;
use crate::utils::{lemma_msb_bounds, msb, msb_of};
use crate::wavelet::{count, digits_below, lemma_count_bounds};

verus! {

/// Rows of a data line.
pub const DIRECT_BLOCK_ROWS: u64 = 256;

/// Rows of a superblock.
pub const DIRECT_SUPERBLOCK_ROWS: u64 = 2_048;

/// Occurrences of a digit between two select samples.
pub const DIRECT_SELECT_SAMPLE_ROWS: u64 = 8_192;

/// Files that are open at a time: the source, four buckets and the level.
pub const DIRECT_STREAMS: u64 = 6;

/// The smallest buffer of a file.
pub const MIN_STREAM_BUFFER_BYTES: u64 = 4_096;

/// Limits of a direct build.
#[derive(Clone, Copy, Debug, PartialEq, Eq)]
pub struct DirectQwtBuildBudget {
    /// Bytes for the buffers of all files that are open at a time.
    pub buffer_bytes: u64,
    /// Bytes that the source, the buckets and the sections of one level may
    /// take at a time. The container itself does not count.
    pub scratch_bytes: u64,
}

/// What a direct build has used.
#[derive(Clone, Copy, Debug, PartialEq, Eq)]
pub struct DirectQwtBuildStats {
    pub rows: u64,
    pub levels: u16,
    pub output_bytes: u64,
    pub peak_scratch_bytes: u64,
}

/// `x / y`, rounded up.
pub open spec fn div_up(x: int, y: int) -> int {
    (x + y - 1) / y
}

/// The bytes that the sections of a level with so many rows take at most.
pub open spec fn level_bound(rows: int) -> int {
    64 * div_up(rows, 256) + 64 * ((rows + 2048) / 2048) + 4 * (div_up(rows, 8192) + 8)
}

/// The bytes that a container takes at most.
pub open spec fn container_bound(rows: int, levels: int, entry: int, metadata: int) -> int {
    aligned(levels * entry + HEADER_SIZE + metadata, 64) + levels * (level_bound(rows) + 128)
}

/// The scratch space that a direct build takes at most.
pub open spec fn scratch_bound(rows: int, levels: int) -> int {
    if levels == 0 {
        0
    } else {
        4 * rows + (if levels > 1 {
            4 * rows
        } else {
            0
        }) + level_bound(rows)
    }
}

/// The levels of a tree over symbols up to `sigma`.
pub open spec fn direct_levels(rows: int, sigma: u32) -> int {
    if rows == 0 {
        0
    } else {
        quad_levels(sigma as u64)
    }
}

fn div_ceil(x: u64, y: u64) -> (q: u64)
    requires
        0 < y,
    ensures
        q == div_up(x as int, y as int),
{
    let q: u64 = x / y;
    let r: u64 = x % y;
    proof {
        let (xi, yi) = (x as int, y as int);
        vstd::arithmetic::div_mod::lemma_fundamental_div_mod(xi, yi);
        if r == 0 {
            vstd::arithmetic::div_mod::lemma_fundamental_div_mod_converse(
                xi + yi - 1,
                yi,
                q as int,
                yi - 1,
            );
        } else {
            assert(yi * (q + 1) == yi * q + yi) by (nonlinear_arith);
            vstd::arithmetic::div_mod::lemma_fundamental_div_mod_converse(
                xi + yi - 1,
                yi,
                q + 1,
                r - 1,
            );
            assert(q < u64::MAX) by (nonlinear_arith)
                requires
                    x == y * q + r,
                    0 < r < y,
                    x <= u64::MAX,
            ;
        }
    }
    if r == 0 {
        q
    } else {
        q + 1
    }
}

/// Refuses row counts that the support data of a level cannot hold.
pub fn validate_row_capacity(rows: u64, compressed: bool) -> (r: Result<(), DirectQwtBuildError>)
    ensures
        r is Ok <==> rows <= MAX_LEVEL_ROWS,
        r matches Err(e) ==> e == if rows >= 0x800_0000_0000 {
            DirectQwtBuildError::InvalidInput("row count exceeds QWT256 rank/select capacity")
        } else if compressed {
            DirectQwtBuildError::InvalidInput("row count exceeds HQWB data-line capacity")
        } else {
            DirectQwtBuildError::InvalidInput("row count exceeds QWTB data-line capacity")
        },
{
    if rows >= 0x800_0000_0000 {
        return Err(
            DirectQwtBuildError::InvalidInput("row count exceeds QWT256 rank/select capacity"),
        );
    }
    if div_ceil(rows, DIRECT_BLOCK_ROWS) > u32::MAX as u64 {
        return Err(
            DirectQwtBuildError::InvalidInput(
                if compressed {
                    "row count exceeds HQWB data-line capacity"
                } else {
                    "row count exceeds QWTB data-line capacity"
                },
            ),
        );
    }
    Ok(())
}

/// Rounds up to a multiple of `alignment`.
fn align_up_u64(value: u64, alignment: u64) -> (r: Result<u64, DirectQwtBuildError>)
    requires
        0 < alignment,
    ensures
        match r {
            Ok(x) => value + alignment - 1 <= u64::MAX && x == aligned(
                value as int,
                alignment as int,
            ),
            Err(e) => value + alignment - 1 > u64::MAX && e == DirectQwtBuildError::Overflow(
                "output alignment",
            ),
        },
{
    match value.checked_add(alignment - 1) {
        Some(sum) => {
            proof {
                lemma_aligned(value as int, alignment as int);
            }
            Ok(sum / alignment * alignment)
        },
        None => Err(DirectQwtBuildError::Overflow("output alignment")),
    }
}

/// Why the bound on a container cannot be computed.
pub open spec fn container_bound_error(
    rows: int,
    levels: int,
    entry: int,
    metadata: int,
) -> Option<DirectQwtBuildError> {
    if levels * entry + HEADER_SIZE > u64::MAX {
        Some(DirectQwtBuildError::Overflow("output directory bytes"))
    } else if levels * entry + HEADER_SIZE + metadata > u64::MAX {
        Some(DirectQwtBuildError::Overflow("output metadata bytes"))
    } else if levels * entry + HEADER_SIZE + metadata + 63 > u64::MAX {
        Some(DirectQwtBuildError::Overflow("output alignment"))
    } else if rows + 2048 > u64::MAX {
        Some(DirectQwtBuildError::Overflow("output superblock rows"))
    } else if container_bound(rows, levels, entry, metadata) > u64::MAX {
        Some(DirectQwtBuildError::Overflow("output container bytes"))
    } else {
        None
    }
}

/// The bytes that the sections of a level with so many rows take at most.
fn level_upper_bound(rows: u64) -> (b: u64)
    requires
        rows + 2048 <= u64::MAX,
    ensures
        b == level_bound(rows as int),
        b <= 0x6000_0000_0000_0000,
{
    let data: u64 = div_ceil(rows, DIRECT_BLOCK_ROWS) * 64;
    let superblocks: u64 = (rows + DIRECT_SUPERBLOCK_ROWS) / DIRECT_SUPERBLOCK_ROWS * 64;
    let samples: u64 = (div_ceil(rows, DIRECT_SELECT_SAMPLE_ROWS) + 8) * 4;
    data + superblocks + samples
}

/// The bytes that a container takes at most, whose directory entries have
/// `directory_entry_bytes` and whose tables have `metadata_bytes`.
pub fn container_output_upper_bound(
    rows: u64,
    levels: u16,
    directory_entry_bytes: u64,
    metadata_bytes: u64,
) -> (r: Result<u64, DirectQwtBuildError>)
    ensures
        match r {
            Ok(b) => {
                &&& container_bound_error(
                    rows as int,
                    levels as int,
                    directory_entry_bytes as int,
                    metadata_bytes as int,
                ) is None
                &&& b == container_bound(
                    rows as int,
                    levels as int,
                    directory_entry_bytes as int,
                    metadata_bytes as int,
                )
            },
            Err(e) => container_bound_error(
                rows as int,
                levels as int,
                directory_entry_bytes as int,
                metadata_bytes as int,
            ) == Some(e),
        },
{
    let directory: u64 = match (levels as u64).checked_mul(directory_entry_bytes) {
        Some(bytes) => match bytes.checked_add(HEADER_SIZE as u64) {
            Some(directory) => directory,
            None => {
                return Err(DirectQwtBuildError::Overflow("output directory bytes"));
            },
        },
        None => {
            return Err(DirectQwtBuildError::Overflow("output directory bytes"));
        },
    };
    let before_payload: u64 = match directory.checked_add(metadata_bytes) {
        Some(bytes) => bytes,
        None => {
            return Err(DirectQwtBuildError::Overflow("output metadata bytes"));
        },
    };
    let payload_start: u64 = match align_up_u64(before_payload, 64) {
        Ok(start) => start,
        Err(e) => {
            return Err(e);
        },
    };
    proof {
        lemma_aligned(before_payload as int, 64);
    }
    if rows > u64::MAX - DIRECT_SUPERBLOCK_ROWS {
        return Err(DirectQwtBuildError::Overflow("output superblock rows"));
    }
    let per_level: u64 = level_upper_bound(rows) + 128;
    match (levels as u64).checked_mul(per_level) {
        Some(bytes) => match bytes.checked_add(payload_start) {
            Some(total) => Ok(total),
            None => Err(DirectQwtBuildError::Overflow("output container bytes")),
        },
        None => Err(DirectQwtBuildError::Overflow("output container bytes")),
    }
}

/// The number of levels for `rows` symbols up to `sigma`.
fn level_count(rows: u64, sigma: u32) -> (levels: u16)
    ensures
        levels == direct_levels(rows as int, sigma),
        levels <= 16,
        rows > 0 ==> levels > 0 && sigma < pow2((2 * levels) as nat),
{
    proof {
        lemma_direct_levels(sigma);
    }
    if rows == 0 {
        0
    } else {
        (msb(sigma as u64) / 2 + 1) as u16
    }
}

proof fn lemma_direct_levels(sigma: u32)
    ensures
        0 < quad_levels(sigma as u64) <= 16,
        sigma < pow2((2 * quad_levels(sigma as u64)) as nat),
{
    let m = msb_of(sigma as u64);
    lemma_msb_bounds(sigma as u64);
    let e = 2 * quad_levels(sigma as u64);
    if m + 1 < e {
        lemma_pow2_strictly_increases((m + 1) as nat, e as nat);
    }
    if m >= 32 {
        vstd::arithmetic::power2::lemma2_to64();
        if m > 32 {
            lemma_pow2_strictly_increases(32, m as nat);
        }
    }
}

/// The bytes that the container of a direct build takes at most.
pub fn qwt256_u32_output_upper_bound(rows: u64, sigma: u32) -> (r: Result<
    u64,
    DirectQwtBuildError,
>)
    ensures
        match r {
            Ok(b) => rows <= MAX_LEVEL_ROWS && b == container_bound(
                rows as int,
                direct_levels(rows as int, sigma),
                LEVEL_DIR_SIZE as int,
                0,
            ),
            Err(e) => {
                &&& rows > MAX_LEVEL_ROWS
                &&& e == if rows >= 0x800_0000_0000 {
                    DirectQwtBuildError::InvalidInput(
                        "row count exceeds QWT256 rank/select capacity",
                    )
                } else {
                    DirectQwtBuildError::InvalidInput("row count exceeds QWTB data-line capacity")
                }
            },
        },
{
    match validate_row_capacity(rows, false) {
        Ok(()) => {},
        Err(e) => {
            return Err(e);
        },
    }
    let levels: u16 = level_count(rows, sigma);
    proof {
        lemma_bound_fits(rows as int, levels as int, LEVEL_DIR_SIZE as int, 0);
    }
    container_output_upper_bound(rows, levels, LEVEL_DIR_SIZE as u64, 0)
}

/// The bound on a container with a valid number of rows can be computed.
pub proof fn lemma_bound_fits(rows: int, levels: int, entry: int, metadata: int)
    requires
        0 <= rows <= MAX_LEVEL_ROWS,
        0 <= levels <= 16,
        0 <= entry <= 136,
        0 <= metadata <= 0x1_0000_0000,
    ensures
        container_bound_error(rows, levels, entry, metadata) is None,
        container_bound(rows, levels, entry, metadata) <= 0x1_0000_0000_0000,
        scratch_bound(rows, levels) <= 0x1000_0000_0000,
{
    assert(0 <= levels * entry <= 16 * 136) by (nonlinear_arith)
        requires
            0 <= levels <= 16,
            0 <= entry <= 136,
    ;
    lemma_aligned(levels * entry + HEADER_SIZE + metadata, 64);
    let b = level_bound(rows) + 128;
    assert(0 <= b <= 0x60_0000_0000);
    assert(0 <= levels * b <= 16 * 0x60_0000_0000) by (nonlinear_arith)
        requires
            0 <= levels <= 16,
            0 <= b <= 0x60_0000_0000,
    ;
}

/// A level takes no more than its bound, nor than that of more rows.
pub proof fn lemma_level_bound(rows: Seq<u8>, n: int)
    requires
        digits_below(rows, 4),
        rows.len() <= n,
        0 < n,
    ensures
        0 < image_len(rows, false) <= level_bound(n),
{
    let m = rows.len() as int;
    let (c0, c1, c2, c3) = (
        count(rows, 0, m),
        count(rows, 1, m),
        count(rows, 2, m),
        count(rows, 3, m),
    );
    lemma_count_bounds(rows, 0, m);
    lemma_count_bounds(rows, 1, m);
    lemma_count_bounds(rows, 2, m);
    lemma_count_bounds(rows, 3, m);
    lemma_count_all(rows, m);
    lemma_samples(rows, false, 0, m);
    lemma_samples(rows, false, 1, m);
    lemma_samples(rows, false, 2, m);
    lemma_samples(rows, false, 3, m);
    assert(sample_list(rows, false, 0).len() <= sample_bound(c0));
    assert(sample_list(rows, false, 1).len() <= sample_bound(c1));
    assert(sample_list(rows, false, 2).len() <= sample_bound(c2));
    assert(sample_list(rows, false, 3).len() <= sample_bound(c3));
    lemma_sample_bounds(c0, c1, c2, c3, m);
    if m > 0 {
        assert(line_count(m) <= div_up(n, 256));
        assert(super_count(m, false) <= (n + 2048) / 2048);
        assert(m / 8192 <= n / 8192 <= div_up(n, 8192));
    } else {
        assert(line_count(m) == 0);
        assert(super_count(m, false) == 2);
        assert(div_up(n, 256) >= 1 && div_up(n, 8192) >= 1);
    }
}

/// The samples of a digit that occurs `c` times, with a zero where it does not
/// occur and with the last superblock.
spec fn sample_bound(c: int) -> int {
    (if c > 0 {
        (c - 1) / 8192 + 1
    } else {
        1
    }) + 1
}

proof fn lemma_sample_bounds(a: int, b: int, c: int, d: int, n: int)
    requires
        0 <= a,
        0 <= b,
        0 <= c,
        0 <= d,
        a + b + c + d == n,
    ensures
        sample_bound(a) + sample_bound(b) + sample_bound(c) + sample_bound(d) <= n / 8192 + 8,
{
}

/// Every row holds one of the four digits.
pub proof fn lemma_count_all(rows: Seq<u8>, i: int)
    requires
        digits_below(rows, 4),
        0 <= i <= rows.len(),
    ensures
        count(rows, 0, i) + count(rows, 1, i) + count(rows, 2, i) + count(rows, 3, i) == i,
    decreases i,
{
    if i > 0 {
        lemma_count_all(rows, i - 1);
        assert(rows[i - 1] < 4);
    }
}

/// Levels take no more than their bounds and what aligns them.
pub proof fn lemma_payload_bound(
    base: int,
    rows: Seq<Seq<u8>>,
    images: Seq<LevelImage>,
    n: int,
    l: int,
)
    requires
        0 <= l <= rows.len(),
        0 < n <= MAX_LEVEL_ROWS,
        forall|k: int|
            0 <= k < rows.len() ==> {
                &&& is_image(#[trigger] rows[k], false, images[k])
                &&& digits_below(rows[k], 4)
                &&& rows[k].len() <= n
            },
    ensures
        payload(base, images, l).len() <= l * (level_bound(n) + 63),
    decreases l,
{
    let b = level_bound(n) + 63;
    if l > 0 {
        lemma_payload_bound(base, rows, images, n, l - 1);
        let before = payload(base, images, l - 1);
        lemma_aligned(base + before.len(), 64);
        assert(is_image(rows[l - 1], false, images[l - 1]));
        lemma_image_len(rows[l - 1], false, images[l - 1]);
        lemma_level_bound(rows[l - 1], n);
        assert(l * b == (l - 1) * b + b) by (nonlinear_arith);
    } else {
        assert(0 * b == 0);
    }
}

/// No level takes more scratch space than the bound.
pub proof fn lemma_scratch_bound(levels: int, rows: Seq<Seq<u8>>, n: int, l: int)
    requires
        0 <= l <= rows.len(),
        0 < n,
        0 <= levels,
        levels > 0 ==> l <= levels,
        forall|k: int|
            0 <= k < rows.len() ==> digits_below(#[trigger] rows[k], 4) && rows[k].len() <= n,
    ensures
        scratch_peak(4 * n, levels, rows, l) <= scratch_bound(n, levels),
    decreases l,
{
    if levels > 0 && l > 0 {
        lemma_scratch_bound(levels, rows, n, l - 1);
        assert(digits_below(rows[l - 1], 4));
        lemma_level_bound(rows[l - 1], n);
    }
}

/// The container of a tree takes no more than its bound.
pub proof fn lemma_output_bound(tree: QWaveletTree<u32, RSQVector<256>>)
    requires
        tree.wf(),
    ensures
        tree_bytes(tree).len() <= container_bound(
            tree.seq().len() as int,
            direct_levels(tree.seq().len() as int, tree.largest() as u32),
            LEVEL_DIR_SIZE as int,
            0,
        ),
{
    let rows = tree.levels();
    let images = images_of(tree.quads());
    let n = tree.seq().len() as int;
    let levels = rows.len() as int;
    tree.lemma_wf();
    lemma_images_of(tree.quads());
    lemma_qwtb_front_len(false, 4, n, tree.largest() as int, rows, images);
    let base = qwtb_base(levels);
    if levels > 0 {
        assert(is_image(rows[0], false, images[0]));
        assert(rows[0].len() == n);
        assert forall|k: int| 0 <= k < rows.len() implies {
            &&& is_image(#[trigger] rows[k], false, images[k])
            &&& digits_below(rows[k], 4)
            &&& rows[k].len() <= n
        } by {}
        lemma_payload_bound(base, rows, images, n, levels);
        let b = level_bound(n);
        assert(levels * (b + 63) <= levels * (b + 128)) by (nonlinear_arith)
            requires
                0 <= levels,
        ;
    }
}

/// The scratch space that a direct build takes at most. The two texts say what
/// is too large.
pub fn scratch_upper_bound(
    rows: u64,
    levels: u16,
    source_detail: &'static str,
    total_detail: &'static str,
) -> (r: Result<u64, DirectQwtBuildError>)
    ensures
        match r {
            Ok(b) => b == scratch_bound(rows as int, levels as int),
            Err(e) => {
                &&& levels > 0
                &&& scratch_bound(rows as int, levels as int) > u64::MAX
                &&& e == DirectQwtBuildError::Overflow(
                    if 4 * rows > u64::MAX {
                        source_detail
                    } else {
                        total_detail
                    },
                )
            },
        },
{
    if levels == 0 {
        return Ok(0);
    }
    let source: u64 = match rows.checked_mul(4) {
        Some(bytes) => bytes,
        None => {
            return Err(DirectQwtBuildError::Overflow(source_detail));
        },
    };
    let partition: u64 = if levels > 1 {
        source
    } else {
        0
    };
    let level: u64 = level_upper_bound(rows);
    match source.checked_add(partition) {
        Some(bytes) => match bytes.checked_add(level) {
            Some(total) => Ok(total),
            None => Err(DirectQwtBuildError::Overflow(total_detail)),
        },
        None => Err(DirectQwtBuildError::Overflow(total_detail)),
    }
}

/// The bytes of a source of so many rows. `host` tells whether the host is
/// little-endian, and `same_path` whether the container would overwrite its
/// source.
pub fn direct_source_bytes(
    host: Result<(), LayoutError>,
    same_path: bool,
    rows: u64,
    compressed: bool,
) -> (r: Result<u64, DirectQwtBuildError>)
    ensures
        match r {
            Ok(bytes) => host is Ok && !same_path && rows <= MAX_LEVEL_ROWS && bytes == 4 * rows,
            Err(e) => if host is Err {
                e == DirectQwtBuildError::InvalidInput("big-endian host")
            } else if same_path {
                e == DirectQwtBuildError::InvalidInput("source and output paths must differ")
            } else {
                &&& rows > MAX_LEVEL_ROWS
                &&& e == if rows >= 0x800_0000_0000 {
                    DirectQwtBuildError::InvalidInput(
                        "row count exceeds QWT256 rank/select capacity",
                    )
                } else if compressed {
                    DirectQwtBuildError::InvalidInput("row count exceeds HQWB data-line capacity")
                } else {
                    DirectQwtBuildError::InvalidInput("row count exceeds QWTB data-line capacity")
                }
            },
        },
{
    match host {
        Ok(()) => {},
        Err(_) => {
            return Err(DirectQwtBuildError::InvalidInput("big-endian host"));
        },
    }
    if same_path {
        return Err(DirectQwtBuildError::InvalidInput("source and output paths must differ"));
    }
    match validate_row_capacity(rows, compressed) {
        Ok(()) => Ok(rows * 4),
        Err(e) => Err(e),
    }
}

/// How a direct build of a plain container will go.
#[derive(Clone, Copy, Debug, PartialEq, Eq)]
pub struct DirectQwtPlan {
    pub rows: u64,
    pub sigma: u32,
    pub levels: u16,
    /// Bytes of the source.
    pub source_bytes: u64,
    /// Scratch space that the build takes at most.
    pub scratch_required: u64,
    /// Where the levels begin in the container.
    pub payload_start: u64,
    /// The buffer of each file.
    pub per_stream_buffer: usize,
    /// The buffer with which sections are copied into the container.
    pub copy_buffer_len: usize,
}

impl DirectQwtPlan {
    /// The plan is one that was made for its rows and its largest symbol.
    pub open spec fn wf(&self) -> bool {
        &&& self.rows <= MAX_LEVEL_ROWS
        &&& self.levels == direct_levels(self.rows as int, self.sigma)
        &&& self.source_bytes == 4 * self.rows
        &&& self.scratch_required == scratch_bound(self.rows as int, self.levels as int)
        &&& self.payload_start == qwtb_base(self.levels as int)
    }
}

/// The smaller of a budget and one mebibyte.
pub open spec fn copy_buffer(bytes: u64) -> int {
    if bytes < 0x10_0000 {
        bytes as int
    } else {
        0x10_0000
    }
}

/// Plans a direct build from a source of `source_len` bytes, within a budget.
pub fn plan_qwt256_u32_direct(
    rows: u64,
    sigma: u32,
    source_len: u64,
    budget: DirectQwtBuildBudget,
) -> (r: Result<DirectQwtPlan, DirectQwtBuildError>)
    requires
        rows <= MAX_LEVEL_ROWS,
    ensures
        ({
            let scratch = scratch_bound(rows as int, direct_levels(rows as int, sigma));
            let refused = source_len != 4 * rows || budget.buffer_bytes < 24_576 || scratch
                > budget.scratch_bytes || budget.buffer_bytes / 6 > usize::MAX;
            match r {
                Ok(plan) => {
                    &&& !refused
                    &&& plan.wf()
                    &&& plan.rows == rows
                    &&& plan.sigma == sigma
                    &&& plan.per_stream_buffer == budget.buffer_bytes / 6
                    &&& plan.copy_buffer_len == copy_buffer(budget.buffer_bytes)
                },
                Err(e) => {
                    &&& refused
                    &&& e == if source_len != 4 * rows {
                        DirectQwtBuildError::InvalidInput("source length does not equal rows * 4")
                    } else if budget.buffer_bytes < 24_576 {
                        DirectQwtBuildError::BufferBudget {
                            required: 24_576,
                            limit: budget.buffer_bytes,
                        }
                    } else if scratch > budget.scratch_bytes {
                        DirectQwtBuildError::ScratchBudget {
                            required: scratch as u64,
                            limit: budget.scratch_bytes,
                        }
                    } else {
                        DirectQwtBuildError::Overflow("per-stream buffer bytes")
                    }
                },
            }
        }),
{
    let source_bytes: u64 = rows * 4;
    if source_len != source_bytes {
        return Err(
            DirectQwtBuildError::InvalidInput("source length does not equal rows * 4"),
        );
    }
    let required_buffers: u64 = DIRECT_STREAMS * MIN_STREAM_BUFFER_BYTES;
    if budget.buffer_bytes < required_buffers {
        return Err(
            DirectQwtBuildError::BufferBudget {
                required: required_buffers,
                limit: budget.buffer_bytes,
            },
        );
    }
    let levels: u16 = level_count(rows, sigma);
    proof {
        lemma_bound_fits(rows as int, levels as int, LEVEL_DIR_SIZE as int, 0);
    }
    let scratch_required: u64 = match scratch_upper_bound(
        rows,
        levels,
        "scratch source bytes",
        "scratch upper bound",
    ) {
        Ok(bytes) => bytes,
        Err(e) => {
            return Err(e);
        },
    };
    if scratch_required > budget.scratch_bytes {
        return Err(
            DirectQwtBuildError::ScratchBudget {
                required: scratch_required,
                limit: budget.scratch_bytes,
            },
        );
    }
    let per_stream: u64 = budget.buffer_bytes / DIRECT_STREAMS;
    if per_stream > usize::MAX as u64 {
        return Err(DirectQwtBuildError::Overflow("per-stream buffer bytes"));
    }
    let copy_buffer_len: usize = if budget.buffer_bytes < 0x10_0000 {
        budget.buffer_bytes as usize
    } else {
        0x10_0000
    };
    let payload_start: u64 = align_up(HEADER_SIZE + LEVEL_DIR_SIZE * levels as usize, 64) as u64;
    Ok(
        DirectQwtPlan {
            rows,
            sigma,
            levels,
            source_bytes,
            scratch_required,
            payload_start,
            per_stream_buffer: per_stream as usize,
            copy_buffer_len,
        },
    )
}

/// A direct build of a plain container.
///
/// For each level, all symbols are pushed in the order of that level, and the
/// level is ended. Symbols that go into buckets are read again from the
/// buckets, one behind the other, for the next level.
pub struct DirectQwtBuild {
    passes: DirectPasses,
    sigma: u32,
    actual_sigma: u32,
}

impl DirectQwtBuild {
    /// The passes of the build.
    pub closed spec fn state(&self) -> DirectPasses {
        self.passes
    }

    /// The declared largest symbol.
    pub closed spec fn declared(&self) -> u32 {
        self.sigma
    }

    #[verifier::opaque]
    pub closed spec fn wf(&self) -> bool {
        let pass = self.passes.pass();
        &&& self.passes.wf()
        &&& self.passes.codes() is None
        &&& self.passes.level_count() == direct_levels(self.passes.row_count(), self.sigma)
        &&& self.passes.start() == qwtb_base(self.passes.level_count())
        &&& forall|i: int| 0 <= i < pass.len() ==> (#[trigger] pass[i]) <= self.sigma
        &&& forall|l: int, i: int|
            0 <= l < self.passes.level_index() && 0 <= i < self.passes.passes()[l].len() ==> (
            #[trigger] self.passes.passes()[l][i]) <= self.sigma
        &&& if self.passes.level_index() == 0 {
            &&& forall|i: int| 0 <= i < pass.len() ==> (#[trigger] pass[i]) <= self.actual_sigma
            &&& self.actual_sigma == 0 || pass.contains(self.actual_sigma)
        } else {
            self.passes.passes()[0].contains(self.sigma)
        }
    }

    /// Rows, levels and offsets stay within the limits of the container.
    pub proof fn lemma_room(&self)
        requires
            self.wf(),
        ensures
            self.state().row_count() <= 0xff_ffff_ff00,
            self.state().running().len() <= self.state().pass().len(),
            self.state().level_count() <= 16,
            0 <= self.state().end() <= 0x1000_0000 + 16 * 0x80_0000_0040,
            self.state().wf(),
    {
        reveal(DirectQwtBuild::wf);
        self.state().lemma_room();
    }

    /// Begins a build.
    pub fn new(plan: &DirectQwtPlan) -> (b: Self)
        requires
            plan.wf(),
        ensures
            b.wf(),
            b.declared() == plan.sigma,
            b.state().row_count() == plan.rows,
            b.state().level_count() == plan.levels,
            b.state().level_index() == 0,
            b.state().passes() == Seq::<Seq<u32>>::empty(),
            b.state().pass() == Seq::<u32>::empty(),
            b.state().images() == Seq::<LevelImage>::empty(),
            b.state().taken() == no_image(),
    {
        proof {
            lemma_direct_levels(plan.sigma);
            lemma_aligned(HEADER_SIZE + LEVEL_DIR_SIZE * plan.levels, 64);
        }
        let b = DirectQwtBuild {
            passes: DirectPasses::new(plan.rows, plan.levels, None, plan.payload_start),
            sigma: plan.sigma,
            actual_sigma: 0,
        };
        proof {
            reveal(DirectQwtBuild::wf);
        }
        b
    }

    /// The passes of the build.
    pub fn passes(&self) -> (p: &DirectPasses)
        requires
            self.wf(),
        ensures
            *p == self.state(),
            p.wf(),
    {
        proof {
            reveal(DirectQwtBuild::wf);
        }
        &self.passes
    }

    /// Reads the next symbol of the running pass. Tells its bucket, where there
    /// is another pass.
    pub fn push(&mut self, symbol: u32) -> (r: Result<Option<u8>, DirectQwtBuildError>)
        requires
            old(self).wf(),
            old(self).state().level_index() < old(self).state().level_count(),
            old(self).state().pass().len() < u64::MAX,
        ensures
            final(self).declared() == old(self).declared(),
            match r {
                Ok(group) => {
                    &&& symbol <= old(self).declared()
                    &&& final(self).wf()
                    &&& final(self).state().same_levels(old(self).state())
                    &&& final(self).state().taken() == old(self).state().taken()
                    &&& final(self).state().pass() == old(self).state().pass().push(symbol)
                    &&& group == if old(self).state().level_index() + 1 < old(
                        self,
                    ).state().level_count() {
                        Some(
                            bucket(
                                symbol_code(None, old(self).state().level_count(), 2, symbol),
                                old(self).state().level_index(),
                                4,
                            ),
                        )
                    } else {
                        None
                    }
                },
                Err(e) => if symbol > old(self).declared() {
                    e == DirectQwtBuildError::InvalidInput("source symbol exceeds declared sigma")
                } else {
                    e == DirectQwtBuildError::Overflow("data-line count")
                },
            },
            r is Err <==> symbol > old(self).declared() || old(self).state().full(symbol),
    {
        proof {
            reveal(DirectQwtBuild::wf);
            lemma_direct_levels(self.sigma);
        }
        if symbol > self.sigma {
            return Err(
                DirectQwtBuildError::InvalidInput("source symbol exceeds declared sigma"),
            );
        }
        if self.passes.level() == 0 && symbol > self.actual_sigma {
            self.actual_sigma = symbol;
        }
        let ghost before = self.passes.pass();
        let r: Result<Option<u8>, DirectQwtBuildError> = self.passes.push(symbol);
        proof {
            if r is Ok {
                let after = self.passes.pass();
                assert(after == before.push(symbol));
                assert forall|i: int| 0 <= i < after.len() implies (#[trigger] after[i])
                    <= self.sigma by {
                    if i < before.len() {
                        assert(after[i] == before[i]);
                    }
                }
                if self.passes.level_index() == 0 {
                    assert forall|i: int| 0 <= i < after.len() implies (#[trigger] after[i])
                        <= self.actual_sigma by {
                        if i < before.len() {
                            assert(after[i] == before[i]);
                        }
                    }
                    if self.actual_sigma == symbol {
                        assert(after[before.len() as int] == symbol);
                    } else if self.actual_sigma != 0 {
                        let j = choose|j: int|
                            0 <= j < before.len() && before[j] == self.actual_sigma;
                        assert(after[j] == self.actual_sigma);
                    }
                }
            }
        }
        r
    }

    /// Hands out what the running level has written so far.
    pub fn take_output(&mut self) -> (out: LevelOutput)
        requires
            old(self).wf(),
        ensures
            final(self).wf(),
            final(self).declared() == old(self).declared(),
            final(self).state().same_levels(old(self).state()),
            final(self).state().pass() == old(self).state().pass(),
            out.select.len() == 4,
            final(self).state().taken() == extended(old(self).state().taken(), out),
            final(self).state().pending() == 0,
    {
        proof {
            reveal(DirectQwtBuild::wf);
        }
        self.passes.take_output()
    }

    /// Ends the running pass.
    pub fn end_level(&mut self) -> (r: Result<FinishedLevel, DirectQwtBuildError>)
        requires
            old(self).wf(),
            old(self).state().level_index() < old(self).state().level_count(),
        ensures
            final(self).declared() == old(self).declared(),
            ({
                let b = old(self).state();
                let miscounted = b.pass().len() != b.row_count();
                let mistaken = b.level_index() == 0 && !b.pass().contains(old(self).declared());
                match r {
                    Ok(finished) => {
                        let after = final(self).state();
                        &&& !miscounted
                        &&& !mistaken
                        &&& placement_fits(b.end(), b.running())
                        &&& final(self).wf()
                        &&& after.row_count() == b.row_count()
                        &&& after.level_count() == b.level_count()
                        &&& after.level_index() == b.level_index() + 1
                        &&& after.passes() == b.passes().push(b.pass())
                        &&& after.pass() == Seq::<u32>::empty()
                        &&& after.taken() == no_image()
                        &&& finished.output.select.len() == 4
                        &&& after.images() == b.images().push(extended(b.taken(), finished.output))
                        &&& after.entries() == b.entries().push(finished.dir)
                    },
                    Err(e) => if miscounted {
                        e == DirectQwtBuildError::InvalidInput(
                            "partitioned source row count changed between levels",
                        )
                    } else if mistaken {
                        e == DirectQwtBuildError::InvalidInput(
                            "declared sigma is not the maximum source symbol",
                        )
                    } else {
                        &&& !placement_fits(b.end(), b.running())
                        &&& e == DirectQwtBuildError::Overflow("output cursor")
                    },
                }
            }),
    {
        proof {
            reveal(DirectQwtBuild::wf);
            self.passes.lemma_done();
        }
        let ghost pass = self.passes.pass();
        let ghost before = self.passes.passes();
        if self.passes.level() == 0 && self.passes.seen() == self.passes.n_rows()
            && self.actual_sigma != self.sigma {
            return Err(
                DirectQwtBuildError::InvalidInput(
                    "declared sigma is not the maximum source symbol",
                ),
            );
        }
        proof {
            if self.passes.level_index() == 0 && pass.len() == self.passes.row_count() {
                assert(pass.len() > 0);
                if self.sigma == 0 {
                    assert(pass[0] == 0);
                }
                assert(pass.contains(self.sigma));
            }
        }
        let r: Result<FinishedLevel, DirectQwtBuildError> = self.passes.end_level();
        proof {
            if r is Ok {
                let after = self.passes.passes();
                assert(after == before.push(pass));
                assert forall|l: int, i: int|
                    0 <= l < self.passes.level_index() && 0 <= i < after[l].len() implies (
                #[trigger] after[l][i]) <= self.sigma by {
                    if l < before.len() {
                        assert(after[l] == before[l]);
                        assert(before[l][i] <= self.sigma);
                    }
                }
            }
        }
        r
    }

    /// Everything before the levels of the container, and what the build has
    /// used. All levels must be finished.
    pub fn finish(&self) -> (r: (Vec<u8>, DirectQwtBuildStats))
        requires
            self.wf(),
            self.state().level_index() == self.state().level_count(),
        ensures
            r.0@ == self.front(),
            r.1.rows == self.state().row_count(),
            r.1.levels == self.state().level_count(),
            r.1.output_bytes == self.container().len(),
            r.1.peak_scratch_bytes == self.state().peak(),
            r.1.peak_scratch_bytes <= scratch_bound(
                self.state().row_count(),
                self.state().level_count(),
            ),
            r.1.output_bytes <= container_bound(
                self.state().row_count(),
                self.state().level_count(),
                LEVEL_DIR_SIZE as int,
                0,
            ),
    {
        proof {
            reveal(DirectQwtBuild::wf);
            self.passes.lemma_done();
            self.lemma_container();
        }
        let stats: DirectQwtBuildStats = self.passes.stats();
        let mut front: Vec<u8> = Vec::new();
        put_qwtb_front(
            &mut front,
            false,
            4,
            stats.rows,
            self.sigma as u64,
            self.passes.dirs(),
        );
        (front, stats)
    }

    /// Everything before the levels of the container.
    pub open spec fn front(&self) -> Seq<u8> {
        qwtb_front(
            false,
            4,
            self.state().row_count(),
            self.declared() as int,
            self.state().entries().map_values(|d: LevelDir| d@),
        )
    }

    /// The container: the front, and the levels where their directory entries
    /// say, with zeros between them.
    pub open spec fn container(&self) -> Seq<u8> {
        self.front() + payload(
            self.state().start(),
            self.state().images(),
            self.state().level_index(),
        )
    }

    /// The container of a finished build is that of its levels, and stays
    /// within the bounds.
    pub proof fn lemma_container(&self)
        requires
            self.wf(),
            self.state().level_index() == self.state().level_count(),
        ensures
            self.container() == qwtb_bytes(
                self.state().done(),
                self.state().images(),
                false,
                4,
                self.state().row_count(),
                self.declared() as int,
            ),
            self.front().len() == self.state().start(),
            self.container().len() == self.state().end(),
            self.container().len() <= container_bound(
                self.state().row_count(),
                self.state().level_count(),
                LEVEL_DIR_SIZE as int,
                0,
            ),
            self.state().peak() <= scratch_bound(
                self.state().row_count(),
                self.state().level_count(),
            ),
    {
        reveal(DirectQwtBuild::wf);
        let b = self.passes;
        b.lemma_done();
        let rows = b.done();
        let images = b.images();
        let n = b.row_count();
        let levels = b.level_count();
        let base = b.start();
        lemma_direct_levels(self.sigma);
        assert(b.entries().map_values(|d: LevelDir| d@) =~= placed_dirs(
            rows,
            images,
            false,
            base,
        )) by {
            assert forall|l: int| 0 <= l < levels implies (#[trigger] b.entries()[l])@ == dir_at(
                rows[l],
                false,
                image_off(base, images, l),
            ) by {
                assert(b.passes()[l].len() == n);
            }
        }
        assert forall|l: int| 0 <= l < rows.len() implies {
            &&& is_image(#[trigger] rows[l], false, images[l])
            &&& digits_below(rows[l], 4)
            &&& rows[l].len() <= n
        } by {
            assert(b.passes()[l].len() == n);
        }
        lemma_aligned(HEADER_SIZE + LEVEL_DIR_SIZE * levels, 64);
        lemma_qwtb_front_len(false, 4, n, self.sigma as int, rows, images);
        if levels > 0 {
            assert(n > 0);
            lemma_payload_bound(base, rows, images, n, levels);
            lemma_scratch_bound(levels, rows, n, levels);
            let x = level_bound(n);
            assert(levels * (x + 63) <= levels * (x + 128)) by (nonlinear_arith)
                requires
                    0 <= levels,
            ;
        }
    }
}

/// A direct build gives the container of the tree of its source, where its
/// first pass has read the source and every other pass the buckets of the one
/// before.
#[verifier::rlimit(60)]
#[verifier::spinoff_prover]
pub proof fn lemma_direct_container(
    b: DirectQwtBuild,
    source: Seq<u32>,
    tree: QWaveletTree<u32, RSQVector<256>>,
)
    requires
        b.wf(),
        b.state().level_index() == b.state().level_count(),
        source.len() == b.state().row_count(),
        source.len() > 0 ==> b.state().passes()[0] == source,
        source.len() == 0 ==> b.declared() == 0,
        passes_follow(b.state().passes(), None, b.state().level_count()),
        tree.wf(),
        tree.seq() == source,
    ensures
        b.container() == tree_bytes(tree),
        b.declared() == tree.largest(),
{
    reveal(DirectQwtBuild::wf);
    let levels = b.state().level_count();
    let passes = b.state().passes();
    let sigma = b.declared();
    b.lemma_container();
    b.state().lemma_done();
    tree.lemma_wf();
    lemma_images_of(tree.quads());
    if source.len() > 0 {
        lemma_direct_levels(sigma);
        let m = choose|m: u32| is_max(source, m) && m.val() == tree.largest();
        assert(m == sigma) by {
            let i = choose|i: int| 0 <= i < source.len() && source[i] == sigma;
            let j = choose|j: int| 0 <= j < source.len() && source[j] == m;
            assert(source[i].val() <= m.val());
            assert(passes[0][j] <= sigma);
        }
        assert forall|i: int| 0 <= i < source.len() implies (#[trigger] source[i]).val() < pow2(
            (2 * levels) as nat,
        ) by {
            assert(passes[0][i] <= sigma);
        }
        assert(codable(source, None, levels, 2));
        lemma_passes(passes, None, levels);
        tree.lemma_represents();
    }
    let rows = b.state().done();
    assert(rows =~= tree.levels());
    lemma_images_unique(rows, b.state().images(), images_of(tree.quads()));
}

/// Levels have one list of images.
pub proof fn lemma_images_unique(
    rows: Seq<Seq<u8>>,
    a: Seq<LevelImage>,
    b: Seq<LevelImage>,
)
    requires
        a.len() == rows.len(),
        b.len() == rows.len(),
        forall|l: int| 0 <= l < rows.len() ==> is_image(#[trigger] rows[l], false, a[l]),
        forall|l: int| 0 <= l < rows.len() ==> is_image(#[trigger] rows[l], false, b[l]),
    ensures
        a == b,
{
    assert forall|l: int| 0 <= l < rows.len() implies a[l] == b[l] by {
        assert(is_image(rows[l], false, a[l]) && is_image(rows[l], false, b[l]));
        reveal(is_image);
        lemma_image_unique(
            rows[l],
            false,
            a[l].data,
            a[l].superblocks,
            a[l].select,
            b[l].data,
            b[l].superblocks,
            b[l].select,
        );
    }
    assert(a =~= b);
}

} // verus!
