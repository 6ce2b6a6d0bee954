//! Laws of the sizes of containers, and of what builds within a budget accept.

use vstd::prelude::*;

use crate::binwt::parts::is_max;
use crate::bytes::direct::{
    container_bound, container_output_upper_bound, direct_levels, direct_source_bytes,
    lemma_count_all, lemma_output_bound, level_bound, plan_qwt256_u32_direct,
    qwt256_u32_output_upper_bound, scratch_upper_bound, validate_row_capacity, DirectQwtBuildBudget,
    DirectQwtPlan,
};
use crate::bytes::direct_huff::{
    hqwt256_u32_output_upper_bound, lemma_huff_output_bound, lemma_level_rows, lemma_tables_bound,
    plan_hqwt256_u32_buffers, validate_alphabet, DirectHqwtBuffers,
};
use crate::bytes::encoder::MAX_LEVEL_ROWS;
use crate::bytes::error::{DirectQwtBuildError, LayoutError};
use crate::bytes::hqwb::{
    hqwb_base, hqwt256_to_bytes, hqwt_to_bytes, huff_tree_bytes, lemma_hqwb_front_len, row_counts,
};
use crate::bytes::image::{lemma_samples, sample_list};
use crate::bytes::payload::{image_len, is_image, lemma_image_len, payload, LevelImage};
use crate::bytes::qwtb::{
    lemma_placed_shape, lemma_qwtb_front_len, placed_dirs, qwt256_to_bytes, qwt_to_bytes, qwtb_base,
    tree_bytes,
};
use crate::bytes::writer::{images_of, lemma_images_of};
use crate::bytes::{lemma_aligned, HEADER_SIZE, LEVEL_DIR_SIZE};
use crate::indexable::WTIndexable;
use crate::quadwt::huffqwt::HuffQWaveletTree;
use crate::quadwt::QWaveletTree;
use crate::qvector::RSQVector;
use crate::tables::rows_view;
use crate::wavelet::{count, digits_below, lemma_count_bounds};

verus! {

/// An alphabet is accepted exactly where it goes with the rows and its size can be
/// written as a number of two bytes.
pub proof fn alphabet_accepted(
    rows: u64,
    alphabet_size: u32,
    r: Result<(), DirectQwtBuildError>,
)
    requires
        call_ensures(validate_alphabet, (rows, alphabet_size), r),
    ensures
        r is Ok <==> (rows == 0 <==> alphabet_size == 0) && exists|low: u8, high: u8|
            alphabet_size == #[trigger] two_bytes(low, high),
        r matches Err(e) ==> e is InvalidInput,
{
    if alphabet_size <= 0xffff {
        let low = (alphabet_size % 256) as u8;
        let high = (alphabet_size / 256) as u8;
        assert(alphabet_size == two_bytes(low, high));
    }
}

/// The number that two bytes hold, the low one first.
pub open spec fn two_bytes(low: u8, high: u8) -> int {
    low + 256 * high
}

/// So many rows are accepted as give lines of 256 rows that a word can count.
pub proof fn rows_accepted(rows: u64, compressed: bool, r: Result<(), DirectQwtBuildError>)
    requires
        call_ensures(validate_row_capacity, (rows, compressed), r),
    ensures
        r is Ok <==> exists|lines: u32| rows <= 256 * #[trigger] as_rows(lines),
        r matches Err(e) ==> e is InvalidInput,
{
    if rows <= 0xff_ffff_ff00 {
        assert(rows <= 256 * as_rows(u32::MAX));
    }
}

pub open spec fn as_rows(lines: u32) -> int {
    lines as int
}

/// How much the sections of a level take: what holds its rows and a little more.
proof fn lemma_image_size(rows: Seq<u8>, b512: bool)
    requires
        digits_below(rows, 4),
    ensures
        rows.len() as int / 4 <= image_len(rows, b512) <= rows.len() + 500,
        rows.len() > 0 ==> level_bound(rows.len() as int) <= image_len(rows, false) + 16,
{
    let m = rows.len() as int;
    lemma_count_bounds(rows, 0, m);
    lemma_count_bounds(rows, 1, m);
    lemma_count_bounds(rows, 2, m);
    lemma_count_bounds(rows, 3, m);
    lemma_count_all(rows, m);
    lemma_sample_size(rows, b512, 0);
    lemma_sample_size(rows, b512, 1);
    lemma_sample_size(rows, b512, 2);
    lemma_sample_size(rows, b512, 3);
    lemma_sample_size(rows, false, 0);
    lemma_sample_size(rows, false, 1);
    lemma_sample_size(rows, false, 2);
    lemma_sample_size(rows, false, 3);
}

proof fn lemma_sample_size(rows: Seq<u8>, b512: bool, d: u8)
    ensures
        sample_list(rows, b512, d).len() >= 2,
        sample_list(rows, b512, d).len() >= (count(rows, d, rows.len() as int) + 8191) / 8192 + 1,
        sample_list(rows, b512, d).len() <= count(rows, d, rows.len() as int) / 8192 + 2,
{
    let m = rows.len() as int;
    lemma_samples(rows, b512, d, m);
    lemma_count_bounds(rows, d, m);
}

proof fn lemma_payload_size(
    base: int,
    rows: Seq<Seq<u8>>,
    images: Seq<LevelImage>,
    b512: bool,
    n: int,
    l: int,
)
    requires
        0 <= l <= rows.len(),
        forall|k: int|
            0 <= k < rows.len() ==> {
                &&& is_image(#[trigger] rows[k], b512, images[k])
                &&& digits_below(rows[k], 4)
                &&& rows[k].len() <= n
                &&& rows[k].len() <= MAX_LEVEL_ROWS
            },
    ensures
        payload(base, images, l).len() <= l * (n + 563),
    decreases l,
{
    if l > 0 {
        lemma_payload_size(base, rows, images, b512, n, l - 1);
        lemma_aligned(base + payload(base, images, l - 1).len(), 64);
        assert(is_image(rows[l - 1], b512, images[l - 1]));
        lemma_image_len(rows[l - 1], b512, images[l - 1]);
        lemma_image_size(rows[l - 1], b512);
        assert(l * (n + 563) == (l - 1) * (n + 563) + (n + 563)) by (nonlinear_arith);
    } else {
        assert(0 * (n + 563) == 0);
    }
}

/// The container of a plain tree takes at most 32 bytes for a symbol, and a little
/// more.
proof fn lemma_tree_size<T: WTIndexable, const B_SIZE: usize>(
    tree: QWaveletTree<T, RSQVector<B_SIZE>>,
)
    requires
        tree.wf(),
    ensures
        tree_bytes(tree).len() <= 32 * tree.seq().len() + 50_000,
{
    let rows = tree.levels();
    let images = images_of(tree.quads());
    let n = tree.seq().len() as int;
    let levels = rows.len() as int;
    tree.lemma_wf();
    T::lemma_width();
    lemma_images_of(tree.quads());
    lemma_qwtb_front_len(
        B_SIZE == 512,
        T::bit_width() as int / 8,
        n,
        tree.largest() as int,
        rows,
        images,
    );
    lemma_aligned(HEADER_SIZE + LEVEL_DIR_SIZE * levels, 64);
    assert forall|k: int| 0 <= k < rows.len() implies {
        &&& is_image(#[trigger] rows[k], B_SIZE == 512, images[k])
        &&& digits_below(rows[k], 4)
        &&& rows[k].len() <= n
        &&& rows[k].len() <= MAX_LEVEL_ROWS
    } by {}
    lemma_payload_size(qwtb_base(levels), rows, images, B_SIZE == 512, n, levels);
    assert(levels * (n + 563) <= 32 * (n + 563)) by (nonlinear_arith)
        requires
            0 <= levels <= 32,
            0 <= n,
    ;
}

/// A plain tree can be written unless its container does not fit into memory.
pub proof fn plain_written<T: WTIndexable, const B_SIZE: usize>(
    v: Vec<T>,
    tree: QWaveletTree<T, RSQVector<B_SIZE>>,
    r: Result<Vec<u8>, LayoutError>,
)
    requires
        call_ensures(QWaveletTree::<T, RSQVector<B_SIZE>>::from, (v,), tree),
        call_ensures(qwt_to_bytes::<T, B_SIZE>, (&tree,), r),
    ensures
        32 * v.len() + 50_000 <= usize::MAX ==> r is Ok,
        r matches Ok(bytes) ==> bytes.len() <= 32 * v.len() + 50_000,
        r matches Err(e) ==> e == LayoutError::TooLarge,
{
    lemma_tree_size(tree);
}

/// The container of a compressed tree takes at most 16 bytes for a symbol, 20 for a
/// code, and a little more.
proof fn lemma_huff_tree_size<T: WTIndexable, const B_SIZE: usize>(
    tree: HuffQWaveletTree<T, RSQVector<B_SIZE>>,
)
    requires
        tree.wf(),
    ensures
        huff_tree_bytes(tree).len() <= 16 * tree.seq().len() + 20 * tree.encode().len() + 20_000,
{
    let rows = tree.levels();
    let images = images_of(tree.quads());
    let decode = rows_view(tree.decode());
    let n = tree.seq().len() as int;
    let levels = rows.len() as int;
    let b512 = B_SIZE == 512;
    tree.lemma_wf();
    T::lemma_width();
    lemma_images_of(tree.quads());
    lemma_tables_bound(levels, tree.encode(), decode);
    let base = hqwb_base(levels, tree.encode(), decode);
    lemma_placed_shape(rows, images, b512, base);
    lemma_hqwb_front_len(
        b512,
        T::bit_width() as int / 8,
        n,
        placed_dirs(rows, images, b512, base),
        row_counts(rows),
        tree.encode(),
        decode,
    );
    assert forall|k: int| 0 <= k < rows.len() implies {
        &&& is_image(#[trigger] rows[k], b512, images[k])
        &&& digits_below(rows[k], 4)
        &&& rows[k].len() <= n
        &&& rows[k].len() <= MAX_LEVEL_ROWS
    } by {
        lemma_level_rows(tree, k);
    }
    lemma_payload_size(base, rows, images, b512, n, levels);
    assert(levels * (n + 563) <= 16 * (n + 563)) by (nonlinear_arith)
        requires
            0 <= levels <= 16,
            0 <= n,
    ;
}

/// A compressed tree can be written exactly where its alphabet has less than 65536
/// symbols, unless its container does not fit into memory.
pub proof fn compressed_written<T: WTIndexable, const B_SIZE: usize>(
    v: Vec<T>,
    tree: HuffQWaveletTree<T, RSQVector<B_SIZE>>,
    r: Result<Vec<u8>, LayoutError>,
    m: T,
)
    requires
        call_ensures(HuffQWaveletTree::<T, RSQVector<B_SIZE>>::from, (v,), Some(tree)),
        v.len() > 0 ==> is_max(v@, m),
        call_ensures(hqwt_to_bytes::<T, B_SIZE>, (&tree,), r),
    ensures
        v.len() > 0 && m.val() + 1 > u16::MAX ==> r is Err,
        (v.len() == 0 || m.val() + 1 <= u16::MAX) && 16 * v.len() + 2_000_000 <= usize::MAX
            ==> r is Ok,
        r matches Err(e) ==> e == LayoutError::TooLarge,
{
    lemma_huff_tree_size(tree);
}

/// Containers of trees with blocks of 256 rows are written in the same way by name.
pub proof fn written_by_name<T: WTIndexable>(
    plain: QWaveletTree<T, RSQVector<256>>,
    compressed: HuffQWaveletTree<T, RSQVector<256>>,
    a: Result<Vec<u8>, LayoutError>,
    b: Result<Vec<u8>, LayoutError>,
    c: Result<Vec<u8>, LayoutError>,
    d: Result<Vec<u8>, LayoutError>,
)
    requires
        call_ensures(qwt_to_bytes::<T, 256>, (&plain,), a),
        call_ensures(qwt256_to_bytes::<T>, (&plain,), b),
        call_ensures(hqwt_to_bytes::<T, 256>, (&compressed,), c),
        call_ensures(hqwt256_to_bytes::<T>, (&compressed,), d),
    ensures
        a is Ok <==> b is Ok,
        a is Ok && b is Ok ==> (a->Ok_0)@ == (b->Ok_0)@,
        c is Ok <==> d is Ok,
        c is Ok && d is Ok ==> (c->Ok_0)@ == (d->Ok_0)@,
{
    if let Ok(w) = a {
        assert(w.len() == w@.len());
    }
    if let Ok(w) = b {
        assert(w.len() == w@.len());
    }
    if let Ok(w) = c {
        assert(w.len() == w@.len());
    }
    if let Ok(w) = d {
        assert(w.len() == w@.len());
    }
}

proof fn lemma_payload_least(
    base: int,
    rows: Seq<Seq<u8>>,
    images: Seq<LevelImage>,
    n: int,
    l: int,
)
    requires
        0 <= l <= rows.len(),
        0 < n <= MAX_LEVEL_ROWS,
        forall|k: int|
            0 <= k < rows.len() ==> {
                &&& is_image(#[trigger] rows[k], false, images[k])
                &&& digits_below(rows[k], 4)
                &&& rows[k].len() == n
            },
    ensures
        l * (level_bound(n) - 16) <= payload(base, images, l).len(),
    decreases l,
{
    let b = level_bound(n) - 16;
    if l > 0 {
        lemma_payload_least(base, rows, images, n, l - 1);
        lemma_aligned(base + payload(base, images, l - 1).len(), 64);
        assert(is_image(rows[l - 1], false, images[l - 1]));
        lemma_image_len(rows[l - 1], false, images[l - 1]);
        lemma_image_size(rows[l - 1], false);
        assert(l * b == (l - 1) * b + b) by (nonlinear_arith);
    } else {
        assert(0 * b == 0);
    }
}

/// The bound is near what the container of a tree takes.
proof fn lemma_bound_near(tree: QWaveletTree<u32, RSQVector<256>>)
    requires
        tree.wf(),
    ensures
        container_bound(
            tree.seq().len() as int,
            direct_levels(tree.seq().len() as int, tree.largest() as u32),
            LEVEL_DIR_SIZE as int,
            0,
        ) <= tree_bytes(tree).len() + 144 * tree.level_count(),
{
    let rows = tree.levels();
    let images = images_of(tree.quads());
    let n = tree.seq().len() as int;
    let levels = rows.len() as int;
    tree.lemma_wf();
    lemma_images_of(tree.quads());
    lemma_qwtb_front_len(false, 4, n, tree.largest() as int, rows, images);
    let base = qwtb_base(levels);
    if levels > 0 {
        assert(is_image(rows[0], false, images[0]));
        assert(rows[0].len() == n);
        assert forall|k: int| 0 <= k < rows.len() implies {
            &&& is_image(#[trigger] rows[k], false, images[k])
            &&& digits_below(rows[k], 4)
            &&& rows[k].len() == n
        } by {}
        lemma_payload_least(base, rows, images, n, levels);
        let b = level_bound(n);
        assert(levels * (b + 128) == levels * (b - 16) + 144 * levels) by (nonlinear_arith);
    } else {
        assert(0 * (level_bound(n) + 128) == 0);
    }
}

/// Every sequence that a direct build accepts has an output bound. The container of
/// its tree keeps to it, and comes near: no more than 144 bytes are left over for a
/// level.
pub proof fn plain_bound(
    v: Vec<u32>,
    m: u32,
    tree: QWaveletTree<u32, RSQVector<256>>,
    w: Result<Vec<u8>, LayoutError>,
    bound: Result<u64, DirectQwtBuildError>,
    levels: usize,
)
    requires
        call_ensures(QWaveletTree::<u32, RSQVector<256>>::from, (v,), tree),
        v.len() > 0 ==> is_max(v@, m),
        call_ensures(qwt_to_bytes::<u32, 256>, (&tree,), w),
        call_ensures(qwt256_u32_output_upper_bound, (v.len() as u64, m), bound),
        call_ensures(QWaveletTree::<u32, RSQVector<256>>::n_levels, (&tree,), levels),
        v.len() <= 0xff_ffff_ff00,
    ensures
        bound is Ok,
        w matches Ok(bytes) ==> bytes.len() <= bound->Ok_0 <= bytes.len() + 144 * levels,
        bound->Ok_0 <= usize::MAX ==> w is Ok,
{
    tree.lemma_wf();
    lemma_output_bound(tree);
    lemma_bound_near(tree);
    if v.len() > 0 {
        assert(tree.largest() == m) by {
            let top = choose|t: u32| is_max(v@, t) && t.val() == tree.largest();
            let i = choose|i: int| 0 <= i < v.len() && #[trigger] v@[i] == m;
            let j = choose|j: int| 0 <= j < v.len() && #[trigger] v@[j] == top;
            assert(v@[i].val() <= top.val() && v@[j].val() <= m.val());
        }
    }
}

/// An alphabet is accepted by a direct build exactly where the code tables of the
/// tree of its symbols can be written, and a tree that is written keeps to the
/// output bound.
pub proof fn compressed_bound(
    v: Vec<u32>,
    m: u32,
    tree: HuffQWaveletTree<u32, RSQVector<256>>,
    w: Result<Vec<u8>, LayoutError>,
    accepted: Result<(), DirectQwtBuildError>,
    bound: Result<u64, DirectQwtBuildError>,
)
    requires
        call_ensures(HuffQWaveletTree::<u32, RSQVector<256>>::from, (v,), Some(tree)),
        is_max(v@, m),
        m < u32::MAX,
        call_ensures(hqwt_to_bytes::<u32, 256>, (&tree,), w),
        call_ensures(validate_alphabet, (v.len() as u64, (m + 1) as u32), accepted),
        call_ensures(hqwt256_u32_output_upper_bound, (v.len() as u64, (m + 1) as u32), bound),
        v.len() <= 0xff_ffff_ff00,
    ensures
        w is Ok ==> accepted is Ok && bound is Ok,
        w matches Ok(bytes) ==> bytes.len() <= bound->Ok_0,
        accepted is Ok ==> bound is Ok && (bound->Ok_0 <= usize::MAX ==> w is Ok),
        accepted is Err ==> w is Err && bound is Err,
{
    tree.lemma_wf();
    lemma_huff_output_bound(tree);
    assert(v.len() > 0);
    assert(tree.encode().len() == m.val() + 1);
}

/// The bound on a compressed container is no more than sixteen levels and the
/// tables can need.
pub proof fn compressed_bound_near(
    rows: u64,
    alphabet_size: u32,
    r: Result<u64, DirectQwtBuildError>,
)
    requires
        call_ensures(hqwt256_u32_output_upper_bound, (rows, alphabet_size), r),
    ensures
        r is Ok <==> rows <= 0xff_ffff_ff00 && alphabet_size <= u16::MAX && (rows == 0
            <==> alphabet_size == 0),
        r matches Ok(b) ==> 20 * alphabet_size <= b <= 5 * rows + 20 * alphabet_size + 10_000,
{
    let b = level_bound(rows as int) + 128;
    lemma_aligned(16 * 136 + 32 + 20 * alphabet_size + 139, 64);
    lemma_aligned(32 + 20 * alphabet_size + 139, 64);
    assert(rows == 0 ==> 0 * b == 0);
}

/// A bound is given for every container that is far from the end of the numbers. It
/// grows by the sections of a level and its directory entry with each level, and by
/// the tables.
pub proof fn bound_given(
    rows: u64,
    levels: u16,
    entry: u64,
    metadata: u64,
    r: Result<u64, DirectQwtBuildError>,
)
    requires
        call_ensures(container_output_upper_bound, (rows, levels, entry, metadata), r),
    ensures
        levels * (rows / 2 + 500) + levels * entry + metadata + 200 <= u64::MAX && rows
            <= 0x7fff_ffff_ffff_ffff ==> r is Ok,
        r matches Ok(b) ==> levels * (rows / 4) + levels * entry + metadata <= b <= levels * (rows
            / 2 + 500) + levels * entry + metadata + 200,
        r matches Err(e) ==> e is Overflow,
{
    let l = levels as int;
    let b = level_bound(rows as int) + 128;
    lemma_aligned(l * entry + 32 + metadata, 64);
    assert(l * (rows as int / 4) <= l * b <= l * (rows as int / 2 + 500)) by (nonlinear_arith)
        requires
            0 <= l,
            rows as int / 4 <= b <= rows as int / 2 + 500,
    ;
    assert(l * entry >= 0) by (nonlinear_arith)
        requires
            0 <= l,
            0 <= entry,
    ;
}

/// Scratch space holds the source, the buckets where there is more than one level,
/// and the sections of one level.
pub proof fn scratch_needed(
    rows: u64,
    levels: u16,
    source_detail: &'static str,
    total_detail: &'static str,
    r: Result<u64, DirectQwtBuildError>,
)
    requires
        call_ensures(scratch_upper_bound, (rows, levels, source_detail, total_detail), r),
    ensures
        rows <= 0xff_ffff_ff00 ==> r is Ok,
        r matches Ok(b) ==> (levels == 0 ==> b == 0) && (levels == 1 ==> 4 * rows + rows / 4 <= b
            <= 4 * rows + rows / 2 + 500) && (levels > 1 ==> 8 * rows + rows / 4 <= b <= 8 * rows
            + rows / 2 + 500),
        r matches Err(e) ==> e is Overflow,
{
}

/// The bytes of a source are four for a row, where the host, the paths and the rows
/// are in order.
pub proof fn source_bytes(
    host: Result<(), LayoutError>,
    same_path: bool,
    rows: u64,
    compressed: bool,
    r: Result<u64, DirectQwtBuildError>,
)
    requires
        call_ensures(direct_source_bytes, (host, same_path, rows, compressed), r),
    ensures
        r is Ok <==> host is Ok && !same_path && exists|lines: u32|
            rows <= 256 * #[trigger] as_rows(lines),
        r matches Ok(bytes) ==> bytes == 4 * rows,
        r matches Err(e) ==> e is InvalidInput,
{
    if rows <= 0xff_ffff_ff00 {
        assert(rows <= 256 * as_rows(u32::MAX));
    }
}

/// A direct build is planned exactly where the source has the right length and the
/// budget covers six buffers of 4096 bytes and the scratch space. The buffers are
/// equal and use up the budget but for a rest.
pub proof fn plain_plan(
    rows: u64,
    sigma: u32,
    source_len: u64,
    budget: DirectQwtBuildBudget,
    levels: usize,
    v: Vec<u32>,
    tree: QWaveletTree<u32, RSQVector<256>>,
    source_detail: &'static str,
    total_detail: &'static str,
    scratch: Result<u64, DirectQwtBuildError>,
    r: Result<DirectQwtPlan, DirectQwtBuildError>,
)
    requires
        rows <= 0xff_ffff_ff00,
        call_ensures(plan_qwt256_u32_direct, (rows, sigma, source_len, budget), r),
        call_ensures(QWaveletTree::<u32, RSQVector<256>>::from, (v,), tree),
        v.len() == rows,
        v.len() > 0 ==> is_max(v@, sigma),
        call_ensures(QWaveletTree::<u32, RSQVector<256>>::n_levels, (&tree,), levels),
        call_ensures(
            scratch_upper_bound,
            (rows, levels as u16, source_detail, total_detail),
            scratch,
        ),
        budget.buffer_bytes <= usize::MAX,
    ensures
        scratch is Ok,
        r is Ok <==> source_len == 4 * rows && budget.buffer_bytes >= 6 * 4096
            && budget.scratch_bytes >= scratch->Ok_0,
        r matches Ok(plan) ==> 6 * plan.per_stream_buffer <= budget.buffer_bytes < 6 * (
        plan.per_stream_buffer + 1) && plan.rows == rows && plan.sigma == sigma,
        r matches Ok(plan) ==> plan.copy_buffer_len <= budget.buffer_bytes && plan.copy_buffer_len
            <= 0x10_0000 && (plan.copy_buffer_len == budget.buffer_bytes || plan.copy_buffer_len
            == 0x10_0000),
        r matches Err(DirectQwtBuildError::ScratchBudget { required, limit }) ==> required
            == scratch->Ok_0 && limit == budget.scratch_bytes && required > limit,
        r matches Err(DirectQwtBuildError::BufferBudget { required, limit }) ==> required == 6
            * 4096 && limit == budget.buffer_bytes && required > limit,
{
    tree.lemma_wf();
    if v.len() > 0 {
        assert(tree.level_count() <= 16) by {
            lemma_level_count(sigma);
        }
    }
}

proof fn lemma_level_count(sigma: u32)
    ensures
        0 < crate::quadwt::quad_levels(sigma as u64) <= 16,
{
    let m = crate::utils::msb_of(sigma as u64);
    crate::utils::lemma_msb_bounds(sigma as u64);
    if m >= 32 {
        vstd::arithmetic::power2::lemma2_to64();
        if m > 32 {
            vstd::arithmetic::power2::lemma_pow2_strictly_increases(32, m as nat);
        }
    }
}

/// The buffers of a compressed build are given exactly where the source has the
/// right length and the budget covers the tables and seven buffers of 4096 bytes.
/// They are equal and use up what the tables leave, but for a rest.
pub proof fn compressed_buffers(
    rows: u64,
    alphabet_size: u32,
    source_len: u64,
    budget: DirectQwtBuildBudget,
    r: Result<DirectHqwtBuffers, DirectQwtBuildError>,
)
    requires
        rows <= 0xff_ffff_ff00,
        alphabet_size <= u16::MAX,
        call_ensures(plan_hqwt256_u32_buffers, (rows, alphabet_size, source_len, budget), r),
        budget.buffer_bytes <= usize::MAX,
    ensures
        r is Ok <==> source_len == 4 * rows && budget.buffer_bytes >= 128 * alphabet_size + 8
            * 4096,
        r matches Ok(b) ==> 7 * b.per_stream_buffer <= budget.buffer_bytes - 128 * alphabet_size
            - 4096 < 7 * (b.per_stream_buffer + 1),
        r matches Ok(b) ==> b.copy_buffer_len <= budget.buffer_bytes - 128 * alphabet_size - 4096
            && b.copy_buffer_len <= 0x10_0000 && (b.copy_buffer_len == budget.buffer_bytes - 128
            * alphabet_size - 4096 || b.copy_buffer_len == 0x10_0000),
        r matches Err(DirectQwtBuildError::BufferBudget { required, limit }) ==> limit
            == budget.buffer_bytes && required == 128 * alphabet_size + 8 * 4096 && required
            > limit,
{
}

} // verus!
