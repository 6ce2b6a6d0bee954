//! What makes a directory entry acceptable.

use vstd::prelude::*;

use super::dir::DirView;
use super::error::LayoutError;
use super::image::{
    data_bits, line_count, rows_of, sample_list, super_bytes, super_count, u32_bytes,
};
use crate::wavelet::below;

verus! {

/// The data lines of a level.
pub open spec fn dir_data(s: Seq<u8>, d: DirView) -> Seq<u8> {
    s.subrange(d.off_data, d.off_data + 64 * d.n_datalines)
}

/// The superblocks of a level.
pub open spec fn dir_superblocks(s: Seq<u8>, d: DirView) -> Seq<u8> {
    s.subrange(d.off_superblocks, d.off_superblocks + 64 * d.n_superblocks)
}

/// The select samples of digit `k` of a level.
pub open spec fn dir_select(s: Seq<u8>, d: DirView, k: int) -> Seq<u8> {
    s.subrange(d.off_sel[k], d.off_sel[k] + 4 * d.n_sel[k])
}

/// The number of rows of a level.
pub open spec fn dir_len(d: DirView) -> int {
    d.position_bits / 2
}

/// The rows of a level.
pub open spec fn dir_rows(s: Seq<u8>, d: DirView) -> Seq<u8> {
    rows_of(dir_data(s, d), dir_len(d))
}

/// All parts of a level lie inside of `total` bytes.
pub open spec fn dir_inside(d: DirView, total: int) -> bool {
    &&& d.off_data + 64 * d.n_datalines <= total
    &&& d.off_superblocks + 64 * d.n_superblocks <= total
    &&& forall|k: int| 0 <= k < 4 ==> (#[trigger] d.off_sel[k]) + 4 * d.n_sel[k] <= total
}

/// All parts of a level are aligned where the container begins at address
/// `addr`.
pub open spec fn dir_aligned(d: DirView, addr: int) -> bool {
    &&& (addr + d.off_data) % 64 == 0
    &&& (addr + d.off_superblocks) % 64 == 0
    &&& forall|k: int| 0 <= k < 4 ==> (addr + #[trigger] d.off_sel[k]) % 4 == 0
}

/// The row count fits the data lines.
pub open spec fn dir_positions(d: DirView) -> bool {
    &&& d.position_bits % 2 == 0
    &&& line_count(dir_len(d)) == d.n_datalines
    &&& dir_len(d) <= usize::MAX
}

/// Why a container at address `addr` cannot have a level with this entry.
pub open spec fn dir_error(s: Seq<u8>, addr: int, d: DirView, b512: bool) -> Option<LayoutError> {
    let rows = dir_rows(s, d);
    let n = dir_len(d);
    if !dir_inside(d, s.len() as int) {
        Some(LayoutError::Truncated)
    } else if !dir_aligned(d, addr) {
        Some(LayoutError::Misaligned)
    } else if !dir_positions(d) {
        Some(LayoutError::Inconsistent { detail: "invalid position metadata" })
    } else if d.n_superblocks != super_count(n, b512) {
        Some(LayoutError::Inconsistent { detail: "invalid superblock metadata" })
    } else if exists|k: int| 0 <= k < 5 && #[trigger] d.n_occs_smaller[k] != below(rows, k, n) {
        Some(LayoutError::Inconsistent { detail: "invalid occurrence metadata" })
    } else if exists|k: int|
        0 <= k < 4 && #[trigger] dir_select(s, d, k) != u32_bytes(
            sample_list(rows, b512, k as u8),
        ) {
        Some(LayoutError::Inconsistent { detail: "invalid select-sample metadata" })
    } else if !data_bits(rows, dir_data(s, d)) {
        Some(LayoutError::Inconsistent { detail: "invalid data-line padding" })
    } else if dir_superblocks(s, d) != super_bytes(rows, b512, super_count(n, b512)) {
        Some(LayoutError::Inconsistent { detail: "invalid rank-support data" })
    } else {
        None
    }
}

} // verus!
