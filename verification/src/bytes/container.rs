//! The header and the directory of a container.

use vstd::prelude::*;

use super::dir::dir_of;
use super::error::LayoutError;
use super::layout::{dir_error, dir_rows};
use super::le::{le_at, read_u16};
use super::{FLAG_B512, FLAG_PREFETCH, FORMAT_VERSION, HEADER_SIZE};
use crate::indexable::WTIndexable;

verus! {

/// The first bytes of a plain container.
pub const QWTB_MAGIC: [u8; 4] = [0x51, 0x57, 0x54, 0x42];

/// The first bytes of a Huffman container.
pub const HQWB_MAGIC: [u8; 4] = [0x48, 0x51, 0x57, 0x42];

/// A stored number as a size of this machine.
pub open spec fn size_at(s: Seq<u8>, at: int) -> usize {
    <usize as WTIndexable>::truncated(le_at(s, at, 8) as u64)
}

/// What the part of the header that both formats share must say.
pub open spec fn header_error(s: Seq<u8>, magic: Seq<u8>, b512: bool, width: int) -> Option<
    LayoutError,
> {
    if s.len() < HEADER_SIZE {
        Some(LayoutError::Truncated)
    } else if s.subrange(0, 4) != magic {
        Some(LayoutError::BadMagic)
    } else if le_at(s, 4, 2) != FORMAT_VERSION {
        Some(LayoutError::BadVersion)
    } else if s[6] & FLAG_PREFETCH != 0 {
        Some(LayoutError::PrefetchNotSupported)
    } else if b512 != (s[6] & FLAG_B512 != 0) {
        Some(LayoutError::Inconsistent { detail: "B_SIZE flag does not match requested type" })
    } else if s[7] * 8 != width {
        Some(LayoutError::Inconsistent { detail: "t_width does not match T" })
    } else {
        None
    }
}

/// The first error among the directory entries from `l` on. Entries have `size`
/// bytes.
pub open spec fn dirs_error(
    s: Seq<u8>,
    addr: int,
    b512: bool,
    size: int,
    count: int,
    l: int,
) -> Option<LayoutError>
    decreases count - l,
{
    if l >= count {
        None
    } else {
        match dir_error(s, addr, dir_of(s, HEADER_SIZE + size * l), b512) {
            Some(e) => Some(e),
            None => dirs_error(s, addr, b512, size, count, l + 1),
        }
    }
}

/// No fault of the bytes is blamed on the host.
pub proof fn lemma_fault(
    s: Seq<u8>,
    magic: Seq<u8>,
    addr: int,
    b512: bool,
    width: int,
    size: int,
    count: int,
    l: int,
)
    ensures
        header_error(s, magic, b512, width) != Some(LayoutError::BigEndian),
        dirs_error(s, addr, b512, size, count, l) != Some(LayoutError::BigEndian),
    decreases count - l,
{
    if l < count {
        lemma_fault(s, magic, addr, b512, width, size, count, l + 1);
    }
}

/// The rows of the levels.
pub open spec fn container_levels(s: Seq<u8>, size: int, count: int) -> Seq<Seq<u8>> {
    Seq::new(count as nat, |l: int| dir_rows(s, dir_of(s, HEADER_SIZE + size * l)))
}

pub proof fn lemma_le_at_sub(s: Seq<u8>, lo: int, hi: int, at: int, n: int)
    requires
        0 <= lo <= hi <= s.len(),
        0 <= at,
        0 <= n,
        lo + at + n <= hi,
    ensures
        le_at(s.subrange(lo, hi), at, n) == le_at(s, lo + at, n),
{
    assert(s.subrange(lo, hi).subrange(at, at + n) =~= s.subrange(lo + at, lo + at + n));
}

/// An entry is the same in a part of the bytes.
pub proof fn lemma_dir_sub(s: Seq<u8>, lo: int, hi: int)
    requires
        0 <= lo,
        lo + 128 <= hi <= s.len(),
    ensures
        dir_of(s.subrange(lo, hi), 0) == dir_of(s, lo),
{
    let t = s.subrange(lo, hi);
    let a = dir_of(t, 0);
    let b = dir_of(s, lo);
    lemma_le_at_sub(s, lo, hi, 0, 8);
    lemma_le_at_sub(s, lo, hi, 8, 4);
    lemma_le_at_sub(s, lo, hi, 16, 8);
    lemma_le_at_sub(s, lo, hi, 24, 8);
    lemma_le_at_sub(s, lo, hi, 32, 4);
    assert forall|k: int| 0 <= k < 4 implies a.off_sel[k] == b.off_sel[k] by {
        lemma_le_at_sub(s, lo, hi, 40 + 8 * k, 8);
    }
    assert forall|k: int| 0 <= k < 4 implies a.n_sel[k] == b.n_sel[k] by {
        lemma_le_at_sub(s, lo, hi, 72 + 4 * k, 4);
    }
    assert forall|k: int| 0 <= k < 5 implies a.n_occs_smaller[k] == b.n_occs_smaller[k] by {
        lemma_le_at_sub(s, lo, hi, 88 + 8 * k, 8);
    }
    assert(a.off_sel =~= b.off_sel);
    assert(a.n_sel =~= b.n_sel);
    assert(a.n_occs_smaller =~= b.n_occs_smaller);
}

fn magic_is(bytes: &[u8], magic: [u8; 4]) -> (r: bool)
    requires
        bytes@.len() >= 4,
    ensures
        r == (bytes@.subrange(0, 4) == magic@),
{
    let r: bool = bytes[0] == magic[0] && bytes[1] == magic[1] && bytes[2] == magic[2] && bytes[3]
        == magic[3];
    proof {
        let s = bytes@.subrange(0, 4);
        if r {
            assert(s =~= magic@);
        } else {
            assert(s[0] != magic@[0] || s[1] != magic@[1] || s[2] != magic@[2] || s[3]
                != magic@[3]);
        }
    }
    r
}

/// Checks the part of the header that both formats share.
pub fn check_header(bytes: &[u8], magic: [u8; 4], b512: bool, width: u32) -> (r: Result<
    (),
    LayoutError,
>)
    ensures
        match r {
            Ok(()) => header_error(bytes@, magic@, b512, width as int) is None,
            Err(e) => header_error(bytes@, magic@, b512, width as int) == Some(e),
        },
{
    if bytes.len() < HEADER_SIZE {
        return Err(LayoutError::Truncated);
    }
    if !magic_is(bytes, magic) {
        return Err(LayoutError::BadMagic);
    }
    let version: u16 = read_u16(bytes, 4);
    if version != FORMAT_VERSION {
        return Err(LayoutError::BadVersion);
    }
    let flags: u8 = bytes[6];
    if flags & FLAG_PREFETCH != 0 {
        return Err(LayoutError::PrefetchNotSupported);
    }
    let want_b512: bool = flags & FLAG_B512 != 0;
    if b512 != want_b512 {
        return Err(
            LayoutError::Inconsistent { detail: "B_SIZE flag does not match requested type" },
        );
    }
    let t_width: u8 = bytes[7];
    if t_width as u32 * 8 != width {
        return Err(LayoutError::Inconsistent { detail: "t_width does not match T" });
    }
    Ok(())
}

} // verus!
