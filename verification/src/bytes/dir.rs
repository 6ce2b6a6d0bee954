//! Directory entries.

use vstd::prelude::*;

use super::error::LayoutError;
use super::image::{lemma_u32_bytes_at, u32_bytes};
use super::le::{
    le_at, le_bytes, lemma_le_bytes, lemma_pow256, put_u32, put_u64, read_u32, read_u64,
};
use super::{HQWT_LEVEL_DIR_SIZE, LEVEL_DIR_SIZE};

verus! {

/// Numbers as 64-bit words.
pub open spec fn u64_bytes(xs: Seq<int>) -> Seq<u8>
    decreases xs.len(),
{
    if xs.len() == 0 {
        Seq::empty()
    } else {
        u64_bytes(xs.drop_last()) + le_bytes(xs.last(), 8)
    }
}

pub proof fn lemma_u64_bytes_len(xs: Seq<int>)
    requires
        forall|k: int| 0 <= k < xs.len() ==> #[trigger] xs[k] >= 0,
    ensures
        u64_bytes(xs).len() == 8 * xs.len(),
    decreases xs.len(),
{
    if xs.len() > 0 {
        assert(xs.last() == xs[xs.len() - 1]);
        assert forall|k: int| 0 <= k < xs.drop_last().len() implies #[trigger] xs.drop_last()[k]
            >= 0 by {
            assert(xs.drop_last()[k] == xs[k]);
        }
        lemma_u64_bytes_len(xs.drop_last());
        lemma_le_bytes(xs.last(), 8);
    }
}

/// Number `k` stands where it is looked for.
pub proof fn lemma_u64_bytes_at(xs: Seq<int>, k: int)
    requires
        forall|j: int| 0 <= j < xs.len() ==> 0 <= #[trigger] xs[j] < 0x1_0000_0000_0000_0000,
        0 <= k < xs.len(),
    ensures
        u64_bytes(xs).len() == 8 * xs.len(),
        le_at(u64_bytes(xs), 8 * k, 8) == xs[k],
    decreases xs.len(),
{
    let rest = xs.drop_last();
    assert forall|j: int| 0 <= j < rest.len() implies 0 <= #[trigger] rest[j]
        < 0x1_0000_0000_0000_0000 by {
        assert(rest[j] == xs[j]);
    }
    if rest.len() > 0 {
        lemma_u64_bytes_at(rest, if k < rest.len() {
            k
        } else {
            0
        });
    } else {
        assert(u64_bytes(rest) =~= Seq::<u8>::empty());
    }
    let all = u64_bytes(xs);
    assert(xs.last() == xs[xs.len() - 1]);
    lemma_le_bytes(xs.last(), 8);
    if k == xs.len() - 1 {
        assert(all.subrange(8 * k, 8 * k + 8) =~= le_bytes(xs[k], 8));
        lemma_pow256();
    } else {
        assert(all.subrange(8 * k, 8 * k + 8) =~= u64_bytes(rest).subrange(8 * k, 8 * k + 8));
    }
}

/// What a directory entry says of a level.
#[verifier::ext_equal]
pub struct DirView {
    pub off_data: int,
    pub n_datalines: int,
    pub position_bits: int,
    pub off_superblocks: int,
    pub n_superblocks: int,
    pub off_sel: Seq<int>,
    pub n_sel: Seq<int>,
    pub n_occs_smaller: Seq<int>,
}

/// Where the payload of a level lies, and how large its parts are.
#[derive(Clone, Copy, Debug)]
pub struct LevelDir {
    pub off_data: u64,
    pub n_datalines: u32,
    pub position_bits: u64,
    pub off_superblocks: u64,
    pub n_superblocks: u32,
    pub off_sel: [u64; 4],
    pub n_sel: [u32; 4],
    pub n_occs_smaller: [u64; 5],
}

/// A directory entry of a Huffman container.
#[derive(Clone, Copy, Debug)]
pub struct HqwtLevelDir {
    pub plain: LevelDir,
    pub level_len: u64,
}

impl View for LevelDir {
    type V = DirView;

    open spec fn view(&self) -> DirView {
        DirView {
            off_data: self.off_data as int,
            n_datalines: self.n_datalines as int,
            position_bits: self.position_bits as int,
            off_superblocks: self.off_superblocks as int,
            n_superblocks: self.n_superblocks as int,
            off_sel: self.off_sel@.map_values(|x: u64| x as int),
            n_sel: self.n_sel@.map_values(|x: u32| x as int),
            n_occs_smaller: self.n_occs_smaller@.map_values(|x: u64| x as int),
        }
    }
}

/// The directory entry at offset `at`.
pub open spec fn dir_of(s: Seq<u8>, at: int) -> DirView {
    DirView {
        off_data: le_at(s, at, 8),
        n_datalines: le_at(s, at + 8, 4),
        position_bits: le_at(s, at + 16, 8),
        off_superblocks: le_at(s, at + 24, 8),
        n_superblocks: le_at(s, at + 32, 4),
        off_sel: Seq::new(4, |k: int| le_at(s, at + 40 + 8 * k, 8)),
        n_sel: Seq::new(4, |k: int| le_at(s, at + 72 + 4 * k, 4)),
        n_occs_smaller: Seq::new(5, |k: int| le_at(s, at + 88 + 8 * k, 8)),
    }
}

/// The part of an entry before its lists.
pub open spec fn dir_head(d: DirView) -> Seq<u8> {
    le_bytes(d.off_data, 8) + le_bytes(d.n_datalines, 4) + le_bytes(0, 4) + le_bytes(
        d.position_bits,
        8,
    ) + le_bytes(d.off_superblocks, 8) + le_bytes(d.n_superblocks, 4) + le_bytes(0, 4)
}

/// The bytes of a directory entry.
pub open spec fn dir_bytes(d: DirView) -> Seq<u8> {
    dir_head(d) + u64_bytes(d.off_sel) + u32_bytes(d.n_sel) + u64_bytes(d.n_occs_smaller)
}

/// The numbers of an entry fit its fields.
pub open spec fn dir_fits(d: DirView) -> bool {
    &&& 0 <= d.off_data < 0x1_0000_0000_0000_0000
    &&& 0 <= d.n_datalines < 0x1_0000_0000
    &&& 0 <= d.position_bits < 0x1_0000_0000_0000_0000
    &&& 0 <= d.off_superblocks < 0x1_0000_0000_0000_0000
    &&& 0 <= d.n_superblocks < 0x1_0000_0000
    &&& d.off_sel.len() == 4
    &&& forall|k: int| 0 <= k < 4 ==> 0 <= #[trigger] d.off_sel[k] < 0x1_0000_0000_0000_0000
    &&& d.n_sel.len() == 4
    &&& forall|k: int| 0 <= k < 4 ==> 0 <= #[trigger] d.n_sel[k] < 0x1_0000_0000
    &&& d.n_occs_smaller.len() == 5
    &&& forall|k: int|
        0 <= k < 5 ==> 0 <= #[trigger] d.n_occs_smaller[k] < 0x1_0000_0000_0000_0000
}

/// An entry is read as it was written.
pub proof fn lemma_dir_bytes(d: DirView, s: Seq<u8>, at: int)
    requires
        dir_fits(d),
        0 <= at,
        at + 128 <= s.len(),
        s.subrange(at, at + 128) == dir_bytes(d),
    ensures
        dir_bytes(d).len() == 128,
        dir_of(s, at) == d,
{
    lemma_pow256();
    lemma_le_bytes(d.off_data, 8);
    lemma_le_bytes(d.n_datalines, 4);
    lemma_le_bytes(0, 4);
    lemma_le_bytes(d.position_bits, 8);
    lemma_le_bytes(d.off_superblocks, 8);
    lemma_le_bytes(d.n_superblocks, 4);
    lemma_u64_bytes_at(d.off_sel, 0);
    lemma_u32_bytes_at(d.n_sel, 0);
    lemma_u64_bytes_at(d.n_occs_smaller, 0);
    let h = dir_head(d);
    let b = dir_bytes(d);
    assert(h.len() == 40);
    assert(forall|i: int| 0 <= i < 128 ==> s[at + i] == #[trigger] b[i]);
    assert(s.subrange(at, at + 40) =~= h) by {
        assert forall|i: int| 0 <= i < 40 implies s[at + i] == #[trigger] h[i] by {
            assert(s[at + i] == b[i]);
        }
    }
    assert forall|lo: int, hi: int| 0 <= lo <= hi <= 40 implies #[trigger] s.subrange(
        at + lo,
        at + hi,
    ) == h.subrange(lo, hi) by {
        assert forall|i: int| lo <= i < hi implies s[at + i] == #[trigger] h[i] by {
            assert(s[at + i] == b[i]);
        }
        assert(s.subrange(at + lo, at + hi) =~= h.subrange(lo, hi));
    }
    assert(s.subrange(at + 0, at + 8) == h.subrange(0, 8));
    assert(h.subrange(0, 8) =~= le_bytes(d.off_data, 8));
    assert(s.subrange(at + 8, at + 12) == h.subrange(8, 12));
    assert(h.subrange(8, 12) =~= le_bytes(d.n_datalines, 4));
    assert(s.subrange(at + 16, at + 24) == h.subrange(16, 24));
    assert(h.subrange(16, 24) =~= le_bytes(d.position_bits, 8));
    assert(s.subrange(at + 24, at + 32) == h.subrange(24, 32));
    assert(h.subrange(24, 32) =~= le_bytes(d.off_superblocks, 8));
    assert(s.subrange(at + 32, at + 36) == h.subrange(32, 36));
    assert(h.subrange(32, 36) =~= le_bytes(d.n_superblocks, 4));
    let r = dir_of(s, at);
    let p1 = u64_bytes(d.off_sel);
    let p2 = u32_bytes(d.n_sel);
    let p3 = u64_bytes(d.n_occs_smaller);
    assert forall|k: int| 0 <= k < 4 implies r.off_sel[k] == d.off_sel[k] by {
        lemma_u64_bytes_at(d.off_sel, k);
        let x = s.subrange(at + 40 + 8 * k, at + 40 + 8 * k + 8);
        let y = p1.subrange(8 * k, 8 * k + 8);
        assert forall|i: int| 0 <= i < 8 implies #[trigger] x[i] == y[i] by {
            assert(s[at + (40 + 8 * k + i)] == b[40 + 8 * k + i]);
        }
        assert(x =~= y);
    }
    assert forall|k: int| 0 <= k < 4 implies r.n_sel[k] == d.n_sel[k] by {
        lemma_u32_bytes_at(d.n_sel, k);
        let x = s.subrange(at + 72 + 4 * k, at + 72 + 4 * k + 4);
        let y = p2.subrange(4 * k, 4 * k + 4);
        assert forall|i: int| 0 <= i < 4 implies #[trigger] x[i] == y[i] by {
            assert(s[at + (72 + 4 * k + i)] == b[72 + 4 * k + i]);
        }
        assert(x =~= y);
    }
    assert forall|k: int| 0 <= k < 5 implies r.n_occs_smaller[k] == d.n_occs_smaller[k] by {
        lemma_u64_bytes_at(d.n_occs_smaller, k);
        let x = s.subrange(at + 88 + 8 * k, at + 88 + 8 * k + 8);
        let y = p3.subrange(8 * k, 8 * k + 8);
        assert forall|i: int| 0 <= i < 8 implies #[trigger] x[i] == y[i] by {
            assert(s[at + (88 + 8 * k + i)] == b[88 + 8 * k + i]);
        }
        assert(x =~= y);
    }
    assert(r.off_sel =~= d.off_sel);
    assert(r.n_sel =~= d.n_sel);
    assert(r.n_occs_smaller =~= d.n_occs_smaller);
}

impl LevelDir {
    /// Reads an entry.
    pub fn read(buf: &[u8]) -> (r: Result<Self, LayoutError>)
        ensures
            match r {
                Ok(dir) => buf@.len() >= LEVEL_DIR_SIZE && dir@ == dir_of(buf@, 0),
                Err(e) => buf@.len() < LEVEL_DIR_SIZE && e == LayoutError::Truncated,
            },
    {
        if buf.len() < LEVEL_DIR_SIZE {
            return Err(LayoutError::Truncated);
        }
        let dir = LevelDir {
            off_data: read_u64(buf, 0),
            n_datalines: read_u32(buf, 8),
            position_bits: read_u64(buf, 16),
            off_superblocks: read_u64(buf, 24),
            n_superblocks: read_u32(buf, 32),
            off_sel: [
                read_u64(buf, 40),
                read_u64(buf, 48),
                read_u64(buf, 56),
                read_u64(buf, 64),
            ],
            n_sel: [
                read_u32(buf, 72),
                read_u32(buf, 76),
                read_u32(buf, 80),
                read_u32(buf, 84),
            ],
            n_occs_smaller: [
                read_u64(buf, 88),
                read_u64(buf, 96),
                read_u64(buf, 104),
                read_u64(buf, 112),
                read_u64(buf, 120),
            ],
        };
        proof {
            let r = dir_of(buf@, 0);
            assert(dir@.off_sel =~= r.off_sel);
            assert(dir@.n_sel =~= r.n_sel);
            assert(dir@.n_occs_smaller =~= r.n_occs_smaller);
        }
        Ok(dir)
    }

    /// Appends an entry.
    pub fn write(&self, out: &mut Vec<u8>)
        ensures
            final(out)@ == old(out)@ + dir_bytes(self@),
    {
        let ghost start = out@;
        put_u64(out, self.off_data);
        put_u32(out, self.n_datalines);
        put_u32(out, 0);
        put_u64(out, self.position_bits);
        put_u64(out, self.off_superblocks);
        put_u32(out, self.n_superblocks);
        put_u32(out, 0);
        assert(out@ =~= start + dir_head(self@));
        let ghost d = self@;
        let mut k: usize = 0;
        while k < 4
            invariant
                k <= 4,
                d == self@,
                out@ == start + dir_head(d) + u64_bytes(d.off_sel.take(k as int)),
            decreases 4 - k,
        {
            let ghost before = out@;
            put_u64(out, self.off_sel[k]);
            proof {
                let more = d.off_sel.take(k + 1);
                assert(more.drop_last() =~= d.off_sel.take(k as int));
                assert(more.last() == self.off_sel@[k as int]);
                assert(out@ =~= start + dir_head(d) + u64_bytes(more));
            }
            k = k + 1;
        }
        let ghost part = start + dir_head(d) + u64_bytes(d.off_sel);
        assert(d.off_sel.take(4) =~= d.off_sel);
        let mut k: usize = 0;
        assert(out@ =~= part + u32_bytes(d.n_sel.take(0)));
        while k < 4
            invariant
                k <= 4,
                d == self@,
                out@ == part + u32_bytes(d.n_sel.take(k as int)),
            decreases 4 - k,
        {
            put_u32(out, self.n_sel[k]);
            proof {
                let more = d.n_sel.take(k + 1);
                assert(more.drop_last() =~= d.n_sel.take(k as int));
                assert(more.last() == self.n_sel@[k as int]);
                assert(out@ =~= part + u32_bytes(more));
            }
            k = k + 1;
        }
        assert(d.n_sel.take(4) =~= d.n_sel);
        let ghost next = part + u32_bytes(d.n_sel);
        let mut k: usize = 0;
        assert(out@ =~= next + u64_bytes(d.n_occs_smaller.take(0)));
        while k < 5
            invariant
                k <= 5,
                d == self@,
                out@ == next + u64_bytes(d.n_occs_smaller.take(k as int)),
            decreases 5 - k,
        {
            put_u64(out, self.n_occs_smaller[k]);
            proof {
                let more = d.n_occs_smaller.take(k + 1);
                assert(more.drop_last() =~= d.n_occs_smaller.take(k as int));
                assert(more.last() == self.n_occs_smaller@[k as int]);
                assert(out@ =~= next + u64_bytes(more));
            }
            k = k + 1;
        }
        assert(d.n_occs_smaller.take(5) =~= d.n_occs_smaller);
        assert(out@ =~= start + dir_bytes(d));
    }
}

impl HqwtLevelDir {
    /// Reads an entry.
    pub fn read(buf: &[u8]) -> (r: Result<Self, LayoutError>)
        ensures
            match r {
                Ok(dir) => {
                    &&& buf@.len() >= HQWT_LEVEL_DIR_SIZE
                    &&& dir.plain@ == dir_of(buf@, 0)
                    &&& dir.level_len == le_at(buf@, 128, 8)
                },
                Err(e) => buf@.len() < HQWT_LEVEL_DIR_SIZE && e == LayoutError::Truncated,
            },
    {
        if buf.len() < HQWT_LEVEL_DIR_SIZE {
            return Err(LayoutError::Truncated);
        }
        match LevelDir::read(buf) {
            Ok(plain) => Ok(HqwtLevelDir { plain, level_len: read_u64(buf, 128) }),
            Err(e) => Err(e),
        }
    }

    /// Appends an entry.
    pub fn write(&self, out: &mut Vec<u8>)
        ensures
            final(out)@ == old(out)@ + dir_bytes(self.plain@) + le_bytes(self.level_len as int, 8),
    {
        self.plain.write(out);
        put_u64(out, self.level_len);
    }
}

} // verus!
