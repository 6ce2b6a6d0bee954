//! Bytes at an aligned address.

use vstd::prelude::*;

use super::level::{begins_at, lemma_begins_at, slice_address};

verus! {

/// A copy of bytes that begins at a multiple of 64 in memory, as the views of
/// containers need it.
pub struct AlignedBytes {
    buf: Vec<u8>,
    start: usize,
    len: usize,
}

impl View for AlignedBytes {
    type V = Seq<u8>;

    closed spec fn view(&self) -> Seq<u8> {
        self.buf@.subrange(self.start as int, self.start + self.len)
    }
}

/// How far behind the address `base` the first multiple of 64 is.
pub fn window_start(base: usize) -> (start: usize)
    ensures
        start < 64,
        (base + start) % 64 == 0,
{
    (64 - base % 64) % 64
}

/// Copies `src` into `buf`, which begins at the address `base`, from the first
/// multiple of 64 on.
pub fn aligned_copy(src: &[u8], buf: Vec<u8>, base: usize) -> (r: AlignedBytes)
    requires
        src@.len() + 63 <= buf@.len(),
    ensures
        r.wf(),
        r@ == src@,
        0 <= r.offset() < 64,
        (base + r.offset()) % 64 == 0,
{
    let mut buf: Vec<u8> = buf;
    let len: usize = src.len();
    let start: usize = window_start(base);
    let size: usize = buf.len();
    let mut i: usize = 0;
    while i < len
        invariant
            i <= len,
            len == src@.len(),
            start < 64,
            buf@.len() == size,
            len + 63 <= size,
            forall|j: int| 0 <= j < i ==> buf@[start + j] == src@[j],
        decreases len - i,
    {
        buf.set(start + i, src[i]);
        i = i + 1;
    }
    let r = AlignedBytes { buf, start, len };
    assert(r@ =~= src@);
    r
}

impl AlignedBytes {
    pub closed spec fn wf(&self) -> bool {
        self.start + self.len <= self.buf@.len()
    }

    /// Where the copy begins in its buffer.
    pub closed spec fn offset(&self) -> int {
        self.start as int
    }

    /// Copies `src` to the first multiple of 64 inside of a larger buffer.
    ///
    /// Where the buffer lies is up to the allocator: [`aligned_copy`] says where
    /// the copy begins, whatever the address is.
    pub fn from_slice(src: &[u8]) -> (r: Self)
        requires
            src@.len() + 63 <= usize::MAX,
        ensures
            r.wf(),
            r@ == src@,
            0 <= r.offset() < 64,
            src@.len() == 0 ==> r.offset() == 0,
            src@.len() > 0 ==> exists|buf: &[u8], base: usize| #[trigger]
                begins_at(buf, base) && buf@.len() == src@.len() + 63 && (base + r.offset()) % 64
                    == 0,
    {
        let len: usize = src.len();
        if len == 0 {
            let r = AlignedBytes { buf: Vec::new(), start: 0, len: 0 };
            assert(r@ =~= src@);
            return r;
        }
        let buf: Vec<u8> = vec![0u8; len + 63];
        let window: &[u8] = buf.as_slice();
        let base: usize = slice_address(window);
        proof {
            lemma_begins_at(window, base);
        }
        aligned_copy(src, buf, base)
    }

    /// The copied bytes.
    pub fn as_slice(&self) -> (s: &[u8])
        requires
            self.wf(),
        ensures
            s@ == self@,
    {
        let total: usize = self.buf.len();
        assert(self.start + self.len <= total);
        vstd::slice::slice_subrange(self.buf.as_slice(), self.start, self.start + self.len)
    }
}

} // verus!
