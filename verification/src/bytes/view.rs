//! A quad wavelet tree in borrowed bytes.

use std::ops::Range;

use vstd::prelude::*;

use super::container::{
    check_header, container_levels, dirs_error, header_error, lemma_dir_sub, lemma_fault, size_at,
    QWTB_MAGIC,
};
use super::dir::{dir_of, LevelDir};
use super::error::LayoutError;
use super::layout::dir_rows;
use super::le::{get_u16, get_u64, le_at};
use super::level::{begins_at, lemma_begins_at, slice_address, RSQVectorView};
use super::{ensure_le, host_answers, HEADER_SIZE, LEVEL_DIR_SIZE};
use crate::digits::radix_of;
use crate::extract::{plain_extract, plain_extract_distinct};
use crate::indexable::WTIndexable;
use crate::level::{level_digits, levels_wf, DigitLevel};
use crate::matrix::plain_levels;
use crate::plain::{
    in_digits, plain_get, plain_get_and_rank, plain_rank, plain_select, plain_values, plain_wf,
    symbol_of,
};
use crate::sorting::dedup;
use crate::tree::occurrences;
use crate::wavelet::digits_below;

verus! {

/// A plain quad wavelet tree over the bytes of a container.
#[derive(Clone, Debug)]
pub struct QwtView<'a, T, const B_SIZE: usize> {
    n: usize,
    n_levels: usize,
    sigma: T,
    levels: Vec<RSQVectorView<'a, B_SIZE>>,
}

/// The number of levels of a plain container.
pub open spec fn qwtb_level_count(s: Seq<u8>) -> int {
    le_at(s, 24, 2)
}

/// The largest symbol that a plain container claims.
pub open spec fn qwtb_sigma<T: WTIndexable>(s: Seq<u8>) -> T {
    T::truncated(size_at(s, 16).val())
}

/// The rows of the levels of a plain container.
pub open spec fn qwtb_levels(s: Seq<u8>) -> Seq<Seq<u8>> {
    container_levels(s, LEVEL_DIR_SIZE as int, qwtb_level_count(s))
}

/// Why the bytes, where they begin at address `addr`, are not a plain container
/// of symbols of `width` bits.
pub open spec fn qwtb_error(s: Seq<u8>, addr: int, b512: bool, width: int) -> Option<LayoutError> {
    if let Some(e) = header_error(s, QWTB_MAGIC@, b512, width) {
        Some(e)
    } else if s.len() < HEADER_SIZE + LEVEL_DIR_SIZE * qwtb_level_count(s) {
        Some(LayoutError::Truncated)
    } else if let Some(e) = dirs_error(
        s,
        addr,
        b512,
        LEVEL_DIR_SIZE as int,
        qwtb_level_count(s),
        0,
    ) {
        Some(e)
    } else if exists|l: int|
        0 <= l < qwtb_level_count(s) && (#[trigger] qwtb_levels(s)[l]).len() != size_at(s, 8) {
        Some(LayoutError::Inconsistent { detail: "QWT level length does not match tree length" })
    } else {
        None
    }
}

impl<'a, T: WTIndexable, const B_SIZE: usize> QwtView<'a, T, B_SIZE> {
    /// The digits of the levels.
    pub closed spec fn level_rows(&self) -> Seq<Seq<u8>> {
        level_digits(self.levels@)
    }

    /// The number of symbols.
    pub closed spec fn count(&self) -> nat {
        self.n as nat
    }

    /// The number of levels.
    pub closed spec fn level_count(&self) -> nat {
        self.n_levels as nat
    }

    /// The largest symbol that can be asked for.
    pub closed spec fn largest(&self) -> T {
        self.sigma
    }

    /// The numbers that the levels hold.
    pub closed spec fn values(&self) -> Seq<int> {
        plain_values(self.level_rows(), self.n as int, 4)
    }

    /// What remains of a symbol in the digits of the levels.
    pub open spec fn reduced(&self, symbol: T) -> int {
        in_digits(symbol.val() as int, self.level_count() as int, 4)
    }

    /// The levels all have one length.
    #[verifier::opaque]
    pub closed spec fn wf(&self) -> bool {
        &&& self.levels.len() == self.n_levels
        &&& plain_wf(self.levels@, self.n as int)
    }

    /// The view is one of these bytes.
    pub open spec fn shows(&self, s: Seq<u8>) -> bool {
        &&& self.count() == size_at(s, 8)
        &&& self.level_count() == qwtb_level_count(s)
        &&& self.largest() == qwtb_sigma::<T>(s)
        &&& self.level_rows() == qwtb_levels(s)
    }

    /// What opening the bytes at an address gives.
    pub open spec fn opened(r: Result<Self, LayoutError>, s: Seq<u8>, addr: int) -> bool {
        match r {
            Ok(view) => {
                &&& qwtb_error(s, addr, B_SIZE == 512, T::bit_width() as int) is None
                &&& view.wf()
                &&& view.shows(s)
            },
            Err(e) => qwtb_error(s, addr, B_SIZE == 512, T::bit_width() as int) == Some(e),
        }
    }

    /// What a well-formed view holds.
    pub proof fn lemma_wf(&self)
        requires
            self.wf(),
        ensures
            self.level_rows().len() == self.level_count(),
            plain_levels(self.level_rows(), self.count() as int, 4),
            self.values() == plain_values(self.level_rows(), self.count() as int, 4),
            self.values().len() == self.count(),
    {
        reveal(QwtView::wf);
        assert(radix_of(2) == 4);
    }

    /// Opens a view of the bytes of a plain container.
    pub fn from_bytes(bytes: &'a [u8]) -> (r: Result<Self, LayoutError>)
        ensures
            r == Err::<Self, LayoutError>(LayoutError::BigEndian) || exists|addr: int|
                0 <= addr <= usize::MAX && #[trigger] Self::opened(r, bytes@, addr),
            r == Err::<Self, LayoutError>(LayoutError::BigEndian) ==> host_answers(
                Err(LayoutError::BigEndian),
            ) && exists|host: Result<(), LayoutError>| #[trigger]
                call_ensures(ensure_le, (), host) && host is Err,
            r != Err::<Self, LayoutError>(LayoutError::BigEndian) ==> host_answers(Ok(()))
                && exists|addr: usize| #[trigger]
                begins_at(bytes, addr) && Self::opened(r, bytes@, addr as int),
    {
        let host: Result<(), LayoutError> = ensure_le();
        assert(call_ensures(ensure_le, (), host));
        match host {
            Ok(()) => {},
            Err(e) => {
                return Err(e);
            },
        }
        let addr: usize = slice_address(bytes);
        proof {
            lemma_begins_at(bytes, addr);
        }
        let r = Self::from_bytes_at(bytes, addr);
        assert(Self::opened(r, bytes@, addr as int));
        proof {
            lemma_fault(
                bytes@,
                QWTB_MAGIC@,
                addr as int,
                B_SIZE == 512,
                T::bit_width() as int,
                LEVEL_DIR_SIZE as int,
                qwtb_level_count(bytes@),
                0,
            );
        }
        r
    }

    /// Opens a view of the bytes of a plain container that begin at address
    /// `addr`.
    pub fn from_bytes_at(bytes: &'a [u8], addr: usize) -> (r: Result<Self, LayoutError>)
        ensures
            Self::opened(r, bytes@, addr as int),
    {
        let ghost s = bytes@;
        let ghost b512 = B_SIZE == 512;
        let total: usize = bytes.len();
        match check_header(bytes, QWTB_MAGIC, B_SIZE == 512, T::width()) {
            Ok(()) => {},
            Err(e) => {
                return Err(e);
            },
        }
        let mut o: usize = 8;
        let n: usize = <usize as WTIndexable>::from_u64(get_u64(bytes, &mut o));
        let sigma_u: usize = <usize as WTIndexable>::from_u64(get_u64(bytes, &mut o));
        let sigma: T = T::from_u64(sigma_u.to_u64());
        let n_levels: usize = get_u16(bytes, &mut o) as usize;
        let dir_end: usize = HEADER_SIZE + n_levels * LEVEL_DIR_SIZE;
        if total < dir_end {
            return Err(LayoutError::Truncated);
        }
        let mut levels: Vec<RSQVectorView<'a, B_SIZE>> = Vec::with_capacity(n_levels);
        let mut li: usize = 0;
        while li < n_levels
            invariant
                li <= n_levels,
                s == bytes@,
                total == s.len(),
                b512 == (B_SIZE == 512),
                n_levels == qwtb_level_count(s),
                HEADER_SIZE + n_levels * LEVEL_DIR_SIZE <= total,
                header_error(s, QWTB_MAGIC@, b512, T::bit_width() as int) is None,
                levels.len() == li,
                levels_wf(levels@),
                forall|l: int|
                    0 <= l < li ==> (#[trigger] levels[l]).content() == dir_rows(
                        s,
                        dir_of(s, HEADER_SIZE + LEVEL_DIR_SIZE * l),
                    ),
                dirs_error(s, addr as int, b512, LEVEL_DIR_SIZE as int, n_levels as int, 0)
                    == dirs_error(
                    s,
                    addr as int,
                    b512,
                    LEVEL_DIR_SIZE as int,
                    n_levels as int,
                    li as int,
                ),
            decreases n_levels - li,
        {
            let dir_off: usize = HEADER_SIZE + li * LEVEL_DIR_SIZE;
            let entry: &[u8] = vstd::slice::slice_subrange(
                bytes,
                dir_off,
                dir_off + LEVEL_DIR_SIZE,
            );
            proof {
                lemma_dir_sub(s, dir_off as int, dir_off + LEVEL_DIR_SIZE);
            }
            match LevelDir::read(entry) {
                Ok(dir) => {
                    match RSQVectorView::<'a, B_SIZE>::from_dir(bytes, addr, &dir) {
                        Ok(level) => {
                            let ghost before = levels@;
                            levels.push(level);
                            assert(forall|l: int| 0 <= l < li ==> levels@[l] == before[l]);
                        },
                        Err(e) => {
                            return Err(e);
                        },
                    }
                },
                Err(e) => {
                    return Err(e);
                },
            }
            li = li + 1;
        }
        proof {
            assert(level_digits(levels@) =~= qwtb_levels(s));
        }
        let mut li: usize = 0;
        while li < n_levels
            invariant
                li <= n_levels,
                s == bytes@,
                total == s.len(),
                b512 == (B_SIZE == 512),
                n_levels == qwtb_level_count(s),
                HEADER_SIZE + n_levels * LEVEL_DIR_SIZE <= total,
                header_error(s, QWTB_MAGIC@, b512, T::bit_width() as int) is None,
                dirs_error(
                    s,
                    addr as int,
                    b512,
                    LEVEL_DIR_SIZE as int,
                    n_levels as int,
                    0,
                ) is None,
                levels.len() == n_levels,
                level_digits(levels@) == qwtb_levels(s),
                n == size_at(s, 8),
                forall|l: int| 0 <= l < li ==> (#[trigger] qwtb_levels(s)[l]).len() == n,
            decreases n_levels - li,
        {
            assert(level_digits(levels@)[li as int] == levels[li as int].content());
            if levels[li].len() != n {
                assert(qwtb_levels(s)[li as int].len() != size_at(s, 8));
                return Err(
                    LayoutError::Inconsistent {
                        detail: "QWT level length does not match tree length",
                    },
                );
            }
            li = li + 1;
        }
        let view = QwtView { n, n_levels, sigma, levels };
        proof {
            reveal(QwtView::wf);
            let lv = level_digits(levels@);
            assert forall|l: int| 0 <= l < lv.len() implies (#[trigger] lv[l]).len() == n
                && digits_below(lv[l], 4) by {
                assert(levels[l].wf());
                levels[l].lemma_level();
                assert(qwtb_levels(s)[l].len() == n);
            }
        }
        Ok(view)
    }

    /// The number of symbols.
    pub fn len(&self) -> (n: usize)
        ensures
            n == self.count(),
    {
        self.n
    }

    /// Whether there are no symbols.
    pub fn is_empty(&self) -> (b: bool)
        ensures
            b == (self.count() == 0),
    {
        self.n == 0
    }

    /// The number of levels.
    pub fn n_levels(&self) -> (l: usize)
        ensures
            l == self.level_count(),
    {
        self.n_levels
    }

    /// The largest symbol that can be asked for.
    pub fn sigma_raw(&self) -> (t: T)
        ensures
            t == self.largest(),
    {
        self.sigma
    }

    /// The levels.
    pub fn levels(&self) -> (levels: &[RSQVectorView<'a, B_SIZE>])
        ensures
            level_digits(levels@) == self.level_rows(),
            self.wf() ==> levels_wf(levels@),
    {
        proof {
            reveal(QwtView::wf);
        }
        self.levels.as_slice()
    }

    /// The symbol at position `i`. `None` out of bounds, or where there are no
    /// levels.
    pub fn get(&self, i: usize) -> (r: Option<T>)
        requires
            self.wf(),
        ensures
            r == if i < self.count() && self.level_count() > 0 {
                Some(symbol_of::<T>(self.values()[i as int]))
            } else {
                None
            },
    {
        if i >= self.n || self.n_levels == 0 {
            return None;
        }
        Some(self.get_unchecked(i))
    }

    /// The symbol at position `i`, which must be in bounds.
    pub fn get_unchecked(&self, i: usize) -> (t: T)
        requires
            self.wf(),
            i < self.count(),
        ensures
            t == symbol_of::<T>(self.values()[i as int]),
    {
        proof {
            reveal(QwtView::wf);
            assert(radix_of(2) == 4);
        }
        T::from_u64(plain_get(&self.levels, self.n, i))
    }

    /// How often `symbol` occurs before position `i`. `None` where `i` is out of
    /// bounds or the symbol is larger than the largest. Where there are no
    /// levels, no symbol occurs.
    pub fn rank(&self, symbol: T, i: usize) -> (r: Option<usize>)
        requires
            self.wf(),
        ensures
            self.level_count() == 0 ==> r == if i <= self.count() {
                Some(0usize)
            } else {
                None
            },
            self.level_count() > 0 ==> match r {
                Some(k) => {
                    &&& i <= self.count()
                    &&& symbol.val() <= self.largest().val()
                    &&& k == occurrences(self.values(), self.reduced(symbol), i as int)
                },
                None => i > self.count() || symbol.val() > self.largest().val(),
            },
    {
        if self.n_levels == 0 {
            return if i <= self.n {
                Some(0)
            } else {
                None
            };
        }
        if i > self.n || symbol.to_u64() > self.sigma.to_u64() {
            return None;
        }
        Some(self.rank_unchecked(symbol, i))
    }

    /// How often `symbol` occurs before position `i`, which must be in bounds.
    pub fn rank_unchecked(&self, symbol: T, i: usize) -> (k: usize)
        requires
            self.wf(),
            self.level_count() > 0,
            i <= self.count(),
        ensures
            k == occurrences(self.values(), self.reduced(symbol), i as int),
    {
        proof {
            reveal(QwtView::wf);
            assert(radix_of(2) == 4);
        }
        plain_rank(&self.levels, self.n, symbol.to_u64(), i)
    }

    /// The position of occurrence `i` of `symbol`, counting from zero. `None`
    /// where there are not so many, the symbol is larger than the largest, or
    /// there are no levels.
    pub fn select(&self, symbol: T, i: usize) -> (r: Option<usize>)
        requires
            self.wf(),
        ensures
            match r {
                Some(p) => {
                    &&& self.level_count() > 0
                    &&& symbol.val() <= self.largest().val()
                    &&& p < self.count()
                    &&& self.values()[p as int] == self.reduced(symbol)
                    &&& occurrences(self.values(), self.reduced(symbol), p as int) == i
                },
                None => {
                    ||| self.level_count() == 0
                    ||| symbol.val() > self.largest().val()
                    ||| occurrences(
                        self.values(),
                        self.reduced(symbol),
                        self.count() as int,
                    ) <= i
                },
            },
    {
        if self.n_levels == 0 || symbol.to_u64() > self.sigma.to_u64() {
            return None;
        }
        proof {
            reveal(QwtView::wf);
            assert(radix_of(2) == 4);
        }
        plain_select(&self.levels, self.n, symbol.to_u64(), i)
    }

    /// The position of occurrence `i` of `symbol`, which must exist.
    pub fn select_unchecked(&self, symbol: T, i: usize) -> (p: usize)
        requires
            self.wf(),
            self.level_count() > 0,
            symbol.val() <= self.largest().val(),
            i < occurrences(self.values(), self.reduced(symbol), self.count() as int),
        ensures
            p < self.count(),
            self.values()[p as int] == self.reduced(symbol),
            occurrences(self.values(), self.reduced(symbol), p as int) == i,
    {
        let r: Option<usize> = self.select(symbol, i);
        r.unwrap()
    }

    /// The symbol at position `i` with the number of its occurrences up to and
    /// with `i`. `None` out of bounds, or where there are no levels.
    pub fn get_and_rank(&self, i: usize) -> (r: Option<(T, usize)>)
        requires
            self.wf(),
        ensures
            match r {
                Some((t, k)) => {
                    &&& i < self.count()
                    &&& self.level_count() > 0
                    &&& t == symbol_of::<T>(self.values()[i as int])
                    &&& k == occurrences(self.values(), self.values()[i as int], i + 1)
                },
                None => i >= self.count() || self.level_count() == 0,
            },
    {
        if i >= self.n || self.n_levels == 0 {
            return None;
        }
        Some(self.get_and_rank_unchecked(i))
    }

    /// The symbol at position `i`, which must be in bounds, with the number of
    /// its occurrences up to and with `i`.
    pub fn get_and_rank_unchecked(&self, i: usize) -> (r: (T, usize))
        requires
            self.wf(),
            self.level_count() > 0,
            i < self.count(),
        ensures
            r.0 == symbol_of::<T>(self.values()[i as int]),
            r.1 == occurrences(self.values(), self.values()[i as int], i + 1),
    {
        proof {
            reveal(QwtView::wf);
            assert(radix_of(2) == 4);
        }
        let (v, k) = plain_get_and_rank(&self.levels, self.n, i);
        (T::from_u64(v), k)
    }

    /// Whether a range of positions holds symbols.
    pub open spec fn covers(&self, range: Range<usize>) -> bool {
        range.start < range.end <= self.count() && self.level_count() > 0
    }

    /// The symbols of a range of positions in ascending order. Empty where the
    /// range is empty, reversed or out of bounds.
    pub fn extract_range(&self, range: Range<usize>) -> (out: Vec<T>)
        requires
            self.wf(),
        ensures
            out@ == if self.covers(range) {
                self.values().subrange(range.start as int, range.end as int).sort().map_values(
                    |v: int| symbol_of::<T>(v),
                )
            } else {
                Seq::empty()
            },
    {
        if range.start >= range.end || range.end > self.n || self.n_levels == 0 {
            return Vec::new();
        }
        proof {
            reveal(QwtView::wf);
            assert(radix_of(2) == 4);
        }
        plain_extract(&self.levels, self.n, range.start, range.end)
    }

    /// The distinct symbols of a range of positions in ascending order. Empty
    /// where the range is empty, reversed or out of bounds.
    pub fn extract_range_distinct(&self, range: Range<usize>) -> (out: Vec<T>)
        requires
            self.wf(),
        ensures
            out@ == if self.covers(range) {
                dedup(
                    self.values().subrange(range.start as int, range.end as int).sort(),
                ).map_values(|v: int| symbol_of::<T>(v))
            } else {
                Seq::empty()
            },
    {
        let mut out: Vec<T> = Vec::new();
        self.extract_range_distinct_into(range, &mut out);
        out
    }

    /// Like `extract_range_distinct`, in place of what `out` holds.
    pub fn extract_range_distinct_into(&self, range: Range<usize>, out: &mut Vec<T>)
        requires
            self.wf(),
        ensures
            final(out)@ == if self.covers(range) {
                dedup(
                    self.values().subrange(range.start as int, range.end as int).sort(),
                ).map_values(|v: int| symbol_of::<T>(v))
            } else {
                Seq::empty()
            },
    {
        out.clear();
        if range.start >= range.end || range.end > self.n || self.n_levels == 0 {
            return;
        }
        proof {
            reveal(QwtView::wf);
            assert(radix_of(2) == 4);
        }
        plain_extract_distinct(&self.levels, self.n, range.start, range.end, out);
        proof {
            let r = dedup(
                self.values().subrange(range.start as int, range.end as int).sort(),
            ).map_values(|v: int| symbol_of::<T>(v));
            assert(Seq::<T>::empty() + r =~= r);
        }
    }
}

} // verus!
