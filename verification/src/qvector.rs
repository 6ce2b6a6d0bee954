//! Levels of quad digits that own their bytes.

use vstd::prelude::*;

use crate::builder::LevelBuild;
use crate::bytes::encoder::{
    joined, none_taken, summarizes, LevelEncoder, LevelSummary, MAX_LEVEL_ROWS,
};
use crate::bytes::image::{encodes_level, lemma_rows_len, lemma_rows_of, rows_of};
use crate::bytes::level::{sections_ok, RSQVectorView};
use crate::digits::radix_of;
use crate::level::DigitLevel;
use crate::wavelet::{below, digits_below, lemma_below_bounds};

verus! {

/// One level of quad digits with rank and select. Blocks have `B_SIZE` rows:
/// 512, or else 256.
pub struct RSQVector<const B_SIZE: usize> {
    data: Vec<u8>,
    superblocks: Vec<u8>,
    select: Vec<Vec<u8>>,
    n: usize,
    occs_smaller: [usize; 5],
    summary: LevelSummary,
}

/// A level with blocks of 256 rows.
pub type RSQVector256 = RSQVector<256>;

/// A level with blocks of 512 rows.
pub type RSQVector512 = RSQVector<512>;

impl<const B_SIZE: usize> RSQVector<B_SIZE> {
    pub open spec fn b512() -> bool {
        B_SIZE == 512
    }

    spec fn select_bytes(&self) -> Seq<Seq<u8>> {
        Seq::new(4, |d: int| self.select@[d]@)
    }

    /// The sections of the level: data lines, superblocks and select samples.
    pub closed spec fn sections(&self) -> (Seq<u8>, Seq<u8>, Seq<Seq<u8>>) {
        (self.data@, self.superblocks@, self.select_bytes())
    }

    /// The rows of the level.
    pub closed spec fn content(&self) -> Seq<u8> {
        rows_of(self.data@, self.n as int)
    }

    #[verifier::opaque]
    pub closed spec fn valid(&self) -> bool {
        &&& self.select.len() == 4
        &&& sections_ok(
            Self::b512(),
            self.n as int,
            self.data@,
            self.superblocks@,
            self.select_bytes(),
            self.occs_smaller@,
        )
        &&& summarizes(self.summary, self.content(), Self::b512())
    }

    /// What the sections of a level hold.
    pub proof fn lemma_sections(&self)
        requires
            self.valid(),
        ensures
            digits_below(self.content(), 4),
            self.content().len() <= MAX_LEVEL_ROWS,
            encodes_level(
                self.content(),
                Self::b512(),
                self.sections().0,
                self.sections().1,
                self.sections().2,
            ),
    {
        reveal(RSQVector::valid);
        lemma_rows_len(self.data@, self.n as int);
    }

    /// The level with these digits.
    pub fn new(digits: &[u8]) -> (level: Self)
        requires
            digits_below(digits@, 4),
            digits@.len() <= MAX_LEVEL_ROWS,
        ensures
            level.valid(),
            level.content() == digits@,
    {
        let n: usize = digits.len();
        let mut enc = LevelEncoder::new(B_SIZE == 512);
        let mut i: usize = 0;
        assert(digits@.take(0) =~= Seq::<u8>::empty());
        while i < n
            invariant
                i <= n,
                n == digits@.len(),
                n <= MAX_LEVEL_ROWS,
                digits_below(digits@, 4),
                enc.wf(),
                enc.wide() == Self::b512(),
                enc.rows() == digits@.take(i as int),
                enc.taken_data() == Seq::<u8>::empty(),
                enc.taken_superblocks() == Seq::<u8>::empty(),
                enc.taken_select() == none_taken(),
            decreases n - i,
        {
            let digit: u8 = digits[i];
            assert(digits@.take(i + 1) =~= digits@.take(i as int).push(digit));
            let pushed = enc.push(digit, i as u64);
            assert(pushed is Ok);
            i = i + 1;
        }
        assert(digits@.take(n as int) =~= digits@);
        match enc.finish(n as u64) {
            Ok((out, summary)) => {
                proof {
                    assert(Seq::<u8>::empty() + out.data@ =~= out.data@);
                    assert(Seq::<u8>::empty() + out.superblocks@ =~= out.superblocks@);
                    assert(joined(none_taken(), out.select@) =~= Seq::new(
                        4,
                        |d: int| out.select@[d]@,
                    )) by {
                        assert forall|d: int| 0 <= d < 4 implies #[trigger] joined(
                            none_taken(),
                            out.select@,
                        )[d] == out.select@[d]@ by {
                            assert(Seq::<u8>::empty() + out.select@[d]@ =~= out.select@[d]@);
                        }
                    }
                    lemma_rows_of(digits@, out.data@);
                    assert forall|d: int| 0 <= d < 5 implies 0 <= (
                    #[trigger] summary.n_occs_smaller@[d]) <= n by {
                        lemma_below_bounds(digits@, d, n as int);
                    }
                    assert(summary.n_occs_smaller@[0] <= n);
                    assert(summary.n_occs_smaller@[1] <= n);
                    assert(summary.n_occs_smaller@[2] <= n);
                    assert(summary.n_occs_smaller@[3] <= n);
                    assert(summary.n_occs_smaller@[4] <= n);
                }
                let occs_smaller: [usize; 5] = [
                    summary.n_occs_smaller[0] as usize,
                    summary.n_occs_smaller[1] as usize,
                    summary.n_occs_smaller[2] as usize,
                    summary.n_occs_smaller[3] as usize,
                    summary.n_occs_smaller[4] as usize,
                ];
                let level = RSQVector {
                    data: out.data,
                    superblocks: out.superblocks,
                    select: out.select,
                    n,
                    occs_smaller,
                    summary,
                };
                proof {
                    reveal(RSQVector::valid);
                    assert forall|d: int| 0 <= d < 5 implies #[trigger] occs_smaller@[d] == below(
                        digits@,
                        d,
                        n as int,
                    ) by {
                        assert(summary.n_occs_smaller@[d] == below(digits@, d, n as int));
                    }
                }
                level
            },
            Err(_) => vstd::pervasive::unreached(),
        }
    }

    /// A view of the level.
    pub fn as_view(&self) -> (view: RSQVectorView<'_, B_SIZE>)
        requires
            self.valid(),
        ensures
            view.valid(),
            view.content() == self.content(),
    {
        proof {
            reveal(RSQVector::valid);
        }
        let select: [&[u8]; 4] = [
            self.select[0].as_slice(),
            self.select[1].as_slice(),
            self.select[2].as_slice(),
            self.select[3].as_slice(),
        ];
        proof {
            assert(Seq::new(4, |d: int| select@[d]@) =~= self.select_bytes());
        }
        RSQVectorView::from_sections(
            self.data.as_slice(),
            self.superblocks.as_slice(),
            select,
            self.n,
            self.occs_smaller,
        )
    }

    /// The number of rows.
    pub fn len(&self) -> (n: usize)
        ensures
            n == self.content().len(),
    {
        proof {
            lemma_rows_len(self.data@, self.n as int);
        }
        self.n
    }

    /// The data lines.
    pub fn data(&self) -> (s: &[u8])
        ensures
            s@ == self.sections().0,
    {
        self.data.as_slice()
    }

    /// The superblocks.
    pub fn superblocks(&self) -> (s: &[u8])
        ensures
            s@ == self.sections().1,
    {
        self.superblocks.as_slice()
    }

    /// The select samples of a digit.
    pub fn select_samples(&self, d: usize) -> (s: &[u8])
        requires
            self.valid(),
            d < 4,
        ensures
            s@ == self.sections().2[d as int],
    {
        proof {
            reveal(RSQVector::valid);
        }
        self.select[d].as_slice()
    }

    /// What the level amounts to.
    pub fn summary(&self) -> (s: LevelSummary)
        requires
            self.valid(),
        ensures
            summarizes(s, self.content(), Self::b512()),
    {
        proof {
            reveal(RSQVector::valid);
        }
        self.summary
    }
}

impl<const B_SIZE: usize> DigitLevel for RSQVector<B_SIZE> {
    open spec fn digits(&self) -> Seq<u8> {
        self.content()
    }

    open spec fn wf(&self) -> bool {
        self.valid()
    }

    open spec fn digit_bits() -> u32 {
        2
    }

    proof fn lemma_level(&self) {
        self.lemma_sections();
        lemma_rows_len(self.data@, self.n as int);
        assert(radix_of(2) == 4);
    }

    fn bits() -> (b: u32) {
        2
    }

    fn level_len(&self) -> (n: usize) {
        self.len()
    }

    fn digit(&self, p: usize) -> (d: u8) {
        self.as_view().get_unchecked(p)
    }

    fn digit_rank(&self, d: u8, p: usize) -> (k: usize) {
        self.as_view().rank_unchecked(d, p)
    }

    fn digits_smaller(&self, d: u8) -> (k: usize) {
        self.as_view().occs_smaller_unchecked(d)
    }

    fn digit_select(&self, d: u8, k: usize) -> (r: Option<usize>) {
        self.as_view().select(d, k)
    }
}

impl<const B_SIZE: usize> LevelBuild for RSQVector<B_SIZE> {
    open spec fn max_len() -> int {
        MAX_LEVEL_ROWS as int
    }

    fn from_digits(digits: Vec<u8>) -> (level: Self) {
        Self::new(digits.as_slice())
    }
}

} // verus!
