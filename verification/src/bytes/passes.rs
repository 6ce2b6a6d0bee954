//! Building the levels of a container in passes over a stream of symbols.
//!
//! Each pass writes one level. It reads all symbols in the order of that level
//! and tells into which bucket each of them goes. The buckets, one behind the
//! other, are what the next pass reads. The symbols themselves are kept
//! elsewhere: what is held here does not grow with their number.

use vstd::arithmetic::power2::pow2;
use vstd::prelude::*;

use super::dir::LevelDir;
use super::direct::DirectQwtBuildStats;
use super::encoder::{
    joined, lemma_written, most_written, none_taken, written, LevelEncoder, LevelOutput,
    MAX_LEVEL_ROWS,
};
use super::error::DirectQwtBuildError;
use super::image::{line_count, super_count};
use super::payload::{
    dir_at, image_len, image_off, is_image, lemma_image_len, lemma_payload_at, lemma_summary_dir,
    payload, place_level, LevelImage,
};
use super::{aligned, lemma_aligned};
use crate::builder::{arranged, codable, codes_of, lemma_arranged, level_groups, symbol_code};
use crate::codes::{coded, lemma_code_digits, table_ok, PrefixCode};
use crate::digits::{lemma_digit_at, lemma_digits_of, lemma_radix_pow};
use crate::indexable::WTIndexable;
use crate::matrix::{bucket, build, digits_at, rows_at};
use crate::utils::{group_of, lemma_partitioned_eq, partitioned, shift_digit};
use crate::wavelet::{
    below, count, digits_below, lemma_below_all, lemma_below_step, lemma_below_zero,
    lemma_count_bounds, step,
};

verus! {

/// Digit `l` of the symbols of a pass that have one.
pub open spec fn pass_digits(
    pass: Seq<u32>,
    table: Option<Seq<PrefixCode>>,
    n_levels: int,
    l: int,
) -> Seq<u8>
    decreases pass.len(),
{
    if pass.len() == 0 {
        Seq::empty()
    } else {
        let before = pass_digits(pass.drop_last(), table, n_levels, l);
        let code = symbol_code(table, n_levels, 2, pass.last());
        if code.len() > l {
            before.push(code[l])
        } else {
            before
        }
    }
}

/// What a pass writes when it goes on.
proof fn lemma_pass_prefix(
    a: Seq<u32>,
    b: Seq<u32>,
    table: Option<Seq<PrefixCode>>,
    n_levels: int,
    l: int,
) -> (more: Seq<u8>)
    requires
        a.is_prefix_of(b),
    ensures
        pass_digits(b, table, n_levels, l) == pass_digits(a, table, n_levels, l) + more,
        more.len() <= b.len() - a.len(),
    decreases b.len(),
{
    if a.len() == b.len() {
        assert(a =~= b);
        let more = Seq::<u8>::empty();
        assert(pass_digits(b, table, n_levels, l) =~= pass_digits(a, table, n_levels, l) + more);
        more
    } else {
        let c = b.drop_last();
        assert(a =~= c.subrange(0, a.len() as int));
        let before = lemma_pass_prefix(a, c, table, n_levels, l);
        let code = symbol_code(table, n_levels, 2, b.last());
        let more = if code.len() > l {
            before.push(code[l])
        } else {
            before
        };
        assert(pass_digits(b, table, n_levels, l) =~= pass_digits(a, table, n_levels, l) + more);
        more
    }
}

/// The levels that passes over symbols in these orders write.
pub open spec fn pass_levels(
    passes: Seq<Seq<u32>>,
    table: Option<Seq<PrefixCode>>,
    n_levels: int,
) -> Seq<Seq<u8>> {
    Seq::new(passes.len(), |l: int| pass_digits(passes[l], table, n_levels, l))
}

/// Symbol `x` can be written: it has a code, or few enough bits.
pub open spec fn writable(table: Option<Seq<PrefixCode>>, n_levels: int, x: u32) -> bool {
    match table {
        None => x < pow2((2 * n_levels) as nat),
        Some(codes) => coded(codes, x as int),
    }
}

/// Each pass reads the buckets of the one before.
pub open spec fn passes_follow(
    passes: Seq<Seq<u32>>,
    table: Option<Seq<PrefixCode>>,
    n_levels: int,
) -> bool {
    forall|l: int|
        0 < l < passes.len() ==> #[trigger] passes[l] == partitioned(
            passes[l - 1],
            level_groups(passes[l - 1], table, n_levels, 2, l - 1),
        )
}

/// The bytes of scratch space that level `l` takes while it is written: the
/// symbols that are read, the symbols that are put into buckets and the level.
pub open spec fn level_scratch(source: int, levels: int, rows: Seq<Seq<u8>>, l: int) -> int {
    source + (if l + 1 < levels {
        source
    } else {
        0
    }) + image_len(rows[l], false)
}

/// The most scratch space that the first `l` levels take.
pub open spec fn scratch_peak(source: int, levels: int, rows: Seq<Seq<u8>>, l: int) -> int
    decreases l,
{
    if levels == 0 {
        0
    } else if l <= 0 {
        source
    } else {
        let before = scratch_peak(source, levels, rows, l - 1);
        let here = level_scratch(source, levels, rows, l - 1);
        if here > before {
            here
        } else {
            before
        }
    }
}

/// A level with this summary can be placed behind `cursor` in memory.
pub open spec fn placement_fits(cursor: int, rows: Seq<u8>) -> bool {
    let n = rows.len() as int;
    let off = aligned(cursor, 64);
    &&& cursor + 63 <= usize::MAX
    &&& off + 64 * line_count(n) <= usize::MAX
    &&& off + 64 * line_count(n) + 64 * super_count(n, false) <= usize::MAX
}

pub proof fn lemma_payload_local(base: int, a: Seq<LevelImage>, b: Seq<LevelImage>, l: int)
    requires
        forall|k: int| 0 <= k < l ==> a[k] == b[k],
    ensures
        payload(base, a, l) == payload(base, b, l),
    decreases l,
{
    if l > 0 {
        lemma_payload_local(base, a, b, l - 1);
    }
}

proof fn lemma_peak_local(source: int, levels: int, a: Seq<Seq<u8>>, b: Seq<Seq<u8>>, l: int)
    requires
        forall|k: int| 0 <= k < l ==> a[k] == b[k],
    ensures
        scratch_peak(source, levels, a, l) == scratch_peak(source, levels, b, l),
    decreases l,
{
    if l > 0 {
        lemma_peak_local(source, levels, a, b, l - 1);
    }
}

/// A pass that reads symbols in the order of its level writes that level.
proof fn lemma_pass_level(
    s: Seq<u32>,
    table: Option<Seq<PrefixCode>>,
    n_levels: int,
    l: int,
    k: int,
)
    requires
        codable(s, table, n_levels, 2),
        0 <= l < n_levels,
        0 <= k <= s.len(),
    ensures
        ({
            let a = arranged(s, table, n_levels, 2, l);
            let rows = rows_at(codes_of(s, table, n_levels, 2), l, 4);
            pass_digits(a.take(k), table, n_levels, l) == digits_at(rows, l).take(
                if k < rows.len() {
                    k
                } else {
                    rows.len() as int
                },
            )
        }),
    decreases k,
{
    let a = arranged(s, table, n_levels, 2, l);
    let codes = codes_of(s, table, n_levels, 2);
    let rows = rows_at(codes, l, 4);
    let want = digits_at(rows, l);
    lemma_arranged(s, table, n_levels, 2, l);
    if k > 0 {
        lemma_pass_level(s, table, n_levels, l, k - 1);
        let t = a.take(k);
        assert(t.drop_last() =~= a.take(k - 1));
        assert(t.last() == a[k - 1]);
        let code = symbol_code(table, n_levels, 2, a[k - 1]);
        if k <= rows.len() {
            assert(code == rows[k - 1]);
            crate::builder::lemma_codable(s, table, n_levels, 2);
            crate::matrix::lemma_rows_live(
                codes,
                crate::builder::code_set(table, n_levels, 2),
                n_levels,
                4,
                l,
            );
            assert(rows[k - 1].len() > l);
            assert(want.take(k) =~= want.take(k - 1).push(want[k - 1]));
        } else {
            assert(code.len() <= l);
        }
    } else {
        assert(a.take(0) =~= Seq::<u32>::empty());
        assert(want.take(0) =~= Seq::<u8>::empty());
    }
}

/// Passes that begin with a sequence of symbols, and of which each reads the
/// buckets of the one before, write the levels of that sequence.
pub proof fn lemma_passes(
    passes: Seq<Seq<u32>>,
    table: Option<Seq<PrefixCode>>,
    n_levels: int,
)
    requires
        passes.len() == n_levels,
        n_levels > 0,
        codable(passes[0], table, n_levels, 2),
        passes_follow(passes, table, n_levels),
    ensures
        pass_levels(passes, table, n_levels) == build(
            codes_of(passes[0], table, n_levels, 2),
            n_levels,
            4,
        ),
{
    let s = passes[0];
    let got = pass_levels(passes, table, n_levels);
    let codes = codes_of(s, table, n_levels, 2);
    let want = build(codes, n_levels, 4);
    assert forall|l: int| 0 <= l < n_levels implies got[l] == want[l] by {
        lemma_pass_order(passes, table, n_levels, l);
        let a = arranged(s, table, n_levels, 2, l);
        lemma_arranged(s, table, n_levels, 2, l);
        lemma_pass_level(s, table, n_levels, l, s.len() as int);
        assert(a.take(s.len() as int) =~= a);
        let d = digits_at(rows_at(codes, l, 4), l);
        assert(d.take(d.len() as int) =~= d);
    }
    assert(got =~= want);
}

proof fn lemma_pass_order(
    passes: Seq<Seq<u32>>,
    table: Option<Seq<PrefixCode>>,
    n_levels: int,
    l: int,
)
    requires
        passes_follow(passes, table, n_levels),
        0 <= l < passes.len(),
    ensures
        passes[l] == arranged(passes[0], table, n_levels, 2, l),
    decreases l,
{
    if l > 0 {
        lemma_pass_order(passes, table, n_levels, l - 1);
    }
}

/// The first `n` elements of `s` that belong to group `b`, in order.
pub open spec fn bucket_of<A>(s: Seq<A>, g: Seq<u8>, b: u8, n: int) -> Seq<A>
    decreases n,
{
    if n <= 0 {
        Seq::empty()
    } else if g[n - 1] == b {
        bucket_of(s, g, b, n - 1).push(s[n - 1])
    } else {
        bucket_of(s, g, b, n - 1)
    }
}

/// The buckets of the groups below `k`, one behind the other.
pub open spec fn buckets_below<A>(s: Seq<A>, g: Seq<u8>, k: int) -> Seq<A>
    decreases k,
{
    if k <= 0 {
        Seq::empty()
    } else {
        buckets_below(s, g, k - 1) + bucket_of(s, g, (k - 1) as u8, s.len() as int)
    }
}

proof fn lemma_bucket_of<A>(s: Seq<A>, g: Seq<u8>, b: u8, n: int, p: int)
    requires
        g.len() == s.len(),
        0 <= n <= s.len(),
    ensures
        bucket_of(s, g, b, n).len() == count(g, b, n),
        0 <= p < n && g[p] == b ==> 0 <= count(g, b, p) < count(g, b, n) && bucket_of(s, g, b, n)[count(
            g,
            b,
            p,
        )] == s[p],
    decreases n,
{
    if n > 0 {
        lemma_bucket_of(s, g, b, n - 1, p);
        lemma_count_bounds(g, b, n - 1);
    }
}

pub proof fn lemma_buckets_below<A>(s: Seq<A>, g: Seq<u8>, k: int, p: int)
    requires
        g.len() == s.len(),
        0 <= k <= 256,
    ensures
        buckets_below(s, g, k).len() == below(g, k, s.len() as int),
        0 <= p < s.len() && g[p] < k ==> 0 <= step(g, p) < below(g, k, s.len() as int)
            && buckets_below(s, g, k)[step(g, p)] == s[p],
    decreases k,
{
    let n = s.len() as int;
    if k > 0 {
        lemma_buckets_below(s, g, k - 1, p);
        lemma_bucket_of(s, g, (k - 1) as u8, n, p);
        lemma_below_step(g, (k - 1) as u8, n);
    } else {
        lemma_below_zero(g, n);
    }
}

/// The buckets of all groups, one behind the other, are the stable partition.
pub proof fn lemma_buckets_partition<A>(s: Seq<A>, g: Seq<u8>, radix: u8)
    requires
        g.len() == s.len(),
        digits_below(g, radix as int),
    ensures
        buckets_below(s, g, radix as int) == partitioned(s, g),
{
    let n = s.len() as int;
    let out = buckets_below(s, g, radix as int);
    lemma_buckets_below(s, g, radix as int, 0);
    lemma_below_all(g, radix as int, n);
    assert forall|p: int| 0 <= p < s.len() implies out[#[trigger] step(g, p)] == s[p] by {
        lemma_buckets_below(s, g, radix as int, p);
    }
    lemma_partitioned_eq(s, g, radix, out);
}

/// What is known of symbols that can be written.
proof fn lemma_writable(table: Option<Seq<PrefixCode>>, n_levels: int, l: int, x: u32)
    requires
        0 <= l < n_levels,
        writable(table, n_levels, x),
        table matches Some(codes) ==> table_ok(codes, n_levels, 2),
    ensures
        ({
            let code = symbol_code(table, n_levels, 2, x);
            &&& digits_below(code, 4)
            &&& match table {
                None => code.len() == n_levels && code[l] == group_of(
                    x as u64,
                    2 * (n_levels - 1 - l),
                    4,
                ),
                Some(codes) => {
                    let c = codes[x as int];
                    &&& code.len() > l <==> c.len >= 2 * (l + 1)
                    &&& code.len() > l + 1 <==> c.len > 2 * (l + 1)
                    &&& code.len() > l ==> code[l] == group_of(
                        c.content as u64,
                        c.len - 2 * (l + 1),
                        4,
                    )
                },
            }
        }),
{
    match table {
        None => {
            lemma_digits_of(x as int, n_levels, 4);
            lemma_digit_at(x as int, n_levels, 4, l);
            lemma_radix_pow(2, (n_levels - 1 - l) as nat);
        },
        Some(codes) => {
            lemma_code_digits(codes, n_levels, 2, x as int);
            let c = codes[x as int];
            let len = c.len as int / 2;
            assert(c.len as int % 2 == 0);
            if len > l {
                lemma_digit_at(c.content as int, len, 4, l);
                lemma_radix_pow(2, (len - 1 - l) as nat);
            }
        },
    }
}

/// Digit `l` of a symbol, where it has one, and its bucket.
fn digit_and_bucket(table: &Option<Vec<PrefixCode>>, n_levels: u16, l: u16, x: u32) -> (r: (
    Option<u8>,
    u8,
))
    requires
        l < n_levels,
        writable(codes_view(*table), n_levels as int, x),
        codes_view(*table) matches Some(codes) ==> table_ok(codes, n_levels as int, 2),
    ensures
        ({
            let code = symbol_code(codes_view(*table), n_levels as int, 2, x);
            &&& r.0 == if code.len() > l {
                Some(code[l as int])
            } else {
                None
            }
            &&& r.0 matches Some(d) ==> d < 4
            &&& r.1 == bucket(code, l as int, 4)
        }),
{
    proof {
        lemma_writable(codes_view(*table), n_levels as int, l as int, x);
    }
    match table {
        None => {
            let shift: usize = 2 * (n_levels - 1 - l) as usize;
            let digit: u8 = shift_digit(x as u64, shift, 2);
            if l + 1 < n_levels {
                (Some(digit), digit)
            } else {
                (Some(digit), 4)
            }
        },
        Some(codes) => {
            let code: PrefixCode = codes[x as usize];
            let shift: u32 = 2 * (l as u32 + 1);
            if code.len < shift {
                (None, 4)
            } else {
                let digit: u8 = shift_digit(code.content as u64, (code.len - shift) as usize, 2);
                if code.len == shift {
                    (Some(digit), 4)
                } else {
                    (Some(digit), digit)
                }
            }
        },
    }
}

/// The table behind a vector.
pub open spec fn codes_view(table: Option<Vec<PrefixCode>>) -> Option<Seq<PrefixCode>> {
    match table {
        None => None,
        Some(codes) => Some(codes@),
    }
}

/// What is to be written when a level is complete.
pub struct FinishedLevel {
    /// What the level still has to write.
    pub output: LevelOutput,
    /// Where the sections of the level stand in the container.
    pub dir: LevelDir,
}

/// The state of a build in passes.
pub struct DirectPasses {
    rows: u64,
    levels: u16,
    table: Option<Vec<PrefixCode>>,
    base: u64,
    level: u16,
    seen: u64,
    level_rows: u64,
    encoder: LevelEncoder,
    cursor: u64,
    peak_scratch: u64,
    dirs: Vec<LevelDir>,
    lens: Vec<u64>,
    passes: Ghost<Seq<Seq<u32>>>,
    pass: Ghost<Seq<u32>>,
    images: Ghost<Seq<LevelImage>>,
}

impl DirectPasses {
    /// How many symbols each pass reads.
    pub closed spec fn row_count(&self) -> int {
        self.rows as int
    }

    /// How many levels there are.
    pub closed spec fn level_count(&self) -> int {
        self.levels as int
    }

    /// The codes of the symbols, `None` where they are written as they are.
    pub closed spec fn codes(&self) -> Option<Seq<PrefixCode>> {
        codes_view(self.table)
    }

    /// Where the levels begin in the container.
    pub closed spec fn start(&self) -> int {
        self.base as int
    }

    /// The level that is being written.
    pub closed spec fn level_index(&self) -> int {
        self.level as int
    }

    /// What the finished passes have read.
    pub closed spec fn passes(&self) -> Seq<Seq<u32>> {
        self.passes@
    }

    /// What the running pass has read.
    pub closed spec fn pass(&self) -> Seq<u32> {
        self.pass@
    }

    /// The sections of the finished levels.
    pub closed spec fn images(&self) -> Seq<LevelImage> {
        self.images@
    }

    /// The digits of the finished levels.
    pub open spec fn done(&self) -> Seq<Seq<u8>> {
        pass_levels(self.passes(), self.codes(), self.level_count())
    }

    /// What was taken of the sections of the running level.
    pub closed spec fn taken(&self) -> LevelImage {
        LevelImage {
            data: self.encoder.taken_data(),
            superblocks: self.encoder.taken_superblocks(),
            select: self.encoder.taken_select(),
        }
    }

    /// How many bytes of the running level were written and not taken yet.
    pub closed spec fn pending(&self) -> nat {
        self.encoder.pending()
    }

    /// The running level has as many rows as can be, and `symbol` would add one.
    pub open spec fn full(&self, symbol: u32) -> bool {
        &&& self.running().len() >= MAX_LEVEL_ROWS + 255
        &&& symbol_code(self.codes(), self.level_count(), 2, symbol).len() > self.level_index()
    }

    /// What the running level has written is what was taken and what is left.
    pub proof fn lemma_pending(&self)
        requires
            self.wf(),
        ensures
            self.taken().select.len() == 4,
            self.pending() + self.taken().data.len() + self.taken().superblocks.len()
                + self.taken().select[0].len() + self.taken().select[1].len()
                + self.taken().select[2].len() + self.taken().select[3].len() == written(
                self.running(),
                false,
            ),
    {
        reveal(DirectPasses::wf);
        self.encoder.lemma_pending();
    }

    /// Rows, levels and offsets stay within the limits of the container.
    pub proof fn lemma_room(&self)
        requires
            self.wf(),
        ensures
            self.row_count() <= 0xff_ffff_ff00,
            self.running().len() <= self.pass().len(),
            self.level_count() <= 16,
            0 <= self.end() <= 0x1000_0000 + 16 * 0x80_0000_0040,
    {
        reveal(DirectPasses::wf);
        let l = self.level as int;
        assert(l * 0x80_0000_0040 <= 16 * 0x80_0000_0040);
    }

    /// The most scratch space so far is that of the finished levels.
    pub proof fn lemma_peak(&self)
        requires
            self.wf(),
        ensures
            self.peak() == scratch_peak(
                4 * self.row_count(),
                self.level_count(),
                self.done(),
                self.level_index(),
            ),
            self.level_index() <= self.level_count(),
    {
        reveal(DirectPasses::wf);
    }

    /// Of `k` more symbols the running level leaves no more than
    /// `most_written(k)` bytes in memory, where nothing is taken in between.
    pub proof fn lemma_memory(&self, later: Self)
        requires
            self.wf(),
            later.wf(),
            later.same_levels(*self),
            later.taken() == self.taken(),
            self.pass().is_prefix_of(later.pass()),
        ensures
            later.pending() <= self.pending() + most_written(later.pass().len() - self.pass().len()),
    {
        reveal(DirectPasses::wf);
        let k = later.pass().len() - self.pass().len();
        self.lemma_pending();
        later.lemma_pending();
        let more = lemma_pass_prefix(
            self.pass(),
            later.pass(),
            self.codes(),
            self.level_count(),
            self.level_index(),
        );
        assert(later.running() == self.running() + more);
        lemma_written(self.running(), more, false);
        let j = more.len() as int;
        assert(most_written(j) <= most_written(k));
    }

    /// The offset behind the finished levels.
    pub closed spec fn end(&self) -> int {
        self.cursor as int
    }

    /// The directory entries of the finished levels.
    pub closed spec fn entries(&self) -> Seq<LevelDir> {
        self.dirs@
    }

    /// The row counts of the finished levels.
    pub closed spec fn counts(&self) -> Seq<u64> {
        self.lens@
    }

    /// The most scratch space in use so far.
    pub closed spec fn peak(&self) -> int {
        self.peak_scratch as int
    }

    /// Level `l` is finished and stands where its directory entry says.
    spec fn level_ok(&self, l: int) -> bool {
        let rows = self.done()[l];
        &&& self.passes@[l].len() == self.rows
        &&& rows.len() <= self.rows
        &&& digits_below(rows, 4)
        &&& is_image(rows, false, self.images@[l])
        &&& self.lens@[l] == rows.len()
        &&& self.dirs@[l]@ == dir_at(rows, false, image_off(self.base as int, self.images@, l))
    }

    #[verifier::opaque]
    pub closed spec fn wf(&self) -> bool {
        &&& self.rows <= MAX_LEVEL_ROWS
        &&& self.levels <= 16
        &&& self.base <= 0x1000_0000
        &&& self.level <= self.levels
        &&& self.codes() matches Some(codes) ==> table_ok(codes, self.levels as int, 2)
        &&& self.encoder.wf()
        &&& !self.encoder.wide()
        &&& self.seen == self.pass@.len()
        &&& self.level_rows == self.encoder.rows().len()
        &&& self.level_rows <= self.seen
        &&& digits_below(self.encoder.rows(), 4)
        &&& self.encoder.rows() == pass_digits(
            self.pass@,
            self.codes(),
            self.levels as int,
            self.level as int,
        )
        &&& self.dirs.len() == self.level
        &&& self.lens.len() == self.level
        &&& self.passes@.len() == self.level
        &&& self.images@.len() == self.level
        &&& forall|l: int| 0 <= l < self.level ==> #[trigger] self.level_ok(l)
        &&& self.cursor == self.base + payload(
            self.base as int,
            self.images@,
            self.level as int,
        ).len()
        &&& self.cursor <= self.base + self.level * 0x80_0000_0040
        &&& self.peak_scratch == scratch_peak(
            4 * self.rows,
            self.levels as int,
            self.done(),
            self.level as int,
        )
        &&& self.peak_scratch <= 0x1000_0000_0000
    }

    /// A build before its first pass.
    pub fn new(rows: u64, levels: u16, table: Option<Vec<PrefixCode>>, base: u64) -> (b: Self)
        requires
            rows <= MAX_LEVEL_ROWS,
            levels <= 16,
            base <= 0x1000_0000,
            codes_view(table) matches Some(codes) ==> table_ok(codes, levels as int, 2),
        ensures
            b.wf(),
            b.row_count() == rows,
            b.level_count() == levels,
            b.codes() == codes_view(table),
            b.start() == base,
            b.level_index() == 0,
            b.passes() == Seq::<Seq<u32>>::empty(),
            b.pass() == Seq::<u32>::empty(),
            b.images() == Seq::<LevelImage>::empty(),
            b.taken() == no_image(),
            b.pending() == 0,
    {
        let b = DirectPasses {
            rows,
            levels,
            table,
            base,
            level: 0,
            seen: 0,
            level_rows: 0,
            encoder: LevelEncoder::new(false),
            cursor: base,
            peak_scratch: if levels == 0 {
                0
            } else {
                4 * rows
            },
            dirs: Vec::new(),
            lens: Vec::new(),
            passes: Ghost(Seq::empty()),
            pass: Ghost(Seq::empty()),
            images: Ghost(Seq::empty()),
        };
        proof {
            reveal(DirectPasses::wf);
        }
        b
    }

    /// How many symbols the running pass has read.
    pub fn seen(&self) -> (n: u64)
        requires
            self.wf(),
        ensures
            n == self.pass().len(),
    {
        proof {
            reveal(DirectPasses::wf);
        }
        self.seen
    }

    /// How many symbols each pass reads.
    pub fn n_rows(&self) -> (n: u64)
        ensures
            n == self.row_count(),
    {
        self.rows
    }

    /// The level that is being written.
    pub fn level(&self) -> (l: u16)
        ensures
            l == self.level_index(),
    {
        self.level
    }

    /// The number of levels.
    pub fn n_levels(&self) -> (l: u16)
        ensures
            l == self.level_count(),
    {
        self.levels
    }

    /// Whether symbols are to be put into buckets for another pass.
    pub fn needs_partition(&self) -> (b: bool)
        requires
            self.wf(),
        ensures
            b == (self.level_index() + 1 < self.level_count()),
    {
        proof {
            reveal(DirectPasses::wf);
        }
        self.level + 1 < self.levels
    }

    /// Reads the next symbol of the running pass. Tells its bucket, where there
    /// is another pass.
    pub fn push(&mut self, symbol: u32) -> (r: Result<Option<u8>, DirectQwtBuildError>)
        requires
            old(self).wf(),
            old(self).level_index() < old(self).level_count(),
            old(self).pass().len() < u64::MAX,
            writable(old(self).codes(), old(self).level_count(), symbol),
        ensures
            match r {
                Ok(group) => {
                    &&& final(self).wf()
                    &&& final(self).same_levels(*old(self))
                    &&& final(self).taken() == old(self).taken()
                    &&& final(self).pass() == old(self).pass().push(symbol)
                    &&& group == if old(self).level_index() + 1 < old(self).level_count() {
                        Some(
                            bucket(
                                symbol_code(old(self).codes(), old(self).level_count(), 2, symbol),
                                old(self).level_index(),
                                4,
                            ),
                        )
                    } else {
                        None
                    }
                },
                Err(e) => e == DirectQwtBuildError::Overflow("data-line count"),
            },
            r is Err <==> old(self).full(symbol),
    {
        proof {
            reveal(DirectPasses::wf);
        }
        let (digit, group) = digit_and_bucket(&self.table, self.levels, self.level, symbol);
        if let Some(d) = digit {
            match self.encoder.push(d, self.level_rows) {
                Ok(()) => {},
                Err(e) => {
                    return Err(e);
                },
            }
            self.level_rows = self.level_rows + 1;
        }
        self.seen = self.seen + 1;
        self.pass = Ghost(self.pass@.push(symbol));
        proof {
            assert(self.pass@.drop_last() =~= old(self).pass@);
            assert forall|l: int| 0 <= l < self.level implies #[trigger] self.level_ok(l) by {
                assert(old(self).level_ok(l));
            }
        }
        if self.level + 1 < self.levels {
            Ok(Some(group))
        } else {
            Ok(None)
        }
    }

    /// The finished levels and the plan are those of `other`.
    pub open spec fn same_levels(&self, other: Self) -> bool {
        &&& self.row_count() == other.row_count()
        &&& self.level_count() == other.level_count()
        &&& self.codes() == other.codes()
        &&& self.start() == other.start()
        &&& self.level_index() == other.level_index()
        &&& self.passes() == other.passes()
        &&& self.images() == other.images()
        &&& self.end() == other.end()
        &&& self.entries() == other.entries()
        &&& self.counts() == other.counts()
        &&& self.peak() == other.peak()
    }

    /// Hands out what the running level has written so far.
    pub fn take_output(&mut self) -> (out: LevelOutput)
        requires
            old(self).wf(),
        ensures
            final(self).wf(),
            final(self).same_levels(*old(self)),
            final(self).pass() == old(self).pass(),
            out.select.len() == 4,
            final(self).taken() == extended(old(self).taken(), out),
            final(self).pending() == 0,
    {
        proof {
            reveal(DirectPasses::wf);
        }
        let out: LevelOutput = self.encoder.take_output();
        proof {
            assert forall|l: int| 0 <= l < self.level implies #[trigger] self.level_ok(l) by {
                assert(old(self).level_ok(l));
            }
        }
        out
    }
}

impl DirectPasses {
    /// Ends the running pass: completes its level, places it in the container
    /// and begins the next pass.
    pub fn end_level(&mut self) -> (r: Result<FinishedLevel, DirectQwtBuildError>)
        requires
            old(self).wf(),
            old(self).level_index() < old(self).level_count(),
        ensures
            final(self).row_count() == old(self).row_count(),
            final(self).level_count() == old(self).level_count(),
            final(self).codes() == old(self).codes(),
            final(self).start() == old(self).start(),
            match r {
                Ok(finished) => {
                    &&& old(self).pass().len() == old(self).row_count()
                    &&& placement_fits(old(self).end(), old(self).running())
                    &&& final(self).wf()
                    &&& final(self).level_index() == old(self).level_index() + 1
                    &&& final(self).passes() == old(self).passes().push(old(self).pass())
                    &&& final(self).pass() == Seq::<u32>::empty()
                    &&& final(self).taken() == no_image()
                    &&& final(self).pending() == 0
                    &&& finished.output.select.len() == 4
                    &&& final(self).images() == old(self).images().push(
                        extended(old(self).taken(), finished.output),
                    )
                    &&& final(self).entries() == old(self).entries().push(finished.dir)
                },
                Err(e) => if old(self).pass().len() != old(self).row_count() {
                    e == DirectQwtBuildError::InvalidInput(
                        "partitioned source row count changed between levels",
                    )
                } else {
                    &&& !placement_fits(old(self).end(), old(self).running())
                    &&& e == DirectQwtBuildError::Overflow("output cursor")
                },
            },
    {
        proof {
            reveal(DirectPasses::wf);
        }
        if self.seen != self.rows {
            return Err(
                DirectQwtBuildError::InvalidInput(
                    "partitioned source row count changed between levels",
                ),
            );
        }
        let ghost digits = self.encoder.rows();
        let ghost taken = self.taken();
        let mut encoder: LevelEncoder = LevelEncoder::new(false);
        std::mem::swap(&mut encoder, &mut self.encoder);
        let (output, summary) = match encoder.finish(self.level_rows) {
            Ok(finished) => finished,
            Err(e) => {
                return Err(e);
            },
        };
        let ghost im = extended(taken, output);
        let ghost images = self.images@.push(im);
        let ghost front: Seq<u8> = Seq::new(self.base as nat, |i: int| 0u8);
        proof {
            assert(is_image(digits, false, im)) by {
                reveal(is_image);
            }
            lemma_image_len(digits, false, im);
            lemma_aligned(self.cursor as int, 64);
            lemma_payload_local(self.base as int, self.images@, images, self.level as int);
            lemma_payload_at(front, images, self.level as int);
            lemma_summary_dir(
                summary,
                digits,
                false,
                image_off(self.base as int, images, self.level as int),
            );
        }
        if self.cursor > (usize::MAX - 63) as u64 {
            return Err(DirectQwtBuildError::Overflow("output cursor"));
        }
        let (dir, end) = match place_level(self.cursor, &summary) {
            Ok(placed) => placed,
            Err(e) => {
                return Err(e);
            },
        };
        if dir.off_superblocks > usize::MAX as u64 || dir.off_sel[0] > usize::MAX as u64 {
            return Err(DirectQwtBuildError::Overflow("output cursor"));
        }
        let source_bytes: u64 = 4 * self.rows;
        let partition_bytes: u64 = if self.level + 1 < self.levels {
            source_bytes
        } else {
            0
        };
        let level_peak: u64 = source_bytes + partition_bytes + summary.aux_bytes;
        if level_peak > self.peak_scratch {
            self.peak_scratch = level_peak;
        }
        self.cursor = end;
        self.dirs.push(dir);
        self.lens.push(self.level_rows);
        self.passes = Ghost(self.passes@.push(self.pass@));
        self.images = Ghost(images);
        self.level = self.level + 1;
        self.seen = 0;
        self.level_rows = 0;
        self.pass = Ghost(Seq::empty());
        proof {
            let l0 = old(self).level as int;
            let before = old(self).done();
            let after = self.done();
            assert forall|l: int| 0 <= l < l0 implies after[l] == before[l] by {
                assert(self.passes@[l] == old(self).passes@[l]);
            }
            assert(after[l0] == digits);
            lemma_peak_local(4 * self.rows, self.levels as int, before, after, l0);
            assert forall|l: int| 0 <= l < self.level implies #[trigger] self.level_ok(l) by {
                if l < l0 {
                    assert(old(self).level_ok(l));
                    lemma_payload_local(self.base as int, old(self).images@, images, l);
                }
            }
        }
        Ok(FinishedLevel { output, dir })
    }

    /// What holds of the finished levels.
    pub proof fn lemma_done(&self)
        requires
            self.wf(),
        ensures
            0 <= self.level_index() <= self.level_count() <= 16,
            0 <= self.row_count() <= MAX_LEVEL_ROWS,
            0 <= self.start() <= 0x1000_0000,
            self.passes().len() == self.level_index(),
            self.images().len() == self.level_index(),
            self.entries().len() == self.level_index(),
            self.counts().len() == self.level_index(),
            forall|l: int|
                0 <= l < self.level_index() ==> {
                    &&& #[trigger] self.passes()[l].len() == self.row_count()
                    &&& self.done()[l].len() <= self.row_count()
                    &&& digits_below(self.done()[l], 4)
                    &&& is_image(self.done()[l], false, self.images()[l])
                    &&& self.counts()[l] == self.done()[l].len()
                    &&& self.entries()[l]@ == dir_at(
                        self.done()[l],
                        false,
                        image_off(self.start(), self.images(), l),
                    )
                },
            self.end() == self.start() + payload(
                self.start(),
                self.images(),
                self.level_index(),
            ).len(),
            self.peak() == scratch_peak(
                4 * self.row_count(),
                self.level_count(),
                self.done(),
                self.level_index(),
            ),
    {
        reveal(DirectPasses::wf);
        assert forall|l: int| 0 <= l < self.level_index() implies {
            &&& #[trigger] self.passes()[l].len() == self.row_count()
            &&& self.done()[l].len() <= self.row_count()
            &&& digits_below(self.done()[l], 4)
            &&& is_image(self.done()[l], false, self.images()[l])
            &&& self.counts()[l] == self.done()[l].len()
            &&& self.entries()[l]@ == dir_at(
                self.done()[l],
                false,
                image_off(self.start(), self.images(), l),
            )
        } by {
            assert(self.level_ok(l));
        }
    }

    /// The directory entries of the finished levels.
    pub fn dirs(&self) -> (v: &Vec<LevelDir>)
        ensures
            v@ == self.entries(),
    {
        &self.dirs
    }

    /// The row counts of the finished levels.
    pub fn lens(&self) -> (v: &Vec<u64>)
        ensures
            v@ == self.counts(),
    {
        &self.lens
    }

    /// What the build has used so far.
    pub fn stats(&self) -> (stats: DirectQwtBuildStats)
        ensures
            stats.rows == self.row_count(),
            stats.levels == self.level_count(),
            stats.output_bytes == self.end(),
            stats.peak_scratch_bytes == self.peak(),
    {
        DirectQwtBuildStats {
            rows: self.rows,
            levels: self.levels,
            output_bytes: self.cursor,
            peak_scratch_bytes: self.peak_scratch,
        }
    }

    /// The digits of the running level.
    pub open spec fn running(&self) -> Seq<u8> {
        pass_digits(self.pass(), self.codes(), self.level_count(), self.level_index())
    }
}

/// Sections that nothing was written of.
pub open spec fn no_image() -> LevelImage {
    LevelImage { data: Seq::empty(), superblocks: Seq::empty(), select: none_taken() }
}

/// Sections with what is written behind them.
pub open spec fn extended(im: LevelImage, out: LevelOutput) -> LevelImage {
    LevelImage {
        data: im.data + out.data@,
        superblocks: im.superblocks + out.superblocks@,
        select: joined(im.select, out.select@),
    }
}

} // verus!
