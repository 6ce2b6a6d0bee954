//! Encoding one level, row by row.

use vstd::prelude::*;

use super::error::DirectQwtBuildError;
use super::image::{
    block_start, byte_bit, data_bit, data_bits, encodes_level, lemma_count_push, lemma_pack_word,
    lemma_samples, lemma_super_bytes_len, lemma_super_word, lemma_u32_bytes_len, line_count,
    pack_word, sample_list, samples, super_bytes, super_count, super_fields, super_of, super_start,
    super_word, u32_bytes, SELECT_SAMPLE_ROWS,
};
use super::le::{le_bytes, put_u128, put_u32};
use crate::wavelet::{
    below, count, digits_below, lemma_below_step, lemma_below_zero, lemma_count_bounds,
    lemma_count_local, lemma_count_mono,
};

verus! {

/// Rows that a level can hold at most: a data-line count has 32 bits.
pub const MAX_LEVEL_ROWS: u64 = 0xff_ffff_ff00;

/// The block of row `p`.
pub open spec fn block_of(b512: bool, p: int) -> int {
    if b512 {
        p / 512
    } else {
        p / 256
    }
}

/// The superblock that the last of `n` rows lies in.
pub open spec fn cur_super(n: int, b512: bool) -> int {
    if n <= 0 {
        0
    } else {
        super_of(b512, n - 1)
    }
}

/// How many bytes of its sections an encoder has written for these rows: full
/// data lines, superblocks before the last, and samples.
pub open spec fn written(rows: Seq<u8>, b512: bool) -> int {
    let n = rows.len() as int;
    64 * (n / 256) + 64 * cur_super(n, b512) + 4 * (samples(rows, b512, 0, n).len() + samples(
        rows,
        b512,
        1,
        n,
    ).len() + samples(rows, b512, 2, n).len() + samples(rows, b512, 3, n).len())
}

/// How many bytes `k` more rows make an encoder write at most.
pub open spec fn most_written(k: int) -> int {
    64 * (k / 256 + 1) + 64 * (k / 2048 + 1) + 4 * (k / 8192 + 4)
}

/// An encoder writes little more than a quarter of a byte for a row.
pub proof fn lemma_written(rows: Seq<u8>, more: Seq<u8>, b512: bool)
    requires
        digits_below(rows + more, 4),
    ensures
        written(rows, b512) <= written(rows + more, b512) <= written(rows, b512) + most_written(
            more.len() as int,
        ),
{
    let all = rows + more;
    let n = rows.len() as int;
    let m = all.len() as int;
    let k = more.len() as int;
    lemma_all_counted(all, n);
    lemma_all_counted(all, m);
    assert(rows =~= all.subrange(0, n));
    let x0 = lemma_more_samples(rows, all, b512, 0);
    let x1 = lemma_more_samples(rows, all, b512, 1);
    let x2 = lemma_more_samples(rows, all, b512, 2);
    let x3 = lemma_more_samples(rows, all, b512, 3);
    assert(x0 / 8192 + x1 / 8192 + x2 / 8192 + x3 / 8192 <= k / 8192);
    assert(0 <= cur_super(m, b512) - cur_super(n, b512) <= k / 2048 + 1);
    assert(0 <= m / 256 - n / 256 <= k / 256 + 1);
}

/// The samples of a digit among more rows, and how many more of it there are.
proof fn lemma_more_samples(rows: Seq<u8>, all: Seq<u8>, b512: bool, d: u8) -> (x: int)
    requires
        rows.is_prefix_of(all),
    ensures
        x == count(all, d, all.len() as int) - count(all, d, rows.len() as int),
        0 <= x,
        samples(rows, b512, d, rows.len() as int).len() <= samples(
            all,
            b512,
            d,
            all.len() as int,
        ).len() <= samples(rows, b512, d, rows.len() as int).len() + x / 8192 + 1,
{
    let n = rows.len() as int;
    let m = all.len() as int;
    lemma_samples(all, b512, d, m);
    lemma_samples(rows, b512, d, n);
    assert forall|p: int| 0 <= p < n implies all[p] == rows[p] by {
        assert(all.subrange(0, n)[p] == rows[p]);
    }
    lemma_count_local(all, rows, d, n);
    lemma_count_mono(all, d, n, m);
    lemma_count_bounds(all, d, n);
    count(all, d, m) - count(all, d, n)
}

/// Every row has one of the digits.
proof fn lemma_all_counted(rows: Seq<u8>, i: int)
    requires
        digits_below(rows, 4),
        0 <= i <= rows.len(),
    ensures
        count(rows, 0, i) + count(rows, 1, i) + count(rows, 2, i) + count(rows, 3, i) == i,
    decreases i,
{
    if i > 0 {
        lemma_all_counted(rows, i - 1);
        assert(rows[i - 1] < 4);
    }
}

/// Counter `b` of superblock `s`, where the block has begun.
pub open spec fn open_field(rows: Seq<u8>, b512: bool, d: u8, s: int, b: int) -> int {
    let start = super_start(b512, s);
    if start + block_start(b512, b) < rows.len() {
        count(rows, d, start + block_start(b512, b)) - count(rows, d, start)
    } else {
        0
    }
}

pub open spec fn open_fields(rows: Seq<u8>, b512: bool, d: u8, s: int) -> Seq<int> {
    Seq::new(7, |k: int| open_field(rows, b512, d, s, k + 1))
}

pub open spec fn open_word(rows: Seq<u8>, b512: bool, d: u8, s: int) -> int {
    pack_word(count(rows, d, super_start(b512, s)), open_fields(rows, b512, d, s))
}

/// The weight of counter `b` in a word.
pub open spec fn unit(b: int) -> int {
    if b == 1 {
        1
    } else if b == 2 {
        0x1000
    } else if b == 3 {
        0x100_0000
    } else if b == 4 {
        0x10_0000_0000
    } else if b == 5 {
        0x1_0000_0000_0000
    } else if b == 6 {
        0x1000_0000_0000_0000
    } else {
        0x100_0000_0000_0000_0000
    }
}

fn counter_unit(b: usize) -> (u: u128)
    requires
        1 <= b <= 7,
    ensures
        u == unit(b as int),
{
    if b == 1 {
        1
    } else if b == 2 {
        0x1000
    } else if b == 3 {
        0x100_0000
    } else if b == 4 {
        0x10_0000_0000
    } else if b == 5 {
        0x1_0000_0000_0000
    } else if b == 6 {
        0x1000_0000_0000_0000
    } else {
        0x100_0000_0000_0000_0000
    }
}

fn super_index(b512: bool, p: u64) -> (s: u64)
    ensures
        s == super_of(b512, p as int),
{
    if b512 {
        p / 4096
    } else {
        p / 2048
    }
}

fn block_index(b512: bool, p: u64) -> (b: u64)
    ensures
        b == block_of(b512, p as int),
{
    if b512 {
        p / 512
    } else {
        p / 256
    }
}

fn starts_superblock(b512: bool, p: u64) -> (r: bool)
    ensures
        r == (p == super_start(b512, super_of(b512, p as int))),
{
    if b512 {
        p % 4096 == 0
    } else {
        p % 2048 == 0
    }
}

fn starts_block(b512: bool, p: u64) -> (r: bool)
    ensures
        r == (p == block_start(b512, block_of(b512, p as int))),
{
    if b512 {
        p % 512 == 0
    } else {
        p % 256 == 0
    }
}

/// Setting a counter that was zero adds it to the word.
proof fn lemma_set_field(g: int, f: Seq<int>, b: int, x: int)
    requires
        f.len() == 7,
        1 <= b <= 7,
        f[b - 1] == 0,
    ensures
        pack_word(g, f.update(b - 1, x)) == pack_word(g, f) + unit(b) * x,
{
    let h = f.update(b - 1, x);
    assert(b == 1 || b == 2 || b == 3 || b == 4 || b == 5 || b == 6 || b == 7);
}

/// A superblock whose rows are all there is complete.
proof fn lemma_open_full(rows: Seq<u8>, b512: bool, d: u8, s: int)
    requires
        0 <= s,
        super_start(b512, s + 1) <= rows.len(),
    ensures
        open_word(rows, b512, d, s) == super_word(rows, b512, d, s),
{
    let f = open_fields(rows, b512, d, s);
    let h = super_fields(rows, b512, d, s);
    assert forall|k: int| 0 <= k < 7 implies #[trigger] f[k] == h[k] by {
    }
    assert(f =~= h);
}

/// Complete superblocks do not change when rows are added.
proof fn lemma_super_word_push(rows: Seq<u8>, x: u8, b512: bool, d: u8, s: int)
    requires
        0 <= s,
        super_start(b512, s + 1) <= rows.len(),
    ensures
        super_word(rows.push(x), b512, d, s) == super_word(rows, b512, d, s),
{
    lemma_count_push(rows, x);
    let f = super_fields(rows, b512, d, s);
    let h = super_fields(rows.push(x), b512, d, s);
    assert forall|k: int| 0 <= k < 7 implies #[trigger] h[k] == f[k] by {
    }
    assert(h =~= f);
}

proof fn lemma_super_bytes_push(rows: Seq<u8>, x: u8, b512: bool, k: int)
    requires
        0 <= k,
        super_start(b512, k) <= rows.len(),
    ensures
        super_bytes(rows.push(x), b512, k) == super_bytes(rows, b512, k),
    decreases k,
{
    if k > 0 {
        lemma_super_bytes_push(rows, x, b512, k - 1);
        lemma_super_word_push(rows, x, b512, 0, k - 1);
        lemma_super_word_push(rows, x, b512, 1, k - 1);
        lemma_super_word_push(rows, x, b512, 2, k - 1);
        lemma_super_word_push(rows, x, b512, 3, k - 1);
    }
}

/// Words of open superblocks fit.
proof fn lemma_open_word(rows: Seq<u8>, b512: bool, d: u8, s: int)
    requires
        0 <= s,
        super_start(b512, s) <= rows.len() < 0x1000_0000_0000,
    ensures
        0 <= open_word(rows, b512, d, s) < 0x1_0000_0000_0000_0000_0000_0000_0000_0000,
{
    let f = open_fields(rows, b512, d, s);
    let start = super_start(b512, s);
    assert forall|k: int| 0 <= k < 7 implies 0 <= #[trigger] f[k] < 4096 by {
        lemma_count_mono(rows, d, start, start + block_start(b512, k + 1));
    }
    lemma_count_bounds(rows, d, start);
    lemma_pack_word(count(rows, d, start), f);
}

/// What a new row does to the word of its superblock.
proof fn lemma_open_word_push(rows: Seq<u8>, x: u8, b512: bool, d: u8, s: int)
    requires
        0 <= s,
        super_start(b512, s) <= rows.len() < super_start(b512, s + 1),
    ensures
        ({
            let n = rows.len() as int;
            let start = super_start(b512, s);
            let id = (block_of(b512, n)) % 8;
            let w = open_word(rows.push(x), b512, d, s);
            &&& n == start ==> w == 0x10_0000_0000_0000_0000_0000 * count(rows, d, n)
            &&& n > start && n == block_start(b512, block_of(b512, n)) ==> 1 <= id <= 7 && w == open_word(
                rows,
                b512,
                d,
                s,
            ) + unit(id) * (count(rows, d, n) - count(rows, d, start))
            &&& n > start && n != block_start(b512, block_of(b512, n)) ==> w == open_word(rows, b512, d, s)
        }),
{
    let n = rows.len() as int;
    let start = super_start(b512, s);
    lemma_count_push(rows, x);
    let f = open_fields(rows, b512, d, s);
    let h = open_fields(rows.push(x), b512, d, s);
    let id = (block_of(b512, n)) % 8;
    let c = count(rows, d, n) - count(rows, d, start);
    if n > start && n == block_start(b512, block_of(b512, n)) {
        assert(n == start + block_start(b512, id)) by {
        }
        assert forall|k: int| 0 <= k < 7 implies #[trigger] h[k] == f.update(id - 1, c)[k] by {
        }
        assert(h =~= f.update(id - 1, c));
        assert(f[id - 1] == 0);
        lemma_set_field(count(rows, d, start), f, id, c);
    } else {
        assert forall|k: int| 0 <= k < 7 implies #[trigger] h[k] == f[k] by {
        }
        assert(h =~= f);
        if n == start {
            assert forall|k: int| 0 <= k < 7 implies #[trigger] h[k] == 0 by {
            }
        }
    }
}

proof fn lemma_samples_push(rows: Seq<u8>, x: u8, b512: bool, d: u8, i: int)
    requires
        0 <= i <= rows.len(),
    ensures
        samples(rows.push(x), b512, d, i) == samples(rows, b512, d, i),
    decreases i,
{
    if i > 0 {
        lemma_samples_push(rows, x, b512, d, i - 1);
        lemma_count_push(rows, x);
    }
}

/// What closing a superblock does to its word.
#[verifier::rlimit(40)]
#[verifier::spinoff_prover]
proof fn lemma_close_word(rows: Seq<u8>, b512: bool, d: u8, s: int)
    requires
        0 <= s,
        super_start(b512, s) < rows.len() < super_start(b512, s + 1),
    ensures
        ({
            let n = rows.len() as int;
            let id = block_of(b512, n) % 8;
            let c = count(rows, d, n) - count(rows, d, super_start(b512, s));
            super_word(rows, b512, d, s) == open_word(rows, b512, d, s) + (if n == block_start(
                b512,
                block_of(b512, n),
            ) {
                unit(id) * c
            } else {
                0
            }) + (if id < 7 {
                unit(id + 1) * c
            } else {
                0
            })
        }),
        rows.len() == block_start(b512, block_of(b512, rows.len() as int)) ==> 1 <= block_of(
            b512,
            rows.len() as int,
        ) % 8 <= 7,
{
    let n = rows.len() as int;
    let start = super_start(b512, s);
    let id = block_of(b512, n) % 8;
    let c = count(rows, d, n) - count(rows, d, start);
    let g = count(rows, d, start);
    let f = open_fields(rows, b512, d, s);
    let m = if n == block_start(b512, block_of(b512, n)) {
        f.update(id - 1, c)
    } else {
        f
    };
    assert(start + block_start(b512, id) <= n < start + block_start(b512, id + 1));
    if n == block_start(b512, block_of(b512, n)) {
        assert(n == start + block_start(b512, id));
        assert(f[id - 1] == 0);
        lemma_set_field(g, f, id, c);
    }
    assert(pack_word(g, m) == pack_word(g, f) + if n == block_start(b512, block_of(b512, n)) {
        unit(id) * c
    } else {
        0
    });
    let h = if id < 7 {
        m.update(id, c)
    } else {
        m
    };
    if id < 7 {
        assert(f[id] == 0);
        assert(m[id] == 0);
        lemma_set_field(g, m, id + 1, c);
    }
    let last = super_fields(rows, b512, d, s);
    assert forall|k: int| 0 <= k < 7 implies #[trigger] last[k] == h[k] by {
        assert(block_start(b512, k + 1) - block_start(b512, k) > 0);
    }
    assert(last =~= h);
}

/// The word of a superblock that begins where the rows end.
proof fn lemma_terminal_word(rows: Seq<u8>, b512: bool, d: u8, s: int)
    requires
        0 <= s,
        super_start(b512, s) == rows.len() || (rows.len() == 0 && s == 1),
    ensures
        super_word(rows, b512, d, s) == 0x10_0000_0000_0000_0000_0000 * count(
            rows,
            d,
            rows.len() as int,
        ),
{
    let f = super_fields(rows, b512, d, s);
    assert forall|k: int| 0 <= k < 7 implies #[trigger] f[k] == 0 by {}
}

/// Four words as bytes.
spec fn words_bytes(words: Seq<u128>) -> Seq<u8> {
    le_bytes(words[0] as int, 16) + le_bytes(words[1] as int, 16) + le_bytes(words[2] as int, 16)
        + le_bytes(words[3] as int, 16)
}

/// Writing the words of the next superblock.
proof fn lemma_next_super(rows: Seq<u8>, b512: bool, s: int, before: Seq<u8>, words: Seq<u128>)
    requires
        0 <= s,
        before == super_bytes(rows, b512, s),
        forall|d: int|
            0 <= d < 4 ==> #[trigger] words[d] == super_word(rows, b512, d as u8, s),
    ensures
        before + words_bytes(words) == super_bytes(rows, b512, s + 1),
{
    assert(words[0] == super_word(rows, b512, 0, s));
    assert(words[1] == super_word(rows, b512, 1, s));
    assert(words[2] == super_word(rows, b512, 2, s));
    assert(words[3] == super_word(rows, b512, 3, s));
}

/// Four empty sections.
pub open spec fn none_taken() -> Seq<Seq<u8>> {
    Seq::new(4, |d: int| Seq::<u8>::empty())
}

/// Bytes that an encoder has written since they were last taken.
pub struct LevelOutput {
    pub data: Vec<u8>,
    pub superblocks: Vec<u8>,
    pub select: Vec<Vec<u8>>,
}

/// What is known of a level when all its rows are written.
#[derive(Clone, Copy, Debug, PartialEq, Eq)]
pub struct LevelSummary {
    pub n_datalines: u32,
    pub position_bits: u64,
    pub n_superblocks: u32,
    pub n_sel: [u32; 4],
    pub n_occs_smaller: [u64; 5],
    pub aux_bytes: u64,
}

/// The summary of a level with these rows.
pub open spec fn summarizes(summary: LevelSummary, rows: Seq<u8>, b512: bool) -> bool {
    let n = rows.len() as int;
    &&& summary.n_datalines == line_count(n)
    &&& summary.position_bits == 2 * n
    &&& summary.n_superblocks == super_count(n, b512)
    &&& forall|d: int|
        0 <= d < 4 ==> #[trigger] summary.n_sel@[d] == sample_list(rows, b512, d as u8).len()
    &&& forall|d: int|
        0 <= d < 5 ==> #[trigger] summary.n_occs_smaller@[d] == below(rows, d, n)
    &&& summary.aux_bytes == 64 * line_count(n) + 64 * super_count(n, b512) + 4 * (
    summary.n_sel@[0] + summary.n_sel@[1] + summary.n_sel@[2] + summary.n_sel@[3])
}

/// The select sections with what was taken of them before.
pub open spec fn joined(taken: Seq<Seq<u8>>, rest: Seq<Vec<u8>>) -> Seq<Seq<u8>> {
    Seq::new(4, |d: int| taken[d] + rest[d]@)
}

/// Writes the data lines, the superblocks and the select samples of a level
/// while its rows come in.
pub struct LevelEncoder {
    b512: bool,
    line: Vec<u8>,
    line_rows: usize,
    n_datalines: u32,
    global: [u64; 4],
    block: [u64; 4],
    superblock_words: [u128; 4],
    n_superblocks: u32,
    n_sel: [u32; 4],
    data: Vec<u8>,
    superblocks: Vec<u8>,
    select: Vec<Vec<u8>>,
    rows: Ghost<Seq<u8>>,
    taken_data: Ghost<Seq<u8>>,
    taken_superblocks: Ghost<Seq<u8>>,
    taken_select: Ghost<Seq<Seq<u8>>>,
}

proof fn lemma_set_byte_bit(x: u8, i: u8, j: u8)
    by (bit_vector)
    requires
        i < 8,
        j < 8,
    ensures
        ((x | (1u8 << i)) >> j) & 1 == if i == j {
            1
        } else {
            (x >> j) & 1
        },
{
}

proof fn lemma_zero_byte_bit(j: u8)
    by (bit_vector)
    ensures
        (0u8 >> j) & 1 == 0,
{
}

/// A line without rows.
fn empty_line() -> (line: Vec<u8>)
    ensures
        line.len() == 64,
        forall|q: int, t: int| 0 <= q < 64 && 0 <= t < 8 ==> !#[trigger] byte_bit(line[q], t),
{
    let line: Vec<u8> = vec![0u8; 64];
    assert forall|q: int, t: int| 0 <= q < 64 && 0 <= t < 8 implies !#[trigger] byte_bit(
        line[q],
        t,
    ) by {
        lemma_zero_byte_bit(t as u8);
    }
    line
}

fn no_select() -> (select: Vec<Vec<u8>>)
    ensures
        select.len() == 4,
        forall|d: int| 0 <= d < 4 ==> (#[trigger] select[d])@ == Seq::<u8>::empty(),
{
    let mut select: Vec<Vec<u8>> = Vec::new();
    select.push(Vec::new());
    select.push(Vec::new());
    select.push(Vec::new());
    select.push(Vec::new());
    select
}

impl LevelEncoder {
    /// The rows written so far.
    pub closed spec fn rows(&self) -> Seq<u8> {
        self.rows@
    }

    /// Whether blocks have 512 rows.
    pub closed spec fn wide(&self) -> bool {
        self.b512
    }

    /// All data lines written so far.
    pub closed spec fn all_data(&self) -> Seq<u8> {
        self.taken_data@ + self.data@
    }

    /// The data bytes that were taken.
    pub closed spec fn taken_data(&self) -> Seq<u8> {
        self.taken_data@
    }

    /// The superblock bytes that were taken.
    pub closed spec fn taken_superblocks(&self) -> Seq<u8> {
        self.taken_superblocks@
    }

    /// The select bytes that were taken.
    pub closed spec fn taken_select(&self) -> Seq<Seq<u8>> {
        self.taken_select@
    }

    /// How many bytes were written and not taken yet.
    pub closed spec fn pending(&self) -> nat {
        self.data@.len() + self.superblocks@.len() + self.select@[0]@.len()
            + self.select@[1]@.len() + self.select@[2]@.len() + self.select@[3]@.len()
    }

    /// What was written and not taken is what was written less what was taken.
    pub proof fn lemma_pending(&self)
        requires
            self.wf(),
        ensures
            self.taken_select().len() == 4,
            self.pending() + self.taken_data().len() + self.taken_superblocks().len()
                + self.taken_select()[0].len() + self.taken_select()[1].len()
                + self.taken_select()[2].len() + self.taken_select()[3].len() == written(
                self.rows(),
                self.wide(),
            ),
    {
        let rows = self.rows@;
        let n = rows.len() as int;
        lemma_super_bytes_len(rows, self.b512, cur_super(n, self.b512));
        assert forall|d: int| 0 <= d < 4 implies self.taken_select@[d].len() + (
        #[trigger] self.select[d])@.len() == 4 * samples(rows, self.b512, d as u8, n).len() by {
            lemma_samples(rows, self.b512, d as u8, n);
            lemma_u32_bytes_len(samples(rows, self.b512, d as u8, n));
            assert((self.taken_select@[d] + self.select[d]@).len() == u32_bytes(
                samples(rows, self.b512, d as u8, n),
            ).len());
        }
        assert(self.taken_select@[0].len() + self.select[0]@.len() == 4 * samples(
            rows,
            self.b512,
            0,
            n,
        ).len());
        assert(self.taken_select@[1].len() + self.select[1]@.len() == 4 * samples(
            rows,
            self.b512,
            1,
            n,
        ).len());
        assert(self.taken_select@[2].len() + self.select[2]@.len() == 4 * samples(
            rows,
            self.b512,
            2,
            n,
        ).len());
        assert(self.taken_select@[3].len() + self.select[3]@.len() == 4 * samples(
            rows,
            self.b512,
            3,
            n,
        ).len());
        assert((self.taken_superblocks@ + self.superblocks@).len() == super_bytes(
            rows,
            self.b512,
            cur_super(n, self.b512),
        ).len());
        assert(self.all_data().len() == self.taken_data@.len() + self.data@.len());
    }

    spec fn line_ok(&self, rows: Seq<u8>) -> bool {
        let n = rows.len() as int;
        &&& self.line.len() == 64
        &&& self.line_rows == n % 256
        &&& self.n_datalines == n / 256
        &&& forall|q: int, t: int|
            0 <= q < 64 && 0 <= t < 8 ==> #[trigger] byte_bit(self.line[q], t) == data_bit(
                rows,
                64 * (n / 256) + q,
                t,
            )
        &&& self.all_data().len() == 64 * (n / 256)
        &&& data_bits(rows, self.all_data())
    }

    spec fn counts_ok(&self, rows: Seq<u8>) -> bool {
        let n = rows.len() as int;
        let cur = cur_super(n, self.b512);
        &&& self.n_superblocks == cur + 1
        &&& forall|d: int|
            0 <= d < 4 ==> #[trigger] self.global@[d] == count(rows, d as u8, n)
        &&& forall|d: int|
            0 <= d < 4 ==> #[trigger] self.block@[d] == count(rows, d as u8, n) - count(
                rows,
                d as u8,
                super_start(self.b512, cur),
            )
        &&& forall|d: int|
            0 <= d < 4 ==> #[trigger] self.superblock_words@[d] == open_word(
                rows,
                self.b512,
                d as u8,
                cur,
            )
        &&& self.taken_superblocks@ + self.superblocks@ == super_bytes(rows, self.b512, cur)
    }

    spec fn select_ok(&self, rows: Seq<u8>) -> bool {
        let n = rows.len() as int;
        &&& self.select.len() == 4
        &&& self.taken_select@.len() == 4
        &&& forall|d: int|
            0 <= d < 4 ==> self.taken_select@[d] + (#[trigger] self.select[d])@ == u32_bytes(
                samples(rows, self.b512, d as u8, n),
            )
        &&& forall|d: int|
            0 <= d < 4 ==> #[trigger] self.n_sel@[d] == samples(
                rows,
                self.b512,
                d as u8,
                n,
            ).len()
    }

    pub closed spec fn wf(&self) -> bool {
        &&& digits_below(self.rows@, 4)
        &&& self.rows@.len() <= MAX_LEVEL_ROWS + 255
        &&& self.line_ok(self.rows@)
        &&& self.counts_ok(self.rows@)
        &&& self.select_ok(self.rows@)
    }

    /// An encoder that has written nothing yet.
    pub fn new(b512: bool) -> (enc: Self)
        ensures
            enc.wf(),
            enc.rows() == Seq::<u8>::empty(),
            enc.wide() == b512,
            enc.taken_data() == Seq::<u8>::empty(),
            enc.taken_superblocks() == Seq::<u8>::empty(),
            enc.taken_select() == none_taken(),
            enc.pending() == 0,
    {
        let enc = LevelEncoder {
            b512,
            line: empty_line(),
            line_rows: 0,
            n_datalines: 0,
            global: [0, 0, 0, 0],
            block: [0, 0, 0, 0],
            superblock_words: [0, 0, 0, 0],
            n_superblocks: 1,
            n_sel: [0, 0, 0, 0],
            data: Vec::new(),
            superblocks: Vec::new(),
            select: no_select(),
            rows: Ghost(Seq::empty()),
            taken_data: Ghost(Seq::empty()),
            taken_superblocks: Ghost(Seq::empty()),
            taken_select: Ghost(none_taken()),
        };
        proof {
            assert(enc.all_data() =~= Seq::<u8>::empty());
            assert forall|d: int| 0 <= d < 4 implies #[trigger] enc.superblock_words@[d]
                == open_word(enc.rows@, b512, d as u8, 0) by {
                let f = open_fields(enc.rows@, b512, d as u8, 0);
                assert forall|k: int| 0 <= k < 7 implies #[trigger] f[k] == 0 by {}
            }
            assert(enc.taken_superblocks@ + enc.superblocks@ =~= super_bytes(enc.rows@, b512, 0));
            assert forall|d: int| 0 <= d < 4 implies enc.taken_select@[d] + (
            #[trigger] enc.select[d])@ == u32_bytes(samples(enc.rows@, b512, d as u8, 0)) by {
                assert(enc.taken_select@[d] + enc.select[d]@ =~= Seq::<u8>::empty());
            }
        }
        enc
    }

    /// Writes the words of the open superblock.
    fn flush_superblock(&mut self)
        ensures
            *final(self) == (LevelEncoder { superblocks: final(self).superblocks, ..*old(self) }),
            final(self).superblocks@ == old(self).superblocks@ + words_bytes(
                old(self).superblock_words@,
            ),
    {
        let w0: u128 = self.superblock_words[0];
        let w1: u128 = self.superblock_words[1];
        let w2: u128 = self.superblock_words[2];
        let w3: u128 = self.superblock_words[3];
        let ghost before = self.superblocks@;
        put_u128(&mut self.superblocks, w0);
        put_u128(&mut self.superblocks, w1);
        put_u128(&mut self.superblocks, w2);
        put_u128(&mut self.superblocks, w3);
        assert(self.superblocks@ =~= before + words_bytes(self.superblock_words@));
    }

    /// Sets the counters in front of a block of the open superblock.
    fn set_block_counters(&mut self, block_id: usize)
        requires
            block_id < 8,
            forall|d: int| 0 <= d < 4 ==> (#[trigger] old(self).block@[d]) < 4096,
            forall|d: int|
                0 <= d < 4 ==> (#[trigger] old(self).superblock_words@[d]) + unit(block_id as int)
                    * old(self).block@[d] <= u128::MAX,
        ensures
            *final(self) == (LevelEncoder {
                superblock_words: final(self).superblock_words,
                ..*old(self)
            }),
            forall|d: int|
                0 <= d < 4 ==> #[trigger] final(self).superblock_words@[d] == old(
                    self,
                ).superblock_words@[d] + if block_id == 0 {
                    0
                } else {
                    unit(block_id as int) * old(self).block@[d]
                },
    {
        if block_id == 0 {
            return;
        }
        let u: u128 = counter_unit(block_id);
        let ghost words = self.superblock_words@;
        let ghost block = self.block@;
        let mut d: usize = 0;
        while d < 4
            invariant
                d <= 4,
                1 <= block_id < 8,
                u == unit(block_id as int),
                words == old(self).superblock_words@,
                block == old(self).block@,
                *self == (LevelEncoder { superblock_words: self.superblock_words, ..*old(self) }),
                forall|e: int| 0 <= e < 4 ==> (#[trigger] block[e]) < 4096,
                forall|e: int|
                    0 <= e < 4 ==> (#[trigger] words[e]) + unit(block_id as int) * block[e]
                        <= u128::MAX,
                forall|e: int|
                    d <= e < 4 ==> #[trigger] self.superblock_words@[e] == words[e],
                forall|e: int|
                    0 <= e < d ==> #[trigger] self.superblock_words@[e] == words[e] + unit(
                        block_id as int,
                    ) * block[e],
            decreases 4 - d,
        {
            let b: u128 = self.block[d] as u128;
            proof {
                assert(words[d as int] + unit(block_id as int) * block[d as int] <= u128::MAX);
                assert(0 <= u * b <= u128::MAX) by (nonlinear_arith)
                    requires
                        u * b <= u128::MAX,
                        u >= 0,
                        b >= 0,
                ;
            }
            self.superblock_words[d] = self.superblock_words[d] + u * b;
            d = d + 1;
        }
    }

    /// Writes the open superblock and opens one that begins behind all rows.
    fn next_superblock(&mut self)
        requires
            forall|d: int| 0 <= d < 4 ==> (#[trigger] old(self).global@[d]) < 0x1000_0000_0000,
            old(self).n_superblocks < u32::MAX,
        ensures
            *final(self) == (LevelEncoder {
                superblocks: final(self).superblocks,
                superblock_words: final(self).superblock_words,
                block: final(self).block,
                n_superblocks: final(self).n_superblocks,
                ..*old(self)
            }),
            final(self).superblocks@ == old(self).superblocks@ + words_bytes(
                old(self).superblock_words@,
            ),
            forall|d: int|
                0 <= d < 4 ==> #[trigger] final(self).superblock_words@[d]
                    == 0x10_0000_0000_0000_0000_0000 * old(self).global@[d],
            forall|d: int| 0 <= d < 4 ==> #[trigger] final(self).block@[d] == 0,
            final(self).n_superblocks == old(self).n_superblocks + 1,
    {
        self.flush_superblock();
        let weight: u128 = 0x10_0000_0000_0000_0000_0000;
        assert(self.global@[0] < 0x1000_0000_0000);
        assert(self.global@[1] < 0x1000_0000_0000);
        assert(self.global@[2] < 0x1000_0000_0000);
        assert(self.global@[3] < 0x1000_0000_0000);
        self.superblock_words = [
            self.global[0] as u128 * weight,
            self.global[1] as u128 * weight,
            self.global[2] as u128 * weight,
            self.global[3] as u128 * weight,
        ];
        self.block = [0, 0, 0, 0];
        self.n_superblocks = self.n_superblocks + 1;
    }

    /// Opens the superblock and the block that begin at the next row.
    fn begin_row(&mut self, row: u64, x: Ghost<u8>)
        requires
            old(self).counts_ok(old(self).rows@),
            row == old(self).rows@.len(),
            row < 0x100_0000_0000,
        ensures
            *final(self) == (LevelEncoder {
                superblocks: final(self).superblocks,
                superblock_words: final(self).superblock_words,
                block: final(self).block,
                n_superblocks: final(self).n_superblocks,
                ..*old(self)
            }),
            ({
                let n = old(self).rows@.len() as int;
                let rows = old(self).rows@;
                let b512 = old(self).b512;
                let cur = super_of(b512, n);
                &&& final(self).n_superblocks == cur + 1
                &&& forall|d: int|
                    0 <= d < 4 ==> #[trigger] final(self).block@[d] == count(rows, d as u8, n)
                        - count(rows, d as u8, super_start(b512, cur))
                &&& forall|d: int|
                    0 <= d < 4 ==> #[trigger] final(self).superblock_words@[d] == open_word(
                        rows.push(x@),
                        b512,
                        d as u8,
                        cur,
                    )
                &&& final(self).taken_superblocks@ + final(self).superblocks@ == super_bytes(
                    rows.push(x@),
                    b512,
                    cur,
                )
            }),
    {
        let ghost rows = self.rows@;
        let ghost b512 = self.b512;
        let ghost n = rows.len() as int;
        let ghost cur = cur_super(n, b512);
        let ghost next = super_of(b512, n);
        proof {
            lemma_super_bytes_push(rows, x@, b512, cur);
            assert forall|d: u8| 0 <= d < 4 implies 0 <= #[trigger] count(rows, d, n) <= n by {
                lemma_count_bounds(rows, d, n);
            }
        }
        if row > 0 && starts_superblock(self.b512, row) {
            proof {
                assert(cur + 1 == next);
                assert forall|d: int| 0 <= d < 4 implies #[trigger] self.superblock_words@[d]
                    == super_word(rows.push(x@), b512, d as u8, cur) by {
                    lemma_open_full(rows, b512, d as u8, cur);
                    lemma_super_word_push(rows, x@, b512, d as u8, cur);
                }
            }
            let ghost before = self.taken_superblocks@ + self.superblocks@;
            let ghost words = self.superblock_words@;
            self.next_superblock();
            proof {
                lemma_next_super(rows.push(x@), b512, cur, before, words);
                assert(self.taken_superblocks@ + self.superblocks@ =~= before + words_bytes(
                    words,
                ));
            }
        }
        proof {
            assert forall|d: int| 0 <= d < 4 implies #[trigger] self.block@[d] == count(
                rows,
                d as u8,
                n,
            ) - count(rows, d as u8, super_start(b512, next)) && self.block@[d] < 4096 by {
                lemma_count_mono(rows, d as u8, super_start(b512, next), n);
            }
            assert forall|d: int| 0 <= d < 4 implies #[trigger] self.superblock_words@[d] == if n
                == super_start(b512, next) {
                0x10_0000_0000_0000_0000_0000 * count(rows, d as u8, n)
            } else {
                open_word(rows, b512, d as u8, next)
            } by {
                if n == 0 {
                    lemma_open_word_zero(rows, b512, d as u8);
                }
            }
        }
        if starts_block(self.b512, row) {
            let id: usize = (block_index(self.b512, row) % 8) as usize;
            proof {
                assert forall|d: int| 0 <= d < 4 implies (#[trigger] self.superblock_words@[d])
                    + unit(id as int) * self.block@[d] <= u128::MAX by {
                    lemma_open_word_push(rows, x@, b512, d as u8, next);
                    lemma_open_word(rows.push(x@), b512, d as u8, next);
                    if n == super_start(b512, next) {
                        assert(self.block@[d] == 0);
                        assert(unit(id as int) * 0 == 0);
                    }
                }
            }
            self.set_block_counters(id);
        }
        proof {
            assert forall|d: int| 0 <= d < 4 implies #[trigger] self.superblock_words@[d]
                == open_word(rows.push(x@), b512, d as u8, next) by {
                lemma_open_word_push(rows, x@, b512, d as u8, next);
            }
        }
    }

    /// Samples the superblock of every 8192nd occurrence.
    fn note_sample(&mut self, digit: u8, row: u64)
        requires
            old(self).select_ok(old(self).rows@),
            digit < 4,
            row == old(self).rows@.len(),
            row < 0x100_0000_0000,
            forall|d: int|
                0 <= d < 4 ==> #[trigger] old(self).global@[d] == count(
                    old(self).rows@,
                    d as u8,
                    row as int,
                ),
        ensures
            *final(self) == (LevelEncoder {
                select: final(self).select,
                n_sel: final(self).n_sel,
                ..*old(self)
            }),
            final(self).select_ok(old(self).rows@.push(digit)),
    {
        let ghost rows = self.rows@;
        let ghost b512 = self.b512;
        let ghost n = rows.len() as int;
        let symbol: usize = digit as usize;
        proof {
            lemma_count_push(rows, digit);
            assert forall|d: int| 0 <= d < 4 implies #[trigger] samples(
                rows.push(digit),
                b512,
                d as u8,
                n + 1,
            ) == if d == digit && count(rows, d as u8, n) % 8192 == 0 {
                samples(rows, b512, d as u8, n).push(super_of(b512, n))
            } else {
                samples(rows, b512, d as u8, n)
            } by {
                lemma_samples_push(rows, digit, b512, d as u8, n);
            }
            lemma_samples(rows, b512, digit, n);
            lemma_count_bounds(rows, digit, n);
        }
        if self.global[symbol] % SELECT_SAMPLE_ROWS == 0 {
            let superblock: u32 = super_index(self.b512, row) as u32;
            let ghost before = self.taken_select@[digit as int] + self.select[digit as int]@;
            let ghost list = samples(rows, b512, digit, n);
            let ghost selects = self.select@;
            put_u32(&mut self.select[symbol], superblock);
            self.n_sel[symbol] = self.n_sel[symbol] + 1;
            proof {
                assert(self.select@ =~= selects.update(digit as int, self.select[digit as int]));
                let longer = list.push(super_of(b512, n));
                assert(longer.drop_last() =~= list);
                assert(self.taken_select@[digit as int] + self.select[digit as int]@ =~= before
                    + le_bytes(superblock as int, 4));
                assert(superblock == super_of(b512, n));
            }
        }
    }

    /// Writes the line and begins a new one.
    fn flush_line(&mut self) -> (r: Result<(), DirectQwtBuildError>)
        requires
            old(self).line.len() == 64,
        ensures
            *final(self) == (LevelEncoder {
                line: final(self).line,
                line_rows: final(self).line_rows,
                n_datalines: final(self).n_datalines,
                data: final(self).data,
                ..*old(self)
            }),
            final(self).data@ == old(self).data@ + old(self).line@,
            final(self).line.len() == 64,
            forall|q: int, t: int|
                0 <= q < 64 && 0 <= t < 8 ==> !#[trigger] byte_bit(final(self).line[q], t),
            final(self).line_rows == 0,
            match r {
                Ok(()) => final(self).n_datalines == old(self).n_datalines + 1,
                Err(e) => old(self).n_datalines == u32::MAX && e == DirectQwtBuildError::Overflow(
                    "data-line count",
                ),
            },
    {
        let mut line: Vec<u8> = empty_line();
        std::mem::swap(&mut line, &mut self.line);
        self.data.append(&mut line);
        self.line_rows = 0;
        if self.n_datalines == u32::MAX {
            return Err(DirectQwtBuildError::Overflow("data-line count"));
        }
        self.n_datalines = self.n_datalines + 1;
        Ok(())
    }

    /// Sets bit `t` of byte `q` of the line.
    fn set_line_bit(&mut self, q: usize, t: usize)
        requires
            q < 64,
            t < 8,
            old(self).line.len() == 64,
        ensures
            *final(self) == (LevelEncoder { line: final(self).line, ..*old(self) }),
            final(self).line.len() == 64,
            forall|p: int, u: int|
                0 <= p < 64 && 0 <= u < 8 ==> #[trigger] byte_bit(final(self).line[p], u) == ((p
                    == q && u == t) || byte_bit(old(self).line[p], u)),
    {
        let ghost before = self.line@;
        let x: u8 = self.line[q];
        let s: u8 = t as u8;
        self.line.set(q, x | (1u8 << s));
        proof {
            assert forall|p: int, u: int| 0 <= p < 64 && 0 <= u < 8 implies #[trigger] byte_bit(
                self.line[p],
                u,
            ) == ((p == q && u == t) || byte_bit(before[p], u)) by {
                if p == q {
                    lemma_set_byte_bit(x, s, u as u8);
                }
            }
        }
    }

    /// Writes the bits of a row.
    #[verifier::rlimit(40)]
    #[verifier::spinoff_prover]
    fn put_row(&mut self, digit: u8) -> (r: Result<(), DirectQwtBuildError>)
        requires
            old(self).line_ok(old(self).rows@),
            digit < 4,
        ensures
            *final(self) == (LevelEncoder {
                line: final(self).line,
                line_rows: final(self).line_rows,
                n_datalines: final(self).n_datalines,
                data: final(self).data,
                ..*old(self)
            }),
            match r {
                Ok(()) => final(self).line_ok(old(self).rows@.push(digit)),
                Err(e) => old(self).rows@.len() == MAX_LEVEL_ROWS + 255 && e
                    == DirectQwtBuildError::Overflow("data-line count"),
            },
            old(self).rows@.len() < MAX_LEVEL_ROWS + 255 ==> r is Ok,
    {
        let ghost rows = self.rows@;
        let ghost longer = rows.push(digit);
        let ghost n = rows.len() as int;
        let ghost full = n / 256;
        let q: usize = self.line_rows / 8;
        let t: usize = self.line_rows % 8;
        if digit >= 2 {
            self.set_line_bit(q, t);
        }
        if digit % 2 == 1 {
            self.set_line_bit(32 + q, t);
        }
        self.line_rows = self.line_rows + 1;
        let ghost line = self.line@;
        let ghost written = self.all_data();
        proof {
            assert forall|p: int, u: int| 0 <= p < 64 && 0 <= u < 8 implies #[trigger] byte_bit(
                line[p],
                u,
            ) == data_bit(longer, 64 * full + p, u) by {
                assert(byte_bit(old(self).line[p], u) == data_bit(rows, 64 * full + p, u));
                assert((64 * full + p) / 64 == full && (64 * full + p) % 64 == p && (64 * full + p)
                    % 32 == p % 32);
            }
            assert forall|p: int, u: int|
                0 <= p < written.len() && 0 <= u < 8 implies #[trigger] byte_bit(written[p], u)
                == data_bit(longer, p, u) by {
                assert(byte_bit(written[p], u) == data_bit(rows, p, u));
                assert(256 * (p / 64) + 8 * (p % 32) + u < n);
            }
        }
        if self.line_rows == 256 {
            let r = self.flush_line();
            proof {
                assert(self.all_data() =~= written + line);
                assert forall|p: int, u: int|
                    0 <= p < self.all_data().len() && 0 <= u < 8 implies #[trigger] byte_bit(
                    self.all_data()[p],
                    u,
                ) == data_bit(longer, p, u) by {
                    if p < written.len() {
                        assert(byte_bit(written[p], u) == data_bit(longer, p, u));
                    } else {
                        assert(byte_bit(line[p - 64 * full], u) == data_bit(
                            longer,
                            64 * full + (p - 64 * full),
                            u,
                        ));
                    }
                }
                assert forall|p: int, u: int|
                    0 <= p < 64 && 0 <= u < 8 implies #[trigger] byte_bit(self.line[p], u)
                    == data_bit(longer, 64 * (full + 1) + p, u) by {
                    assert((64 * (full + 1) + p) / 64 == full + 1);
                }
            }
            return r;
        }
        assert(self.all_data() == written);
        Ok(())
    }

    /// Writes one more row.
    pub fn push(&mut self, digit: u8, row: u64) -> (r: Result<(), DirectQwtBuildError>)
        requires
            old(self).wf(),
            digit < 4,
            row == old(self).rows().len(),
        ensures
            final(self).wide() == old(self).wide(),
            match r {
                Ok(()) => {
                    &&& final(self).wf()
                    &&& final(self).rows() == old(self).rows().push(digit)
                    &&& final(self).taken_data() == old(self).taken_data()
                    &&& final(self).taken_superblocks() == old(self).taken_superblocks()
                    &&& final(self).taken_select() == old(self).taken_select()
                },
                Err(e) => row == MAX_LEVEL_ROWS + 255 && e == DirectQwtBuildError::Overflow(
                    "data-line count",
                ),
            },
            r is Ok <==> row < MAX_LEVEL_ROWS + 255,
    {
        let ghost rows = self.rows@;
        let ghost n = rows.len() as int;
        self.begin_row(row, Ghost(digit));
        self.note_sample(digit, row);
        let symbol: usize = digit as usize;
        proof {
            lemma_count_push(rows, digit);
            lemma_count_bounds(rows, digit, n);
            lemma_count_bounds(rows, digit, super_start(self.b512, super_of(self.b512, n)));
        }
        self.global[symbol] = self.global[symbol] + 1;
        self.block[symbol] = self.block[symbol] + 1;
        let r = self.put_row(digit);
        if r.is_err() {
            return r;
        }
        self.rows = Ghost(rows.push(digit));
        proof {
            let longer = rows.push(digit);
            assert forall|d: int| 0 <= d < 4 implies #[trigger] self.global@[d] == count(
                longer,
                d as u8,
                n + 1,
            ) by {
                assert(count(longer, d as u8, n) == count(rows, d as u8, n));
            }
            let start = super_start(self.b512, super_of(self.b512, n));
            assert forall|d: int| 0 <= d < 4 implies #[trigger] self.block@[d] == count(
                longer,
                d as u8,
                n + 1,
            ) - count(longer, d as u8, start) by {
                assert(count(longer, d as u8, n) == count(rows, d as u8, n));
                assert(count(longer, d as u8, start) == count(rows, d as u8, start));
            }
        }
        Ok(())
    }

    /// Sets the counters of the open superblock behind the last row.
    fn close_counters(&mut self, rows: u64)
        requires
            old(self).counts_ok(old(self).rows@),
            rows == old(self).rows@.len(),
            rows < 0x100_0000_0000,
            rows != super_start(old(self).b512, super_of(old(self).b512, rows as int)),
        ensures
            *final(self) == (LevelEncoder {
                superblock_words: final(self).superblock_words,
                ..*old(self)
            }),
            forall|d: int|
                0 <= d < 4 ==> #[trigger] final(self).superblock_words@[d] == super_word(
                    old(self).rows@,
                    old(self).b512,
                    d as u8,
                    super_of(old(self).b512, rows as int),
                ),
    {
        let ghost all = self.rows@;
        let ghost b512 = self.b512;
        let ghost n = all.len() as int;
        let ghost cur = super_of(b512, n);
        let ghost words = self.superblock_words@;
        let id: usize = (block_index(self.b512, rows) % 8) as usize;
        let whole: bool = starts_block(self.b512, rows);
        proof {
            assert(cur == cur_super(n, b512));
            assert forall|d: int| 0 <= d < 4 implies 0 <= #[trigger] self.block@[d] < 4096
                && super_word(all, b512, d as u8, cur) == words[d] + (if whole {
                unit(id as int) * self.block@[d]
            } else {
                0
            }) + (if id < 7 {
                unit(id + 1) * self.block@[d]
            } else {
                0
            }) && super_word(all, b512, d as u8, cur) <= u128::MAX && 0 <= unit(id as int)
                * self.block@[d] && 0 <= unit(id + 1) * self.block@[d] by {
                lemma_count_mono(all, d as u8, super_start(b512, cur), n);
                lemma_close_word(all, b512, d as u8, cur);
                lemma_super_word(all, b512, d as u8, cur);
                lemma_unit(id as int, self.block@[d] as int);
                lemma_unit(id + 1, self.block@[d] as int);
            }
        }
        if whole {
            proof {
                lemma_close_word(all, b512, 0, cur);
                assert forall|d: int| 0 <= d < 4 implies (#[trigger] self.superblock_words@[d])
                    + unit(id as int) * self.block@[d] <= u128::MAX by {
                    assert(0 <= self.block@[d]);
                }
            }
            self.set_block_counters(id);
        }
        if id < 7 {
            proof {
                assert forall|d: int| 0 <= d < 4 implies (#[trigger] self.superblock_words@[d])
                    + unit(id + 1) * self.block@[d] <= u128::MAX by {
                    assert(0 <= self.block@[d]);
                }
            }
            self.set_block_counters(id + 1);
        }
        proof {
            assert forall|d: int| 0 <= d < 4 implies #[trigger] self.superblock_words@[d]
                == super_word(all, b512, d as u8, cur) by {
                assert(0 <= self.block@[d]);
            }
        }
    }

    /// Writes the last superblocks.
    #[verifier::rlimit(40)]
    #[verifier::spinoff_prover]
    fn close_superblocks(&mut self, rows: u64)
        requires
            old(self).counts_ok(old(self).rows@),
            rows == old(self).rows@.len(),
            rows < 0x100_0000_0000,
        ensures
            *final(self) == (LevelEncoder {
                superblocks: final(self).superblocks,
                superblock_words: final(self).superblock_words,
                block: final(self).block,
                n_superblocks: final(self).n_superblocks,
                ..*old(self)
            }),
            final(self).n_superblocks == super_count(rows as int, old(self).b512),
            final(self).taken_superblocks@ + final(self).superblocks@ == super_bytes(
                old(self).rows@,
                old(self).b512,
                super_count(rows as int, old(self).b512),
            ),
    {
        let ghost all = self.rows@;
        let ghost b512 = self.b512;
        let ghost n = all.len() as int;
        let ghost cur = cur_super(n, b512);
        let ghost last = super_count(n, b512) - 1;
        if starts_superblock(self.b512, rows) {
            proof {
                assert forall|d: int| 0 <= d < 4 implies #[trigger] self.superblock_words@[d]
                    == super_word(all, b512, d as u8, cur) && self.global@[d] <= n by {
                    lemma_count_bounds(all, d as u8, n);
                    assert(self.global@[d] == count(all, d as u8, n));
                    if n == 0 {
                        lemma_open_word_zero(all, b512, d as u8);
                        lemma_terminal_word(all, b512, d as u8, 0);
                    } else {
                        lemma_open_full(all, b512, d as u8, cur);
                    }
                }
            }
            let ghost before = self.taken_superblocks@ + self.superblocks@;
            assert forall|d: int| 0 <= d < 4 implies (#[trigger] self.global@[d])
                < 0x1000_0000_0000 by {
                assert(self.superblock_words@[d] >= 0);
            }
            let ghost words = self.superblock_words@;
            self.next_superblock();
            proof {
                lemma_next_super(all, b512, cur, before, words);
                assert(self.taken_superblocks@ + self.superblocks@ =~= before + words_bytes(
                    words,
                ));
                assert(cur + 1 == last);
                assert forall|d: int| 0 <= d < 4 implies #[trigger] self.superblock_words@[d]
                    == super_word(all, b512, d as u8, last) by {
                    lemma_terminal_word(all, b512, d as u8, last);
                }
            }
        } else {
            self.close_counters(rows);
        }
        let ghost before = self.taken_superblocks@ + self.superblocks@;
        let ghost words = self.superblock_words@;
        self.flush_superblock();
        proof {
            lemma_next_super(all, b512, last, before, words);
            assert(self.taken_superblocks@ + self.superblocks@ =~= before + words_bytes(words));
        }
    }

    /// Ends the select sections.
    fn close_select(&mut self)
        requires
            old(self).select_ok(old(self).rows@),
            old(self).rows@.len() < 0x100_0000_0000,
            old(self).n_superblocks == super_count(old(self).rows@.len() as int, old(self).b512),
        ensures
            *final(self) == (LevelEncoder {
                select: final(self).select,
                n_sel: final(self).n_sel,
                ..*old(self)
            }),
            final(self).select.len() == 4,
            forall|d: int|
                0 <= d < 4 ==> final(self).taken_select@[d] + (#[trigger] final(self).select[d])@
                    == u32_bytes(sample_list(old(self).rows@, old(self).b512, d as u8)),
            forall|d: int|
                0 <= d < 4 ==> #[trigger] final(self).n_sel@[d] == sample_list(
                    old(self).rows@,
                    old(self).b512,
                    d as u8,
                ).len(),
            forall|d: int| 0 <= d < 4 ==> (#[trigger] final(self).n_sel@[d]) <= 0x1000_0000,
    {
        let ghost rows = self.rows@;
        let ghost b512 = self.b512;
        let ghost n = rows.len() as int;
        let ghost selects = self.select@;
        let ghost n_sels = self.n_sel@;
        let sentinel: u32 = self.n_superblocks - 1;
        let mut d: usize = 0;
        proof {
            assert forall|e: int| 0 <= e < 4 implies (#[trigger] n_sels[e]) <= 0x0fff_fff0 by {
                lemma_samples(rows, b512, e as u8, n);
                lemma_count_bounds(rows, e as u8, n);
            }
        }
        while d < 4
            invariant
                d <= 4,
                rows == old(self).rows@,
                b512 == old(self).b512,
                n == rows.len(),
                selects == old(self).select@,
                n_sels == old(self).n_sel@,
                old(self).select_ok(rows),
                sentinel == super_count(n, b512) - 1,
                *self == (LevelEncoder { select: self.select, n_sel: self.n_sel, ..*old(self) }),
                self.select.len() == 4,
                forall|e: int| 0 <= e < 4 ==> (#[trigger] n_sels[e]) <= 0x0fff_fff0,
                forall|e: int| d <= e < 4 ==> #[trigger] self.n_sel@[e] == n_sels[e],
                forall|e: int| d <= e < 4 ==> #[trigger] self.select[e] == selects[e],
                forall|e: int|
                    0 <= e < d ==> self.taken_select@[e] + (#[trigger] self.select[e])@
                        == u32_bytes(sample_list(rows, b512, e as u8)),
                forall|e: int|
                    0 <= e < d ==> #[trigger] self.n_sel@[e] == sample_list(
                        rows,
                        b512,
                        e as u8,
                    ).len() && self.n_sel@[e] <= 0x1000_0000,
            decreases 4 - d,
        {
            let ghost list = samples(rows, b512, d as u8, n);
            let ghost before = self.select@;
            let ghost taken = self.taken_select@[d as int];
            let ghost b0 = self.select[d as int]@;
            assert(self.select[d as int] == selects[d as int]);
            assert(self.n_sel@[d as int] == list.len());
            if self.n_sel[d] == 0 {
                put_u32(&mut self.select[d], 0);
                self.n_sel[d] = self.n_sel[d] + 1;
                proof {
                    assert(taken + self.select[d as int]@ =~= (taken + b0) + le_bytes(0, 4));
                    assert(list =~= Seq::empty());
                    assert(seq![0int].drop_last() =~= Seq::<int>::empty());
                    assert(u32_bytes(seq![0int]) == u32_bytes(Seq::<int>::empty()) + le_bytes(
                        0,
                        4,
                    ));
                }
            }
            let ghost b1 = self.select[d as int]@;
            put_u32(&mut self.select[d], sentinel);
            self.n_sel[d] = self.n_sel[d] + 1;
            proof {
                let head = if list.len() == 0 {
                    seq![0int]
                } else {
                    list
                };
                let whole = sample_list(rows, b512, d as u8);
                assert(whole == head.push(sentinel as int));
                assert(whole.drop_last() =~= head);
                assert(taken + b1 == u32_bytes(head));
                assert(taken + self.select[d as int]@ =~= (taken + b1) + le_bytes(
                    sentinel as int,
                    4,
                ));
                assert(self.select@ =~= before.update(d as int, self.select[d as int]));
            }
            d = d + 1;
        }
    }

    /// Writes the last line.
    fn close_line(&mut self) -> (r: Result<(), DirectQwtBuildError>)
        requires
            old(self).line_ok(old(self).rows@),
            old(self).rows@.len() <= MAX_LEVEL_ROWS + 255,
        ensures
            *final(self) == (LevelEncoder {
                line: final(self).line,
                line_rows: final(self).line_rows,
                n_datalines: final(self).n_datalines,
                data: final(self).data,
                ..*old(self)
            }),
            match r {
                Ok(()) => {
                    &&& final(self).n_datalines == line_count(old(self).rows@.len() as int)
                    &&& final(self).all_data().len() == 64 * line_count(
                        old(self).rows@.len() as int,
                    )
                    &&& data_bits(old(self).rows@, final(self).all_data())
                },
                Err(e) => e == DirectQwtBuildError::Overflow("data-line count"),
            },
            r is Ok <==> old(self).rows@.len() <= MAX_LEVEL_ROWS,
    {
        let ghost all = self.rows@;
        let ghost n = all.len() as int;
        if self.line_rows == 0 {
            return Ok(());
        }
        let ghost written = self.all_data();
        let ghost line = self.line@;
        let r = self.flush_line();
        proof {
            assert(self.all_data() =~= written + line);
            assert forall|p: int, u: int|
                0 <= p < self.all_data().len() && 0 <= u < 8 implies #[trigger] byte_bit(
                self.all_data()[p],
                u,
            ) == data_bit(all, p, u) by {
                if p < written.len() {
                    assert(byte_bit(written[p], u) == data_bit(all, p, u));
                } else {
                    assert(byte_bit(line[p - written.len()], u) == data_bit(
                        all,
                        64 * (n / 256) + (p - written.len()),
                        u,
                    ));
                }
            }
        }
        r
    }

    /// How many rows have a digit smaller than each of 0 to 4.
    fn cumulative(&self) -> (r: [u64; 5])
        requires
            self.rows@.len() < 0x100_0000_0000,
            forall|d: int|
                0 <= d < 4 ==> #[trigger] self.global@[d] == count(
                    self.rows@,
                    d as u8,
                    self.rows@.len() as int,
                ),
        ensures
            forall|d: int|
                0 <= d < 5 ==> #[trigger] r@[d] == below(self.rows@, d, self.rows@.len() as int),
    {
        let ghost all = self.rows@;
        let ghost n = all.len() as int;
        let c0: u64 = self.global[0];
        let c1: u64 = self.global[1];
        let c2: u64 = self.global[2];
        let c3: u64 = self.global[3];
        proof {
            lemma_count_bounds(all, 0, n);
            lemma_count_bounds(all, 1, n);
            lemma_count_bounds(all, 2, n);
            lemma_count_bounds(all, 3, n);
            lemma_below_zero(all, n);
            lemma_below_step(all, 0, n);
            lemma_below_step(all, 1, n);
            lemma_below_step(all, 2, n);
            lemma_below_step(all, 3, n);
        }
        [0, c0, c0 + c1, c0 + c1 + c2, c0 + c1 + c2 + c3]
    }

    /// Ends the level. What was written last is returned with a summary of the
    /// whole level.
    pub fn finish(self, rows: u64) -> (r: Result<(LevelOutput, LevelSummary), DirectQwtBuildError>)
        requires
            self.wf(),
            rows == self.rows().len(),
        ensures
            match r {
                Ok((out, summary)) => {
                    &&& out.select.len() == 4
                    &&& encodes_level(
                        self.rows(),
                        self.wide(),
                        self.taken_data() + out.data@,
                        self.taken_superblocks() + out.superblocks@,
                        joined(self.taken_select(), out.select@),
                    )
                    &&& summarizes(summary, self.rows(), self.wide())
                },
                Err(e) => e == DirectQwtBuildError::Overflow("data-line count"),
            },
            r is Ok <==> rows <= MAX_LEVEL_ROWS,
    {
        let mut enc = self;
        let ghost all = enc.rows@;
        match enc.close_line() {
            Ok(()) => {},
            Err(e) => {
                return Err(e);
            },
        }
        enc.close_superblocks(rows);
        enc.close_select();
        let n_occs_smaller: [u64; 5] = enc.cumulative();
        let aux_bytes: u64 = 64 * enc.n_datalines as u64 + 64 * enc.n_superblocks as u64 + 4 * (
        enc.n_sel[0] as u64 + enc.n_sel[1] as u64 + enc.n_sel[2] as u64 + enc.n_sel[3] as u64);
        let summary = LevelSummary {
            n_datalines: enc.n_datalines,
            position_bits: 2 * rows,
            n_superblocks: enc.n_superblocks,
            n_sel: enc.n_sel,
            n_occs_smaller,
            aux_bytes,
        };
        proof {
            assert(enc.all_data() == self.taken_data() + enc.data@);
            let sel = joined(self.taken_select(), enc.select@);
            assert forall|d: int| 0 <= d < 4 implies #[trigger] sel[d] == u32_bytes(
                sample_list(all, self.b512, d as u8),
            ) by {
                assert(sel[d] == enc.taken_select@[d] + enc.select[d]@);
            }
        }
        Ok((LevelOutput { data: enc.data, superblocks: enc.superblocks, select: enc.select }, summary))
    }

    /// Takes what was written since this was last called.
    pub fn take_output(&mut self) -> (out: LevelOutput)
        requires
            old(self).wf(),
        ensures
            final(self).wf(),
            final(self).rows() == old(self).rows(),
            final(self).wide() == old(self).wide(),
            out.select.len() == 4,
            final(self).taken_data() == old(self).taken_data() + out.data@,
            final(self).taken_superblocks() == old(self).taken_superblocks() + out.superblocks@,
            final(self).taken_select() == joined(old(self).taken_select(), out.select@),
            final(self).pending() == 0,
    {
        let mut data: Vec<u8> = Vec::new();
        let mut superblocks: Vec<u8> = Vec::new();
        let mut select: Vec<Vec<u8>> = no_select();
        std::mem::swap(&mut data, &mut self.data);
        std::mem::swap(&mut superblocks, &mut self.superblocks);
        std::mem::swap(&mut select, &mut self.select);
        self.taken_data = Ghost(self.taken_data@ + data@);
        self.taken_superblocks = Ghost(self.taken_superblocks@ + superblocks@);
        self.taken_select = Ghost(joined(self.taken_select@, select@));
        proof {
            assert(self.all_data() =~= old(self).all_data());
            assert(self.taken_superblocks@ + self.superblocks@ =~= old(self).taken_superblocks@
                + old(self).superblocks@);
            assert forall|d: int| 0 <= d < 4 implies self.taken_select@[d] + (
            #[trigger] self.select[d])@ == old(self).taken_select@[d] + old(self).select[d]@ by {
                assert(self.taken_select@[d] + self.select[d]@ =~= old(self).taken_select@[d] + old(
                    self,
                ).select[d]@);
            }
            assert forall|d: int| 0 <= d < 4 implies self.taken_select@[d] + (
            #[trigger] self.select[d])@ == u32_bytes(
                samples(self.rows@, self.b512, d as u8, self.rows@.len() as int),
            ) by {
                assert(old(self).taken_select@[d] + old(self).select[d]@ == u32_bytes(
                    samples(self.rows@, self.b512, d as u8, self.rows@.len() as int),
                ));
            }
        }
        LevelOutput { data, superblocks, select }
    }
}

proof fn lemma_unit(b: int, c: int)
    requires
        0 <= c,
    ensures
        0 <= unit(b) * c,
{
    assert(0 <= unit(b) * c) by (nonlinear_arith)
        requires
            0 <= unit(b),
            0 <= c,
    ;
}

proof fn lemma_open_word_zero(rows: Seq<u8>, b512: bool, d: u8)
    requires
        rows.len() == 0,
    ensures
        open_word(rows, b512, d, 0) == 0,
{
    let f = open_fields(rows, b512, d, 0);
    assert forall|k: int| 0 <= k < 7 implies #[trigger] f[k] == 0 by {
    }
}

} // verus!
