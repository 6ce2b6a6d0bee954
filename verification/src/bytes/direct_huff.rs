//! Building compressed containers from a stream of symbols, within a budget.
//!
//! The symbols are numbers below the size of the alphabet, and each of them
//! occurs. In memory there are only tables of the size of the alphabet. What is
//! said in [`super::direct`] of files holds here too; a fifth bucket takes the
//! symbols whose codes are finished.

use vstd::prelude::*;

use super::dir::LevelDir;
use super::direct::{
    container_bound, container_output_upper_bound, copy_buffer, lemma_bound_fits,
    lemma_images_unique, lemma_payload_bound, lemma_scratch_bound, level_bound, scratch_bound,
    scratch_upper_bound, validate_row_capacity, DirectQwtBuildBudget, DirectQwtBuildStats,
    MIN_STREAM_BUFFER_BYTES,
};
use super::encoder::{LevelOutput, MAX_LEVEL_ROWS};
use super::error::DirectQwtBuildError;
use super::hqwb::{
    decode_bytes, encode_bytes, hqwb_base, hqwb_bytes, hqwb_front, hqwb_head, huff_tree_bytes,
    lemma_hqwb_front_len, lemma_rows_fit, put_decode, put_encode, put_hqwb_head, row_bytes,
    row_counts, tables_bytes,
};
use super::le::lemma_le_bytes;
use super::passes::{
    extended, lemma_passes, no_image, passes_follow, placement_fits, DirectPasses, FinishedLevel,
};
use super::payload::{dir_at, image_off, is_image, payload, LevelImage};
use super::qwtb::{lemma_placed_shape, placed_dirs};
use super::writer::{append, images_of, lemma_images_of, pad_to};
use super::{align_up, lemma_aligned, HEADER_SIZE, HQWT_LEVEL_DIR_SIZE};
use crate::binwt::is_max;
use crate::builder::{codable, codes_of, lemma_arranged, symbol_code};
use crate::codes::{coded, codes_greedy, lemma_codes_unique, table_ok, PrefixCode};
use crate::huffman::{
    code_lens, codes_fail, codes_for, digit_lens, frequency_table, lemma_frequency,
    lemma_frequency_push, lemma_frequency_sum, lemma_nothing_redundant, long_needed, longest_len,
    minimum_redundancy, occurring, sum_occurring, too_many,
};
use crate::indexable::WTIndexable;
use crate::matrix::{bucket, digits_at, rows_at};
use crate::quadwt::huffqwt::{huffman_codes_from_frequencies, HuffQWaveletTree};
use crate::qvector::RSQVector;
use crate::tables::{
    decode_table, entry_total, lemma_decode_unique, lemma_entry_total, rows_view, tables_agree,
};
use crate::wavelet::digits_below;

verus! {

/// Files that are open at a time: the source, five buckets and the level.
pub const DIRECT_HUFF_STREAMS: u64 = 7;

/// Memory that the tables take for each symbol of the alphabet.
pub const HUFF_METADATA_BYTES_PER_SYMBOL: u64 = 128;

/// Memory that the tables take besides.
pub const HUFF_METADATA_FIXED_BYTES: u64 = 4_096;

/// Why there is no container for so many rows and symbols.
pub open spec fn alphabet_error(rows: u64, alphabet_size: u32) -> Option<DirectQwtBuildError> {
    if (rows == 0) != (alphabet_size == 0) {
        Some(
            DirectQwtBuildError::InvalidInput("empty input and zero alphabet size must agree"),
        )
    } else if alphabet_size > 0xffff {
        Some(
            DirectQwtBuildError::InvalidInput(
                "local Huffman alphabet exceeds HQWB u16 code-table capacity",
            ),
        )
    } else {
        None
    }
}

/// Refuses alphabets that do not go with the number of rows, or that are too
/// large for the code tables of a container.
pub fn validate_alphabet(rows: u64, alphabet_size: u32) -> (r: Result<(), DirectQwtBuildError>)
    ensures
        match r {
            Ok(()) => alphabet_error(rows, alphabet_size) is None,
            Err(e) => alphabet_error(rows, alphabet_size) == Some(e),
        },
{
    if (rows == 0) != (alphabet_size == 0) {
        return Err(
            DirectQwtBuildError::InvalidInput("empty input and zero alphabet size must agree"),
        );
    }
    if alphabet_size > 0xffff {
        return Err(
            DirectQwtBuildError::InvalidInput(
                "local Huffman alphabet exceeds HQWB u16 code-table capacity",
            ),
        );
    }
    Ok(())
}

/// The bytes that the code tables of a container take at most, with what aligns
/// them.
pub open spec fn metadata_bound(alphabet_size: int) -> int {
    20 * alphabet_size + 33 * 4 + 7
}

/// The bytes that the container of a direct build takes at most. Codes have at
/// most 32 bits, so there are at most 16 levels.
pub fn hqwt256_u32_output_upper_bound(rows: u64, alphabet_size: u32) -> (r: Result<
    u64,
    DirectQwtBuildError,
>)
    ensures
        match r {
            Ok(b) => {
                &&& rows <= MAX_LEVEL_ROWS
                &&& alphabet_error(rows, alphabet_size) is None
                &&& b == container_bound(
                    rows as int,
                    if rows == 0 {
                        0
                    } else {
                        16
                    },
                    HQWT_LEVEL_DIR_SIZE as int,
                    metadata_bound(alphabet_size as int),
                )
            },
            Err(e) => if rows >= 0x800_0000_0000 {
                e == DirectQwtBuildError::InvalidInput(
                    "row count exceeds QWT256 rank/select capacity",
                )
            } else if rows > MAX_LEVEL_ROWS {
                e == DirectQwtBuildError::InvalidInput("row count exceeds HQWB data-line capacity")
            } else {
                alphabet_error(rows, alphabet_size) == Some(e)
            },
        },
{
    match validate_row_capacity(rows, true) {
        Ok(()) => {},
        Err(e) => {
            return Err(e);
        },
    }
    match validate_alphabet(rows, alphabet_size) {
        Ok(()) => {},
        Err(e) => {
            return Err(e);
        },
    }
    let levels: u16 = if rows == 0 {
        0
    } else {
        16
    };
    let metadata: u64 = alphabet_size as u64 * 20 + (33 * 4 + 7);
    proof {
        lemma_bound_fits(
            rows as int,
            levels as int,
            HQWT_LEVEL_DIR_SIZE as int,
            metadata as int,
        );
    }
    container_output_upper_bound(rows, levels, HQWT_LEVEL_DIR_SIZE as u64, metadata)
}

/// The buffers of a direct build.
#[derive(Clone, Copy, Debug, PartialEq, Eq)]
pub struct DirectHqwtBuffers {
    /// The buffer of each file.
    pub per_stream_buffer: usize,
    /// The buffer with which sections are copied into the container.
    pub copy_buffer_len: usize,
}

/// Divides the buffer budget of a direct build from a source of `source_len`
/// bytes.
pub fn plan_hqwt256_u32_buffers(
    rows: u64,
    alphabet_size: u32,
    source_len: u64,
    budget: DirectQwtBuildBudget,
) -> (r: Result<DirectHqwtBuffers, DirectQwtBuildError>)
    requires
        rows <= MAX_LEVEL_ROWS,
        alphabet_size <= 0xffff,
    ensures
        ({
            let metadata = 128 * alphabet_size + 4096;
            let required = metadata + 7 * 4096;
            let streams = budget.buffer_bytes - metadata;
            let refused = source_len != 4 * rows || budget.buffer_bytes < required || streams / 7
                > usize::MAX;
            match r {
                Ok(buffers) => {
                    &&& !refused
                    &&& buffers.per_stream_buffer == streams / 7
                    &&& buffers.copy_buffer_len == copy_buffer(streams as u64)
                },
                Err(e) => {
                    &&& refused
                    &&& e == if source_len != 4 * rows {
                        DirectQwtBuildError::InvalidInput("source length does not equal rows * 4")
                    } else if budget.buffer_bytes < required {
                        DirectQwtBuildError::BufferBudget {
                            required: required as u64,
                            limit: budget.buffer_bytes,
                        }
                    } else {
                        DirectQwtBuildError::Overflow("per-stream buffer bytes")
                    }
                },
            }
        }),
{
    if source_len != rows * 4 {
        return Err(
            DirectQwtBuildError::InvalidInput("source length does not equal rows * 4"),
        );
    }
    let metadata_bytes: u64 = alphabet_size as u64 * HUFF_METADATA_BYTES_PER_SYMBOL
        + HUFF_METADATA_FIXED_BYTES;
    let required_buffers: u64 = metadata_bytes + DIRECT_HUFF_STREAMS * MIN_STREAM_BUFFER_BYTES;
    if budget.buffer_bytes < required_buffers {
        return Err(
            DirectQwtBuildError::BufferBudget {
                required: required_buffers,
                limit: budget.buffer_bytes,
            },
        );
    }
    let stream_budget: u64 = budget.buffer_bytes - metadata_bytes;
    let per_stream: u64 = stream_budget / DIRECT_HUFF_STREAMS;
    if per_stream > usize::MAX as u64 {
        return Err(DirectQwtBuildError::Overflow("per-stream buffer bytes"));
    }
    let copy_buffer_len: usize = if stream_budget < 0x10_0000 {
        stream_budget as usize
    } else {
        0x10_0000
    };
    Ok(DirectHqwtBuffers { per_stream_buffer: per_stream as usize, copy_buffer_len })
}

/// Counts the symbols of a source.
pub struct SymbolCounts {
    table: Vec<usize>,
    counted: usize,
    symbols: Ghost<Seq<u32>>,
}

impl SymbolCounts {
    /// The symbols that were counted.
    pub closed spec fn symbols(&self) -> Seq<u32> {
        self.symbols@
    }

    /// The size of the alphabet.
    pub closed spec fn size(&self) -> int {
        self.table.len() as int
    }

    pub closed spec fn wf(&self) -> bool {
        &&& self.table.len() <= 0xffff
        &&& self.counted == self.symbols@.len()
        &&& self.table@ == frequency_table(self.symbols@, self.table.len() as int)
        &&& forall|i: int|
            0 <= i < self.symbols@.len() ==> (#[trigger] self.symbols@[i]) < self.table.len()
    }

    /// Nothing is counted yet.
    pub fn new(alphabet_size: u32) -> (c: Self)
        requires
            alphabet_size <= 0xffff,
        ensures
            c.wf(),
            c.size() == alphabet_size,
            c.symbols() == Seq::<u32>::empty(),
    {
        let c = SymbolCounts {
            table: vec![0usize; alphabet_size as usize],
            counted: 0,
            symbols: Ghost(Seq::empty()),
        };
        assert(c.table@ =~= frequency_table(Seq::<u32>::empty(), alphabet_size as int));
        c
    }

    /// Counts a symbol. The counts of all symbols together must fit in memory.
    pub fn push(&mut self, symbol: u32) -> (r: Result<(), DirectQwtBuildError>)
        requires
            old(self).wf(),
        ensures
            final(self).wf(),
            final(self).size() == old(self).size(),
            match r {
                Ok(()) => symbol < old(self).size() && final(self).symbols() == old(
                    self,
                ).symbols().push(symbol),
                Err(e) => {
                    &&& final(self).symbols() == old(self).symbols()
                    &&& if symbol >= old(self).size() {
                        e == DirectQwtBuildError::InvalidInput(
                            "source symbol exceeds local alphabet",
                        )
                    } else {
                        &&& old(self).symbols().len() == usize::MAX
                        &&& e == DirectQwtBuildError::Overflow("Huffman symbol frequency")
                    }
                },
            },
    {
        if symbol as u64 >= self.table.len() as u64 {
            return Err(
                DirectQwtBuildError::InvalidInput("source symbol exceeds local alphabet"),
            );
        }
        if self.counted == usize::MAX {
            return Err(DirectQwtBuildError::Overflow("Huffman symbol frequency"));
        }
        let at: usize = symbol as usize;
        proof {
            lemma_frequency_push(self.symbols@, symbol, self.table.len() as int);
        }
        self.table[at] = self.table[at] + 1;
        self.counted = self.counted + 1;
        self.symbols = Ghost(self.symbols@.push(symbol));
        proof {
            assert forall|i: int| 0 <= i < self.symbols@.len() implies (#[trigger] self.symbols@[i])
                < self.table.len() by {
                if i < old(self).symbols@.len() {
                    assert(self.symbols@[i] == old(self).symbols@[i]);
                }
            }
        }
        Ok(())
    }

    /// The frequencies of the symbols, which must all occur. `trailing` tells
    /// whether the source goes on.
    pub fn finish(self, trailing: bool) -> (r: Result<Vec<usize>, DirectQwtBuildError>)
        requires
            self.wf(),
        ensures
            match r {
                Ok(frequencies) => {
                    &&& !trailing
                    &&& frequencies@ == frequency_table(self.symbols(), self.size())
                    &&& frequencies.len() <= 0xffff
                    &&& forall|s: int|
                        0 <= s < frequencies.len() ==> (#[trigger] frequencies[s]) > 0
                    &&& sum_occurring(
                        frequencies@,
                        |s: int| frequencies@[s] as int,
                        frequencies.len() as int,
                    ) == self.symbols().len()
                    &&& forall|s: u32| s < self.size() ==> #[trigger] self.symbols().contains(s)
                },
                Err(e) => if trailing {
                    e == DirectQwtBuildError::InvalidInput("source contains trailing rows")
                } else {
                    &&& exists|s: u32| s < self.size() && !#[trigger] self.symbols().contains(s)
                    &&& e == DirectQwtBuildError::InvalidInput(
                        "local Huffman alphabet contains an unused symbol",
                    )
                },
            },
    {
        if trailing {
            return Err(DirectQwtBuildError::InvalidInput("source contains trailing rows"));
        }
        let ghost all = self.symbols@;
        let ghost size = self.table.len() as int;
        let mut v: usize = 0;
        while v < self.table.len()
            invariant
                v <= self.table.len(),
                !trailing,
                self.wf(),
                all == self.symbols@,
                size == self.table.len(),
                forall|s: int| 0 <= s < v ==> (#[trigger] self.table[s]) > 0,
            decreases self.table.len() - v,
        {
            if self.table[v] == 0 {
                proof {
                    lemma_frequency(all, size, v as int);
                    let s = v as u32;
                    if all.contains(s) {
                        let j = choose|j: int| 0 <= j < all.len() && all[j] == s;
                        assert(all[j].val() == v);
                    }
                }
                assert((v as u32) < self.size() && !self.symbols().contains(v as u32));
                return Err(
                    DirectQwtBuildError::InvalidInput(
                        "local Huffman alphabet contains an unused symbol",
                    ),
                );
            }
            v = v + 1;
        }
        proof {
            lemma_frequency_sum(all, size);
            assert forall|s: u32| s < size implies #[trigger] all.contains(s) by {
                lemma_frequency(all, size, s as int);
                assert(self.table[s as int] > 0);
                let j = choose|j: int| 0 <= j < all.len() && (#[trigger] all[j]).val() == s as int;
                assert(all[j] == s);
            }
        }
        Ok(self.table)
    }
}

proof fn lemma_encode_len(codes: Seq<PrefixCode>)
    ensures
        encode_bytes(codes).len() == 8 * codes.len(),
    decreases codes.len(),
{
    if codes.len() > 0 {
        lemma_encode_len(codes.drop_last());
        lemma_le_bytes(codes.last().content as int, 4);
        lemma_le_bytes(codes.last().len as int, 4);
    }
}

proof fn lemma_row_bytes_len<T: WTIndexable>(row: Seq<(u32, T)>)
    ensures
        row_bytes(row).len() == 12 * row.len(),
    decreases row.len(),
{
    if row.len() > 0 {
        lemma_row_bytes_len(row.drop_last());
        lemma_le_bytes(row.last().0 as int, 4);
        lemma_le_bytes(row.last().1.val() as int, 8);
    }
}

proof fn lemma_total_prefix<T>(a: Seq<Seq<(u32, T)>>, b: Seq<Seq<(u32, T)>>, k: int)
    requires
        forall|i: int| 0 <= i < k ==> a[i] == b[i],
    ensures
        entry_total(a, k) == entry_total(b, k),
    decreases k,
{
    if k > 0 {
        lemma_total_prefix(a, b, k - 1);
    }
}

proof fn lemma_decode_len<T: WTIndexable>(decode: Seq<Seq<(u32, T)>>)
    ensures
        decode_bytes(decode).len() == 4 * decode.len() + 12 * entry_total(
            decode,
            decode.len() as int,
        ),
    decreases decode.len(),
{
    if decode.len() > 0 {
        let rest = decode.drop_last();
        lemma_decode_len(rest);
        lemma_row_bytes_len(decode.last());
        lemma_le_bytes(decode.last().len() as int, 4);
        lemma_total_prefix(rest, decode, rest.len() as int);
    }
}

/// The code tables of a container take no more than their bound.
pub proof fn lemma_tables_bound<T: WTIndexable>(
    levels: int,
    encode: Seq<PrefixCode>,
    decode: Seq<Seq<(u32, T)>>,
)
    requires
        0 <= levels <= 16,
        tables_agree(encode, decode),
        decode.len() <= 33,
        decode.len() > 0 ==> decode[0].len() == 0,
    ensures
        0 <= hqwb_base(levels, encode, decode) <= HEADER_SIZE + HQWT_LEVEL_DIR_SIZE * levels
            + metadata_bound(encode.len() as int),
{
    lemma_encode_len(encode);
    lemma_decode_len(decode);
    lemma_entry_total(encode, decode);
    lemma_aligned(HEADER_SIZE + HQWT_LEVEL_DIR_SIZE * levels, 8);
}

/// The length of the longest of the first `n` codes.
pub open spec fn longest_code(codes: Seq<PrefixCode>, n: int) -> int
    decreases n,
{
    if n <= 0 {
        0
    } else {
        let before = longest_code(codes, n - 1);
        if codes[n - 1].len > before {
            codes[n - 1].len as int
        } else {
            before
        }
    }
}

/// How many levels a tree with these codes has.
pub open spec fn code_levels(codes: Seq<PrefixCode>) -> int {
    longest_code(codes, codes.len() as int) / 2
}

pub proof fn lemma_longest(codes: Seq<PrefixCode>, n: int)
    requires
        0 <= n <= codes.len(),
    ensures
        0 <= longest_code(codes, n),
        forall|s: int| 0 <= s < n ==> (#[trigger] codes[s]).len <= longest_code(codes, n),
        longest_code(codes, n) > 0 ==> exists|s: int|
            0 <= s < n && (#[trigger] codes[s]).len == longest_code(codes, n),
    decreases n,
{
    if n > 0 {
        lemma_longest(codes, n - 1);
        let before = longest_code(codes, n - 1);
        if codes[n - 1].len > before {
            assert(codes[n - 1].len == longest_code(codes, n));
        } else if before > 0 {
            let s = choose|s: int| 0 <= s < n - 1 && (#[trigger] codes[s]).len == before;
            assert(codes[s].len == longest_code(codes, n));
        }
    }
}

/// Codes with which every symbol of an alphabet can be written.
pub open spec fn codes_ok(codes: Seq<PrefixCode>) -> bool {
    &&& codes.len() <= 0xffff
    &&& table_ok(codes, 16, 2)
    &&& forall|s: int| 0 <= s < codes.len() ==> (#[trigger] codes[s]).len > 0
}

/// The longest code has the most digits.
proof fn lemma_longest_len(codes: Seq<PrefixCode>, n: int)
    requires
        0 <= n <= codes.len(),
    ensures
        longest_len(digit_lens(codes, 2), n) == longest_code(codes, n) / 2,
    decreases n,
{
    if n > 0 {
        lemma_longest_len(codes, n - 1);
        assert(digit_lens(codes, 2)[n - 1] == codes[n - 1].len / 2);
    }
}

/// What is known of the number of levels.
pub proof fn lemma_code_levels(codes: Seq<PrefixCode>)
    requires
        codes_ok(codes),
    ensures
        0 <= code_levels(codes) <= 16,
        codes.len() == 0 ==> code_levels(codes) == 0,
        codes.len() > 0 ==> {
            &&& code_levels(codes) > 0
            &&& longest_code(codes, codes.len() as int) == 2 * code_levels(codes)
            &&& exists|s: int| coded(codes, s) && (#[trigger] codes[s]).len == 2 * code_levels(codes)
        },
        table_ok(codes, code_levels(codes), 2),
{
    let n = codes.len() as int;
    lemma_longest(codes, n);
    if n > 0 {
        assert(codes[0].len > 0);
        let s = choose|s: int| 0 <= s < n && (#[trigger] codes[s]).len == longest_code(codes, n);
        assert(coded(codes, s));
        assert(codes[s].len as int % 2 == 0 && codes[s].len <= 32);
        assert(coded(codes, s) && codes[s].len == 2 * code_levels(codes));
    }
    assert forall|x: int| #![trigger codes[x]] coded(codes, x) implies codes[x].len as int / 2
        <= code_levels(codes) by {
        assert(codes[x].len <= longest_code(codes, n));
    }
}

/// How a direct build of a compressed container will go.
pub struct DirectHqwtPlan {
    pub rows: u64,
    pub levels: u16,
    pub codes: Vec<PrefixCode>,
    pub decode: Vec<Vec<(u32, u32)>>,
    /// The code tables as bytes.
    pub tables: Vec<u8>,
    /// Scratch space that the build takes at most.
    pub scratch_required: u64,
    /// Where the levels begin in the container.
    pub payload_start: u64,
}

impl DirectHqwtPlan {
    /// The plan is one that was made for its rows and codes.
    pub open spec fn wf(&self) -> bool {
        &&& self.rows <= MAX_LEVEL_ROWS
        &&& codes_ok(self.codes@)
        &&& (self.rows == 0) == (self.codes.len() == 0)
        &&& self.levels == code_levels(self.codes@)
        &&& self.decode.len() == if self.rows == 0 {
            0
        } else {
            2 * self.levels + 1
        }
        &&& self.decode.len() > 0 ==> self.decode[0].len() == 0
        &&& tables_agree(self.codes@, rows_view(self.decode@))
        &&& self.tables@ == tables_bytes(self.codes@, rows_view(self.decode@))
        &&& self.scratch_required == scratch_bound(self.rows as int, self.levels as int)
        &&& self.payload_start == hqwb_base(
            self.levels as int,
            self.codes@,
            rows_view(self.decode@),
        )
    }
}

/// Plans a direct build with these codes, within a budget.
pub fn plan_hqwt256_u32_codes(rows: u64, codes: Vec<PrefixCode>, budget: DirectQwtBuildBudget) -> (r:
    Result<DirectHqwtPlan, DirectQwtBuildError>)
    requires
        rows <= MAX_LEVEL_ROWS,
        codes_ok(codes@),
        (rows == 0) == (codes.len() == 0),
    ensures
        ({
            let scratch = scratch_bound(rows as int, code_levels(codes@));
            match r {
                Ok(plan) => {
                    &&& scratch <= budget.scratch_bytes
                    &&& plan.wf()
                    &&& plan.rows == rows
                    &&& plan.codes == codes
                },
                Err(e) => {
                    &&& scratch > budget.scratch_bytes
                    &&& e == DirectQwtBuildError::ScratchBudget {
                        required: scratch as u64,
                        limit: budget.scratch_bytes,
                    }
                },
            }
        }),
{
    let mut max_len: u32 = 0;
    let mut v: usize = 0;
    while v < codes.len()
        invariant
            v <= codes.len(),
            max_len == longest_code(codes@, v as int),
        decreases codes.len() - v,
    {
        if codes[v].len > max_len {
            max_len = codes[v].len;
        }
        v = v + 1;
    }
    proof {
        lemma_code_levels(codes@);
        lemma_longest(codes@, codes.len() as int);
        lemma_bound_fits(rows as int, code_levels(codes@), HQWT_LEVEL_DIR_SIZE as int, 0);
    }
    let levels: u16 = (max_len / 2) as u16;
    let scratch_required: u64 = match scratch_upper_bound(
        rows,
        levels,
        "HQWB scratch source bytes",
        "HQWB scratch upper bound",
    ) {
        Ok(bytes) => bytes,
        Err(e) => {
            return Err(e);
        },
    };
    if scratch_required > budget.scratch_bytes {
        return Err(
            DirectQwtBuildError::ScratchBudget {
                required: scratch_required,
                limit: budget.scratch_bytes,
            },
        );
    }
    let decode: Vec<Vec<(u32, u32)>> = if rows == 0 {
        Vec::new()
    } else {
        decode_table(&codes, max_len, Ghost(levels as int), Ghost(2u32))
    };
    proof {
        lemma_rows_fit(codes@, rows_view(decode@));
        lemma_tables_bound(levels as int, codes@, rows_view(decode@));
        assert forall|b: int| 0 <= b < decode.len() implies (#[trigger] decode[b]).len()
            < 0x1_0000_0000 by {
            assert(rows_view(decode@)[b] == decode[b]@);
        }
    }
    let mut tables: Vec<u8> = Vec::new();
    put_encode(&mut tables, &codes);
    put_decode(&mut tables, &decode);
    assert(tables@ =~= tables_bytes(codes@, rows_view(decode@)));
    let head_len: usize = align_up(HEADER_SIZE + HQWT_LEVEL_DIR_SIZE * levels as usize, 8);
    let payload_start: u64 = head_len as u64 + tables.len() as u64;
    Ok(DirectHqwtPlan { rows, levels, codes, decode, tables, scratch_required, payload_start })
}

/// Plans a direct build for symbols with these frequencies, within a budget.
pub fn plan_hqwt256_u32_direct(
    rows: u64,
    frequencies: &Vec<usize>,
    budget: DirectQwtBuildBudget,
) -> (r: Result<DirectHqwtPlan, DirectQwtBuildError>)
    requires
        rows <= MAX_LEVEL_ROWS,
        rows <= usize::MAX,
        frequencies.len() <= 0xffff,
        forall|s: int| 0 <= s < frequencies.len() ==> (#[trigger] frequencies[s]) > 0,
        sum_occurring(
            frequencies@,
            |s: int| frequencies@[s] as int,
            frequencies.len() as int,
        ) == rows,
        (rows == 0) == (frequencies.len() == 0),
    ensures
        ({
            let lens = code_lens(frequencies@, 2);
            let scratch = scratch_bound(rows as int, longest_len(lens, lens.len() as int));
            match r {
                Ok(plan) => {
                    &&& !codes_fail(frequencies@, 2)
                    &&& scratch <= budget.scratch_bytes
                    &&& plan.wf()
                    &&& plan.rows == rows
                    &&& plan.scratch_required == scratch
                    &&& codes_for(frequencies@, plan.codes@, 2)
                    &&& minimum_redundancy(frequencies@, digit_lens(plan.codes@, 2), 2)
                },
                Err(e) => if codes_fail(frequencies@, 2) {
                    &&& frequencies.len() > 16
                    &&& too_many(frequencies@, 2) || long_needed(frequencies@, 2)
                    &&& e == DirectQwtBuildError::InvalidInput(
                        "Huffman code exceeds the HQWB u32 representation",
                    )
                } else {
                    &&& scratch > budget.scratch_bytes
                    &&& e == DirectQwtBuildError::ScratchBudget {
                        required: scratch as u64,
                        limit: budget.scratch_bytes,
                    }
                },
            }
        }),
        frequencies.len() <= 16 && scratch_bound(rows as int, 16) <= budget.scratch_bytes ==> r is Ok,
{
    let codes: Vec<PrefixCode> = if rows == 0 {
        Vec::new()
    } else {
        match huffman_codes_from_frequencies(frequencies) {
            Some(codes) => codes,
            None => {
                proof {
                    lemma_occurring_count(frequencies@, frequencies.len() as int);
                }
                return Err(
                    DirectQwtBuildError::InvalidInput(
                        "Huffman code exceeds the HQWB u32 representation",
                    ),
                );
            },
        }
    };
    proof {
        assert(table_ok(codes@, 16, 2));
        lemma_code_levels(codes@);
        if rows == 0 {
            lemma_nothing_redundant(2);
            assert(digit_lens(codes@, 2) =~= Seq::<u32>::empty());
            assert(codes_greedy(codes@, 2));
            assert(frequencies@ =~= Seq::<usize>::empty());
            assert(code_lens(frequencies@, 2) =~= Seq::<u32>::empty());
        }
        lemma_longest_len(codes@, codes.len() as int);
    }
    plan_hqwt256_u32_codes(rows, codes, budget)
}

proof fn lemma_occurring_count(freqs: Seq<usize>, n: int)
    requires
        0 <= n <= freqs.len(),
    ensures
        occurring(freqs, n).len() <= n,
    decreases n,
{
    if n > 0 {
        lemma_occurring_count(freqs, n - 1);
    }
}

/// A direct build of a compressed container. It goes as that of a plain one,
/// with a fifth bucket behind the others for finished codes.
pub struct DirectHqwtBuild {
    passes: DirectPasses,
    alphabet_size: usize,
    decode: Vec<Vec<(u32, u32)>>,
    tables: Vec<u8>,
    codes: Ghost<Seq<PrefixCode>>,
}

impl DirectHqwtBuild {
    /// The passes of the build.
    pub closed spec fn state(&self) -> DirectPasses {
        self.passes
    }

    /// The codes of the symbols.
    pub closed spec fn codes(&self) -> Seq<PrefixCode> {
        self.codes@
    }

    /// The decoding table.
    pub closed spec fn decode(&self) -> Seq<Seq<(u32, u32)>> {
        rows_view(self.decode@)
    }

    #[verifier::opaque]
    pub closed spec fn wf(&self) -> bool {
        let pass = self.passes.pass();
        let codes = self.codes@;
        &&& self.passes.wf()
        &&& self.passes.codes() == Some(codes)
        &&& codes_ok(codes)
        &&& self.alphabet_size == codes.len()
        &&& (self.passes.row_count() == 0) == (codes.len() == 0)
        &&& self.passes.level_count() == code_levels(codes)
        &&& self.decode.len() == if codes.len() == 0 {
            0
        } else {
            2 * self.passes.level_count() + 1
        }
        &&& self.decode.len() > 0 ==> self.decode[0].len() == 0
        &&& tables_agree(codes, rows_view(self.decode@))
        &&& self.tables@ == tables_bytes(codes, rows_view(self.decode@))
        &&& self.passes.start() == hqwb_base(
            self.passes.level_count(),
            codes,
            rows_view(self.decode@),
        )
        &&& forall|i: int| 0 <= i < pass.len() ==> (#[trigger] pass[i]) < codes.len()
        &&& forall|l: int, i: int|
            0 <= l < self.passes.level_index() && 0 <= i < self.passes.passes()[l].len() ==> (
            #[trigger] self.passes.passes()[l][i]) < codes.len()
    }

    /// Rows, levels and offsets stay within the limits of the container.
    pub proof fn lemma_room(&self)
        requires
            self.wf(),
        ensures
            self.state().row_count() <= 0xff_ffff_ff00,
            self.state().running().len() <= self.state().pass().len(),
            self.state().level_count() <= 16,
            0 <= self.state().end() <= 0x1000_0000 + 16 * 0x80_0000_0040,
            self.state().wf(),
    {
        reveal(DirectHqwtBuild::wf);
        self.state().lemma_room();
    }

    /// Begins a build.
    pub fn new(plan: DirectHqwtPlan) -> (b: Self)
        requires
            plan.wf(),
        ensures
            b.wf(),
            b.codes() == plan.codes@,
            b.decode() == rows_view(plan.decode@),
            b.state().row_count() == plan.rows,
            b.state().level_count() == plan.levels,
            b.state().level_index() == 0,
            b.state().passes() == Seq::<Seq<u32>>::empty(),
            b.state().pass() == Seq::<u32>::empty(),
            b.state().images() == Seq::<LevelImage>::empty(),
            b.state().taken() == no_image(),
    {
        proof {
            lemma_code_levels(plan.codes@);
            lemma_tables_bound(plan.levels as int, plan.codes@, rows_view(plan.decode@));
        }
        let ghost codes = plan.codes@;
        let alphabet_size: usize = plan.codes.len();
        let b = DirectHqwtBuild {
            passes: DirectPasses::new(
                plan.rows,
                plan.levels,
                Some(plan.codes),
                plan.payload_start,
            ),
            alphabet_size,
            decode: plan.decode,
            tables: plan.tables,
            codes: Ghost(codes),
        };
        proof {
            reveal(DirectHqwtBuild::wf);
        }
        b
    }

    /// The passes of the build.
    pub fn passes(&self) -> (p: &DirectPasses)
        requires
            self.wf(),
        ensures
            *p == self.state(),
            p.wf(),
    {
        proof {
            reveal(DirectHqwtBuild::wf);
        }
        &self.passes
    }

    /// Reads the next symbol of the running pass. Tells its bucket, where there
    /// is another pass.
    pub fn push(&mut self, symbol: u32) -> (r: Result<Option<u8>, DirectQwtBuildError>)
        requires
            old(self).wf(),
            old(self).state().level_index() < old(self).state().level_count(),
            old(self).state().pass().len() < u64::MAX,
        ensures
            final(self).codes() == old(self).codes(),
            final(self).decode() == old(self).decode(),
            match r {
                Ok(group) => {
                    &&& symbol < old(self).codes().len()
                    &&& final(self).wf()
                    &&& final(self).state().same_levels(old(self).state())
                    &&& final(self).state().taken() == old(self).state().taken()
                    &&& final(self).state().pass() == old(self).state().pass().push(symbol)
                    &&& group == if old(self).state().level_index() + 1 < old(
                        self,
                    ).state().level_count() {
                        Some(
                            bucket(
                                symbol_code(
                                    Some(old(self).codes()),
                                    old(self).state().level_count(),
                                    2,
                                    symbol,
                                ),
                                old(self).state().level_index(),
                                4,
                            ),
                        )
                    } else {
                        None
                    }
                },
                Err(e) => if symbol >= old(self).codes().len() {
                    e == DirectQwtBuildError::InvalidInput(
                        "partition symbol exceeds local alphabet",
                    )
                } else {
                    e == DirectQwtBuildError::Overflow("data-line count")
                },
            },
            r is Err <==> symbol >= old(self).codes().len() || old(self).state().full(symbol),
    {
        proof {
            reveal(DirectHqwtBuild::wf);
        }
        if symbol as u64 >= self.alphabet_size as u64 {
            return Err(
                DirectQwtBuildError::InvalidInput("partition symbol exceeds local alphabet"),
            );
        }
        let ghost before = self.passes.pass();
        let r: Result<Option<u8>, DirectQwtBuildError> = self.passes.push(symbol);
        proof {
            if r is Ok {
                let after = self.passes.pass();
                assert(after == before.push(symbol));
                assert forall|i: int| 0 <= i < after.len() implies (#[trigger] after[i])
                    < self.codes@.len() by {
                    if i < before.len() {
                        assert(after[i] == before[i]);
                    }
                }
            }
        }
        r
    }

    /// Hands out what the running level has written so far.
    pub fn take_output(&mut self) -> (out: LevelOutput)
        requires
            old(self).wf(),
        ensures
            final(self).wf(),
            final(self).codes() == old(self).codes(),
            final(self).decode() == old(self).decode(),
            final(self).state().same_levels(old(self).state()),
            final(self).state().pass() == old(self).state().pass(),
            out.select.len() == 4,
            final(self).state().taken() == extended(old(self).state().taken(), out),
            final(self).state().pending() == 0,
    {
        proof {
            reveal(DirectHqwtBuild::wf);
        }
        self.passes.take_output()
    }

    /// Ends the running pass.
    pub fn end_level(&mut self) -> (r: Result<FinishedLevel, DirectQwtBuildError>)
        requires
            old(self).wf(),
            old(self).state().level_index() < old(self).state().level_count(),
        ensures
            final(self).codes() == old(self).codes(),
            final(self).decode() == old(self).decode(),
            ({
                let b = old(self).state();
                let miscounted = b.pass().len() != b.row_count();
                match r {
                    Ok(finished) => {
                        let after = final(self).state();
                        &&& !miscounted
                        &&& placement_fits(b.end(), b.running())
                        &&& final(self).wf()
                        &&& after.row_count() == b.row_count()
                        &&& after.level_count() == b.level_count()
                        &&& after.level_index() == b.level_index() + 1
                        &&& after.passes() == b.passes().push(b.pass())
                        &&& after.pass() == Seq::<u32>::empty()
                        &&& after.taken() == no_image()
                        &&& finished.output.select.len() == 4
                        &&& after.images() == b.images().push(extended(b.taken(), finished.output))
                        &&& after.entries() == b.entries().push(finished.dir)
                    },
                    Err(e) => if miscounted {
                        e == DirectQwtBuildError::InvalidInput(
                            "partitioned source row count changed between levels",
                        )
                    } else {
                        &&& !placement_fits(b.end(), b.running())
                        &&& e == DirectQwtBuildError::Overflow("output cursor")
                    },
                }
            }),
    {
        proof {
            reveal(DirectHqwtBuild::wf);
            self.passes.lemma_done();
        }
        let ghost pass = self.passes.pass();
        let ghost before = self.passes.passes();
        let r: Result<FinishedLevel, DirectQwtBuildError> = self.passes.end_level();
        proof {
            if r is Ok {
                let after = self.passes.passes();
                assert(after == before.push(pass));
                assert forall|l: int, i: int|
                    0 <= l < self.passes.level_index() && 0 <= i < after[l].len() implies (
                #[trigger] after[l][i]) < self.codes@.len() by {
                    if l < before.len() {
                        assert(after[l] == before[l]);
                        assert(before[l][i] < self.codes@.len());
                    }
                }
            }
        }
        r
    }

    /// Everything before the levels of the container, and what the build has
    /// used. All levels must be finished.
    pub fn finish(&self) -> (r: (Vec<u8>, DirectQwtBuildStats))
        requires
            self.wf(),
            self.state().level_index() == self.state().level_count(),
        ensures
            r.0@ == self.front(),
            r.1.rows == self.state().row_count(),
            r.1.levels == self.state().level_count(),
            r.1.output_bytes == self.container().len(),
            r.1.peak_scratch_bytes == self.state().peak(),
            r.1.peak_scratch_bytes <= scratch_bound(
                self.state().row_count(),
                self.state().level_count(),
            ),
            r.1.output_bytes <= container_bound(
                self.state().row_count(),
                if self.state().row_count() == 0 {
                    0
                } else {
                    16
                },
                HQWT_LEVEL_DIR_SIZE as int,
                metadata_bound(self.codes().len() as int),
            ),
    {
        proof {
            reveal(DirectHqwtBuild::wf);
            self.passes.lemma_done();
            self.lemma_container();
        }
        let stats: DirectQwtBuildStats = self.passes.stats();
        let mut front: Vec<u8> = Vec::new();
        let ghost dirs = self.passes.entries().map_values(|d: LevelDir| d@);
        proof {
            lemma_placed_shape(
                self.passes.done(),
                self.passes.images(),
                false,
                self.passes.start(),
            );
            self.lemma_entries();
            lemma_hqwb_front_len(
                false,
                4,
                stats.rows as int,
                dirs,
                self.passes.counts(),
                self.codes@,
                self.decode(),
            );
        }
        put_hqwb_head(
            &mut front,
            false,
            4,
            stats.rows,
            self.passes.dirs(),
            self.passes.lens(),
            self.alphabet_size as u16,
            self.decode.len() as u16,
        );
        let ghost head = hqwb_head(
            false,
            4,
            stats.rows as int,
            dirs,
            self.passes.counts(),
            self.codes@.len() as int,
            self.decode.len() as int,
        );
        assert(front@ =~= head);
        proof {
            lemma_aligned(head.len() as int, 8);
        }
        pad_to(&mut front, 8);
        append(&mut front, self.tables.as_slice());
        assert(front@ =~= self.front());
        (front, stats)
    }

    /// Everything before the levels of the container.
    pub open spec fn front(&self) -> Seq<u8> {
        hqwb_front(
            false,
            4,
            self.state().row_count(),
            self.state().entries().map_values(|d: LevelDir| d@),
            self.state().counts(),
            self.codes(),
            self.decode(),
        )
    }

    /// The container: the front, and the levels where their directory entries
    /// say, with zeros between them.
    pub open spec fn container(&self) -> Seq<u8> {
        self.front() + payload(
            self.state().start(),
            self.state().images(),
            self.state().level_index(),
        )
    }

    /// The directory entries and the row counts are those of the levels.
    proof fn lemma_entries(&self)
        requires
            self.wf(),
        ensures
            self.state().entries().map_values(|d: LevelDir| d@) == placed_dirs(
                self.state().done(),
                self.state().images(),
                false,
                self.state().start(),
            ),
            self.state().counts() == row_counts(self.state().done()),
    {
        reveal(DirectHqwtBuild::wf);
        let b = self.passes;
        b.lemma_done();
        let rows = b.done();
        assert forall|l: int| 0 <= l < b.level_index() implies (#[trigger] b.entries()[l])@
            == dir_at(rows[l], false, image_off(b.start(), b.images(), l)) && b.counts()[l]
            == rows[l].len() by {
            assert(b.passes()[l].len() == b.row_count());
        }
        assert(b.entries().map_values(|d: LevelDir| d@) =~= placed_dirs(
            rows,
            b.images(),
            false,
            b.start(),
        ));
        assert(b.counts() =~= row_counts(rows)) by {
            assert forall|l: int| 0 <= l < rows.len() implies b.counts()[l] == row_counts(
                rows,
            )[l] by {
                assert(b.entries()[l]@ == dir_at(
                    rows[l],
                    false,
                    image_off(b.start(), b.images(), l),
                ));
            }
        }
    }

    /// The container of a finished build is that of its levels and tables, and
    /// stays within the bounds.
    pub proof fn lemma_container(&self)
        requires
            self.wf(),
            self.state().level_index() == self.state().level_count(),
        ensures
            self.container() == hqwb_bytes(
                self.state().done(),
                self.state().images(),
                row_counts(self.state().done()),
                self.codes(),
                self.decode(),
                false,
                4,
                self.state().row_count(),
            ),
            self.front().len() == self.state().start(),
            self.container().len() == self.state().end(),
            self.container().len() <= container_bound(
                self.state().row_count(),
                if self.state().row_count() == 0 {
                    0
                } else {
                    16
                },
                HQWT_LEVEL_DIR_SIZE as int,
                metadata_bound(self.codes().len() as int),
            ),
            self.state().peak() <= scratch_bound(
                self.state().row_count(),
                self.state().level_count(),
            ),
    {
        reveal(DirectHqwtBuild::wf);
        let b = self.passes;
        b.lemma_done();
        self.lemma_entries();
        let rows = b.done();
        let images = b.images();
        let n = b.row_count();
        let levels = b.level_count();
        let base = b.start();
        lemma_code_levels(self.codes@);
        lemma_tables_bound(levels, self.codes@, self.decode());
        lemma_placed_shape(rows, images, false, base);
        lemma_hqwb_front_len(
            false,
            4,
            n,
            placed_dirs(rows, images, false, base),
            row_counts(rows),
            self.codes@,
            self.decode(),
        );
        assert forall|l: int| 0 <= l < rows.len() implies {
            &&& is_image(#[trigger] rows[l], false, images[l])
            &&& digits_below(rows[l], 4)
            &&& rows[l].len() <= n
        } by {
            assert(b.passes()[l].len() == n);
        }
        lemma_huff_bound(rows, images, self.codes@, self.decode(), n, base);
        if levels > 0 {
            lemma_scratch_bound(levels, rows, n, levels);
        }
    }
}

/// A compressed container takes no more than its bound.
proof fn lemma_huff_bound(
    rows: Seq<Seq<u8>>,
    images: Seq<LevelImage>,
    encode: Seq<PrefixCode>,
    decode: Seq<Seq<(u32, u32)>>,
    n: int,
    base: int,
)
    requires
        rows.len() <= 16,
        (rows.len() == 0) == (n == 0),
        0 <= n <= MAX_LEVEL_ROWS,
        base <= HEADER_SIZE + HQWT_LEVEL_DIR_SIZE * rows.len() + metadata_bound(
            encode.len() as int,
        ),
        forall|k: int|
            0 <= k < rows.len() ==> {
                &&& is_image(#[trigger] rows[k], false, images[k])
                &&& digits_below(rows[k], 4)
                &&& rows[k].len() <= n
            },
    ensures
        base + payload(base, images, rows.len() as int).len() <= container_bound(
            n,
            if n == 0 {
                0
            } else {
                16
            },
            HQWT_LEVEL_DIR_SIZE as int,
            metadata_bound(encode.len() as int),
        ),
{
    let levels = rows.len() as int;
    let top: int = if n == 0 {
        0
    } else {
        16
    };
    lemma_aligned(
        top * HQWT_LEVEL_DIR_SIZE + HEADER_SIZE + metadata_bound(encode.len() as int),
        64,
    );
    if levels > 0 {
        lemma_payload_bound(base, rows, images, n, levels);
        let x = level_bound(n);
        assert(levels * (x + 63) <= 16 * (x + 128)) by (nonlinear_arith)
            requires
                0 <= levels <= 16,
                0 <= x,
        ;
    }
}

/// No level has more rows than the first.
pub proof fn lemma_level_rows<T: WTIndexable, const B_SIZE: usize>(
    tree: HuffQWaveletTree<T, RSQVector<B_SIZE>>,
    k: int,
)
    requires
        tree.wf(),
        0 <= k < tree.level_count(),
    ensures
        tree.levels()[k].len() <= tree.seq().len(),
{
    tree.lemma_wf();
    let n_levels = tree.level_count() as int;
    let table = Some(tree.encode());
    lemma_arranged(tree.seq(), table, n_levels, 2, k);
    assert(tree.levels()[k] == digits_at(
        rows_at(codes_of(tree.seq(), table, n_levels, 2), k, 4),
        k,
    ));
}

/// The container of a compressed tree takes no more than its bound.
pub proof fn lemma_huff_output_bound(tree: HuffQWaveletTree<u32, RSQVector<256>>)
    requires
        tree.wf(),
    ensures
        huff_tree_bytes(tree).len() <= container_bound(
            tree.seq().len() as int,
            if tree.seq().len() == 0 {
                0
            } else {
                16
            },
            HQWT_LEVEL_DIR_SIZE as int,
            metadata_bound(tree.encode().len() as int),
        ),
{
    let rows = tree.levels();
    let images = images_of(tree.quads());
    let decode = rows_view(tree.decode());
    let n = tree.seq().len() as int;
    let levels = rows.len() as int;
    tree.lemma_wf();
    lemma_images_of(tree.quads());
    lemma_tables_bound(levels, tree.encode(), decode);
    let base = hqwb_base(levels, tree.encode(), decode);
    lemma_placed_shape(rows, images, false, base);
    lemma_hqwb_front_len(
        false,
        4,
        n,
        placed_dirs(rows, images, false, base),
        row_counts(rows),
        tree.encode(),
        decode,
    );
    if n > 0 {
        assert(is_image(rows[0], false, images[0]));
    }
    assert forall|k: int| 0 <= k < rows.len() implies {
        &&& is_image(#[trigger] rows[k], false, images[k])
        &&& digits_below(rows[k], 4)
        &&& rows[k].len() <= n
    } by {
        lemma_level_rows(tree, k);
    }
    lemma_huff_bound(rows, images, tree.encode(), decode, n, base);
}

/// A direct build gives the container of the tree of its source with the same
/// codes, where its first pass has read the source and every other pass the
/// buckets of the one before.
#[verifier::rlimit(60)]
#[verifier::spinoff_prover]
pub proof fn lemma_direct_huff_container(
    b: DirectHqwtBuild,
    source: Seq<u32>,
    tree: HuffQWaveletTree<u32, RSQVector<256>>,
)
    requires
        b.wf(),
        b.state().level_index() == b.state().level_count(),
        source.len() == b.state().row_count(),
        source.len() > 0 ==> b.state().passes()[0] == source,
        passes_follow(b.state().passes(), Some(b.codes()), b.state().level_count()),
        tree.wf(),
        tree.seq() == source,
        tree.encode() == b.codes(),
    ensures
        b.container() == huff_tree_bytes(tree),
{
    let rows = b.state().done();
    lemma_same_levels(b, source, tree);
    assert(b.container() == hqwb_bytes(
        rows,
        b.state().images(),
        row_counts(rows),
        b.codes(),
        b.decode(),
        false,
        4,
        b.state().row_count(),
    )) by {
        b.lemma_container();
    }
    assert(b.state().images() == images_of(tree.quads())) by {
        reveal(DirectHqwtBuild::wf);
        b.state().lemma_done();
        tree.lemma_wf();
        lemma_images_of(tree.quads());
        assert forall|l: int| 0 <= l < rows.len() implies is_image(
            #[trigger] rows[l],
            false,
            b.state().images()[l],
        ) by {
            assert(b.state().passes()[l].len() == b.state().row_count());
        }
        lemma_images_unique(rows, b.state().images(), images_of(tree.quads()));
    }
}

/// A direct build that has planned its codes for the frequencies of its source
/// gives the container of the compressed tree that is built from the source.
pub proof fn lemma_direct_huff_build(
    b: DirectHqwtBuild,
    source: Seq<u32>,
    tree: HuffQWaveletTree<u32, RSQVector<256>>,
)
    requires
        b.wf(),
        b.state().level_index() == b.state().level_count(),
        source.len() == b.state().row_count(),
        source.len() > 0 ==> b.state().passes()[0] == source,
        passes_follow(b.state().passes(), Some(b.codes()), b.state().level_count()),
        codes_for(frequency_table(source, b.codes().len() as int), b.codes(), 2),
        tree.wf(),
        tree.seq() == source,
        codes_for(frequency_table(source, tree.encode().len() as int), tree.encode(), 2),
        forall|m: u32| #[trigger] is_max(source, m) ==> tree.encode().len() == m + 1,
    ensures
        b.container() == huff_tree_bytes(tree),
{
    let p = b.codes();
    let q = tree.encode();
    assert(p == q) by {
        reveal(DirectHqwtBuild::wf);
        tree.lemma_wf();
        if source.len() == 0 {
            assert(p =~= q);
        } else {
            lemma_code_levels(p);
            assert(source == b.state().passes()[0]);
            lemma_whole_alphabet(source, p);
            assert(table_ok(q, 16, 2)) by {
                assert(table_ok(q, tree.level_count() as int, 2));
            }
            assert(digit_lens(p, 2) == digit_lens(q, 2));
            assert forall|s: int| 0 <= s < p.len() implies (#[trigger] p[s]).len == q[s].len by {
                assert(digit_lens(p, 2)[s] == p[s].len / 2);
                assert(digit_lens(q, 2)[s] == q[s].len / 2);
                assert(coded(p, s));
                assert(p[s].len as int % 2 == 0);
                assert(coded(q, s));
                assert(q[s].len as int % 2 == 0);
            }
            lemma_codes_unique(p, q, 16, 2);
        }
    }
    lemma_direct_huff_container(b, source, tree);
}

/// Where every symbol has a code, the largest one occurs.
proof fn lemma_whole_alphabet(source: Seq<u32>, codes: Seq<PrefixCode>)
    requires
        0 < codes.len() <= 0xffff,
        source.len() <= usize::MAX,
        codes_ok(codes),
        codes_for(frequency_table(source, codes.len() as int), codes, 2),
        forall|i: int| 0 <= i < source.len() ==> (#[trigger] source[i]) < codes.len(),
    ensures
        is_max(source, (codes.len() - 1) as u32),
{
    let freqs = frequency_table(source, codes.len() as int);
    let v = codes.len() - 1;
    let m = v as u32;
    assert(digit_lens(codes, 2)[v] == codes[v].len / 2);
    assert(coded(codes, v));
    assert(codes[v].len as int % 2 == 0);
    assert(code_lens(freqs, 2)[v] > 0);
    lemma_frequency(source, codes.len() as int, v);
    let j = choose|j: int| 0 <= j < source.len() && (#[trigger] source[j]).val() == v;
    assert(source[j] == m);
    assert forall|i: int| 0 <= i < source.len() implies (#[trigger] source[i]).val() <= m.val() by {
        assert(source[i] < codes.len());
    }
}

/// Two trees with the same codes, of which some have full length, have equally
/// many levels.
proof fn lemma_same_depth(codes: Seq<PrefixCode>, n_levels: int)
    requires
        codes_ok(codes),
        codes.len() > 0,
        table_ok(codes, n_levels, 2),
        exists|s: int| coded(codes, s) && (#[trigger] codes[s]).len == 2 * n_levels,
    ensures
        n_levels == code_levels(codes),
{
    lemma_code_levels(codes);
    lemma_longest(codes, codes.len() as int);
    let s = choose|s: int| coded(codes, s) && (#[trigger] codes[s]).len == 2 * n_levels;
    let t = choose|t: int| coded(codes, t) && (#[trigger] codes[t]).len == 2 * code_levels(codes);
    assert(codes[s].len <= longest_code(codes, codes.len() as int));
    assert(codes[t].len as int / 2 <= n_levels);
}

/// A direct build writes the levels and the tables of the tree.
#[verifier::rlimit(40)]
#[verifier::spinoff_prover]
proof fn lemma_same_levels(
    b: DirectHqwtBuild,
    source: Seq<u32>,
    tree: HuffQWaveletTree<u32, RSQVector<256>>,
)
    requires
        b.wf(),
        b.state().level_index() == b.state().level_count(),
        source.len() == b.state().row_count(),
        source.len() > 0 ==> b.state().passes()[0] == source,
        passes_follow(b.state().passes(), Some(b.codes()), b.state().level_count()),
        tree.wf(),
        tree.seq() == source,
        tree.encode() == b.codes(),
    ensures
        b.state().done() == tree.levels(),
        b.decode() == rows_view(tree.decode()),
{
    reveal(DirectHqwtBuild::wf);
    let codes = b.codes();
    let levels = b.state().level_count();
    let passes = b.state().passes();
    let decode = rows_view(tree.decode());
    b.state().lemma_done();
    tree.lemma_wf();
    lemma_code_levels(codes);
    if source.len() > 0 {
        lemma_same_depth(codes, tree.level_count() as int);
        assert(codable(source, Some(codes), levels, 2));
        lemma_passes(passes, Some(codes), levels);
        lemma_decode_unique(codes, decode, b.decode());
    } else {
        assert(decode =~= b.decode());
    }
    assert(b.state().done() =~= tree.levels());
}

} // verus!
