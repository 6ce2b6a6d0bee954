//! Laws of builds that read their symbols from a stream.

use vstd::prelude::*;

use super::codes::lemma_no_long;
use super::{lemma_times_before, times_before};
use crate::binwt::parts::is_max;
use crate::bytes::direct::{
    lemma_direct_container, scratch_upper_bound, DirectQwtBuild, DirectQwtBuildBudget,
    DirectQwtBuildStats,
};
use crate::bytes::direct_huff::{
    lemma_code_levels, lemma_direct_huff_build, lemma_longest, plan_hqwt256_u32_direct,
    DirectHqwtBuild, DirectHqwtPlan, SymbolCounts,
};
use crate::bytes::error::DirectQwtBuildError;
use crate::bytes::hqwb::hqwt_to_bytes;
use crate::bytes::passes::{level_scratch, passes_follow, scratch_peak, DirectPasses, FinishedLevel};
use crate::bytes::payload::payload;
use crate::bytes::qwtb::qwt_to_bytes;
use crate::huffman::{codes_for, frequency_table, lemma_used, long_needed, minimum_redundancy};
use crate::indexable::WTIndexable;
use crate::quadwt::huffqwt::HuffQWaveletTree;
use crate::quadwt::QWaveletTree;
use crate::qvector::RSQVector;

verus! {

/// While rows are owed, a plain build takes every symbol up to the declared one and
/// refuses every other.
pub proof fn plain_push(
    b: &mut DirectQwtBuild,
    symbol: u32,
    r: Result<Option<u8>, DirectQwtBuildError>,
)
    requires
        old(b).wf(),
        old(b).state().pass().len() < old(b).state().row_count(),
        call_ensures(DirectQwtBuild::push, (b, symbol), r),
    ensures
        r is Ok <==> symbol <= old(b).declared(),
        r is Ok ==> final(b).state().pass() == old(b).state().pass().push(symbol),
        r matches Err(e) ==> e is InvalidInput,
{
    old(b).lemma_room();
}

/// While rows are owed, a compressed build takes every symbol that has a code and
/// refuses every other.
pub proof fn compressed_push(
    b: &mut DirectHqwtBuild,
    symbol: u32,
    r: Result<Option<u8>, DirectQwtBuildError>,
)
    requires
        old(b).wf(),
        old(b).state().pass().len() < old(b).state().row_count(),
        call_ensures(DirectHqwtBuild::push, (b, symbol), r),
    ensures
        r is Ok <==> symbol < old(b).codes().len(),
        r is Ok ==> final(b).state().pass() == old(b).state().pass().push(symbol),
        r matches Err(e) ==> e is InvalidInput,
{
    old(b).lemma_room();
}

/// A level ends exactly where all rows were read and, behind the first pass, the
/// declared symbol was among them.
pub proof fn plain_end_level(
    b: &mut DirectQwtBuild,
    r: Result<FinishedLevel, DirectQwtBuildError>,
)
    requires
        old(b).wf(),
        usize::MAX >= 0x1000_0000_0000,
        call_ensures(DirectQwtBuild::end_level, (b,), r),
    ensures
        r is Ok <==> {
            &&& old(b).state().pass().len() == old(b).state().row_count()
            &&& old(b).state().level_index() == 0 ==> old(b).state().pass().contains(
                old(b).declared(),
            )
        },
        r is Ok ==> final(b).state().passes() == old(b).state().passes().push(
            old(b).state().pass(),
        ) && final(b).state().pass() == Seq::<u32>::empty(),
        r matches Err(e) ==> e is InvalidInput,
{
    old(b).lemma_room();
    lemma_fits(old(b).state().end(), old(b).state().running().len() as int);
}

/// A level of a compressed build ends exactly where all rows were read.
pub proof fn compressed_end_level(
    b: &mut DirectHqwtBuild,
    r: Result<FinishedLevel, DirectQwtBuildError>,
)
    requires
        old(b).wf(),
        usize::MAX >= 0x1000_0000_0000,
        call_ensures(DirectHqwtBuild::end_level, (b,), r),
    ensures
        r is Ok <==> old(b).state().pass().len() == old(b).state().row_count(),
        r is Ok ==> final(b).state().passes() == old(b).state().passes().push(
            old(b).state().pass(),
        ) && final(b).state().pass() == Seq::<u32>::empty(),
        r matches Err(e) ==> e is InvalidInput,
{
    old(b).lemma_room();
    lemma_fits(old(b).state().end(), old(b).state().running().len() as int);
}

proof fn lemma_fits(cursor: int, n: int)
    requires
        0 <= cursor <= 0x1000_0000 + 16 * 0x80_0000_0040,
        0 <= n,
    ensures
        n <= 0xff_ffff_ff00 ==> {
            let off = crate::bytes::aligned(cursor, 64);
            &&& cursor + 63 <= 0x1000_0000_0000
            &&& off + 64 * crate::bytes::image::line_count(n) <= 0x1000_0000_0000
            &&& off + 64 * crate::bytes::image::line_count(n) + 64
                * crate::bytes::image::super_count(n, false) <= 0x1000_0000_0000
        },
{
    crate::bytes::lemma_aligned(cursor, 64);
}

/// What a finished plain build writes before its levels, and the levels behind it,
/// are the bytes of the tree that is built from the symbols in memory.
pub proof fn plain_stream(
    v: Vec<u32>,
    tree: QWaveletTree<u32, RSQVector<256>>,
    w: Vec<u8>,
    b: DirectQwtBuild,
    r: (Vec<u8>, DirectQwtBuildStats),
)
    requires
        call_ensures(QWaveletTree::<u32, RSQVector<256>>::from, (v,), tree),
        call_ensures(qwt_to_bytes::<u32, 256>, (&tree,), Ok(w)),
        b.wf(),
        b.state().level_index() == b.state().level_count(),
        v.len() == b.state().row_count(),
        v.len() > 0 ==> b.state().passes()[0] == v@,
        v.len() == 0 ==> b.declared() == 0,
        passes_follow(b.state().passes(), None, b.state().level_count()),
        call_ensures(DirectQwtBuild::finish, (&b,), r),
    ensures
        w@ == r.0@ + payload(b.state().start(), b.state().images(), b.state().level_index()),
        r.1.output_bytes == w.len(),
        r.1.rows == v.len(),
{
    lemma_direct_container(b, v@, tree);
}

/// What a finished compressed build writes before its levels, and the levels behind
/// it, are the bytes of the tree that is built from the symbols in memory, where its
/// codes were made for their frequencies.
pub proof fn compressed_stream(
    v: Vec<u32>,
    tree: HuffQWaveletTree<u32, RSQVector<256>>,
    w: Vec<u8>,
    b: DirectHqwtBuild,
    r: (Vec<u8>, DirectQwtBuildStats),
)
    requires
        call_ensures(HuffQWaveletTree::<u32, RSQVector<256>>::from, (v,), Some(tree)),
        call_ensures(hqwt_to_bytes::<u32, 256>, (&tree,), Ok(w)),
        b.wf(),
        b.state().level_index() == b.state().level_count(),
        v.len() == b.state().row_count(),
        v.len() > 0 ==> b.state().passes()[0] == v@,
        passes_follow(b.state().passes(), Some(b.codes()), b.state().level_count()),
        codes_for(frequency_table(v@, b.codes().len() as int), b.codes(), 2),
        call_ensures(DirectHqwtBuild::finish, (&b,), r),
    ensures
        w@ == r.0@ + payload(b.state().start(), b.state().images(), b.state().level_index()),
        r.1.output_bytes == w.len(),
        r.1.rows == v.len(),
{
    assert forall|m: u32| #[trigger] is_max(v@, m) implies tree.encode().len() == m + 1 by {}
    lemma_direct_huff_build(b, v@, tree);
}

/// A finished plain build has held its source and, where it has more than one level,
/// as much again in buckets at one time.
pub proof fn plain_peak(b: DirectQwtBuild, r: (Vec<u8>, DirectQwtBuildStats))
    requires
        b.wf(),
        b.state().level_index() == b.state().level_count(),
        b.state().level_count() > 0,
        call_ensures(DirectQwtBuild::finish, (&b,), r),
    ensures
        r.1.peak_scratch_bytes >= 4 * r.1.rows,
        r.1.levels > 1 ==> r.1.peak_scratch_bytes >= 8 * r.1.rows,
{
    b.lemma_room();
    b.state().lemma_peak();
    let source = 4 * b.state().row_count();
    lemma_peak_first(source, b.state().level_count(), b.state().done(), b.state().level_index());
}

/// A finished compressed build has held its source and, where it has more than one level,
/// as much again in buckets at one time.
pub proof fn compressed_peak(b: DirectHqwtBuild, r: (Vec<u8>, DirectQwtBuildStats))
    requires
        b.wf(),
        b.state().level_index() == b.state().level_count(),
        b.state().level_count() > 0,
        call_ensures(DirectHqwtBuild::finish, (&b,), r),
    ensures
        r.1.peak_scratch_bytes >= 4 * r.1.rows,
        r.1.levels > 1 ==> r.1.peak_scratch_bytes >= 8 * r.1.rows,
{
    b.lemma_room();
    b.state().lemma_peak();
    let source = 4 * b.state().row_count();
    lemma_peak_first(source, b.state().level_count(), b.state().done(), b.state().level_index());
}

proof fn lemma_peak_first(source: int, levels: int, rows: Seq<Seq<u8>>, l: int)
    requires
        0 < l <= levels,
    ensures
        scratch_peak(source, levels, rows, l) >= level_scratch(source, levels, rows, 0),
        level_scratch(source, levels, rows, 0) >= source + if levels > 1 {
            source
        } else {
            0
        },
    decreases l,
{
    if l > 1 {
        lemma_peak_first(source, levels, rows, l - 1);
    }
}

/// As often as a number was pushed, so often it is counted; a number outside of the
/// alphabet is refused.
pub proof fn counting(
    c: &mut SymbolCounts,
    symbol: u32,
    r: Result<(), DirectQwtBuildError>,
)
    requires
        call_ensures(SymbolCounts::push, (c, symbol), r),
        old(c).symbols().len() < usize::MAX,
    ensures
        r is Ok <==> symbol < old(c).size(),
        r is Ok ==> final(c).symbols() == old(c).symbols().push(symbol),
        r is Err ==> final(c).symbols() == old(c).symbols(),
        r matches Err(e) ==> e is InvalidInput,
{
}

/// Counts are given exactly where the source has ended and has used its alphabet:
/// for each symbol, how often it was pushed.
pub proof fn counted(c: SymbolCounts, trailing: bool, r: Result<Vec<usize>, DirectQwtBuildError>)
    requires
        call_ensures(SymbolCounts::finish, (c, trailing), r),
        c.symbols().len() <= usize::MAX,
        0 <= c.size() <= u32::MAX,
    ensures
        r is Ok <==> !trailing && forall|s: u32|
            s < c.size() ==> #[trigger] c.symbols().contains(s),
        r matches Ok(f) ==> f.len() == c.size() && forall|s: u32|
            s < c.size() ==> f[s as int] == #[trigger] times_before(
                c.symbols(),
                s,
                c.symbols().len() as int,
            ),
{
    if let Ok(f) = r {
        assert forall|s: u32| s < c.size() implies f[s as int] == #[trigger] times_before(
            c.symbols(),
            s,
            c.symbols().len() as int,
        ) by {
            let n = c.symbols().len() as int;
            lemma_times_before(c.symbols(), s, n);
            super::codes::lemma_value_times(c.symbols(), s, n);
            crate::tree::lemma_occurrences_bounds(c.symbols(), s, n);
        }
    }
}

/// A compressed build is planned for every alphabet whose codes of minimum redundancy
/// have at most sixteen digits, where the budget covers the scratch space of sixteen
/// levels.
pub proof fn compressed_plan(
    rows: u64,
    frequencies: Vec<usize>,
    budget: DirectQwtBuildBudget,
    r: Result<DirectHqwtPlan, DirectQwtBuildError>,
)
    requires
        call_ensures(plan_hqwt256_u32_direct, (rows, &frequencies, budget), r),
        rows <= 0xff_ffff_ff00,
        frequencies.len() <= u16::MAX,
        9 * rows + 1_000 <= budget.scratch_bytes,
    ensures
        (forall|lens: Seq<u32>, s: int| #[trigger]
            minimum_redundancy(frequencies@, lens, 2) && 0 <= s < lens.len() ==> (
            #[trigger] lens[s]) <= 16) ==> r is Ok,
        (forall|s: int, t: int|
            0 <= s < frequencies.len() && 0 <= t < frequencies.len() ==> #[trigger] frequencies@[s]
                == #[trigger] frequencies@[t]) ==> r is Ok,
        r matches Err(e) ==> e is InvalidInput,
{
    let freqs = frequencies@;
    lemma_used(freqs);
    if long_needed(freqs, 2) {
        let lens = choose|lens: Seq<u32>| #[trigger]
            minimum_redundancy(freqs, lens, 2) && exists|s: int|
                0 <= s < lens.len() && #[trigger] lens[s] * 2u32 > 32;
        let s = choose|s: int| 0 <= s < lens.len() && #[trigger] lens[s] * 2u32 > 32;
        assert(lens[s] > 16);
    }
    if forall|s: int, t: int|
        0 <= s < freqs.len() && 0 <= t < freqs.len() ==> #[trigger] freqs[s] == #[trigger] freqs[t] {
        lemma_no_long(freqs, 2);
    }
}

/// A plan keeps to its budget: the scratch space that it needs, which is that of its
/// levels, is granted.
pub proof fn compressed_plan_budget(
    rows: u64,
    frequencies: Vec<usize>,
    budget: DirectQwtBuildBudget,
    plan: DirectHqwtPlan,
    source_detail: &'static str,
    total_detail: &'static str,
    scratch: Result<u64, DirectQwtBuildError>,
)
    requires
        call_ensures(plan_hqwt256_u32_direct, (rows, &frequencies, budget), Ok(plan)),
        call_ensures(
            scratch_upper_bound,
            (rows, plan.levels, source_detail, total_detail),
            scratch,
        ),
        rows <= 0xff_ffff_ff00,
    ensures
        plan.rows == rows,
        plan.codes.len() == frequencies.len(),
        scratch == Ok::<u64, DirectQwtBuildError>(plan.scratch_required),
        plan.scratch_required <= budget.scratch_bytes,
        forall|s: int|
            0 <= s < plan.codes.len() ==> (#[trigger] plan.codes[s]).len <= 2 * plan.levels,
{
    lemma_code_levels(plan.codes@);
    lemma_longest(plan.codes@, plan.codes.len() as int);
}

/// A symbol is handed to a bucket exactly where another level follows.
pub proof fn plain_bucket(
    b: &mut DirectQwtBuild,
    symbol: u32,
    group: Option<u8>,
    p: &DirectPasses,
    more: bool,
)
    requires
        call_ensures(DirectQwtBuild::push, (b, symbol), Ok(group)),
        call_ensures(DirectQwtBuild::passes, (&*old(b),), p),
        call_ensures(DirectPasses::needs_partition, (p,), more),
    ensures
        group is Some <==> more,
{
}

/// A symbol of a compressed build is handed to a bucket exactly where another level
/// follows.
pub proof fn compressed_bucket(
    b: &mut DirectHqwtBuild,
    symbol: u32,
    group: Option<u8>,
    p: &DirectPasses,
    more: bool,
)
    requires
        call_ensures(DirectHqwtBuild::push, (b, symbol), Ok(group)),
        call_ensures(DirectHqwtBuild::passes, (&*old(b),), p),
        call_ensures(DirectPasses::needs_partition, (p,), more),
    ensures
        group is Some <==> more,
{
}

} // verus!
