//! Bit tricks and stable partitions.

use vstd::arithmetic::power2::{lemma2_to64, lemma_pow2_strictly_increases, pow2};
use vstd::prelude::*;

use crate::codes::PrefixCode;
use crate::digits::radix_of;
use crate::indexable::WTIndexable;
use crate::kernel::{bit, ones, rank_in_word};
use crate::wavelet::{
    below, child, count, lemma_below_all, lemma_below_bounds, lemma_below_step, lemma_below_zero,
    lemma_count_bounds, lemma_step_bounds, lemma_step_onto, lemma_step_order, step,
};

verus! {

/// The number of bits that `v` needs, less one: the position of its most
/// significant one. Zero for zero.
pub open spec fn msb_of(v: u64) -> int
    decreases v,
{
    if v <= 1 {
        0
    } else {
        1 + msb_of((v / 2) as u64)
    }
}

pub proof fn lemma_msb_bounds(v: u64)
    ensures
        0 <= msb_of(v) < 64,
        v < pow2((msb_of(v) + 1) as nat),
        v > 0 ==> pow2(msb_of(v) as nat) <= v,
    decreases v,
{
    lemma2_to64();
    if v > 1 {
        lemma_msb_bounds((v / 2) as u64);
        let m = msb_of((v / 2) as u64);
        vstd::arithmetic::power2::lemma_pow2_unfold((m + 1) as nat);
        vstd::arithmetic::power2::lemma_pow2_unfold((m + 2) as nat);
        if m + 1 >= 64 {
            assert(v < pow2(64));
            if m + 1 > 64 {
                lemma_pow2_strictly_increases(64, (m + 1) as nat);
            }
        }
    }
}

/// A larger number has its most significant one no lower.
pub proof fn lemma_msb_mono(v: u64, w: u64)
    requires
        v <= w,
    ensures
        msb_of(v) <= msb_of(w),
    decreases w,
{
    if v > 1 {
        lemma_msb_mono((v / 2) as u64, (w / 2) as u64);
    } else {
        lemma_msb_bounds(w);
    }
}

/// The position of the most significant one of `v`, zero for zero.
pub fn msb(v: u64) -> (m: u32)
    ensures
        m == msb_of(v),
        m < 64,
{
    let mut rest: u64 = v;
    let mut m: u32 = 0;
    proof {
        lemma_msb_bounds(v);
    }
    while rest > 1
        invariant
            m + msb_of(rest) == msb_of(v),
            msb_of(v) < 64,
            m <= 64,
        decreases rest,
    {
        proof {
            lemma_msb_bounds((rest / 2) as u64);
        }
        rest = rest / 2;
        m = m + 1;
    }
    m
}

/// The position of one number `k` of `word`, counting from zero, or 64 where
/// the word has no more than `k` ones.
pub fn select_in_word(word: u64, k: u64) -> (p: u32)
    ensures
        p <= 64,
        p < 64 ==> bit(word, p as int) && ones(word, p as int) == k,
        p == 64 ==> ones(word, 64) <= k,
{
    let mut lo: u32 = 0;
    let mut hi: u32 = 65;
    while hi - lo > 1
        invariant
            lo < hi <= 65,
            ones(word, lo as int) <= k,
            hi <= 64 ==> ones(word, hi as int) > k,
        decreases hi - lo,
    {
        let mid: u32 = lo + (hi - lo) / 2;
        if rank_in_word(word, mid) as u64 <= k {
            lo = mid;
        } else {
            hi = mid;
        }
    }
    lo
}

/// The digit of `v` that is left after dropping its low `shift` bits.
pub open spec fn group_of(v: u64, shift: int, radix: int) -> u8 {
    ((v as int / pow2(shift as nat) as int) % radix) as u8
}

/// The digit of a code that ends `shift` bits after its start, or `radix` where
/// the code does not go on behind it.
pub open spec fn code_group(code: PrefixCode, shift: int, radix: int) -> u8 {
    if code.len <= shift {
        radix as u8
    } else {
        group_of(code.content as u64, code.len - shift, radix)
    }
}

pub open spec fn groups<T: WTIndexable>(s: Seq<T>, shift: int, radix: int) -> Seq<u8> {
    Seq::new(s.len(), |p: int| group_of(s[p].val(), shift, radix))
}

pub open spec fn code_groups<T: WTIndexable>(
    s: Seq<T>,
    shift: int,
    codes: Seq<PrefixCode>,
    radix: int,
) -> Seq<u8> {
    Seq::new(s.len(), |p: int| code_group(codes[s[p].val() as int], shift, radix))
}

/// Every symbol of `s` has a place in the table.
pub open spec fn in_table<T: WTIndexable>(s: Seq<T>, codes: Seq<PrefixCode>) -> bool {
    forall|p: int| 0 <= p < s.len() ==> (#[trigger] s[p]).val() < codes.len()
}

/// The stable partition of `s` by group: the element at `p` goes behind all
/// elements of smaller groups and behind the earlier ones of its own.
pub open spec fn partitioned<A>(s: Seq<A>, g: Seq<u8>) -> Seq<A> {
    Seq::new(s.len(), |j: int| s[choose|p: int| 0 <= p < s.len() && #[trigger] step(g, p) == j])
}

/// The element at `p` goes to position `step(g, p)` of the partition.
pub proof fn lemma_partitioned<A>(s: Seq<A>, g: Seq<u8>, p: int)
    requires
        g.len() == s.len(),
        0 <= p < s.len(),
    ensures
        0 <= step(g, p) < s.len(),
        partitioned(s, g)[step(g, p)] == s[p],
{
    let j = step(g, p);
    lemma_step_bounds(g, p);
    assert(0 <= p < s.len() && step(g, p) == j);
    let q = choose|q: int| 0 <= q < s.len() && #[trigger] step(g, q) == j;
    lemma_step_order(g, p, q);
}

/// Every position of the partition is taken by one element.
pub proof fn lemma_partitioned_onto<A>(s: Seq<A>, g: Seq<u8>, radix: u8, j: int) -> (p: int)
    requires
        g.len() == s.len(),
        0 <= j < s.len(),
        forall|q: int| 0 <= q < g.len() ==> (#[trigger] g[q]) < radix,
    ensures
        0 <= p < s.len(),
        step(g, p) == j,
        partitioned(s, g)[j] == s[p],
{
    lemma_below_all(g, radix as int, g.len() as int);
    let p = lemma_step_onto(g, j, radix);
    lemma_partitioned(s, g, p);
    p
}

pub proof fn lemma_partitioned_eq<A>(s: Seq<A>, g: Seq<u8>, radix: u8, out: Seq<A>)
    requires
        g.len() == s.len(),
        out.len() == s.len(),
        forall|q: int| 0 <= q < g.len() ==> (#[trigger] g[q]) < radix,
        forall|p: int| 0 <= p < s.len() ==> out[#[trigger] step(g, p)] == s[p],
    ensures
        out == partitioned(s, g),
{
    let want = partitioned(s, g);
    assert forall|j: int| 0 <= j < s.len() implies out[j] == want[j] by {
        let p = lemma_partitioned_onto(s, g, radix, j);
        assert(out[step(g, p)] == s[p]);
    }
    assert(out =~= want);
}

/// Writes each element of `input` to its place in the partition. `starts`
/// tells where each group begins.
fn scatter<T: Copy>(input: &[T], groups: &Vec<u8>, starts: Vec<usize>, output: &mut [T])
    requires
        groups.len() == input@.len(),
        old(output)@.len() == input@.len(),
        starts.len() <= 255,
        forall|q: int| 0 <= q < groups.len() ==> (#[trigger] groups[q]) < starts.len(),
        forall|d: int|
            0 <= d < starts.len() ==> #[trigger] starts[d] == below(
                groups@,
                d,
                groups.len() as int,
            ),
    ensures
        final(output)@ == partitioned(input@, groups@),
{
    let mut next: Vec<usize> = starts;
    let n: usize = input.len();
    let ghost g = groups@;
    let mut i: usize = 0;
    while i < n
        invariant
            n == input@.len(),
            g == groups@,
            g.len() == n,
            i <= n,
            output@.len() == n,
            next.len() <= 255,
            forall|q: int| 0 <= q < g.len() ==> (#[trigger] g[q]) < next.len(),
            forall|d: int|
                0 <= d < next.len() ==> #[trigger] next[d] == child(g, d as u8, i as int),
            forall|p: int| 0 <= p < i ==> output@[#[trigger] step(g, p)] == input@[p],
        decreases n - i,
    {
        let d: usize = groups[i] as usize;
        let at: usize = next[d];
        proof {
            lemma_step_bounds(g, i as int);
            assert(at == step(g, i as int));
        }
        let ghost before = output@;
        output[at] = input[i];
        next[d] = at + 1;
        assert forall|p: int| 0 <= p < i + 1 implies output@[#[trigger] step(g, p)]
            == input@[p] by {
            lemma_step_bounds(g, p);
            lemma_step_order(g, p, i as int);
        }
        i = i + 1;
    }
    proof {
        lemma_partitioned_eq(input@, g, next.len() as u8, output@);
    }
}

/// Where each of `radix` groups begins.
fn group_starts(groups: &Vec<u8>, radix: usize) -> (starts: Vec<usize>)
    requires
        radix <= 255,
        forall|q: int| 0 <= q < groups.len() ==> (#[trigger] groups[q]) < radix,
    ensures
        starts.len() == radix,
        forall|d: int|
            0 <= d < radix ==> #[trigger] starts[d] == below(groups@, d, groups.len() as int),
{
    let ghost g = groups@;
    let n: usize = groups.len();
    let mut counts: Vec<usize> = vec![0usize; radix];
    let mut i: usize = 0;
    while i < n
        invariant
            g == groups@,
            n == g.len(),
            i <= n,
            radix <= 255,
            counts.len() == radix,
            forall|q: int| 0 <= q < groups.len() ==> (#[trigger] groups[q]) < radix,
            forall|d: int| 0 <= d < radix ==> #[trigger] counts[d] == count(g, d as u8, i as int),
        decreases n - i,
    {
        let d: usize = groups[i] as usize;
        proof {
            lemma_count_bounds(g, d as u8, i as int);
        }
        counts[d] = counts[d] + 1;
        i = i + 1;
    }
    starts_of(groups, &counts)
}

/// Where each group begins, given how many elements each group has.
fn starts_of(groups: &Vec<u8>, counts: &Vec<usize>) -> (starts: Vec<usize>)
    requires
        counts.len() <= 255,
        forall|d: int|
            0 <= d < counts.len() ==> #[trigger] counts[d] == count(
                groups@,
                d as u8,
                groups.len() as int,
            ),
    ensures
        starts.len() == counts.len(),
        forall|d: int|
            0 <= d < starts.len() ==> #[trigger] starts[d] == below(
                groups@,
                d,
                groups.len() as int,
            ),
{
    let ghost g = groups@;
    let ghost n = groups.len() as int;
    let mut starts: Vec<usize> = Vec::new();
    let mut sum: usize = 0;
    let mut d: usize = 0;
    proof {
        lemma_below_zero(g, n);
    }
    while d < counts.len()
        invariant
            g == groups@,
            n == groups.len(),
            d <= counts.len() <= 255,
            forall|e: int| 0 <= e < counts.len() ==> #[trigger] counts[e] == count(g, e as u8, n),
            starts.len() == d,
            sum == below(g, d as int, n),
            forall|e: int| 0 <= e < d ==> #[trigger] starts[e] == below(g, e, n),
        decreases counts.len() - d,
    {
        starts.push(sum);
        proof {
            lemma_below_step(g, d as u8, n);
            lemma_below_bounds(g, d as int + 1, n);
        }
        sum = sum + counts[d];
        d = d + 1;
    }
    starts
}

fn partition_by<T: Copy>(sequence: &mut [T], groups: &Vec<u8>, radix: usize)
    requires
        groups.len() == old(sequence)@.len(),
        radix <= 255,
        forall|q: int| 0 <= q < groups.len() ==> (#[trigger] groups[q]) < radix,
    ensures
        final(sequence)@ == partitioned(old(sequence)@, groups@),
{
    let input: Vec<T> = vstd::slice::slice_to_vec(sequence);
    let starts: Vec<usize> = group_starts(groups, radix);
    scatter(input.as_slice(), groups, starts, sequence);
}

/// The digit of `v` that is left after dropping its low `shift` bits.
pub fn shift_digit(v: u64, shift: usize, bits: u32) -> (d: u8)
    requires
        bits == 1 || bits == 2,
    ensures
        d == group_of(v, shift as int, radix_of(bits)),
        d < radix_of(bits),
{
    if shift >= 64 {
        proof {
            lemma2_to64();
            if shift > 64 {
                lemma_pow2_strictly_increases(64, shift as nat);
            }
            assert((v as int) / (pow2(shift as nat) as int) == 0) by (nonlinear_arith)
                requires
                    0 <= v < pow2(shift as nat),
            ;
        }
        0
    } else {
        let s: u64 = shift as u64;
        let shifted: u64 = v >> s;
        proof {
            vstd::bits::lemma_u64_shr_is_div(v, s);
            assert(shifted & 1 == shifted % 2 && shifted & 3 == shifted % 4) by (bit_vector);
        }
        if bits == 1 {
            (shifted & 1) as u8
        } else {
            (shifted & 3) as u8
        }
    }
}

fn symbol_groups<T: WTIndexable>(sequence: &[T], shift: usize, bits: u32) -> (g: Vec<u8>)
    requires
        bits == 1 || bits == 2,
    ensures
        g@ == groups(sequence@, shift as int, radix_of(bits)),
        forall|q: int| 0 <= q < g.len() ==> (#[trigger] g[q]) < radix_of(bits),
{
    let mut g: Vec<u8> = Vec::with_capacity(sequence.len());
    let mut i: usize = 0;
    while i < sequence.len()
        invariant
            i <= sequence@.len(),
            bits == 1 || bits == 2,
            g.len() == i,
            forall|q: int|
                0 <= q < i ==> #[trigger] g[q] == group_of(
                    sequence@[q].val(),
                    shift as int,
                    radix_of(bits),
                ),
            forall|q: int| 0 <= q < g.len() ==> (#[trigger] g[q]) < radix_of(bits),
        decreases sequence@.len() - i,
    {
        g.push(shift_digit(sequence[i].to_u64(), shift, bits));
        i = i + 1;
    }
    assert(g@ =~= groups(sequence@, shift as int, radix_of(bits)));
    g
}

fn symbol_code_groups<T: WTIndexable>(
    sequence: &[T],
    shift: usize,
    codes: &Vec<PrefixCode>,
    bits: u32,
) -> (g: Vec<u8>)
    requires
        bits == 1 || bits == 2,
        in_table(sequence@, codes@),
    ensures
        g@ == code_groups(sequence@, shift as int, codes@, radix_of(bits)),
        forall|q: int| 0 <= q < g.len() ==> (#[trigger] g[q]) <= radix_of(bits),
{
    let mut g: Vec<u8> = Vec::with_capacity(sequence.len());
    let done: u8 = if bits == 1 {
        2
    } else {
        4
    };
    let mut i: usize = 0;
    while i < sequence.len()
        invariant
            i <= sequence@.len(),
            bits == 1 || bits == 2,
            done == radix_of(bits),
            in_table(sequence@, codes@),
            g.len() == i,
            forall|q: int|
                0 <= q < i ==> #[trigger] g[q] == code_group(
                    codes@[sequence@[q].val() as int],
                    shift as int,
                    radix_of(bits),
                ),
            forall|q: int| 0 <= q < g.len() ==> (#[trigger] g[q]) <= radix_of(bits),
        decreases sequence@.len() - i,
    {
        assert(sequence@[i as int].val() < codes.len());
        let code: PrefixCode = codes[sequence[i].to_u64() as usize];
        if code.len as usize <= shift {
            g.push(done);
        } else {
            g.push(shift_digit(code.content as u64, code.len as usize - shift, bits));
        }
        i = i + 1;
    }
    assert(g@ =~= code_groups(sequence@, shift as int, codes@, radix_of(bits)));
    g
}

/// Stably partitions `sequence` by bit `shift` of its symbols.
pub fn stable_partition_of_2<T: WTIndexable>(sequence: &mut [T], shift: usize)
    ensures
        final(sequence)@ == partitioned(
            old(sequence)@,
            groups(old(sequence)@, shift as int, 2),
        ),
{
    let g: Vec<u8> = symbol_groups(sequence, shift, 1);
    partition_by(sequence, &g, 2);
}

/// Stably partitions `sequence` by the two bits of its symbols at `shift`.
pub fn stable_partition_of_4<T: WTIndexable>(sequence: &mut [T], shift: usize)
    ensures
        final(sequence)@ == partitioned(
            old(sequence)@,
            groups(old(sequence)@, shift as int, 4),
        ),
{
    let g: Vec<u8> = symbol_groups(sequence, shift, 2);
    partition_by(sequence, &g, 4);
}

/// Like [`stable_partition_of_4`], from `input` to `output`. `counts` holds how
/// many symbols each group has.
pub fn stable_partition_of_4_into<T: WTIndexable>(
    input: &[T],
    shift: usize,
    counts: [usize; 4],
    output: &mut [T],
)
    requires
        old(output)@.len() == input@.len(),
        forall|d: int|
            0 <= d < 4 ==> #[trigger] counts@[d] == count(
                groups(input@, shift as int, 4),
                d as u8,
                input@.len() as int,
            ),
    ensures
        final(output)@ == partitioned(input@, groups(input@, shift as int, 4)),
{
    let g: Vec<u8> = symbol_groups(input, shift, 2);
    let mut sizes: Vec<usize> = Vec::new();
    sizes.push(counts[0]);
    sizes.push(counts[1]);
    sizes.push(counts[2]);
    sizes.push(counts[3]);
    let starts: Vec<usize> = starts_of(&g, &sizes);
    scatter(input, &g, starts, output);
}

/// Stably partitions `sequence` by the bit of the codes of its symbols that
/// ends `shift` bits after their start; finished codes come last.
pub fn stable_partition_of_2_with_codes<T: WTIndexable>(
    sequence: &mut [T],
    shift: usize,
    codes: &Vec<PrefixCode>,
)
    requires
        in_table(old(sequence)@, codes@),
    ensures
        final(sequence)@ == partitioned(
            old(sequence)@,
            code_groups(old(sequence)@, shift as int, codes@, 2),
        ),
{
    let g: Vec<u8> = symbol_code_groups(sequence, shift, codes, 1);
    partition_by(sequence, &g, 3);
}

/// Stably partitions `sequence` by the two bits of the codes of its symbols
/// that end `shift` bits after their start; finished codes come last.
pub fn stable_partition_of_4_with_codes<T: WTIndexable>(
    sequence: &mut [T],
    shift: usize,
    codes: &Vec<PrefixCode>,
)
    requires
        in_table(old(sequence)@, codes@),
    ensures
        final(sequence)@ == partitioned(
            old(sequence)@,
            code_groups(old(sequence)@, shift as int, codes@, 4),
        ),
{
    let g: Vec<u8> = symbol_code_groups(sequence, shift, codes, 2);
    partition_by(sequence, &g, 5);
}

/// Like [`stable_partition_of_4_with_codes`], from `input` to `output`.
/// `counts` holds how many symbols each of the four groups has, and how many
/// are finished.
pub fn stable_partition_of_4_with_codes_into<T: WTIndexable>(
    input: &[T],
    shift: usize,
    codes: &Vec<PrefixCode>,
    counts: [usize; 5],
    output: &mut [T],
)
    requires
        in_table(input@, codes@),
        old(output)@.len() == input@.len(),
        forall|d: int|
            0 <= d < 5 ==> #[trigger] counts@[d] == count(
                code_groups(input@, shift as int, codes@, 4),
                d as u8,
                input@.len() as int,
            ),
    ensures
        final(output)@ == partitioned(
            input@,
            code_groups(input@, shift as int, codes@, 4),
        ),
{
    let g: Vec<u8> = symbol_code_groups(input, shift, codes, 2);
    let mut sizes: Vec<usize> = Vec::new();
    sizes.push(counts[0]);
    sizes.push(counts[1]);
    sizes.push(counts[2]);
    sizes.push(counts[3]);
    sizes.push(counts[4]);
    let starts: Vec<usize> = starts_of(&g, &sizes);
    scatter(input, &g, starts, output);
}

} // verus!
