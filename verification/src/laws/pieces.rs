//! Laws of the steps by which trees and containers are put together.

use vstd::arithmetic::power2::pow2;
use vstd::prelude::*;

use crate::bitvector::{BitVector, BitVectorMut};
use crate::bytes::dir::{dir_bytes, lemma_dir_bytes, HqwtLevelDir, LevelDir};
use crate::bytes::encoder::LevelSummary;
use crate::bytes::error::{DirectQwtBuildError, LayoutError};
use crate::bytes::le::{get_u16, get_u64, read_u16, read_u64};
use crate::bytes::level::RSQVectorView;
use crate::bytes::payload::{place_level, summary_dir};
use crate::bytes::qwtb::lemma_dir_len;
use crate::bytes::lemma_aligned;
use crate::codes::{code_digits, coded, craft_wm_codes, lemma_code_digits, table_ok, PrefixCode};
use crate::indexable::WTIndexable;
use crate::matrix::rev_lt;
use crate::order::{by_frequency, lemma_by_frequency, sort_by_frequency};
use crate::qvector::RSQVector;
use crate::utils::{
    groups, lemma_partitioned, partitioned, stable_partition_of_2, stable_partition_of_4,
    stable_partition_of_4_into,
};
use crate::wavelet::{lemma_step_order, step};

verus! {

/// The digit of a number at `shift` bits from its end.
pub open spec fn digit_of<T: WTIndexable>(t: T, shift: int, radix: int) -> int {
    (t.val() as int / pow2(shift as nat) as int) % radix
}

/// The elements moved to `place`: smaller digits come first, and elements with the
/// same digit keep their order.
pub open spec fn moved<T: WTIndexable>(
    s: Seq<T>,
    out: Seq<T>,
    shift: int,
    radix: int,
    place: Seq<int>,
) -> bool {
    &&& out.len() == s.len()
    &&& place.len() == s.len()
    &&& forall|p: int|
        0 <= p < s.len() ==> 0 <= (#[trigger] place[p]) < s.len() && out[place[p]] == s[p]
    &&& forall|p: int, q: int|
        0 <= p < s.len() && 0 <= q < s.len() ==> ((#[trigger] place[p]) < (#[trigger] place[q])
            <==> digit_of(s[p], shift, radix) < digit_of(s[q], shift, radix) || (digit_of(
            s[p],
            shift,
            radix,
        ) == digit_of(s[q], shift, radix) && p < q))
}

proof fn lemma_moved<T: WTIndexable>(s: Seq<T>, shift: int, radix: int) -> (place: Seq<int>)
    requires
        radix == 2 || radix == 4,
        0 <= shift,
    ensures
        moved(s, partitioned(s, groups(s, shift, radix)), shift, radix, place),
{
    let g = groups(s, shift, radix);
    let place = Seq::new(s.len(), |p: int| step(g, p));
    assert forall|p: int| 0 <= p < s.len() implies 0 <= (#[trigger] place[p]) < s.len()
        && partitioned(s, g)[place[p]] == s[p] by {
        lemma_partitioned(s, g, p);
    }
    assert forall|p: int| 0 <= p < s.len() implies #[trigger] g[p] == digit_of(
        s[p],
        shift,
        radix,
    ) by {}
    assert forall|p: int, q: int| 0 <= p < s.len() && 0 <= q < s.len() implies ((
    #[trigger] place[p]) < (#[trigger] place[q]) <==> digit_of(s[p], shift, radix) < digit_of(
        s[q],
        shift,
        radix,
    ) || (digit_of(s[p], shift, radix) == digit_of(s[q], shift, radix) && p < q)) by {
        lemma_step_order(g, p, q);
        assert(g[p] == digit_of(s[p], shift, radix));
        assert(g[q] == digit_of(s[q], shift, radix));
    }
    place
}

/// A partition by one bit keeps every element and the order within each half.
pub proof fn parted_in_two<T: WTIndexable>(s: &mut [T], shift: usize, done: ())
    requires
        call_ensures(stable_partition_of_2::<T>, (s, shift), done),
    ensures
        exists|place: Seq<int>| #[trigger]
            moved(old(s)@, final(s)@, shift as int, 2, place),
{
    let place = lemma_moved(old(s)@, shift as int, 2);
    assert(moved(old(s)@, final(s)@, shift as int, 2, place));
}

/// A partition by two bits keeps every element and the order within each quarter.
pub proof fn parted_in_four<T: WTIndexable>(s: &mut [T], shift: usize, done: ())
    requires
        call_ensures(stable_partition_of_4::<T>, (s, shift), done),
    ensures
        exists|place: Seq<int>| #[trigger]
            moved(old(s)@, final(s)@, shift as int, 4, place),
{
    let place = lemma_moved(old(s)@, shift as int, 4);
    assert(moved(old(s)@, final(s)@, shift as int, 4, place));
}

/// A partition into another slice gives what the one in place gives.
pub proof fn parted_into<T: WTIndexable>(
    input: &[T],
    shift: usize,
    counts: [usize; 4],
    output: &mut [T],
    done: (),
)
    requires
        call_ensures(stable_partition_of_4_into::<T>, (input, shift, counts, output), done),
    ensures
        exists|place: Seq<int>| #[trigger]
            moved(input@, final(output)@, shift as int, 4, place),
{
    let place = lemma_moved(input@, shift as int, 4);
    assert(moved(input@, final(output)@, shift as int, 4, place));
}

/// Sorting by frequency keeps the symbols. Rarer ones come first, and of equally
/// frequent ones the smaller.
pub proof fn sorted_by_frequency(freqs: Vec<usize>, symbols: Vec<usize>, out: Vec<usize>)
    requires
        call_ensures(sort_by_frequency, (&freqs, &symbols), out),
    ensures
        out@.to_multiset() == symbols@.to_multiset(),
        forall|i: int, j: int|
            0 <= i < j < out.len() ==> {
                let (a, b) = (#[trigger] out[i], #[trigger] out[j]);
                &&& freqs[a as int] <= freqs[b as int]
                &&& freqs[a as int] == freqs[b as int] ==> a <= b
            },
{
    let leq = by_frequency(freqs@);
    lemma_by_frequency(freqs@);
    symbols@.lemma_sort_by_ensures(leq);
    assert forall|i: int, j: int| 0 <= i < j < out.len() implies {
        let (a, b) = (#[trigger] out[i], #[trigger] out[j]);
        &&& freqs[a as int] <= freqs[b as int]
        &&& freqs[a as int] == freqs[b as int] ==> a <= b
    } by {
        assert(leq(out@[i], out@[j]));
    }
}

proof fn lemma_not_before_itself(a: Seq<u8>, b: Seq<u8>, l: int)
    requires
        forall|i: int| 0 <= i < l ==> a[i] == b[i],
    ensures
        !rev_lt(a, b, l),
    decreases l,
{
    if l > 0 {
        lemma_not_before_itself(a, b, l - 1);
    }
}

/// Codes that are handed out have the lengths that were asked for, and none begins
/// another.
pub proof fn codes_apart(lens: Vec<u32>, bits: u32, codes: Vec<PrefixCode>, s: int, t: int)
    requires
        bits == 1 || bits == 2,
        call_ensures(craft_wm_codes, (&lens, bits), Some(codes)),
        0 <= s < lens.len(),
        0 <= t < lens.len(),
        s != t,
        lens[s] > 0,
        lens[t] > 0,
    ensures
        codes.len() == lens.len(),
        codes[s].len == lens[s] * bits,
        codes[s].len <= 32,
        codes[s].content < pow2(codes[s].len as nat),
        !code_digits(codes[s], bits).is_prefix_of(code_digits(codes[t], bits)),
{
    assert forall|k: int| 0 <= k < lens.len() implies (#[trigger] lens[k]) <= 32 by {
        assert(lens[k] * bits <= 32);
        let x = lens[k];
        assert(x <= 32) by (nonlinear_arith)
            requires
                x * bits <= 32,
                bits >= 1,
        ;
    }
    assert(table_ok(codes@, 32, bits));
    assert(codes[s].len > 0 && codes[t].len > 0) by (nonlinear_arith)
        requires
            codes[s].len == lens[s] * bits,
            codes[t].len == lens[t] * bits,
            lens[s] > 0,
            lens[t] > 0,
            bits >= 1,
    ;
    assert(coded(codes@, s) && coded(codes@, t));
    lemma_code_digits(codes@, 32, bits, s);
    lemma_code_digits(codes@, 32, bits, t);
    let (a, b) = (code_digits(codes[s], bits), code_digits(codes[t], bits));
    if a.is_prefix_of(b) {
        assert(a =~= b.subrange(0, a.len() as int));
        assert forall|i: int| 0 <= i < a.len() implies b[i] == a[i] by {
            assert(b.subrange(0, a.len() as int)[i] == b[i]);
        }
        let (x, y) = (codes[s].len as int, codes[t].len as int);
        if x < y {
            lemma_not_before_itself(b, a, a.len() as int);
        } else if x > y {
            assert(x / bits as int > y / bits as int) by (nonlinear_arith)
                requires
                    x == lens[s] * bits,
                    y == lens[t] * bits,
                    x > y,
                    bits >= 1,
            ;
        } else {
            assert(a =~= b);
            assert(codes[s].content == codes[t].content);
        }
    }
}

/// A directory entry that is written is read back.
pub proof fn entry_read_back(
    d: LevelDir,
    out: &mut Vec<u8>,
    done: (),
    buf: &[u8],
    r: Result<LevelDir, LayoutError>,
)
    requires
        old(out)@.len() == 0,
        call_ensures(LevelDir::write, (&d, out), done),
        final(out)@.is_prefix_of(buf@),
        call_ensures(LevelDir::read, (buf,), r),
    ensures
        final(out)@.len() == 128,
        r matches Ok(e) ==> e@ == d@,
        r is Ok,
{
    assert(final(out)@ =~= dir_bytes(d@));
    lemma_dir_len(d@);
    assert(buf@.subrange(0, 128) =~= dir_bytes(d@));
    lemma_dir_bytes(d@, buf@, 0);
}

/// Bytes too short for a directory entry are refused.
pub proof fn entry_refused(
    buf: &[u8],
    r: Result<LevelDir, LayoutError>,
    h: Result<HqwtLevelDir, LayoutError>,
)
    requires
        call_ensures(LevelDir::read, (buf,), r),
        call_ensures(HqwtLevelDir::read, (buf,), h),
    ensures
        r is Ok <==> buf@.len() >= 128,
        h is Ok <==> buf@.len() >= 136,
        h is Ok && r is Ok ==> (h->Ok_0).plain@ == (r->Ok_0)@,
{
}

/// A level is placed at the first multiple of 64 behind the cursor, its sections one
/// behind the other, and the cursor moves behind the last.
pub proof fn level_placed(
    cursor: u64,
    summary: LevelSummary,
    r: Result<(LevelDir, u64), DirectQwtBuildError>,
)
    requires
        call_ensures(place_level, (cursor, &summary), r),
    ensures
        cursor <= 0x7fff_0000_0000_0000 ==> r is Ok,
        r matches Ok((dir, end)) ==> {
            &&& cursor <= dir.off_data < cursor + 64
            &&& dir.off_data % 64 == 0
            &&& dir.off_superblocks == dir.off_data + 64 * dir.n_datalines
            &&& dir.off_sel@[0] == dir.off_superblocks + 64 * dir.n_superblocks
            &&& dir.off_sel@[1] == dir.off_sel@[0] + 4 * dir.n_sel@[0]
            &&& dir.off_sel@[2] == dir.off_sel@[1] + 4 * dir.n_sel@[1]
            &&& dir.off_sel@[3] == dir.off_sel@[2] + 4 * dir.n_sel@[2]
            &&& end == dir.off_sel@[3] + 4 * dir.n_sel@[3]
            &&& dir.n_datalines == summary.n_datalines
            &&& dir.n_superblocks == summary.n_superblocks
            &&& dir.position_bits == summary.position_bits
        },
{
    lemma_aligned(cursor as int, 64);
    if let Ok((dir, end)) = r {
        let d = dir@;
        let e = summary_dir(summary, crate::bytes::aligned(cursor as int, 64));
        assert(d == e);
        assert forall|k: int| 0 <= k < 4 implies #[trigger] dir.off_sel@[k] == e.off_sel[k]
            && dir.n_sel@[k] == summary.n_sel@[k] by {
            assert(d.off_sel[k] == dir.off_sel@[k]);
            assert(d.n_sel[k] == dir.n_sel@[k]);
            assert(e.n_sel[k] == summary.n_sel@[k]);
        }
        assert(dir.off_sel@[0] == e.off_sel[0]);
        assert(dir.off_sel@[1] == e.off_sel[1]);
        assert(dir.off_sel@[2] == e.off_sel[2]);
        assert(dir.off_sel@[3] == e.off_sel[3]);
    }
}

/// A bit that is pushed is the last one, and the others stay.
pub proof fn bit_pushed(
    bv: &mut BitVectorMut,
    b: bool,
    done: (),
    before: BitVector,
    after: BitVector,
    n: usize,
    m: usize,
    i: usize,
    x: Option<bool>,
    y: Option<bool>,
)
    requires
        call_ensures(BitVectorMut::push, (bv, b), done),
        call_ensures(BitVector::from, (*old(bv),), before),
        call_ensures(BitVector::from, (*final(bv),), after),
        call_ensures(BitVector::len, (&before,), n),
        call_ensures(BitVector::len, (&after,), m),
        call_ensures(BitVector::get, (&before, i), x),
        call_ensures(BitVector::get, (&after, i), y),
    ensures
        m == n + 1,
        x is Some <==> i < n,
        i < n ==> y == x,
        i == n ==> y == Some(b),
        i > n ==> y is None,
{
}

/// A new vector of bits is empty.
pub proof fn no_bits(bv: BitVectorMut, v: BitVector, n: usize)
    requires
        call_ensures(BitVectorMut::new, (), bv),
        call_ensures(BitVector::from, (bv,), v),
        call_ensures(BitVector::len, (&v,), n),
    ensures
        n == 0,
{
}

/// A level gives back the digits it was made of.
pub proof fn digits_held<const B_SIZE: usize>(
    digits: &[u8],
    level: RSQVector<B_SIZE>,
    view: RSQVectorView<'_, B_SIZE>,
    n: usize,
    m: usize,
    p: usize,
    d: u8,
)
    requires
        call_ensures(RSQVector::<B_SIZE>::new, (digits,), level),
        call_ensures(RSQVector::<B_SIZE>::as_view, (&level,), view),
        call_ensures(RSQVector::<B_SIZE>::len, (&level,), n),
        call_ensures(RSQVectorView::<'_, B_SIZE>::len, (&view,), m),
        p < digits@.len(),
        call_ensures(RSQVectorView::<'_, B_SIZE>::get_unchecked, (&view, p), d),
    ensures
        n == digits@.len(),
        m == n,
        d == digits@[p as int],
{
}

/// Reading at a cursor gives what stands there, and moves the cursor behind it.
pub proof fn cursor_moved(
    bytes: &[u8],
    o: &mut usize,
    x: u16,
    y: u16,
)
    requires
        call_ensures(get_u16, (bytes, o), x),
        call_ensures(read_u16, (bytes, *old(o)), y),
    ensures
        x == y,
        *final(o) == *old(o) + 2,
{
}

/// So does reading eight bytes.
pub proof fn cursor_moved_far(
    bytes: &[u8],
    o: &mut usize,
    x: u64,
    y: u64,
)
    requires
        call_ensures(get_u64, (bytes, o), x),
        call_ensures(read_u64, (bytes, *old(o)), y),
    ensures
        x == y,
        *final(o) == *old(o) + 8,
{
}

} // verus!
