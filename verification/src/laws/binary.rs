//! Laws of the trees of bits.

use std::ops::Range;

use vstd::arithmetic::power2::pow2;
use vstd::prelude::*;

use super::{
    bounds_fit, gaps, lemma_largest, lemma_picked, lemma_tallies, lemma_times_before,
    lemma_times_contains, picked, tallies, times_before,
};
use crate::binwt::occs_range::{end_position, first_position, OccsRangeIter, PositionBound};
use crate::binwt::parts::is_max;
use crate::binwt::{BinRSforWT, WaveletTree, WaveletTreeParts};
use crate::bitvector::RSWide;
use crate::indexable::WTIndexable;
use crate::iter::WTIterator;
use crate::tree::{ascending, count_sum};
use crate::utils::lemma_msb_bounds;

verus! {

/// A plain tree gives back the symbols it was built from, and nothing behind them.
pub proof fn plain_get<T: WTIndexable, BRS: BinRSforWT>(
    v: Vec<T>,
    tree: WaveletTree<T, BRS, false>,
    i: usize,
    r: Option<T>,
)
    requires
        call_ensures(WaveletTree::<T, BRS, false>::from, (v,), tree),
        call_ensures(WaveletTree::<T, BRS, false>::get, (&tree, i), r),
    ensures
        r is Some <==> i < v.len(),
        r matches Some(t) ==> t == v[i as int],
{
}

/// Rank in a plain tree counts: it answers up to the end of the sequence, for
/// symbols that are not above all of it.
pub proof fn plain_rank<T: WTIndexable, BRS: BinRSforWT>(
    v: Vec<T>,
    tree: WaveletTree<T, BRS, false>,
    symbol: T,
    i: usize,
    r: Option<usize>,
)
    requires
        call_ensures(WaveletTree::<T, BRS, false>::from, (v,), tree),
        call_ensures(WaveletTree::<T, BRS, false>::rank, (&tree, symbol, i), r),
    ensures
        r is Some <==> i <= v.len() && exists|j: int|
            0 <= j < v.len() && symbol.val() <= (#[trigger] v[j]).val(),
        r matches Some(k) ==> k == times_before(v@, symbol, i as int),
{
    if i <= v.len() {
        lemma_times_before(v@, symbol, i as int);
    }
    if v.len() > 0 {
        let m = lemma_largest(v@);
        assert(is_max(v@, m));
    }
}

/// Select in a plain tree finds: the position it gives holds the symbol and has
/// `i` of them before it, and it gives none only where there are too few.
pub proof fn plain_select<T: WTIndexable, BRS: BinRSforWT>(
    v: Vec<T>,
    tree: WaveletTree<T, BRS, false>,
    symbol: T,
    i: usize,
    r: Option<usize>,
)
    requires
        call_ensures(WaveletTree::<T, BRS, false>::from, (v,), tree),
        call_ensures(WaveletTree::<T, BRS, false>::select, (&tree, symbol, i), r),
    ensures
        match r {
            Some(p) => p < v.len() && v[p as int] == symbol && times_before(v@, symbol, p as int)
                == i,
            None => times_before(v@, symbol, v.len() as int) <= i,
        },
{
    lemma_times_before(v@, symbol, v.len() as int);
    lemma_times_contains(v@, symbol);
    if let Some(p) = r {
        if p < v.len() {
            lemma_times_before(v@, symbol, p as int);
        }
    }
    if v.len() > 0 {
        let m = lemma_largest(v@);
        assert(is_max(v@, m));
    }
}

/// A plain tree is as long as the sequence, and unpacks and walks to it.
pub proof fn plain_symbols<T: WTIndexable, BRS: BinRSforWT>(
    v: Vec<T>,
    tree: WaveletTree<T, BRS, false>,
    n: usize,
    empty: bool,
    back: Vec<T>,
    it: WTIterator<'_, WaveletTree<T, BRS, false>>,
    walked: Vec<T>,
)
    requires
        call_ensures(WaveletTree::<T, BRS, false>::from, (v,), tree),
        call_ensures(WaveletTree::<T, BRS, false>::len, (&tree,), n),
        call_ensures(WaveletTree::<T, BRS, false>::is_empty, (&tree,), empty),
        call_ensures(WaveletTree::<T, BRS, false>::into_vec, (tree,), back),
        call_ensures(WaveletTree::<T, BRS, false>::iter, (&tree,), it),
        call_ensures(WTIterator::<'_, WaveletTree<T, BRS, false>>::collect, (it,), walked),
    ensures
        n == v.len(),
        empty <==> v.len() == 0,
        back@ == v@,
        walked@ == v@,
{
    if walked.len() < v.len() {
        assert(it.remaining()[walked.len() as int] == Some(v[walked.len() as int]));
    }
    assert forall|j: int| 0 <= j < walked.len() implies walked[j] == v[j] by {
        assert(it.remaining()[j] == Some(v[j]));
    }
    assert(walked@ =~= v@);
}

/// Listing between two bounds in a plain tree is refused exactly where the bounds
/// do not fit, and tallies the symbols whose positions satisfy both.
pub proof fn plain_occs_range_bounds<T: WTIndexable, BRS: BinRSforWT>(
    v: Vec<T>,
    tree: WaveletTree<T, BRS, false>,
    start: PositionBound,
    end: PositionBound,
    r: Option<OccsRangeIter<'_, T, BRS, false>>,
    out: Vec<(T, usize)>,
)
    requires
        call_ensures(WaveletTree::<T, BRS, false>::from, (v,), tree),
        call_ensures(WaveletTree::<T, BRS, false>::occs_range_bounds, (&tree, start, end), r),
        r matches Some(it) ==> call_ensures(
            OccsRangeIter::<'_, T, BRS, false>::collect,
            (it,),
            out,
        ),
    ensures
        r is Some <==> bounds_fit(start, end, v.len() as int),
        r is Some ==> tallies(picked(v@, start, end, v.len() as int), out@),
        r is Some ==> count_sum(out@) == picked(v@, start, end, v.len() as int).len(),
        r is Some ==> ascending(out@),
{
    let n = v.len() as int;
    let lo = first_position(start);
    let hi = end_position(end, n);
    if r is Some {
        assert(gaps(start, end, n, lo, hi));
        tree.lemma_occs_range(lo, hi, out@);
        lemma_tallies(v@, lo, hi, out@);
        lemma_picked(v@, start, end, lo, hi, n);
    }
}

/// Listing a range of a plain tree is refused exactly where the range does not lie
/// in the sequence, and tallies the symbols of the range.
pub proof fn plain_occs_range<T: WTIndexable, BRS: BinRSforWT>(
    v: Vec<T>,
    tree: WaveletTree<T, BRS, false>,
    range: Range<usize>,
    r: Option<OccsRangeIter<'_, T, BRS, false>>,
    out: Vec<(T, usize)>,
)
    requires
        call_ensures(WaveletTree::<T, BRS, false>::from, (v,), tree),
        call_ensures(WaveletTree::<T, BRS, false>::occs_range, (&tree, range), r),
        r matches Some(it) ==> call_ensures(
            OccsRangeIter::<'_, T, BRS, false>::collect,
            (it,),
            out,
        ),
    ensures
        r is Some <==> range.start <= range.end <= v.len(),
        r is Some ==> tallies(v@.subrange(range.start as int, range.end as int), out@),
        r is Some ==> count_sum(out@) == range.end - range.start,
        r is Some ==> ascending(out@),
{
    if r is Some {
        tree.lemma_occs_range(range.start as int, range.end as int, out@);
        lemma_tallies(v@, range.start as int, range.end as int, out@);
    }
}

/// Every question can be put to a plain tree.
pub proof fn plain_open_to_questions<T: WTIndexable, BRS: BinRSforWT>(
    v: Vec<T>,
    tree: WaveletTree<T, BRS, false>,
    symbol: T,
    i: usize,
    start: PositionBound,
    end: PositionBound,
    range: Range<usize>,
)
    requires
        call_ensures(WaveletTree::<T, BRS, false>::from, (v,), tree),
    ensures
        call_requires(WaveletTree::<T, BRS, false>::get, (&tree, i)),
        call_requires(WaveletTree::<T, BRS, false>::rank, (&tree, symbol, i)),
        call_requires(WaveletTree::<T, BRS, false>::select, (&tree, symbol, i)),
        call_requires(WaveletTree::<T, BRS, false>::iter, (&tree,)),
        call_requires(WaveletTree::<T, BRS, false>::into_vec, (tree,)),
        call_requires(WaveletTree::<T, BRS, false>::occs_range, (&tree, range)),
        call_requires(WaveletTree::<T, BRS, false>::occs_range_bounds, (&tree, start, end)),
{
}

/// A range with both ends in it lists what the range up to behind its end lists,
/// in a plain tree.
pub proof fn plain_closed_range<T: WTIndexable, BRS: BinRSforWT>(
    v: Vec<T>,
    tree: WaveletTree<T, BRS, false>,
    a: usize,
    b: usize,
    closed: Option<OccsRangeIter<'_, T, BRS, false>>,
    closed_out: Vec<(T, usize)>,
    half_open: Option<OccsRangeIter<'_, T, BRS, false>>,
    half_open_out: Vec<(T, usize)>,
)
    requires
        call_ensures(WaveletTree::<T, BRS, false>::from, (v,), tree),
        a <= b < v.len(),
        call_ensures(
            WaveletTree::<T, BRS, false>::occs_range_bounds,
            (&tree, PositionBound::Included(a), PositionBound::Included(b)),
            closed,
        ),
        closed matches Some(it) ==> call_ensures(
            OccsRangeIter::<'_, T, BRS, false>::collect,
            (it,),
            closed_out,
        ),
        call_ensures(
            WaveletTree::<T, BRS, false>::occs_range,
            (&tree, (a..((b + 1) as usize))),
            half_open,
        ),
        half_open matches Some(it) ==> call_ensures(
            OccsRangeIter::<'_, T, BRS, false>::collect,
            (it,),
            half_open_out,
        ),
    ensures
        closed is Some && half_open is Some,
        forall|e: (T, usize)| #[trigger] closed_out@.contains(e) <==> half_open_out@.contains(e),
{
    let start = PositionBound::Included(a);
    let end = PositionBound::Included(b);
    let n = v.len() as int;
    plain_occs_range_bounds(v, tree, start, end, closed, closed_out);
    plain_occs_range(v, tree, (a..((b + 1) as usize)), half_open, half_open_out);
    assert(gaps(start, end, n, a as int, b + 1));
    lemma_picked(v@, start, end, a as int, b + 1, n);
}

/// A plain tree has as many levels as its largest symbol has bits.
pub proof fn plain_n_levels<T: WTIndexable, BRS: BinRSforWT>(
    v: Vec<T>,
    tree: WaveletTree<T, BRS, false>,
    l: usize,
)
    requires
        call_ensures(WaveletTree::<T, BRS, false>::from, (v,), tree),
        call_ensures(WaveletTree::<T, BRS, false>::n_levels, (&tree,), l),
    ensures
        v.len() == 0 ==> l == 0,
        v.len() > 0 ==> l > 0,
        forall|j: int| 0 <= j < v.len() ==> (#[trigger] v[j]).val() < pow2(l as nat),
        l > 1 ==> exists|j: int| 0 <= j < v.len() && (#[trigger] v[j]).val() >= pow2((l - 1) as nat),
{
    if v.len() > 0 {
        let m = lemma_largest(v@);
        assert(is_max(v@, m));
        lemma_msb_bounds(m.val());
        let i = choose|i: int| 0 <= i < v.len() && #[trigger] v@[i] == m;
        assert(v[i].val() == m.val());
    }
}

/// Taking a plain tree apart and putting it together gives the tree back.
pub proof fn plain_parts<T: WTIndexable, BRS: BinRSforWT>(
    v: Vec<T>,
    tree: WaveletTree<T, BRS, false>,
    parts: WaveletTreeParts<T, BRS>,
    r: Result<WaveletTree<T, BRS, false>, &'static str>,
)
    requires
        call_ensures(WaveletTree::<T, BRS, false>::from, (v,), tree),
        call_ensures(WaveletTree::<T, BRS, false>::into_parts, (tree,), parts),
        call_ensures(WaveletTree::<T, BRS, false>::from_parts, (parts,), r),
    ensures
        call_requires(WaveletTree::<T, BRS, false>::from_parts, (parts,)),
        r == Ok::<WaveletTree<T, BRS, false>, &'static str>(tree),
{
    tree.lemma_parts_accepted();
    if let Ok(back) = r {
        back.lemma_parts(tree);
    }
}

/// Sequences of up to two to the 43 symbols can be made into a plain tree.
pub proof fn plain_capacity<T: WTIndexable>(v: Vec<T>)
    requires
        v.len() <= 0x800_0000_0000,
    ensures
        call_requires(WaveletTree::<T, RSWide, false>::from, (v,)),
{
}

/// A plain tree is empty by default.
pub proof fn plain_default<T: WTIndexable, BRS: BinRSforWT>(
    tree: WaveletTree<T, BRS, false>,
    n: usize,
    i: usize,
    r: Option<T>,
    levels: usize,
)
    requires
        call_ensures(WaveletTree::<T, BRS, false>::default, (), tree),
        call_ensures(WaveletTree::<T, BRS, false>::len, (&tree,), n),
        call_ensures(WaveletTree::<T, BRS, false>::get, (&tree, i), r),
        call_ensures(WaveletTree::<T, BRS, false>::n_levels, (&tree,), levels),
    ensures
        n == 0,
        r is None,
        levels == 0,
{
}

/// Where a plain tree owes an answer, the unchecked questions have it.
pub proof fn plain_unchecked<T: WTIndexable, BRS: BinRSforWT>(
    v: Vec<T>,
    tree: WaveletTree<T, BRS, false>,
    i: usize,
    t: T,
    symbol: T,
    j: usize,
    k: usize,
    c: usize,
    p: usize,
)
    requires
        call_ensures(WaveletTree::<T, BRS, false>::from, (v,), tree),
        i < v.len(),
        call_ensures(WaveletTree::<T, BRS, false>::get_unchecked, (&tree, i), t),
        j <= v.len(),
        v@.contains(symbol),
        call_ensures(WaveletTree::<T, BRS, false>::rank_unchecked, (&tree, symbol, j), k),
        c < times_before(v@, symbol, v.len() as int),
        call_ensures(WaveletTree::<T, BRS, false>::select_unchecked, (&tree, symbol, c), p),
    ensures
        t == v[i as int],
        k == times_before(v@, symbol, j as int),
        p < v.len() && v[p as int] == symbol && times_before(v@, symbol, p as int) == c,
        call_requires(WaveletTree::<T, BRS, false>::get_unchecked, (&tree, i)),
        call_requires(WaveletTree::<T, BRS, false>::rank_unchecked, (&tree, symbol, j)),
        call_requires(WaveletTree::<T, BRS, false>::select_unchecked, (&tree, symbol, c)),
{
    lemma_times_before(v@, symbol, j as int);
    lemma_times_before(v@, symbol, v.len() as int);
    let q = choose|q: int| 0 <= q < v.len() && v@[q] == symbol;
    let m = lemma_largest(v@);
    assert(is_max(v@, m));
    assert(tree.knows(symbol));
    if p < v.len() {
        lemma_times_before(v@, symbol, p as int);
    }
}

/// A range of a plain tree that lies in the sequence is listed as it is where it is
/// checked.
pub proof fn plain_occs_range_unchecked<T: WTIndexable, BRS: BinRSforWT>(
    v: Vec<T>,
    tree: WaveletTree<T, BRS, false>,
    range: Range<usize>,
    it: OccsRangeIter<'_, T, BRS, false>,
    out: Vec<(T, usize)>,
)
    requires
        call_ensures(WaveletTree::<T, BRS, false>::from, (v,), tree),
        range.start <= range.end <= v.len(),
        call_ensures(WaveletTree::<T, BRS, false>::occs_range_unchecked, (&tree, range), it),
        call_ensures(OccsRangeIter::<'_, T, BRS, false>::collect, (it,), out),
    ensures
        call_requires(WaveletTree::<T, BRS, false>::occs_range_unchecked, (&tree, range)),
        tallies(v@.subrange(range.start as int, range.end as int), out@),
{
    tree.lemma_occs_range(range.start as int, range.end as int, out@);
    lemma_tallies(v@, range.start as int, range.end as int, out@);
}

/// Each step of a listing of a plain tree gives what the rest of it begins with.
pub proof fn plain_occs_step<'a, T: WTIndexable, BRS: BinRSforWT>(
    v: Vec<T>,
    tree: WaveletTree<T, BRS, false>,
    it: &mut OccsRangeIter<'a, T, BRS, false>,
    before: Vec<(T, usize)>,
    r: Option<(T, usize)>,
    after: Vec<(T, usize)>,
)
    requires
        call_ensures(WaveletTree::<T, BRS, false>::from, (v,), tree),
        old(it).source() == tree,
        call_ensures(OccsRangeIter::<'a, T, BRS, false>::collect, (*old(it),), before),
        call_ensures(OccsRangeIter::<'a, T, BRS, false>::next, (it,), r),
        call_ensures(OccsRangeIter::<'a, T, BRS, false>::collect, (*final(it),), after),
    ensures
        before.len() > 0 ==> r == Some(before[0]),
        before.len() > 0 ==> after@ == before@.drop_first(),
        before.len() == 0 ==> r is None,
{
    let a = old(it).outcomes();
    let b = final(it).outcomes();
    if before.len() > 0 {
        assert(a[0] == Some(before[0]));
        assert forall|t: int| 0 <= t < after.len() && t + 1 < before.len() implies after[t]
            == before[t + 1] by {
            assert(b[t] == Some(after[t]));
            assert(a[t + 1] == Some(before[t + 1]));
            assert(b[t] == a[t + 1]);
        }
        if after.len() + 1 < before.len() {
            assert(a[after.len() + 1] == Some(before[after.len() + 1]));
            assert(b[after.len() as int] == a[after.len() + 1]);
        }
        if after.len() + 1 > before.len() {
            assert(b[before.len() - 1] == Some(after[before.len() - 1]));
            assert(b[before.len() - 1] == a[before.len() as int]);
        }
        assert(after@ =~= before@.drop_first());
    }
}

/// A compressed tree gives back the symbols it was built from, and nothing behind them.
pub proof fn compressed_get<T: WTIndexable, BRS: BinRSforWT>(
    v: Vec<T>,
    tree: WaveletTree<T, BRS, true>,
    i: usize,
    r: Option<T>,
)
    requires
        call_ensures(WaveletTree::<T, BRS, true>::from, (v,), Some(tree)),
        call_ensures(WaveletTree::<T, BRS, true>::get, (&tree, i), r),
    ensures
        r is Some <==> i < v.len(),
        r matches Some(t) ==> t == v[i as int],
{
}

/// Rank in a compressed tree counts: it answers up to the end of the sequence, for
/// the symbols of the sequence.
pub proof fn compressed_rank<T: WTIndexable, BRS: BinRSforWT>(
    v: Vec<T>,
    tree: WaveletTree<T, BRS, true>,
    symbol: T,
    i: usize,
    r: Option<usize>,
)
    requires
        call_ensures(WaveletTree::<T, BRS, true>::from, (v,), Some(tree)),
        call_ensures(WaveletTree::<T, BRS, true>::rank, (&tree, symbol, i), r),
    ensures
        r is Some <==> i <= v.len() && v@.contains(symbol),
        r matches Some(k) ==> k == times_before(v@, symbol, i as int),
{
    if i <= v.len() {
        lemma_times_before(v@, symbol, i as int);
    }
}

/// Select in a compressed tree finds: the position it gives holds the symbol and has
/// `i` of them before it, and it gives none only where there are too few.
pub proof fn compressed_select<T: WTIndexable, BRS: BinRSforWT>(
    v: Vec<T>,
    tree: WaveletTree<T, BRS, true>,
    symbol: T,
    i: usize,
    r: Option<usize>,
)
    requires
        call_ensures(WaveletTree::<T, BRS, true>::from, (v,), Some(tree)),
        call_ensures(WaveletTree::<T, BRS, true>::select, (&tree, symbol, i), r),
    ensures
        match r {
            Some(p) => p < v.len() && v[p as int] == symbol && times_before(v@, symbol, p as int)
                == i,
            None => times_before(v@, symbol, v.len() as int) <= i,
        },
{
    lemma_times_before(v@, symbol, v.len() as int);
    lemma_times_contains(v@, symbol);
    if let Some(p) = r {
        if p < v.len() {
            lemma_times_before(v@, symbol, p as int);
        }
    }
}

/// A compressed tree is as long as the sequence, and unpacks and walks to it.
pub proof fn compressed_symbols<T: WTIndexable, BRS: BinRSforWT>(
    v: Vec<T>,
    tree: WaveletTree<T, BRS, true>,
    n: usize,
    empty: bool,
    back: Vec<T>,
    it: WTIterator<'_, WaveletTree<T, BRS, true>>,
    walked: Vec<T>,
)
    requires
        call_ensures(WaveletTree::<T, BRS, true>::from, (v,), Some(tree)),
        call_ensures(WaveletTree::<T, BRS, true>::len, (&tree,), n),
        call_ensures(WaveletTree::<T, BRS, true>::is_empty, (&tree,), empty),
        call_ensures(WaveletTree::<T, BRS, true>::into_vec, (tree,), back),
        call_ensures(WaveletTree::<T, BRS, true>::iter, (&tree,), it),
        call_ensures(WTIterator::<'_, WaveletTree<T, BRS, true>>::collect, (it,), walked),
    ensures
        n == v.len(),
        empty <==> v.len() == 0,
        back@ == v@,
        walked@ == v@,
{
    if walked.len() < v.len() {
        assert(it.remaining()[walked.len() as int] == Some(v[walked.len() as int]));
    }
    assert forall|j: int| 0 <= j < walked.len() implies walked[j] == v[j] by {
        assert(it.remaining()[j] == Some(v[j]));
    }
    assert(walked@ =~= v@);
}

/// Listing between two bounds in a compressed tree is refused exactly where the bounds
/// do not fit, and tallies the symbols whose positions satisfy both.
pub proof fn compressed_occs_range_bounds<T: WTIndexable, BRS: BinRSforWT>(
    v: Vec<T>,
    tree: WaveletTree<T, BRS, true>,
    start: PositionBound,
    end: PositionBound,
    r: Option<OccsRangeIter<'_, T, BRS, true>>,
    out: Vec<(T, usize)>,
)
    requires
        call_ensures(WaveletTree::<T, BRS, true>::from, (v,), Some(tree)),
        call_ensures(WaveletTree::<T, BRS, true>::occs_range_bounds, (&tree, start, end), r),
        r matches Some(it) ==> call_ensures(
            OccsRangeIter::<'_, T, BRS, true>::collect,
            (it,),
            out,
        ),
    ensures
        r is Some <==> bounds_fit(start, end, v.len() as int),
        r is Some ==> tallies(picked(v@, start, end, v.len() as int), out@),
        r is Some ==> count_sum(out@) == picked(v@, start, end, v.len() as int).len(),
{
    let n = v.len() as int;
    let lo = first_position(start);
    let hi = end_position(end, n);
    if r is Some {
        assert(gaps(start, end, n, lo, hi));
        tree.lemma_occs_range(lo, hi, out@);
        lemma_tallies(v@, lo, hi, out@);
        lemma_picked(v@, start, end, lo, hi, n);
    }
}

/// Listing a range of a compressed tree is refused exactly where the range does not lie
/// in the sequence, and tallies the symbols of the range.
pub proof fn compressed_occs_range<T: WTIndexable, BRS: BinRSforWT>(
    v: Vec<T>,
    tree: WaveletTree<T, BRS, true>,
    range: Range<usize>,
    r: Option<OccsRangeIter<'_, T, BRS, true>>,
    out: Vec<(T, usize)>,
)
    requires
        call_ensures(WaveletTree::<T, BRS, true>::from, (v,), Some(tree)),
        call_ensures(WaveletTree::<T, BRS, true>::occs_range, (&tree, range), r),
        r matches Some(it) ==> call_ensures(
            OccsRangeIter::<'_, T, BRS, true>::collect,
            (it,),
            out,
        ),
    ensures
        r is Some <==> range.start <= range.end <= v.len(),
        r is Some ==> tallies(v@.subrange(range.start as int, range.end as int), out@),
        r is Some ==> count_sum(out@) == range.end - range.start,
{
    if r is Some {
        tree.lemma_occs_range(range.start as int, range.end as int, out@);
        lemma_tallies(v@, range.start as int, range.end as int, out@);
    }
}

/// Every question can be put to a compressed tree.
pub proof fn compressed_open_to_questions<T: WTIndexable, BRS: BinRSforWT>(
    v: Vec<T>,
    tree: WaveletTree<T, BRS, true>,
    symbol: T,
    i: usize,
    start: PositionBound,
    end: PositionBound,
    range: Range<usize>,
)
    requires
        call_ensures(WaveletTree::<T, BRS, true>::from, (v,), Some(tree)),
    ensures
        call_requires(WaveletTree::<T, BRS, true>::get, (&tree, i)),
        call_requires(WaveletTree::<T, BRS, true>::rank, (&tree, symbol, i)),
        call_requires(WaveletTree::<T, BRS, true>::select, (&tree, symbol, i)),
        call_requires(WaveletTree::<T, BRS, true>::iter, (&tree,)),
        call_requires(WaveletTree::<T, BRS, true>::into_vec, (tree,)),
        call_requires(WaveletTree::<T, BRS, true>::occs_range, (&tree, range)),
        call_requires(WaveletTree::<T, BRS, true>::occs_range_bounds, (&tree, start, end)),
{
}

/// A range with both ends in it lists what the range up to behind its end lists,
/// in a compressed tree.
pub proof fn compressed_closed_range<T: WTIndexable, BRS: BinRSforWT>(
    v: Vec<T>,
    tree: WaveletTree<T, BRS, true>,
    a: usize,
    b: usize,
    closed: Option<OccsRangeIter<'_, T, BRS, true>>,
    closed_out: Vec<(T, usize)>,
    half_open: Option<OccsRangeIter<'_, T, BRS, true>>,
    half_open_out: Vec<(T, usize)>,
)
    requires
        call_ensures(WaveletTree::<T, BRS, true>::from, (v,), Some(tree)),
        a <= b < v.len(),
        call_ensures(
            WaveletTree::<T, BRS, true>::occs_range_bounds,
            (&tree, PositionBound::Included(a), PositionBound::Included(b)),
            closed,
        ),
        closed matches Some(it) ==> call_ensures(
            OccsRangeIter::<'_, T, BRS, true>::collect,
            (it,),
            closed_out,
        ),
        call_ensures(
            WaveletTree::<T, BRS, true>::occs_range,
            (&tree, (a..((b + 1) as usize))),
            half_open,
        ),
        half_open matches Some(it) ==> call_ensures(
            OccsRangeIter::<'_, T, BRS, true>::collect,
            (it,),
            half_open_out,
        ),
    ensures
        closed is Some && half_open is Some,
        forall|e: (T, usize)| #[trigger] closed_out@.contains(e) <==> half_open_out@.contains(e),
{
    let start = PositionBound::Included(a);
    let end = PositionBound::Included(b);
    let n = v.len() as int;
    compressed_occs_range_bounds(v, tree, start, end, closed, closed_out);
    compressed_occs_range(v, tree, (a..((b + 1) as usize)), half_open, half_open_out);
    assert(gaps(start, end, n, a as int, b + 1));
    lemma_picked(v@, start, end, a as int, b + 1, n);
}

/// Taking a compressed tree apart and putting it together gives the tree back, unless it has
/// more levels than its symbols have bits.
pub proof fn compressed_parts<T: WTIndexable, BRS: BinRSforWT>(
    v: Vec<T>,
    tree: WaveletTree<T, BRS, true>,
    l: usize,
    parts: WaveletTreeParts<T, BRS>,
    r: Result<WaveletTree<T, BRS, true>, &'static str>,
)
    requires
        call_ensures(WaveletTree::<T, BRS, true>::from, (v,), Some(tree)),
        call_ensures(WaveletTree::<T, BRS, true>::n_levels, (&tree,), l),
        l <= T::bit_width(),
        call_ensures(WaveletTree::<T, BRS, true>::into_parts, (tree,), parts),
        call_ensures(WaveletTree::<T, BRS, true>::from_parts, (parts,), r),
    ensures
        call_requires(WaveletTree::<T, BRS, true>::from_parts, (parts,)),
        r == Ok::<WaveletTree<T, BRS, true>, &'static str>(tree),
{
    tree.lemma_parts_accepted();
    if let Ok(back) = r {
        back.lemma_parts(tree);
    }
}

/// Sequences of up to two to the 43 symbols can be made into a compressed tree.
pub proof fn compressed_capacity<T: WTIndexable>(v: Vec<T>)
    requires
        v.len() <= 0x800_0000_0000,
    ensures
        call_requires(WaveletTree::<T, RSWide, true>::from, (v,)),
{
}

/// A compressed tree is empty by default.
pub proof fn compressed_default<T: WTIndexable, BRS: BinRSforWT>(
    tree: WaveletTree<T, BRS, true>,
    n: usize,
    i: usize,
    r: Option<T>,
    levels: usize,
)
    requires
        call_ensures(WaveletTree::<T, BRS, true>::default, (), tree),
        call_ensures(WaveletTree::<T, BRS, true>::len, (&tree,), n),
        call_ensures(WaveletTree::<T, BRS, true>::get, (&tree, i), r),
        call_ensures(WaveletTree::<T, BRS, true>::n_levels, (&tree,), levels),
    ensures
        n == 0,
        r is None,
        levels == 0,
{
}

/// Where a compressed tree owes an answer, the unchecked questions have it.
pub proof fn compressed_unchecked<T: WTIndexable, BRS: BinRSforWT>(
    v: Vec<T>,
    tree: WaveletTree<T, BRS, true>,
    i: usize,
    t: T,
    symbol: T,
    j: usize,
    k: usize,
    c: usize,
    p: usize,
)
    requires
        call_ensures(WaveletTree::<T, BRS, true>::from, (v,), Some(tree)),
        i < v.len(),
        call_ensures(WaveletTree::<T, BRS, true>::get_unchecked, (&tree, i), t),
        j <= v.len(),
        v@.contains(symbol),
        call_ensures(WaveletTree::<T, BRS, true>::rank_unchecked, (&tree, symbol, j), k),
        c < times_before(v@, symbol, v.len() as int),
        call_ensures(WaveletTree::<T, BRS, true>::select_unchecked, (&tree, symbol, c), p),
    ensures
        t == v[i as int],
        k == times_before(v@, symbol, j as int),
        p < v.len() && v[p as int] == symbol && times_before(v@, symbol, p as int) == c,
        call_requires(WaveletTree::<T, BRS, true>::get_unchecked, (&tree, i)),
        call_requires(WaveletTree::<T, BRS, true>::rank_unchecked, (&tree, symbol, j)),
        call_requires(WaveletTree::<T, BRS, true>::select_unchecked, (&tree, symbol, c)),
{
    lemma_times_before(v@, symbol, j as int);
    lemma_times_before(v@, symbol, v.len() as int);
    let q = choose|q: int| 0 <= q < v.len() && v@[q] == symbol;
    let m = lemma_largest(v@);
    assert(is_max(v@, m));
    assert(tree.knows(symbol));
    if p < v.len() {
        lemma_times_before(v@, symbol, p as int);
    }
}

/// A range of a compressed tree that lies in the sequence is listed as it is where it is
/// checked.
pub proof fn compressed_occs_range_unchecked<T: WTIndexable, BRS: BinRSforWT>(
    v: Vec<T>,
    tree: WaveletTree<T, BRS, true>,
    range: Range<usize>,
    it: OccsRangeIter<'_, T, BRS, true>,
    out: Vec<(T, usize)>,
)
    requires
        call_ensures(WaveletTree::<T, BRS, true>::from, (v,), Some(tree)),
        range.start <= range.end <= v.len(),
        call_ensures(WaveletTree::<T, BRS, true>::occs_range_unchecked, (&tree, range), it),
        call_ensures(OccsRangeIter::<'_, T, BRS, true>::collect, (it,), out),
    ensures
        call_requires(WaveletTree::<T, BRS, true>::occs_range_unchecked, (&tree, range)),
        tallies(v@.subrange(range.start as int, range.end as int), out@),
{
    tree.lemma_occs_range(range.start as int, range.end as int, out@);
    lemma_tallies(v@, range.start as int, range.end as int, out@);
}

/// Each step of a listing of a compressed tree gives what the rest of it begins with.
pub proof fn compressed_occs_step<'a, T: WTIndexable, BRS: BinRSforWT>(
    v: Vec<T>,
    tree: WaveletTree<T, BRS, true>,
    it: &mut OccsRangeIter<'a, T, BRS, true>,
    before: Vec<(T, usize)>,
    r: Option<(T, usize)>,
    after: Vec<(T, usize)>,
)
    requires
        call_ensures(WaveletTree::<T, BRS, true>::from, (v,), Some(tree)),
        old(it).source() == tree,
        call_ensures(OccsRangeIter::<'a, T, BRS, true>::collect, (*old(it),), before),
        call_ensures(OccsRangeIter::<'a, T, BRS, true>::next, (it,), r),
        call_ensures(OccsRangeIter::<'a, T, BRS, true>::collect, (*final(it),), after),
    ensures
        before.len() > 0 ==> r == Some(before[0]),
        before.len() > 0 ==> after@ == before@.drop_first(),
        before.len() == 0 ==> r is None,
{
    let a = old(it).outcomes();
    let b = final(it).outcomes();
    if before.len() > 0 {
        assert(a[0] == Some(before[0]));
        assert forall|t: int| 0 <= t < after.len() && t + 1 < before.len() implies after[t]
            == before[t + 1] by {
            assert(b[t] == Some(after[t]));
            assert(a[t + 1] == Some(before[t + 1]));
            assert(b[t] == a[t + 1]);
        }
        if after.len() + 1 < before.len() {
            assert(a[after.len() + 1] == Some(before[after.len() + 1]));
            assert(b[after.len() as int] == a[after.len() + 1]);
        }
        if after.len() + 1 > before.len() {
            assert(b[before.len() - 1] == Some(after[before.len() - 1]));
            assert(b[before.len() - 1] == a[before.len() as int]);
        }
        assert(after@ =~= before@.drop_first());
    }
}

/// Parts of a plain tree are accepted only where they hold a sequence: the levels
/// are as long as it, the largest symbol is among them and has as many bits as there
/// are levels, and every position can be read.
pub proof fn plain_accepted<T: WTIndexable, BRS: BinRSforWT>(
    parts: WaveletTreeParts<T, BRS>,
    tree: WaveletTree<T, BRS, false>,
    n: usize,
    i: usize,
    r: Option<T>,
)
    requires
        parts.n > 0,
        call_ensures(WaveletTree::<T, BRS, false>::from_parts, (parts,), Ok(tree)),
        call_ensures(WaveletTree::<T, BRS, false>::len, (&tree,), n),
        call_ensures(WaveletTree::<T, BRS, false>::get, (&tree, i), r),
    ensures
        n == parts.n,
        parts.bvs.len() == parts.n_levels,
        forall|l: int| 0 <= l < parts.n_levels ==> (#[trigger] parts.bvs[l]).digits().len() == n,
        parts.sigma is Some,
        parts.sigma->0.val() < pow2(parts.n_levels as nat),
        r is Some <==> i < n,
        r matches Some(t) ==> t.val() <= parts.sigma->0.val(),
{
    parts.lemma_accepted_plain();
    lemma_msb_bounds(parts.sigma->0.val());
    assert forall|l: int| 0 <= l < parts.n_levels implies (#[trigger] parts.bvs[l]).digits().len()
        == n by {
        assert(parts.lens[l] == parts.n);
    }
    if i < n {
        assert(parts.seq(false)[i as int].val() <= parts.sigma->0.val());
    }
}

/// Parts of a compressed tree are accepted only where they hold a sequence: no level
/// is longer than the one before, and every position can be read.
pub proof fn compressed_accepted<T: WTIndexable, BRS: BinRSforWT>(
    parts: WaveletTreeParts<T, BRS>,
    tree: WaveletTree<T, BRS, true>,
    n: usize,
    i: usize,
    r: Option<T>,
)
    requires
        parts.n > 0,
        call_ensures(WaveletTree::<T, BRS, true>::from_parts, (parts,), Ok(tree)),
        call_ensures(WaveletTree::<T, BRS, true>::len, (&tree,), n),
        call_ensures(WaveletTree::<T, BRS, true>::get, (&tree, i), r),
    ensures
        n == parts.n,
        parts.bvs.len() == parts.n_levels,
        0 < parts.n_levels <= 32,
        parts.bvs[0].digits().len() == n,
        forall|l: int, m: int|
            0 <= l <= m < parts.n_levels ==> (#[trigger] parts.bvs[m]).digits().len() <= (
            #[trigger] parts.bvs[l]).digits().len(),
        r is Some <==> i < n,
{
    parts.lemma_accepted_compressed();
    assert(parts.lens[0] == parts.bvs[0].digits().len());
    assert forall|l: int, m: int| 0 <= l <= m < parts.n_levels implies (
    #[trigger] parts.bvs[m]).digits().len() <= (#[trigger] parts.bvs[l]).digits().len() by {
        assert(parts.lens[m] <= parts.lens[l]);
    }
}

} // verus!
