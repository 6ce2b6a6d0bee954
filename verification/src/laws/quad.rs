//! Laws of the trees of digits of two bits.

use std::ops::Range;

use vstd::arithmetic::power2::{lemma2_to64, lemma_pow2_strictly_increases, pow2};
use vstd::prelude::*;

use super::ranges::{in_order, lemma_extracted, lemma_extracted_once, once_in_order};
use super::{
    bounds_fit, gaps, lemma_largest, lemma_picked, lemma_tallies, lemma_times_before,
    lemma_times_contains, picked, tallies, times_before,
};
use crate::binwt::occs_range::{end_position, first_position, PositionBound};
use crate::binwt::parts::is_max;
use crate::indexable::WTIndexable;
use crate::iter::WTIterator;
use crate::quadwt::huffqwt::HuffQWaveletTree;
use crate::quadwt::{vals, QWaveletTree, RSforWT};
use crate::qvector::RSQVector;
use crate::tree::{ascending, count_sum};
use crate::utils::{lemma_msb_bounds, msb_of};

verus! {

/// A plain tree gives back the symbols it was built from, and nothing behind them.
pub proof fn plain_get<T: WTIndexable, RS: RSforWT>(
    v: Vec<T>,
    tree: QWaveletTree<T, RS>,
    i: usize,
    r: Option<T>,
)
    requires
        call_ensures(QWaveletTree::<T, RS>::from, (v,), tree),
        call_ensures(QWaveletTree::<T, RS>::get, (&tree, i), r),
    ensures
        r is Some <==> i < v.len(),
        r matches Some(t) ==> t == v[i as int],
{
}

/// Rank in a plain tree counts: it answers up to the end of the sequence, for
/// symbols that are not above all of it.
pub proof fn plain_rank<T: WTIndexable, RS: RSforWT>(
    v: Vec<T>,
    tree: QWaveletTree<T, RS>,
    symbol: T,
    i: usize,
    r: Option<usize>,
)
    requires
        call_ensures(QWaveletTree::<T, RS>::from, (v,), tree),
        call_ensures(QWaveletTree::<T, RS>::rank, (&tree, symbol, i), r),
    ensures
        r is Some <==> i <= v.len() && exists|j: int|
            0 <= j < v.len() && symbol.val() <= (#[trigger] v[j]).val(),
        r matches Some(k) ==> k == times_before(v@, symbol, i as int),
{
    if i <= v.len() {
        lemma_times_before(v@, symbol, i as int);
    }
    if v.len() > 0 {
        let m = lemma_largest(v@);
        assert(is_max(v@, m));
    }
}

/// Select in a plain tree finds: the position it gives holds the symbol and has
/// `i` of them before it, and it gives none only where there are too few.
pub proof fn plain_select<T: WTIndexable, RS: RSforWT>(
    v: Vec<T>,
    tree: QWaveletTree<T, RS>,
    symbol: T,
    i: usize,
    r: Option<usize>,
)
    requires
        call_ensures(QWaveletTree::<T, RS>::from, (v,), tree),
        call_ensures(QWaveletTree::<T, RS>::select, (&tree, symbol, i), r),
    ensures
        match r {
            Some(p) => p < v.len() && v[p as int] == symbol && times_before(v@, symbol, p as int)
                == i,
            None => times_before(v@, symbol, v.len() as int) <= i,
        },
{
    lemma_times_before(v@, symbol, v.len() as int);
    lemma_times_contains(v@, symbol);
    if let Some(p) = r {
        if p < v.len() {
            lemma_times_before(v@, symbol, p as int);
        }
    }
    if v.len() > 0 {
        let m = lemma_largest(v@);
        assert(is_max(v@, m));
    }
}

/// A plain tree is as long as the sequence, and unpacks and walks to it.
pub proof fn plain_symbols<T: WTIndexable, RS: RSforWT>(
    v: Vec<T>,
    tree: QWaveletTree<T, RS>,
    n: usize,
    empty: bool,
    back: Vec<T>,
    it: WTIterator<'_, QWaveletTree<T, RS>>,
    walked: Vec<T>,
)
    requires
        call_ensures(QWaveletTree::<T, RS>::from, (v,), tree),
        call_ensures(QWaveletTree::<T, RS>::len, (&tree,), n),
        call_ensures(QWaveletTree::<T, RS>::is_empty, (&tree,), empty),
        call_ensures(QWaveletTree::<T, RS>::into_vec, (tree,), back),
        call_ensures(QWaveletTree::<T, RS>::iter, (&tree,), it),
        call_ensures(WTIterator::<'_, QWaveletTree<T, RS>>::collect, (it,), walked),
    ensures
        n == v.len(),
        empty <==> v.len() == 0,
        back@ == v@,
        walked@ == v@,
{
    if walked.len() < v.len() {
        assert(it.remaining()[walked.len() as int] == Some(v[walked.len() as int]));
    }
    assert forall|j: int| 0 <= j < walked.len() implies walked[j] == v[j] by {
        assert(it.remaining()[j] == Some(v[j]));
    }
    assert(walked@ =~= v@);
}

/// The symbol at a position of a plain tree, and how often it occurs up to there.
pub proof fn plain_get_and_rank<T: WTIndexable, RS: RSforWT>(
    v: Vec<T>,
    tree: QWaveletTree<T, RS>,
    i: usize,
    r: Option<(T, usize)>,
)
    requires
        call_ensures(QWaveletTree::<T, RS>::from, (v,), tree),
        call_ensures(QWaveletTree::<T, RS>::get_and_rank, (&tree, i), r),
    ensures
        r is Some <==> i < v.len(),
        r matches Some((t, k)) ==> t == v[i as int] && k == times_before(v@, t, i + 1),
{
    if let Some((t, k)) = r {
        lemma_times_before(v@, t, i + 1);
    }
}

/// The largest symbol of a plain tree.
pub proof fn plain_sigma_raw<T: WTIndexable, RS: RSforWT>(
    v: Vec<T>,
    tree: QWaveletTree<T, RS>,
    m: T,
)
    requires
        call_ensures(QWaveletTree::<T, RS>::from, (v,), tree),
        call_ensures(QWaveletTree::<T, RS>::sigma_raw, (&tree,), m),
        v.len() > 0,
    ensures
        v@.contains(m),
        forall|j: int| 0 <= j < v.len() ==> (#[trigger] v[j]).val() <= m.val(),
{
    let top = lemma_largest(v@);
    assert(is_max(v@, top));
    tree.lemma_wf();
    assert(tree.knows(top));
    top.lemma_val();
    m.lemma_val();
    T::lemma_truncated(m.val());
    assert(tree.knows(m));
}

/// The symbols of a range of a plain tree, in order: all of them, each as often as it
/// stands there. A range that does not lie in the sequence has none.
pub proof fn plain_extract_range<T: WTIndexable, RS: RSforWT>(
    v: Vec<T>,
    tree: QWaveletTree<T, RS>,
    range: Range<usize>,
    out: Vec<T>,
)
    requires
        call_ensures(QWaveletTree::<T, RS>::from, (v,), tree),
        call_ensures(QWaveletTree::<T, RS>::extract_range, (&tree, range), out),
    ensures
        range.start < range.end <= v.len() ==> in_order(
            v@.subrange(range.start as int, range.end as int),
            out@,
        ),
        !(range.start < range.end <= v.len()) ==> out.len() == 0,
{
    if range.start < range.end <= v.len() {
        let part = v@.subrange(range.start as int, range.end as int);
        assert(vals(part) =~= vals(v@).subrange(range.start as int, range.end as int));
        lemma_extracted(part, out@);
    }
}

/// The symbols of a range of a plain tree, in order and each once. A range that does not
/// lie in the sequence has none.
pub proof fn plain_extract_range_distinct<T: WTIndexable, RS: RSforWT>(
    v: Vec<T>,
    tree: QWaveletTree<T, RS>,
    range: Range<usize>,
    out: Vec<T>,
)
    requires
        call_ensures(QWaveletTree::<T, RS>::from, (v,), tree),
        call_ensures(QWaveletTree::<T, RS>::extract_range_distinct, (&tree, range), out),
    ensures
        range.start < range.end <= v.len() ==> once_in_order(
            v@.subrange(range.start as int, range.end as int),
            out@,
        ),
        !(range.start < range.end <= v.len()) ==> out.len() == 0,
{
    if range.start < range.end <= v.len() {
        let part = v@.subrange(range.start as int, range.end as int);
        assert(vals(part) =~= vals(v@).subrange(range.start as int, range.end as int));
        lemma_extracted_once(part, out@);
    }
}

/// Listing between two bounds in a plain tree is refused exactly where the bounds
/// do not fit, and tallies the symbols whose positions satisfy both.
pub proof fn plain_occs_range_bounds<T: WTIndexable, RS: RSforWT>(
    v: Vec<T>,
    tree: QWaveletTree<T, RS>,
    start: PositionBound,
    end: PositionBound,
    r: Option<Vec<(T, usize)>>,
)
    requires
        call_ensures(QWaveletTree::<T, RS>::from, (v,), tree),
        call_ensures(QWaveletTree::<T, RS>::occs_range_bounds, (&tree, start, end), r),
    ensures
        r is Some <==> bounds_fit(start, end, v.len() as int),
        r matches Some(out) ==> tallies(picked(v@, start, end, v.len() as int), out@) && count_sum(
            out@,
        ) == picked(v@, start, end, v.len() as int).len() && ascending(out@),
{
    let n = v.len() as int;
    let lo = first_position(start);
    let hi = end_position(end, n);
    if let Some(out) = r {
        assert(gaps(start, end, n, lo, hi));
        lemma_tallies(v@, lo, hi, out@);
        lemma_picked(v@, start, end, lo, hi, n);
    }
}

/// Listing a range of a plain tree is refused exactly where the range does not lie
/// in the sequence, and tallies the symbols of the range.
pub proof fn plain_occs_range<T: WTIndexable, RS: RSforWT>(
    v: Vec<T>,
    tree: QWaveletTree<T, RS>,
    range: Range<usize>,
    r: Option<Vec<(T, usize)>>,
)
    requires
        call_ensures(QWaveletTree::<T, RS>::from, (v,), tree),
        call_ensures(QWaveletTree::<T, RS>::occs_range, (&tree, range), r),
    ensures
        r is Some <==> range.start <= range.end <= v.len(),
        r matches Some(out) ==> tallies(
            v@.subrange(range.start as int, range.end as int),
            out@,
        ) && count_sum(out@) == range.end - range.start && ascending(out@),
{
    if let Some(out) = r {
        lemma_tallies(v@, range.start as int, range.end as int, out@);
    }
}

/// A range with both ends in it lists what the range up to behind its end lists.
pub proof fn plain_closed_range<T: WTIndexable, RS: RSforWT>(
    v: Vec<T>,
    tree: QWaveletTree<T, RS>,
    a: usize,
    b: usize,
    closed: Option<Vec<(T, usize)>>,
    half_open: Option<Vec<(T, usize)>>,
)
    requires
        call_ensures(QWaveletTree::<T, RS>::from, (v,), tree),
        a <= b < v.len(),
        call_ensures(
            QWaveletTree::<T, RS>::occs_range_bounds,
            (&tree, PositionBound::Included(a), PositionBound::Included(b)),
            closed,
        ),
        call_ensures(QWaveletTree::<T, RS>::occs_range, (&tree, (a..((b + 1) as usize))), half_open),
    ensures
        closed is Some && half_open is Some,
        forall|e: (T, usize)| #[trigger] (closed->0)@.contains(e) <==> (half_open->0)@.contains(e),
{
    let start = PositionBound::Included(a);
    let end = PositionBound::Included(b);
    let n = v.len() as int;
    plain_occs_range_bounds(v, tree, start, end, closed);
    plain_occs_range(v, tree, (a..((b + 1) as usize)), half_open);
    assert(gaps(start, end, n, a as int, b + 1));
    lemma_picked(v@, start, end, a as int, b + 1, n);
}

/// Every question can be put to a plain tree.
pub proof fn plain_open_to_questions<T: WTIndexable, RS: RSforWT>(
    v: Vec<T>,
    tree: QWaveletTree<T, RS>,
    symbol: T,
    i: usize,
    start: PositionBound,
    end: PositionBound,
    range: Range<usize>,
)
    requires
        call_ensures(QWaveletTree::<T, RS>::from, (v,), tree),
    ensures
        call_requires(QWaveletTree::<T, RS>::get, (&tree, i)),
        call_requires(QWaveletTree::<T, RS>::rank, (&tree, symbol, i)),
        call_requires(QWaveletTree::<T, RS>::select, (&tree, symbol, i)),
        call_requires(QWaveletTree::<T, RS>::iter, (&tree,)),
        call_requires(QWaveletTree::<T, RS>::into_vec, (tree,)),
        call_requires(QWaveletTree::<T, RS>::get_and_rank, (&tree, i)),
        call_requires(QWaveletTree::<T, RS>::sigma_raw, (&tree,)),
        call_requires(QWaveletTree::<T, RS>::extract_range, (&tree, range)),
        call_requires(QWaveletTree::<T, RS>::extract_range_distinct, (&tree, range)),
        call_requires(QWaveletTree::<T, RS>::occs_range, (&tree, range)),
        call_requires(QWaveletTree::<T, RS>::occs_range_bounds, (&tree, start, end)),
{
}

/// A plain tree has as many levels as its largest symbol has digits of two bits.
pub proof fn plain_n_levels<T: WTIndexable, RS: RSforWT>(
    v: Vec<T>,
    tree: QWaveletTree<T, RS>,
    l: usize,
)
    requires
        call_ensures(QWaveletTree::<T, RS>::from, (v,), tree),
        call_ensures(QWaveletTree::<T, RS>::n_levels, (&tree,), l),
    ensures
        v.len() == 0 ==> l == 0,
        v.len() > 0 ==> l > 0,
        forall|j: int| 0 <= j < v.len() ==> (#[trigger] v[j]).val() < pow2((2 * l) as nat),
        l > 1 ==> exists|j: int|
            0 <= j < v.len() && (#[trigger] v[j]).val() >= pow2((2 * (l - 1)) as nat),
{
    if v.len() > 0 {
        let m = lemma_largest(v@);
        assert(is_max(v@, m));
        let b = msb_of(m.val());
        lemma_msb_bounds(m.val());
        let i = choose|i: int| 0 <= i < v.len() && #[trigger] v@[i] == m;
        assert(v[i].val() == m.val());
        if b + 1 < 2 * l {
            lemma_pow2_strictly_increases((b + 1) as nat, (2 * l) as nat);
        }
        if l > 1 {
            lemma2_to64();
            if 2 * (l - 1) < b {
                lemma_pow2_strictly_increases((2 * (l - 1)) as nat, b as nat);
            }
        }
    }
}

/// Sequences of up to 256 times as many symbols as a word can count, less one, can
/// be made into a plain tree.
pub proof fn plain_capacity<T: WTIndexable, const B_SIZE: usize>(v: Vec<T>)
    requires
        v.len() <= 0xff_ffff_ff00,
    ensures
        call_requires(QWaveletTree::<T, RSQVector<B_SIZE>>::from, (v,)),
{
}

/// Where a plain tree owes an answer, the unchecked questions have it.
pub proof fn plain_unchecked<T: WTIndexable, RS: RSforWT>(
    v: Vec<T>,
    tree: QWaveletTree<T, RS>,
    i: usize,
    t: T,
    symbol: T,
    j: usize,
    k: usize,
    c: usize,
    p: usize,
)
    requires
        call_ensures(QWaveletTree::<T, RS>::from, (v,), tree),
        i < v.len(),
        call_ensures(QWaveletTree::<T, RS>::get_unchecked, (&tree, i), t),
        j <= v.len(),
        v@.contains(symbol),
        call_ensures(QWaveletTree::<T, RS>::rank_unchecked, (&tree, symbol, j), k),
        c < times_before(v@, symbol, v.len() as int),
        call_ensures(QWaveletTree::<T, RS>::select_unchecked, (&tree, symbol, c), p),
    ensures
        t == v[i as int],
        k == times_before(v@, symbol, j as int),
        p < v.len() && v[p as int] == symbol && times_before(v@, symbol, p as int) == c,
        call_requires(QWaveletTree::<T, RS>::get_unchecked, (&tree, i)),
        call_requires(QWaveletTree::<T, RS>::rank_unchecked, (&tree, symbol, j)),
        call_requires(QWaveletTree::<T, RS>::select_unchecked, (&tree, symbol, c)),
{
    lemma_times_before(v@, symbol, j as int);
    lemma_times_before(v@, symbol, v.len() as int);
    let q = choose|q: int| 0 <= q < v.len() && v@[q] == symbol;
    let m = lemma_largest(v@);
    assert(is_max(v@, m));
    assert(tree.knows(symbol));
    if p < v.len() {
        lemma_times_before(v@, symbol, p as int);
    }
}

/// Collecting the symbols of a range into a list replaces what the list held.
pub proof fn plain_extract_into<T: WTIndexable, RS: RSforWT>(
    v: Vec<T>,
    tree: QWaveletTree<T, RS>,
    range: Range<usize>,
    out: &mut Vec<T>,
    given: Vec<T>,
    done: (),
)
    requires
        call_ensures(QWaveletTree::<T, RS>::from, (v,), tree),
        call_ensures(QWaveletTree::<T, RS>::extract_range_distinct_into, (&tree, range, out), done),
        call_ensures(QWaveletTree::<T, RS>::extract_range_distinct, (&tree, range), given),
    ensures
        final(out)@ == given@,
{
}

/// The symbol and its rank, where the position is known to lie in the sequence.
pub proof fn plain_get_and_rank_unchecked<T: WTIndexable, RS: RSforWT>(
    v: Vec<T>,
    tree: QWaveletTree<T, RS>,
    i: usize,
    r: (T, usize),
)
    requires
        call_ensures(QWaveletTree::<T, RS>::from, (v,), tree),
        i < v.len(),
        call_ensures(QWaveletTree::<T, RS>::get_and_rank_unchecked, (&tree, i), r),
    ensures
        call_requires(QWaveletTree::<T, RS>::get_and_rank_unchecked, (&tree, i)),
        r.0 == v[i as int],
        r.1 == times_before(v@, r.0, i + 1),
{
    lemma_times_before(v@, r.0, i + 1);
}

/// A plain tree is empty by default.
pub proof fn plain_default<T: WTIndexable, RS: RSforWT>(
    tree: QWaveletTree<T, RS>,
    n: usize,
    i: usize,
    r: Option<T>,
)
    requires
        call_ensures(QWaveletTree::<T, RS>::default, (), tree),
        call_ensures(QWaveletTree::<T, RS>::len, (&tree,), n),
        call_ensures(QWaveletTree::<T, RS>::get, (&tree, i), r),
    ensures
        n == 0,
        r is None,
{
}

/// A compressed tree gives back the symbols it was built from, and nothing behind them.
pub proof fn compressed_get<T: WTIndexable, RS: RSforWT>(
    v: Vec<T>,
    tree: HuffQWaveletTree<T, RS>,
    i: usize,
    r: Option<T>,
)
    requires
        call_ensures(HuffQWaveletTree::<T, RS>::from, (v,), Some(tree)),
        call_ensures(HuffQWaveletTree::<T, RS>::get, (&tree, i), r),
    ensures
        r is Some <==> i < v.len(),
        r matches Some(t) ==> t == v[i as int],
{
}

/// Rank in a compressed tree counts: it answers up to the end of the sequence, for
/// the symbols of the sequence.
pub proof fn compressed_rank<T: WTIndexable, RS: RSforWT>(
    v: Vec<T>,
    tree: HuffQWaveletTree<T, RS>,
    symbol: T,
    i: usize,
    r: Option<usize>,
)
    requires
        call_ensures(HuffQWaveletTree::<T, RS>::from, (v,), Some(tree)),
        call_ensures(HuffQWaveletTree::<T, RS>::rank, (&tree, symbol, i), r),
    ensures
        r is Some <==> i <= v.len() && v@.contains(symbol),
        r matches Some(k) ==> k == times_before(v@, symbol, i as int),
{
    if i <= v.len() {
        lemma_times_before(v@, symbol, i as int);
    }
}

/// Select in a compressed tree finds: the position it gives holds the symbol and has
/// `i` of them before it, and it gives none only where there are too few.
pub proof fn compressed_select<T: WTIndexable, RS: RSforWT>(
    v: Vec<T>,
    tree: HuffQWaveletTree<T, RS>,
    symbol: T,
    i: usize,
    r: Option<usize>,
)
    requires
        call_ensures(HuffQWaveletTree::<T, RS>::from, (v,), Some(tree)),
        call_ensures(HuffQWaveletTree::<T, RS>::select, (&tree, symbol, i), r),
    ensures
        match r {
            Some(p) => p < v.len() && v[p as int] == symbol && times_before(v@, symbol, p as int)
                == i,
            None => times_before(v@, symbol, v.len() as int) <= i,
        },
{
    lemma_times_before(v@, symbol, v.len() as int);
    lemma_times_contains(v@, symbol);
    if let Some(p) = r {
        if p < v.len() {
            lemma_times_before(v@, symbol, p as int);
        }
    }
}

/// A compressed tree is as long as the sequence, and walks to it.
pub proof fn compressed_symbols<T: WTIndexable, RS: RSforWT>(
    v: Vec<T>,
    tree: HuffQWaveletTree<T, RS>,
    n: usize,
    empty: bool,
    it: WTIterator<'_, HuffQWaveletTree<T, RS>>,
    walked: Vec<T>,
)
    requires
        call_ensures(HuffQWaveletTree::<T, RS>::from, (v,), Some(tree)),
        call_ensures(HuffQWaveletTree::<T, RS>::len, (&tree,), n),
        call_ensures(HuffQWaveletTree::<T, RS>::is_empty, (&tree,), empty),
        call_ensures(HuffQWaveletTree::<T, RS>::iter, (&tree,), it),
        call_ensures(WTIterator::<'_, HuffQWaveletTree<T, RS>>::collect, (it,), walked),
    ensures
        n == v.len(),
        empty <==> v.len() == 0,
        walked@ == v@,
{
    if walked.len() < v.len() {
        assert(it.remaining()[walked.len() as int] == Some(v[walked.len() as int]));
    }
    assert forall|j: int| 0 <= j < walked.len() implies walked[j] == v[j] by {
        assert(it.remaining()[j] == Some(v[j]));
    }
    assert(walked@ =~= v@);
}

/// Every question can be put to a compressed tree.
pub proof fn compressed_open_to_questions<T: WTIndexable, RS: RSforWT>(
    v: Vec<T>,
    tree: HuffQWaveletTree<T, RS>,
    symbol: T,
    i: usize,
)
    requires
        call_ensures(HuffQWaveletTree::<T, RS>::from, (v,), Some(tree)),
    ensures
        call_requires(HuffQWaveletTree::<T, RS>::get, (&tree, i)),
        call_requires(HuffQWaveletTree::<T, RS>::rank, (&tree, symbol, i)),
        call_requires(HuffQWaveletTree::<T, RS>::select, (&tree, symbol, i)),
        call_requires(HuffQWaveletTree::<T, RS>::iter, (&tree,)),
{
}

/// Sequences of up to 256 times as many symbols as a word can count, less one, can
/// be made into a compressed tree.
pub proof fn compressed_capacity<T: WTIndexable, const B_SIZE: usize>(v: Vec<T>)
    requires
        v.len() <= 0xff_ffff_ff00,
    ensures
        call_requires(HuffQWaveletTree::<T, RSQVector<B_SIZE>>::from, (v,)),
{
}

/// Where a compressed tree owes an answer, the unchecked questions have it.
pub proof fn compressed_unchecked<T: WTIndexable, RS: RSforWT>(
    v: Vec<T>,
    tree: HuffQWaveletTree<T, RS>,
    i: usize,
    t: T,
    symbol: T,
    j: usize,
    k: usize,
    c: usize,
    p: usize,
)
    requires
        call_ensures(HuffQWaveletTree::<T, RS>::from, (v,), Some(tree)),
        i < v.len(),
        call_ensures(HuffQWaveletTree::<T, RS>::get_unchecked, (&tree, i), t),
        j <= v.len(),
        v@.contains(symbol),
        call_ensures(HuffQWaveletTree::<T, RS>::rank_unchecked, (&tree, symbol, j), k),
        c < times_before(v@, symbol, v.len() as int),
        call_ensures(HuffQWaveletTree::<T, RS>::select_unchecked, (&tree, symbol, c), p),
    ensures
        t == v[i as int],
        k == times_before(v@, symbol, j as int),
        p < v.len() && v[p as int] == symbol && times_before(v@, symbol, p as int) == c,
        call_requires(HuffQWaveletTree::<T, RS>::get_unchecked, (&tree, i)),
        call_requires(HuffQWaveletTree::<T, RS>::rank_unchecked, (&tree, symbol, j)),
        call_requires(HuffQWaveletTree::<T, RS>::select_unchecked, (&tree, symbol, c)),
{
    lemma_times_before(v@, symbol, j as int);
    lemma_times_before(v@, symbol, v.len() as int);
    let q = choose|q: int| 0 <= q < v.len() && v@[q] == symbol;
    let m = lemma_largest(v@);
    assert(is_max(v@, m));
    assert(tree.knows(symbol));
    if p < v.len() {
        lemma_times_before(v@, symbol, p as int);
    }
}

/// A compressed tree is empty by default.
pub proof fn compressed_default<T: WTIndexable, RS: RSforWT>(
    tree: HuffQWaveletTree<T, RS>,
    n: usize,
    i: usize,
    r: Option<T>,
)
    requires
        call_ensures(HuffQWaveletTree::<T, RS>::default, (), tree),
        call_ensures(HuffQWaveletTree::<T, RS>::len, (&tree,), n),
        call_ensures(HuffQWaveletTree::<T, RS>::get, (&tree, i), r),
    ensures
        n == 0,
        r is None,
{
}

} // verus!
