//! Laws of the containers of trees and the views that are opened on them.

use std::ops::Range;

use vstd::prelude::*;

use super::ranges::{
    in_order, lemma_extracted, lemma_extracted_once, lemma_in_order_unique, once_in_order,
};
use super::{lemma_largest, lemma_times_before, lemma_times_contains, quad, times_before};
use crate::binwt::parts::is_max;
use crate::bytes::container::{dirs_error, header_error, lemma_fault, HQWB_MAGIC, QWTB_MAGIC};
use crate::bytes::dir::dir_of;
use crate::bytes::error::LayoutError;
use crate::bytes::hqwb::{hqwt_to_bytes, huff_tree_bytes, lemma_huff_tree_opens};
use crate::bytes::hview::{hqwb_error, hqwb_level_count, HqwtView};
use crate::bytes::layout::dir_error;
use crate::bytes::le::{le_at, le_bytes, le_value, lemma_le_at, lemma_le_bytes, lemma_pow256};
use crate::bytes::level::{begins_at, lemma_address, slice_address};
use crate::bytes::qwtb::{lemma_tree_opens, lemma_tree_queries, qwt_to_bytes, tree_bytes};
use crate::bytes::view::{qwtb_error, qwtb_level_count, QwtView};
use crate::bytes::{
    check_host_order, ensure_le, host_answers, order_probe, FORMAT_VERSION, HEADER_SIZE,
    HQWT_LEVEL_DIR_SIZE, LEVEL_DIR_SIZE,
};
use crate::codes::{coded, PrefixCode};
use crate::indexable::WTIndexable;
use crate::quadwt::huffqwt::HuffQWaveletTree;
use crate::quadwt::{lemma_vals_count, vals, QWaveletTree};
use crate::qvector::RSQVector;
use crate::tables::rows_view;
use crate::tree::occurrences;

verus! {

/// The host reads the low byte of a number first, whenever it is asked.
pub open spec fn little_endian_host() -> bool {
    forall|answer: Result<(), LayoutError>| #[trigger] host_answers(answer) ==> answer is Ok
}

/// The result is this error.
pub open spec fn refused<V>(r: Result<V, LayoutError>, e: LayoutError) -> bool {
    r == Err::<V, LayoutError>(e)
}

/// The slice lies at a multiple of 64, whenever it is asked.
pub open spec fn lies_aligned(bytes: &[u8]) -> bool {
    forall|addr: usize| #[trigger] begins_at(bytes, addr) ==> addr % 64 == 0
}

/// Asking for the order of a host gives what the host says.
pub proof fn host_order(r: Result<(), LayoutError>)
    requires
        call_ensures(ensure_le, (), r),
    ensures
        host_answers(r),
        r is Err ==> r == Err::<(), LayoutError>(LayoutError::BigEndian),
        little_endian_host() ==> r is Ok,
{
}

/// A host is accepted exactly where it takes the first byte of the probe as the low
/// one.
pub proof fn host_accepted(probe: [u8; 2], one: u16, r: Result<(), LayoutError>)
    requires
        call_ensures(order_probe, (), probe),
        one == probe@[0] + 256 * probe@[1] || one == 256 * probe@[0] + probe@[1],
        call_ensures(check_host_order, (one,), r),
    ensures
        r is Ok <==> one == probe@[0] + 256 * probe@[1],
        r is Err <==> one == 256 * probe@[0] + probe@[1],
{
}

/// Entries that are in order at a multiple of 64 are misaligned elsewhere.
proof fn lemma_misaligned(s: Seq<u8>, addr: int, b512: bool, size: int, count: int)
    requires
        dirs_error(s, addr - addr % 64, b512, size, count, 0) is None,
        count > 0,
        addr % 64 != 0,
    ensures
        dirs_error(s, addr, b512, size, count, 0) == Some(LayoutError::Misaligned),
{
    let d = dir_of(s, HEADER_SIZE + size * 0);
    let base = addr - addr % 64;
    assert(dir_error(s, base, d, b512) is None);
    assert((base + d.off_data) % 64 == 0);
    assert((addr + d.off_data) % 64 != 0);
}

/// The number that eight bytes hold, the low one first.
pub open spec fn eight_bytes(s: Seq<u8>, at: int) -> int {
    s[at] + 0x100 * s[at + 1] + 0x1_0000 * s[at + 2] + 0x100_0000 * s[at + 3] + 0x1_0000_0000
        * s[at + 4] + 0x100_0000_0000 * s[at + 5] + 0x1_0000_0000_0000 * s[at + 6]
        + 0x100_0000_0000_0000 * s[at + 7]
}

proof fn lemma_eight_bytes(s: Seq<u8>, at: int)
    requires
        0 <= at,
        at + 8 <= s.len(),
    ensures
        le_at(s, at, 8) == eight_bytes(s, at),
{
    let p = s.subrange(at, at + 8);
    lemma_more_bytes(p, 0);
    lemma_more_bytes(p, 1);
    lemma_more_bytes(p, 2);
    lemma_more_bytes(p, 3);
    lemma_more_bytes(p, 4);
    lemma_more_bytes(p, 5);
    lemma_more_bytes(p, 6);
    lemma_more_bytes(p, 7);
    assert(p.skip(0) =~= p);
    assert(p.skip(8) =~= Seq::<u8>::empty());
}

proof fn lemma_two_bytes(s: Seq<u8>, at: int)
    requires
        0 <= at,
        at + 2 <= s.len(),
    ensures
        le_at(s, at, 2) == s[at] + 256 * s[at + 1],
{
    let p = s.subrange(at, at + 2);
    lemma_more_bytes(p, 0);
    lemma_more_bytes(p, 1);
    assert(p.skip(0) =~= p);
    assert(p.skip(2) =~= Seq::<u8>::empty());
}

proof fn lemma_more_bytes(p: Seq<u8>, k: int)
    requires
        0 <= k < p.len(),
    ensures
        le_value(p.skip(k)) == p[k] + 256 * le_value(p.skip(k + 1)),
{
    assert(p.skip(k).drop_first() =~= p.skip(k + 1));
}

/// The directory is never blamed on the header.
proof fn lemma_dir_faults(s: Seq<u8>, addr: int, b512: bool, size: int, count: int, l: int)
    ensures
        dirs_error(s, addr, b512, size, count, l) != Some(LayoutError::BadMagic),
        dirs_error(s, addr, b512, size, count, l) != Some(LayoutError::BadVersion),
        dirs_error(s, addr, b512, size, count, l) != Some(LayoutError::PrefetchNotSupported),
    decreases count - l,
{
    if l < count {
        lemma_dir_faults(s, addr, b512, size, count, l + 1);
    }
}

/// A plain container is refused for the order of the host only by a host that says
/// so, and never where the address is given.
pub proof fn plain_host_refusal<'a, T: WTIndexable, const B_SIZE: usize>(
    bytes: &'a [u8],
    addr: usize,
    r: Result<QwtView<'a, T, B_SIZE>, LayoutError>,
    at: Result<QwtView<'a, T, B_SIZE>, LayoutError>,
)
    requires
        call_ensures(QwtView::<'a, T, B_SIZE>::from_bytes, (bytes,), r),
        call_ensures(QwtView::<'a, T, B_SIZE>::from_bytes_at, (bytes, addr), at),
    ensures
        refused(r, LayoutError::BigEndian) ==> host_answers(
            Err(LayoutError::BigEndian),
        ) && !little_endian_host(),
        !refused(at, LayoutError::BigEndian),
{
    lemma_fault(
        bytes@,
        QWTB_MAGIC@,
        addr as int,
        B_SIZE == 512,
        T::bit_width() as int,
        LEVEL_DIR_SIZE as int,
        qwtb_level_count(bytes@),
        0,
    );
}

/// The bytes are the container of the tree of `v`, whose symbols fit into words.
pub open spec fn plain_container<'a, T: WTIndexable, const B_SIZE: usize>(
    v: Vec<T>,
    tree: QWaveletTree<T, RSQVector<B_SIZE>>,
    bytes: &'a [u8],
) -> bool {
    &&& call_ensures(QWaveletTree::<T, RSQVector<B_SIZE>>::from, (v,), tree)
    &&& exists|w: Vec<u8>| #[trigger]
        call_ensures(qwt_to_bytes::<T, B_SIZE>, (&tree,), Ok(w)) && w@ == bytes@
    &&& forall|j: int| 0 <= j < v.len() ==> (#[trigger] v[j]).val() <= usize::MAX
}

/// The view was opened on the container of the tree of `v`.
pub open spec fn plain_view<'a, T: WTIndexable, const B_SIZE: usize>(
    v: Vec<T>,
    tree: QWaveletTree<T, RSQVector<B_SIZE>>,
    bytes: &'a [u8],
    view: QwtView<'a, T, B_SIZE>,
) -> bool {
    &&& plain_container(v, tree, bytes)
    &&& call_ensures(QwtView::<'a, T, B_SIZE>::from_bytes, (bytes,), Ok(view)) || exists|addr: usize|
        #[trigger] call_ensures(QwtView::<'a, T, B_SIZE>::from_bytes_at, (bytes, addr), Ok(view))
}

/// The container of a tree can be opened wherever it lies at a multiple of 64, on
/// a host that reads the low byte first.
pub proof fn plain_opens<'a, T: WTIndexable, const B_SIZE: usize>(
    v: Vec<T>,
    tree: QWaveletTree<T, RSQVector<B_SIZE>>,
    bytes: &'a [u8],
    addr: usize,
    at: Result<QwtView<'a, T, B_SIZE>, LayoutError>,
    r: Result<QwtView<'a, T, B_SIZE>, LayoutError>,
)
    requires
        plain_container(v, tree, bytes),
        call_ensures(QwtView::<'a, T, B_SIZE>::from_bytes_at, (bytes, addr), at),
        call_ensures(QwtView::<'a, T, B_SIZE>::from_bytes, (bytes,), r),
    ensures
        addr % 64 == 0 ==> at is Ok,
        v.len() > 0 && addr % 64 != 0 ==> refused(at, LayoutError::Misaligned),
        little_endian_host() && lies_aligned(bytes) ==> r is Ok,
        little_endian_host() && r is Err ==> exists|base: usize| #[trigger]
            begins_at(bytes, base) && base % 64 != 0,
{
    lemma_plain_bytes(v, tree, bytes);
    tree.lemma_wf();
    lemma_plain_opened(tree, bytes@, addr as int, at);
    if !refused(r, LayoutError::BigEndian) {
        let base = choose|base: usize| #[trigger]
            begins_at(bytes, base) && QwtView::<'a, T, B_SIZE>::opened(r, bytes@, base as int);
        lemma_plain_opened(tree, bytes@, base as int, r);
    }
}

/// On a host that [`ensure_le`] accepts, a plain container is never refused for the order of
/// the host.
pub proof fn plain_accepted_host<'a, T: WTIndexable, const B_SIZE: usize>(
    bytes: &'a [u8],
    r: Result<QwtView<'a, T, B_SIZE>, LayoutError>,
)
    requires
        call_ensures(QwtView::<'a, T, B_SIZE>::from_bytes, (bytes,), r),
        forall|host: Result<(), LayoutError>| #[trigger]
            call_ensures(ensure_le, (), host) ==> host is Ok,
    ensures
        !refused(r, LayoutError::BigEndian),
{
}

/// On such a host, bytes that lie at a multiple of 64 and hold a plain container of a tree are
/// opened.
pub(crate) proof fn plain_opens_in_place<'a, T: WTIndexable, const B_SIZE: usize>(
    v: Vec<T>,
    tree: QWaveletTree<T, RSQVector<B_SIZE>>,
    bytes: &'a [u8],
    r: Result<QwtView<'a, T, B_SIZE>, LayoutError>,
)
    requires
        plain_container(v, tree, bytes),
        call_ensures(QwtView::<'a, T, B_SIZE>::from_bytes, (bytes,), r),
        forall|host: Result<(), LayoutError>| #[trigger]
            call_ensures(ensure_le, (), host) ==> host is Ok,
        forall|addr: usize| #[trigger]
            call_ensures(slice_address, (bytes,), addr) ==> addr % 64 == 0,
    ensures
        r matches Ok(view) && plain_view(v, tree, bytes, view),
{
    plain_accepted_host(bytes, r);
    lemma_plain_bytes(v, tree, bytes);
    let base = choose|base: usize| #[trigger]
        begins_at(bytes, base) && QwtView::<'a, T, B_SIZE>::opened(r, bytes@, base as int);
    lemma_address(bytes, base);
    lemma_plain_opened(tree, bytes@, base as int, r);
}

/// What the bytes of a tree's container are.
proof fn lemma_plain_bytes<'a, T: WTIndexable, const B_SIZE: usize>(
    v: Vec<T>,
    tree: QWaveletTree<T, RSQVector<B_SIZE>>,
    bytes: &'a [u8],
)
    requires
        plain_container(v, tree, bytes),
    ensures
        tree.wf(),
        tree.seq() == v@,
        bytes@ == tree_bytes(tree),
        tree_bytes(tree).len() <= usize::MAX,
        tree.largest() <= usize::MAX,
{
    lemma_small(v, tree);
    assert(bytes@.len() <= usize::MAX) by {
        let w = choose|w: Vec<u8>| #[trigger]
            call_ensures(qwt_to_bytes::<T, B_SIZE>, (&tree,), Ok(w)) && w@ == bytes@;
        assert(w.len() == bytes@.len());
    }
}

/// Opening a tree's container at a multiple of 64, and elsewhere.
#[verifier::rlimit(40)]
proof fn lemma_plain_opened<'a, T: WTIndexable, const B_SIZE: usize>(
    tree: QWaveletTree<T, RSQVector<B_SIZE>>,
    s: Seq<u8>,
    addr: int,
    r: Result<QwtView<'a, T, B_SIZE>, LayoutError>,
)
    requires
        tree.wf(),
        s == tree_bytes(tree),
        tree_bytes(tree).len() <= usize::MAX,
        tree.largest() <= usize::MAX,
        QwtView::<'a, T, B_SIZE>::opened(r, s, addr),
    ensures
        addr % 64 == 0 ==> r is Ok,
        tree.level_count() > 0 && addr % 64 != 0 ==> refused(r, LayoutError::Misaligned),
{
    lemma_fault_free_plain::<T, B_SIZE>(tree, addr - addr % 64);
    if tree.level_count() > 0 && addr % 64 != 0 {
        lemma_misaligned(s, addr, B_SIZE == 512, LEVEL_DIR_SIZE as int, qwtb_level_count(s));
    }
}

proof fn lemma_fault_free_plain<T: WTIndexable, const B_SIZE: usize>(
    tree: QWaveletTree<T, RSQVector<B_SIZE>>,
    addr: int,
)
    requires
        tree.wf(),
        tree_bytes(tree).len() <= usize::MAX,
        addr % 64 == 0,
        tree.largest() <= usize::MAX,
    ensures
        qwtb_error(tree_bytes(tree), addr, B_SIZE == 512, T::bit_width() as int) is None,
        qwtb_level_count(tree_bytes(tree)) == tree.level_count(),
{
    lemma_tree_opens(tree, addr, vstd::pervasive::arbitrary::<QwtView<'_, T, B_SIZE>>());
    lemma_plain_level_count(tree);
}

/// The largest symbol of a tree whose symbols fit into words does too.
proof fn lemma_small<T: WTIndexable, const B_SIZE: usize>(
    v: Vec<T>,
    tree: QWaveletTree<T, RSQVector<B_SIZE>>,
)
    requires
        call_ensures(QWaveletTree::<T, RSQVector<B_SIZE>>::from, (v,), tree),
        forall|j: int| 0 <= j < v.len() ==> (#[trigger] v[j]).val() <= usize::MAX,
    ensures
        tree.wf(),
        tree.seq() == v@,
        tree.largest() <= usize::MAX,
{
    tree.lemma_wf();
    if v.len() > 0 {
        let m = choose|m: T| is_max(v@, m) && m.val() == tree.largest();
        let j = choose|j: int| 0 <= j < v.len() && #[trigger] v@[j] == m;
        assert(v[j].val() <= usize::MAX);
    }
}

/// What a view of a tree's container shows.
proof fn lemma_plain_view<'a, T: WTIndexable, const B_SIZE: usize>(
    v: Vec<T>,
    tree: QWaveletTree<T, RSQVector<B_SIZE>>,
    bytes: &'a [u8],
    view: QwtView<'a, T, B_SIZE>,
)
    requires
        plain_view(v, tree, bytes, view),
    ensures
        view.wf(),
        tree.wf(),
        view.count() == v.len(),
        view.values() == vals(v@),
        view.level_count() > 0 <==> v.len() > 0,
        forall|t: T| #[trigger] tree.knows(t) <==> v.len() > 0 && t.val() <= view.largest().val(),
        view.shows(tree_bytes(tree)),
        tree_bytes(tree).len() <= usize::MAX,
        tree.largest() <= usize::MAX,
        tree.seq() == v@,
{
    lemma_plain_bytes(v, tree, bytes);
    lemma_tree_opens(tree, 0, view);
    if v.len() > 0 {
        let m = lemma_largest(v@);
        assert(is_max(v@, m));
        assert(tree.knows(m));
        tree.lemma_known(m);
    }
    assert forall|t: T| #[trigger]
        tree.knows(t) <==> v.len() > 0 && t.val() <= view.largest().val() by {
        lemma_tree_queries(tree, view, t, 0);
    }
}

/// Counting in a view of a tree's container.
proof fn lemma_plain_count<'a, T: WTIndexable, const B_SIZE: usize>(
    v: Vec<T>,
    tree: QWaveletTree<T, RSQVector<B_SIZE>>,
    bytes: &'a [u8],
    view: QwtView<'a, T, B_SIZE>,
    symbol: T,
    i: int,
)
    requires
        plain_view(v, tree, bytes, view),
        0 <= i <= v.len(),
    ensures
        tree.knows(symbol) ==> {
            &&& view.reduced(symbol) == symbol.val()
            &&& occurrences(view.values(), view.reduced(symbol), i) == times_before(v@, symbol, i)
        },
{
    lemma_plain_view(v, tree, bytes, view);
    lemma_times_before(v@, symbol, i);
    lemma_tree_queries(tree, view, symbol, i);
    if tree.knows(symbol) {
        tree.lemma_known(symbol);
        lemma_tree_opens(tree, 0, view);
    }
}

/// A view of a plain container gives the symbols that the tree was built from.
pub proof fn plain_view_get<'a, T: WTIndexable, const B_SIZE: usize>(
    v: Vec<T>,
    tree: QWaveletTree<T, RSQVector<B_SIZE>>,
    bytes: &'a [u8],
    view: QwtView<'a, T, B_SIZE>,
    i: usize,
    r: Option<T>,
    n: usize,
    empty: bool,
)
    requires
        plain_view(v, tree, bytes, view),
        call_ensures(QwtView::<'a, T, B_SIZE>::get, (&view, i), r),
        call_ensures(QwtView::<'a, T, B_SIZE>::len, (&view,), n),
        call_ensures(QwtView::<'a, T, B_SIZE>::is_empty, (&view,), empty),
    ensures
        r is Some <==> i < v.len(),
        r matches Some(t) ==> t == v[i as int],
        n == v.len(),
        empty <==> v.len() == 0,
{
    lemma_plain_view(v, tree, bytes, view);
    if i < v.len() {
        lemma_tree_queries(tree, view, v[i as int], i as int);
    }
}

/// Rank in a view of a plain container counts as in the tree, but for a view of
/// nothing, which counts none of every symbol.
pub proof fn plain_view_rank<'a, T: WTIndexable, const B_SIZE: usize>(
    v: Vec<T>,
    tree: QWaveletTree<T, RSQVector<B_SIZE>>,
    bytes: &'a [u8],
    view: QwtView<'a, T, B_SIZE>,
    symbol: T,
    i: usize,
    r: Option<usize>,
)
    requires
        plain_view(v, tree, bytes, view),
        call_ensures(QwtView::<'a, T, B_SIZE>::rank, (&view, symbol, i), r),
    ensures
        v.len() > 0 ==> (r is Some <==> i <= v.len() && exists|j: int|
            0 <= j < v.len() && symbol.val() <= (#[trigger] v[j]).val()),
        v.len() == 0 ==> (r is Some <==> i == 0),
        r matches Some(k) ==> k == times_before(v@, symbol, i as int),
{
    lemma_plain_view(v, tree, bytes, view);
    if i <= v.len() {
        lemma_times_before(v@, symbol, i as int);
        lemma_tree_queries(tree, view, symbol, i as int);
    }
    if v.len() > 0 {
        let m = lemma_largest(v@);
        assert(is_max(v@, m));
        assert(tree.knows(symbol) <==> symbol.val() <= m.val());
    }
}

/// Select in a view of a plain container finds as in the tree.
pub proof fn plain_view_select<'a, T: WTIndexable, const B_SIZE: usize>(
    v: Vec<T>,
    tree: QWaveletTree<T, RSQVector<B_SIZE>>,
    bytes: &'a [u8],
    view: QwtView<'a, T, B_SIZE>,
    symbol: T,
    i: usize,
    r: Option<usize>,
)
    requires
        plain_view(v, tree, bytes, view),
        call_ensures(QwtView::<'a, T, B_SIZE>::select, (&view, symbol, i), r),
    ensures
        match r {
            Some(p) => p < v.len() && v[p as int] == symbol && times_before(v@, symbol, p as int)
                == i,
            None => times_before(v@, symbol, v.len() as int) <= i,
        },
{
    lemma_plain_view(v, tree, bytes, view);
    lemma_times_contains(v@, symbol);
    lemma_plain_count(v, tree, bytes, view, symbol, v.len() as int);
    if let Some(p) = r {
        lemma_plain_count(v, tree, bytes, view, symbol, p as int);
        assert(vals(v@)[p as int] == v[p as int].val());
        symbol.lemma_val();
        v[p as int].lemma_val();
    }
    if v@.contains(symbol) {
        let m = lemma_largest(v@);
        assert(is_max(v@, m));
        let j = choose|j: int| 0 <= j < v.len() && v@[j] == symbol;
        assert(tree.knows(symbol));
    }
}

/// The symbol at a position of a view, and how often it occurs up to there.
pub proof fn plain_view_get_and_rank<'a, T: WTIndexable, const B_SIZE: usize>(
    v: Vec<T>,
    tree: QWaveletTree<T, RSQVector<B_SIZE>>,
    bytes: &'a [u8],
    view: QwtView<'a, T, B_SIZE>,
    i: usize,
    r: Option<(T, usize)>,
)
    requires
        plain_view(v, tree, bytes, view),
        call_ensures(QwtView::<'a, T, B_SIZE>::get_and_rank, (&view, i), r),
    ensures
        r is Some <==> i < v.len(),
        r matches Some((t, k)) ==> t == v[i as int] && k == times_before(v@, t, i + 1),
{
    lemma_plain_view(v, tree, bytes, view);
    if let Some((t, k)) = r {
        let symbol = v[i as int];
        lemma_tree_queries(tree, view, symbol, i as int);
        lemma_times_before(v@, symbol, i + 1);
        lemma_vals_count(v@, symbol, i + 1);
        assert(vals(v@)[i as int] == symbol.val());
    }
}

/// The symbols of a range of a view, in order: all of them, each as often as it
/// stands there, and the same as of the tree.
pub proof fn plain_view_extract_range<'a, T: WTIndexable, const B_SIZE: usize>(
    v: Vec<T>,
    tree: QWaveletTree<T, RSQVector<B_SIZE>>,
    bytes: &'a [u8],
    view: QwtView<'a, T, B_SIZE>,
    range: Range<usize>,
    out: Vec<T>,
    owned: Vec<T>,
)
    requires
        plain_view(v, tree, bytes, view),
        call_ensures(QwtView::<'a, T, B_SIZE>::extract_range, (&view, range), out),
        call_ensures(QWaveletTree::<T, RSQVector<B_SIZE>>::extract_range, (&tree, range), owned),
    ensures
        range.start < range.end <= v.len() ==> in_order(
            v@.subrange(range.start as int, range.end as int),
            out@,
        ) && out.len() == range.end - range.start,
        !(range.start < range.end <= v.len()) ==> out.len() == 0,
        out@ == owned@,
{
    lemma_plain_view(v, tree, bytes, view);
    quad::plain_extract_range(v, tree, range, owned);
    if range.start < range.end <= v.len() {
        let part = v@.subrange(range.start as int, range.end as int);
        assert(vals(part) =~= vals(v@).subrange(range.start as int, range.end as int));
        lemma_extracted(part, out@);
        lemma_in_order_unique(part, out@, owned@);
    }
    assert(out@ =~= owned@);
}

/// The symbols of a range of a view, in order and each once, as of the tree.
pub proof fn plain_view_extract_range_distinct<'a, T: WTIndexable, const B_SIZE: usize>(
    v: Vec<T>,
    tree: QWaveletTree<T, RSQVector<B_SIZE>>,
    bytes: &'a [u8],
    view: QwtView<'a, T, B_SIZE>,
    range: Range<usize>,
    out: Vec<T>,
    owned: Vec<T>,
)
    requires
        plain_view(v, tree, bytes, view),
        call_ensures(QwtView::<'a, T, B_SIZE>::extract_range_distinct, (&view, range), out),
        call_ensures(QWaveletTree::<T, RSQVector<B_SIZE>>::extract_range_distinct, (&tree, range), owned),
    ensures
        range.start < range.end <= v.len() ==> once_in_order(
            v@.subrange(range.start as int, range.end as int),
            out@,
        ),
        !(range.start < range.end <= v.len()) ==> out.len() == 0,
        out@ == owned@,
{
    lemma_plain_view(v, tree, bytes, view);
    quad::plain_extract_range_distinct(v, tree, range, owned);
    if range.start < range.end <= v.len() {
        let part = v@.subrange(range.start as int, range.end as int);
        assert(vals(part) =~= vals(v@).subrange(range.start as int, range.end as int));
        lemma_extracted_once(part, out@);
    }
    assert(out@ =~= owned@);
}

/// Where a view of a plain container owes an answer, the unchecked questions have it.
#[verifier::rlimit(40)]
pub proof fn plain_view_unchecked<'a, T: WTIndexable, const B_SIZE: usize>(
    v: Vec<T>,
    tree: QWaveletTree<T, RSQVector<B_SIZE>>,
    bytes: &'a [u8],
    view: QwtView<'a, T, B_SIZE>,
    i: usize,
    t: T,
    symbol: T,
    j: usize,
    k: usize,
    c: usize,
    p: usize,
)
    requires
        plain_view(v, tree, bytes, view),
        i < v.len(),
        call_ensures(QwtView::<'a, T, B_SIZE>::get_unchecked, (&view, i), t),
        j <= v.len(),
        v@.contains(symbol),
        call_ensures(QwtView::<'a, T, B_SIZE>::rank_unchecked, (&view, symbol, j), k),
        c < times_before(v@, symbol, v.len() as int),
        call_ensures(QwtView::<'a, T, B_SIZE>::select_unchecked, (&view, symbol, c), p),
    ensures
        t == v[i as int],
        k == times_before(v@, symbol, j as int),
        p < v.len() && v[p as int] == symbol && times_before(v@, symbol, p as int) == c,
        call_requires(QwtView::<'a, T, B_SIZE>::get_unchecked, (&view, i)),
        call_requires(QwtView::<'a, T, B_SIZE>::rank_unchecked, (&view, symbol, j)),
        call_requires(QwtView::<'a, T, B_SIZE>::select_unchecked, (&view, symbol, c)),
{
    lemma_plain_view(v, tree, bytes, view);
    lemma_plain_count(v, tree, bytes, view, symbol, j as int);
    lemma_plain_count(v, tree, bytes, view, symbol, v.len() as int);
    lemma_tree_queries(tree, view, v[i as int], i as int);
    let q = choose|q: int| 0 <= q < v.len() && v@[q] == symbol;
    let m = lemma_largest(v@);
    assert(is_max(v@, m));
    assert(tree.knows(symbol));
    if p < v.len() {
        lemma_plain_count(v, tree, bytes, view, symbol, p as int);
        assert(vals(v@)[p as int] == v[p as int].val());
        symbol.lemma_val();
        v[p as int].lemma_val();
    }
}

/// A view of a plain container has the levels of the tree.
pub proof fn plain_view_levels<'a, T: WTIndexable, const B_SIZE: usize>(
    v: Vec<T>,
    tree: QWaveletTree<T, RSQVector<B_SIZE>>,
    bytes: &'a [u8],
    view: QwtView<'a, T, B_SIZE>,
    l: usize,
    owned: usize,
)
    requires
        plain_view(v, tree, bytes, view),
        call_ensures(QwtView::<'a, T, B_SIZE>::n_levels, (&view,), l),
        call_ensures(QWaveletTree::<T, RSQVector<B_SIZE>>::n_levels, (&tree,), owned),
    ensures
        l == owned,
{
    lemma_plain_bytes(v, tree, bytes);
    lemma_tree_opens(tree, 0, view);
}

/// A view has the largest symbol of the tree.
pub proof fn plain_view_sigma_raw<'a, T: WTIndexable, const B_SIZE: usize>(
    v: Vec<T>,
    tree: QWaveletTree<T, RSQVector<B_SIZE>>,
    bytes: &'a [u8],
    view: QwtView<'a, T, B_SIZE>,
    m: T,
)
    requires
        plain_view(v, tree, bytes, view),
        call_ensures(QwtView::<'a, T, B_SIZE>::sigma_raw, (&view,), m),
    ensures
        v.len() > 0 ==> v@.contains(m),
        forall|j: int| 0 <= j < v.len() ==> (#[trigger] v[j]).val() <= m.val(),
        v.len() == 0 ==> m.val() == 0,
{
    lemma_plain_bytes(v, tree, bytes);
    lemma_tree_opens(tree, 0, view);
    tree.lemma_wf();
    if v.len() > 0 {
        let top = lemma_largest(v@);
        assert(is_max(v@, top));
        lemma_plain_view(v, tree, bytes, view);
        assert(tree.knows(top));
        top.lemma_val();
        m.lemma_val();
        T::lemma_truncated(m.val());
        assert(tree.knows(m));
        assert(top.val() == m.val());
        assert(top == m);
    }
}

/// Collecting the symbols of a range into a list replaces what the list held.
pub proof fn plain_view_extract_into<'a, T: WTIndexable, const B_SIZE: usize>(
    view: QwtView<'a, T, B_SIZE>,
    range: Range<usize>,
    out: &mut Vec<T>,
    given: Vec<T>,
    done: (),
)
    requires
        call_ensures(QwtView::<'a, T, B_SIZE>::extract_range_distinct_into, (&view, range, out), done),
        call_ensures(QwtView::<'a, T, B_SIZE>::extract_range_distinct, (&view, range), given),
    ensures
        final(out)@ == given@,
{
}

/// What is opened as a plain container begins with a header of 32 bytes: the letters
/// QWTB, version 1, no prefetch data, the block size and the width of symbols. What
/// does not is refused for the first of these that is wrong.
pub proof fn plain_header<'a, T: WTIndexable, const B_SIZE: usize>(
    bytes: &'a [u8],
    addr: usize,
    r: Result<QwtView<'a, T, B_SIZE>, LayoutError>,
)
    requires
        call_ensures(QwtView::<'a, T, B_SIZE>::from_bytes_at, (bytes, addr), r),
    ensures
        bytes@.len() < 32 ==> refused(r, LayoutError::Truncated),
        bytes@.len() >= 32 ==> {
            let s = bytes@;
            &&& s.subrange(0, 4) != seq![0x51u8, 0x57u8, 0x54u8, 0x42u8] <==> refused(r, LayoutError::BadMagic)
            &&& s.subrange(0, 4) == seq![0x51u8, 0x57u8, 0x54u8, 0x42u8] ==> {
                let version = s[4] + 256 * s[5];
                &&& version != 1 <==> refused(r, LayoutError::BadVersion)
                &&& version == 1 ==> (s[6] & 2 != 0 <==> refused(r, LayoutError::PrefetchNotSupported))
            }
        },
        bytes@.len() >= 32 && bytes@.subrange(0, 4) == seq![0x51u8, 0x57u8, 0x54u8, 0x42u8]
            && bytes@[4] == 1 && bytes@[5] == 0
            && bytes@[6] & 2 == 0 && !((bytes@[6] & 1 != 0 <==> B_SIZE == 512) && bytes@[7] * 8
            == T::bit_width()) ==> r is Err && r->Err_0 is Inconsistent,
        r is Ok ==> bytes@.len() >= 32 && (bytes@[6] & 1 != 0 <==> B_SIZE == 512) && bytes@[7] * 8
            == T::bit_width(),
{
    let s = bytes@;
    assert(QWTB_MAGIC@ =~= seq![0x51u8, 0x57u8, 0x54u8, 0x42u8]);
    if s.len() >= 32 {
        let two = s.subrange(4, 6);
        assert(le_at(s, 4, 2) == s[4] + 256 * s[5]) by {
            reveal_with_fuel(le_value, 3);
            assert(two.drop_first().drop_first() =~= Seq::<u8>::empty());
        }
    }
    lemma_plain_faults(s, addr as int, B_SIZE == 512, T::bit_width() as int);
}

proof fn lemma_plain_faults(s: Seq<u8>, addr: int, b512: bool, width: int)
    ensures
        header_error(s, QWTB_MAGIC@, b512, width) is None ==> {
            &&& qwtb_error(s, addr, b512, width) != Some(LayoutError::BadMagic)
            &&& qwtb_error(s, addr, b512, width) != Some(LayoutError::BadVersion)
            &&& qwtb_error(s, addr, b512, width) != Some(LayoutError::PrefetchNotSupported)
        },
{
    lemma_dir_faults(s, addr, b512, LEVEL_DIR_SIZE as int, qwtb_level_count(s), 0);
}

proof fn lemma_plain_level_count<T: WTIndexable, const B_SIZE: usize>(
    tree: QWaveletTree<T, RSQVector<B_SIZE>>,
)
    requires
        tree.wf(),
    ensures
        qwtb_level_count(tree_bytes(tree)) == tree.level_count(),
{
    tree.lemma_wf();
    T::lemma_width();
    let s = tree_bytes(tree);
    let (n, m, l) = (tree.seq().len() as int, tree.largest() as int, tree.level_count() as int);
    lemma_le_bytes(FORMAT_VERSION as int, 2);
    lemma_le_bytes(T::bit_width() as int / 8, 1);
    lemma_le_bytes(n, 8);
    lemma_le_bytes(m, 8);
    lemma_le_bytes(l, 2);
    lemma_le_bytes(0, 6);
    lemma_pow256();
    assert(s.subrange(24, 26) =~= le_bytes(l, 2));
    lemma_le_at(s, 24, 2, l);
}

/// The header of the container of a tree names, low bytes first, the number of
/// symbols, the largest symbol and the number of levels.
pub proof fn plain_header_fields<'a, T: WTIndexable, const B_SIZE: usize>(
    v: Vec<T>,
    tree: QWaveletTree<T, RSQVector<B_SIZE>>,
    bytes: &'a [u8],
    levels: usize,
)
    requires
        plain_container(v, tree, bytes),
        call_ensures(QWaveletTree::<T, RSQVector<B_SIZE>>::n_levels, (&tree,), levels),
    ensures
        bytes@.len() >= 32,
        eight_bytes(bytes@, 8) == v.len(),
        v.len() > 0 ==> exists|m: T| #[trigger]
            is_max(v@, m) && eight_bytes(bytes@, 16) == m.val(),
        v.len() == 0 ==> eight_bytes(bytes@, 16) == 0,
        bytes@[24] + 256 * bytes@[25] == levels,
{
    lemma_plain_bytes(v, tree, bytes);
    tree.lemma_wf();
    T::lemma_width();
    let s = bytes@;
    let (n, m, l) = (v.len() as int, tree.largest() as int, levels as int);
    let w = T::bit_width() as int / 8;
    lemma_le_bytes(FORMAT_VERSION as int, 2);
    lemma_le_bytes(w, 1);
    lemma_le_bytes(n, 8);
    lemma_le_bytes(m, 8);
    lemma_le_bytes(l, 2);
    lemma_le_bytes(0, 6);
    lemma_pow256();
    assert(s.subrange(8, 16) =~= le_bytes(n, 8));
    assert(s.subrange(16, 24) =~= le_bytes(m, 8));
    assert(s.subrange(24, 26) =~= le_bytes(l, 2));
    lemma_le_at(s, 8, 8, n);
    lemma_le_at(s, 16, 8, m);
    lemma_le_at(s, 24, 2, l);
    lemma_eight_bytes(s, 8);
    lemma_eight_bytes(s, 16);
    lemma_two_bytes(s, 24);
}

/// The symbol of a view and its rank, where the position lies in the sequence.
pub proof fn plain_view_get_and_rank_unchecked<'a, T: WTIndexable, const B_SIZE: usize>(
    v: Vec<T>,
    tree: QWaveletTree<T, RSQVector<B_SIZE>>,
    bytes: &'a [u8],
    view: QwtView<'a, T, B_SIZE>,
    i: usize,
    r: (T, usize),
)
    requires
        plain_view(v, tree, bytes, view),
        i < v.len(),
        call_ensures(QwtView::<'a, T, B_SIZE>::get_and_rank_unchecked, (&view, i), r),
    ensures
        call_requires(QwtView::<'a, T, B_SIZE>::get_and_rank_unchecked, (&view, i)),
        r.0 == v[i as int],
        r.1 == times_before(v@, r.0, i + 1),
{
    lemma_plain_view(v, tree, bytes, view);
    let symbol = v[i as int];
    lemma_tree_queries(tree, view, symbol, i as int);
    lemma_times_before(v@, symbol, i + 1);
    lemma_vals_count(v@, symbol, i + 1);
    assert(vals(v@)[i as int] == symbol.val());
}

/// Every question can be put to a view of a plain container.
pub proof fn plain_view_open_to_questions<'a, T: WTIndexable, const B_SIZE: usize>(
    v: Vec<T>,
    tree: QWaveletTree<T, RSQVector<B_SIZE>>,
    bytes: &'a [u8],
    view: QwtView<'a, T, B_SIZE>,
    symbol: T,
    i: usize,
    range: Range<usize>,
)
    requires
        plain_view(v, tree, bytes, view),
    ensures
        call_requires(QwtView::<'a, T, B_SIZE>::get, (&view, i)),
        call_requires(QwtView::<'a, T, B_SIZE>::rank, (&view, symbol, i)),
        call_requires(QwtView::<'a, T, B_SIZE>::select, (&view, symbol, i)),
        call_requires(QwtView::<'a, T, B_SIZE>::get_and_rank, (&view, i)),
        call_requires(QwtView::<'a, T, B_SIZE>::extract_range, (&view, range)),
        call_requires(QwtView::<'a, T, B_SIZE>::extract_range_distinct, (&view, range)),
{
    lemma_plain_view(v, tree, bytes, view);
}

/// A compressed container is refused for the order of the host only by a host that says
/// so, and never where the address is given.
pub proof fn compressed_host_refusal<'a, T: WTIndexable, const B_SIZE: usize>(
    bytes: &'a [u8],
    addr: usize,
    r: Result<HqwtView<'a, T, B_SIZE>, LayoutError>,
    at: Result<HqwtView<'a, T, B_SIZE>, LayoutError>,
)
    requires
        call_ensures(HqwtView::<'a, T, B_SIZE>::from_bytes, (bytes,), r),
        call_ensures(HqwtView::<'a, T, B_SIZE>::from_bytes_at, (bytes, addr), at),
    ensures
        refused(r, LayoutError::BigEndian) ==> host_answers(
            Err(LayoutError::BigEndian),
        ) && !little_endian_host(),
        !refused(at, LayoutError::BigEndian),
{
    lemma_fault(
        bytes@,
        HQWB_MAGIC@,
        addr as int,
        B_SIZE == 512,
        T::bit_width() as int,
        HQWT_LEVEL_DIR_SIZE as int,
        hqwb_level_count(bytes@),
        0,
    );
}

/// The bytes are the container of the tree of `v`.
pub open spec fn compressed_container<'a, T: WTIndexable, const B_SIZE: usize>(
    v: Vec<T>,
    tree: HuffQWaveletTree<T, RSQVector<B_SIZE>>,
    bytes: &'a [u8],
) -> bool {
    &&& call_ensures(HuffQWaveletTree::<T, RSQVector<B_SIZE>>::from, (v,), Some(tree))
    &&& exists|w: Vec<u8>| #[trigger]
        call_ensures(hqwt_to_bytes::<T, B_SIZE>, (&tree,), Ok(w)) && w@ == bytes@
}

/// The view was opened on the container of the tree of `v`.
pub open spec fn compressed_view<'a, T: WTIndexable, const B_SIZE: usize>(
    v: Vec<T>,
    tree: HuffQWaveletTree<T, RSQVector<B_SIZE>>,
    bytes: &'a [u8],
    view: HqwtView<'a, T, B_SIZE>,
) -> bool {
    &&& compressed_container(v, tree, bytes)
    &&& call_ensures(HqwtView::<'a, T, B_SIZE>::from_bytes, (bytes,), Ok(view)) || exists|addr: usize|
        #[trigger] call_ensures(HqwtView::<'a, T, B_SIZE>::from_bytes_at, (bytes, addr), Ok(view))
}

/// The container of a tree can be opened wherever it lies at a multiple of 64, on
/// a host that reads the low byte first.
pub proof fn compressed_opens<'a, T: WTIndexable, const B_SIZE: usize>(
    v: Vec<T>,
    tree: HuffQWaveletTree<T, RSQVector<B_SIZE>>,
    bytes: &'a [u8],
    addr: usize,
    at: Result<HqwtView<'a, T, B_SIZE>, LayoutError>,
    r: Result<HqwtView<'a, T, B_SIZE>, LayoutError>,
)
    requires
        compressed_container(v, tree, bytes),
        call_ensures(HqwtView::<'a, T, B_SIZE>::from_bytes_at, (bytes, addr), at),
        call_ensures(HqwtView::<'a, T, B_SIZE>::from_bytes, (bytes,), r),
    ensures
        addr % 64 == 0 ==> at is Ok,
        v.len() > 0 && addr % 64 != 0 ==> refused(at, LayoutError::Misaligned),
        little_endian_host() && lies_aligned(bytes) ==> r is Ok,
        little_endian_host() && r is Err ==> exists|base: usize| #[trigger]
            begins_at(bytes, base) && base % 64 != 0,
{
    lemma_compressed_bytes(v, tree, bytes);
    tree.lemma_wf();
    lemma_compressed_opened(tree, bytes@, addr as int, at);
    if !refused(r, LayoutError::BigEndian) {
        let base = choose|base: usize| #[trigger]
            begins_at(bytes, base) && HqwtView::<'a, T, B_SIZE>::opened(r, bytes@, base as int);
        lemma_compressed_opened(tree, bytes@, base as int, r);
    }
}

/// On a host that [`ensure_le`] accepts, a compressed container is never refused for the order of
/// the host.
pub proof fn compressed_accepted_host<'a, T: WTIndexable, const B_SIZE: usize>(
    bytes: &'a [u8],
    r: Result<HqwtView<'a, T, B_SIZE>, LayoutError>,
)
    requires
        call_ensures(HqwtView::<'a, T, B_SIZE>::from_bytes, (bytes,), r),
        forall|host: Result<(), LayoutError>| #[trigger]
            call_ensures(ensure_le, (), host) ==> host is Ok,
    ensures
        !refused(r, LayoutError::BigEndian),
{
}

/// On such a host, bytes that lie at a multiple of 64 and hold a compressed container of a tree are
/// opened.
pub(crate) proof fn compressed_opens_in_place<'a, T: WTIndexable, const B_SIZE: usize>(
    v: Vec<T>,
    tree: HuffQWaveletTree<T, RSQVector<B_SIZE>>,
    bytes: &'a [u8],
    r: Result<HqwtView<'a, T, B_SIZE>, LayoutError>,
)
    requires
        compressed_container(v, tree, bytes),
        call_ensures(HqwtView::<'a, T, B_SIZE>::from_bytes, (bytes,), r),
        forall|host: Result<(), LayoutError>| #[trigger]
            call_ensures(ensure_le, (), host) ==> host is Ok,
        forall|addr: usize| #[trigger]
            call_ensures(slice_address, (bytes,), addr) ==> addr % 64 == 0,
    ensures
        r matches Ok(view) && compressed_view(v, tree, bytes, view),
{
    compressed_accepted_host(bytes, r);
    lemma_compressed_bytes(v, tree, bytes);
    let base = choose|base: usize| #[trigger]
        begins_at(bytes, base) && HqwtView::<'a, T, B_SIZE>::opened(r, bytes@, base as int);
    lemma_address(bytes, base);
    lemma_compressed_opened(tree, bytes@, base as int, r);
}

/// What the bytes of a tree's container are.
proof fn lemma_compressed_bytes<'a, T: WTIndexable, const B_SIZE: usize>(
    v: Vec<T>,
    tree: HuffQWaveletTree<T, RSQVector<B_SIZE>>,
    bytes: &'a [u8],
)
    requires
        compressed_container(v, tree, bytes),
    ensures
        tree.wf(),
        tree.seq() == v@,
        bytes@ == huff_tree_bytes(tree),
        huff_tree_bytes(tree).len() <= usize::MAX,
        tree.encode().len() < 0x1_0000,
{
    assert(bytes@.len() <= usize::MAX) by {
        let w = choose|w: Vec<u8>| #[trigger]
            call_ensures(hqwt_to_bytes::<T, B_SIZE>, (&tree,), Ok(w)) && w@ == bytes@;
        assert(w.len() == bytes@.len());
    }
}

/// Opening a tree's container at a multiple of 64, and elsewhere.
#[verifier::rlimit(40)]
proof fn lemma_compressed_opened<'a, T: WTIndexable, const B_SIZE: usize>(
    tree: HuffQWaveletTree<T, RSQVector<B_SIZE>>,
    s: Seq<u8>,
    addr: int,
    r: Result<HqwtView<'a, T, B_SIZE>, LayoutError>,
)
    requires
        tree.wf(),
        s == huff_tree_bytes(tree),
        huff_tree_bytes(tree).len() <= usize::MAX,
        tree.encode().len() < 0x1_0000,
        HqwtView::<'a, T, B_SIZE>::opened(r, s, addr),
    ensures
        addr % 64 == 0 ==> r is Ok,
        tree.level_count() > 0 && addr % 64 != 0 ==> refused(r, LayoutError::Misaligned),
{
    lemma_fault_free_compressed::<T, B_SIZE>(tree, addr - addr % 64);
    if tree.level_count() > 0 && addr % 64 != 0 {
        lemma_misaligned(s, addr, B_SIZE == 512, HQWT_LEVEL_DIR_SIZE as int, hqwb_level_count(s));
    }
}

proof fn lemma_fault_free_compressed<T: WTIndexable, const B_SIZE: usize>(
    tree: HuffQWaveletTree<T, RSQVector<B_SIZE>>,
    addr: int,
)
    requires
        tree.wf(),
        huff_tree_bytes(tree).len() <= usize::MAX,
        addr % 64 == 0,
        tree.encode().len() < 0x1_0000,
    ensures
        hqwb_error(huff_tree_bytes(tree), addr, B_SIZE == 512, T::bit_width() as int) is None,
        hqwb_level_count(huff_tree_bytes(tree)) == tree.level_count(),
{
    lemma_huff_tree_opens(tree, addr, vstd::pervasive::arbitrary::<HqwtView<'_, T, B_SIZE>>());
    lemma_compressed_level_count(tree);
}

/// What a view of a tree's container shows.
proof fn lemma_compressed_view<'a, T: WTIndexable, const B_SIZE: usize>(
    v: Vec<T>,
    tree: HuffQWaveletTree<T, RSQVector<B_SIZE>>,
    bytes: &'a [u8],
    view: HqwtView<'a, T, B_SIZE>,
)
    requires
        compressed_view(v, tree, bytes, view),
    ensures
        view.wf(),
        tree.wf(),
        view.represents(v@),
        forall|t: T|
            coded(view.encode(), #[trigger] t.val() as int) <==> v@.contains(t),
{
    lemma_compressed_bytes(v, tree, bytes);
    lemma_huff_tree_opens(tree, 0, view);
    assert forall|t: T| coded(view.encode(), #[trigger] t.val() as int) <==> v@.contains(t) by {
        assert(tree.knows(t) <==> v@.contains(t));
    }
}

/// A view of a compressed container gives the symbols that the tree was built from.
pub proof fn compressed_view_get<'a, T: WTIndexable, const B_SIZE: usize>(
    v: Vec<T>,
    tree: HuffQWaveletTree<T, RSQVector<B_SIZE>>,
    bytes: &'a [u8],
    view: HqwtView<'a, T, B_SIZE>,
    i: usize,
    r: Option<T>,
    n: usize,
    empty: bool,
)
    requires
        compressed_view(v, tree, bytes, view),
        call_ensures(HqwtView::<'a, T, B_SIZE>::get, (&view, i), r),
        call_ensures(HqwtView::<'a, T, B_SIZE>::len, (&view,), n),
        call_ensures(HqwtView::<'a, T, B_SIZE>::is_empty, (&view,), empty),
    ensures
        r is Some <==> i < v.len(),
        r matches Some(t) ==> t == v[i as int],
        n == v.len(),
        empty <==> v.len() == 0,
{
    lemma_compressed_view(v, tree, bytes, view);
    assert(view.represents(v@));
}

/// Rank in a view of a compressed container counts as in the tree.
pub proof fn compressed_view_rank<'a, T: WTIndexable, const B_SIZE: usize>(
    v: Vec<T>,
    tree: HuffQWaveletTree<T, RSQVector<B_SIZE>>,
    bytes: &'a [u8],
    view: HqwtView<'a, T, B_SIZE>,
    symbol: T,
    i: usize,
    r: Option<usize>,
)
    requires
        compressed_view(v, tree, bytes, view),
        call_ensures(HqwtView::<'a, T, B_SIZE>::rank, (&view, symbol, i), r),
    ensures
        r is Some <==> i <= v.len() && v@.contains(symbol),
        r matches Some(k) ==> k == times_before(v@, symbol, i as int),
{
    lemma_compressed_view(v, tree, bytes, view);
    assert(view.represents(v@));
    if i <= v.len() {
        lemma_times_before(v@, symbol, i as int);
    }
}

/// Select in a view of a compressed container finds as in the tree.
pub proof fn compressed_view_select<'a, T: WTIndexable, const B_SIZE: usize>(
    v: Vec<T>,
    tree: HuffQWaveletTree<T, RSQVector<B_SIZE>>,
    bytes: &'a [u8],
    view: HqwtView<'a, T, B_SIZE>,
    symbol: T,
    i: usize,
    r: Option<usize>,
)
    requires
        compressed_view(v, tree, bytes, view),
        call_ensures(HqwtView::<'a, T, B_SIZE>::select, (&view, symbol, i), r),
    ensures
        match r {
            Some(p) => p < v.len() && v[p as int] == symbol && times_before(v@, symbol, p as int)
                == i,
            None => times_before(v@, symbol, v.len() as int) <= i,
        },
{
    lemma_compressed_view(v, tree, bytes, view);
    assert(view.represents(v@));
    lemma_times_before(v@, symbol, v.len() as int);
    lemma_times_contains(v@, symbol);
    if let Some(p) = r {
        lemma_times_before(v@, symbol, p as int);
    }
}

/// A view of a compressed container gives the symbol at a position that lies in the sequence.
pub proof fn compressed_view_get_unchecked<'a, T: WTIndexable, const B_SIZE: usize>(
    v: Vec<T>,
    tree: HuffQWaveletTree<T, RSQVector<B_SIZE>>,
    bytes: &'a [u8],
    view: HqwtView<'a, T, B_SIZE>,
    i: usize,
    t: T,
)
    requires
        compressed_view(v, tree, bytes, view),
        i < v.len(),
        call_ensures(HqwtView::<'a, T, B_SIZE>::get_unchecked, (&view, i), t),
    ensures
        call_requires(HqwtView::<'a, T, B_SIZE>::get_unchecked, (&view, i)),
        t == v[i as int],
{
    lemma_compressed_view(v, tree, bytes, view);
    assert(view.represents(v@));
}

/// A view of a compressed container counts a symbol of the sequence up to a position in it.
pub proof fn compressed_view_rank_unchecked<'a, T: WTIndexable, const B_SIZE: usize>(
    v: Vec<T>,
    tree: HuffQWaveletTree<T, RSQVector<B_SIZE>>,
    bytes: &'a [u8],
    view: HqwtView<'a, T, B_SIZE>,
    symbol: T,
    j: usize,
    k: usize,
)
    requires
        compressed_view(v, tree, bytes, view),
        j <= v.len(),
        v@.contains(symbol),
        call_ensures(HqwtView::<'a, T, B_SIZE>::rank_unchecked, (&view, symbol, j), k),
    ensures
        call_requires(HqwtView::<'a, T, B_SIZE>::rank_unchecked, (&view, symbol, j)),
        k == times_before(v@, symbol, j as int),
{
    lemma_compressed_view(v, tree, bytes, view);
    assert(view.represents(v@));
    lemma_times_before(v@, symbol, j as int);
}

/// A view of a compressed container has the levels of the tree.
pub proof fn compressed_view_levels<'a, T: WTIndexable, const B_SIZE: usize>(
    v: Vec<T>,
    tree: HuffQWaveletTree<T, RSQVector<B_SIZE>>,
    bytes: &'a [u8],
    view: HqwtView<'a, T, B_SIZE>,
    l: usize,
    owned: usize,
)
    requires
        compressed_view(v, tree, bytes, view),
        call_ensures(HqwtView::<'a, T, B_SIZE>::n_levels, (&view,), l),
        call_ensures(HuffQWaveletTree::<T, RSQVector<B_SIZE>>::n_levels, (&tree,), owned),
    ensures
        l == owned,
{
    lemma_compressed_bytes(v, tree, bytes);
    lemma_huff_tree_opens(tree, 0, view);
}

/// What is opened as a compressed container begins with a header of 32 bytes: the letters
/// HQWB, version 1, no prefetch data, the block size and the width of symbols. What
/// does not is refused for the first of these that is wrong.
pub proof fn compressed_header<'a, T: WTIndexable, const B_SIZE: usize>(
    bytes: &'a [u8],
    addr: usize,
    r: Result<HqwtView<'a, T, B_SIZE>, LayoutError>,
)
    requires
        call_ensures(HqwtView::<'a, T, B_SIZE>::from_bytes_at, (bytes, addr), r),
    ensures
        bytes@.len() < 32 ==> refused(r, LayoutError::Truncated),
        bytes@.len() >= 32 ==> {
            let s = bytes@;
            &&& s.subrange(0, 4) != seq![0x48u8, 0x51u8, 0x57u8, 0x42u8] <==> refused(r, LayoutError::BadMagic)
            &&& s.subrange(0, 4) == seq![0x48u8, 0x51u8, 0x57u8, 0x42u8] ==> {
                let version = s[4] + 256 * s[5];
                &&& version != 1 <==> refused(r, LayoutError::BadVersion)
                &&& version == 1 ==> (s[6] & 2 != 0 <==> refused(r, LayoutError::PrefetchNotSupported))
            }
        },
        bytes@.len() >= 32 && bytes@.subrange(0, 4) == seq![0x48u8, 0x51u8, 0x57u8, 0x42u8]
            && bytes@[4] == 1 && bytes@[5] == 0
            && bytes@[6] & 2 == 0 && !((bytes@[6] & 1 != 0 <==> B_SIZE == 512) && bytes@[7] * 8
            == T::bit_width()) ==> r is Err && r->Err_0 is Inconsistent,
        r is Ok ==> bytes@.len() >= 32 && (bytes@[6] & 1 != 0 <==> B_SIZE == 512) && bytes@[7] * 8
            == T::bit_width(),
{
    let s = bytes@;
    assert(HQWB_MAGIC@ =~= seq![0x48u8, 0x51u8, 0x57u8, 0x42u8]);
    if s.len() >= 32 {
        let two = s.subrange(4, 6);
        assert(le_at(s, 4, 2) == s[4] + 256 * s[5]) by {
            reveal_with_fuel(le_value, 3);
            assert(two.drop_first().drop_first() =~= Seq::<u8>::empty());
        }
    }
    lemma_compressed_faults(s, addr as int, B_SIZE == 512, T::bit_width() as int);
}

proof fn lemma_compressed_faults(s: Seq<u8>, addr: int, b512: bool, width: int)
    ensures
        header_error(s, HQWB_MAGIC@, b512, width) is None ==> {
            &&& hqwb_error(s, addr, b512, width) != Some(LayoutError::BadMagic)
            &&& hqwb_error(s, addr, b512, width) != Some(LayoutError::BadVersion)
            &&& hqwb_error(s, addr, b512, width) != Some(LayoutError::PrefetchNotSupported)
        },
{
    lemma_dir_faults(s, addr, b512, HQWT_LEVEL_DIR_SIZE as int, hqwb_level_count(s), 0);
}

proof fn lemma_compressed_level_count<T: WTIndexable, const B_SIZE: usize>(
    tree: HuffQWaveletTree<T, RSQVector<B_SIZE>>,
)
    requires
        tree.wf(),
        tree.encode().len() < 0x1_0000,
    ensures
        hqwb_level_count(huff_tree_bytes(tree)) == tree.level_count(),
{
    tree.lemma_wf();
    T::lemma_width();
    let s = huff_tree_bytes(tree);
    let (n, l, e) = (
        tree.seq().len() as int,
        tree.level_count() as int,
        tree.encode().len() as int,
    );
    lemma_le_bytes(FORMAT_VERSION as int, 2);
    lemma_le_bytes(T::bit_width() as int / 8, 1);
    lemma_le_bytes(n, 8);
    lemma_le_bytes(l, 2);
    lemma_le_bytes(e, 2);
    lemma_le_bytes(rows_view(tree.decode()).len() as int, 2);
    lemma_le_bytes(0, 10);
    lemma_pow256();
    assert(s.subrange(16, 18) =~= le_bytes(l, 2));
    lemma_le_at(s, 16, 2, l);
}

/// The header of the container of a tree names, low bytes first, the number of
/// symbols, the number of levels and the size of the alphabet.
pub proof fn compressed_header_fields<'a, T: WTIndexable, const B_SIZE: usize>(
    v: Vec<T>,
    tree: HuffQWaveletTree<T, RSQVector<B_SIZE>>,
    bytes: &'a [u8],
    levels: usize,
)
    requires
        compressed_container(v, tree, bytes),
        call_ensures(HuffQWaveletTree::<T, RSQVector<B_SIZE>>::n_levels, (&tree,), levels),
    ensures
        bytes@.len() >= 32,
        eight_bytes(bytes@, 8) == v.len(),
        bytes@[16] + 256 * bytes@[17] == levels,
        v.len() > 0 ==> exists|m: T| #[trigger]
            is_max(v@, m) && bytes@[18] + 256 * bytes@[19] == m.val() + 1,
        v.len() == 0 ==> bytes@[18] + 256 * bytes@[19] == 0,
{
    lemma_compressed_bytes(v, tree, bytes);
    tree.lemma_wf();
    T::lemma_width();
    let s = bytes@;
    let (n, l, e) = (v.len() as int, levels as int, tree.encode().len() as int);
    let b = rows_view(tree.decode()).len() as int;
    let w = T::bit_width() as int / 8;
    lemma_le_bytes(FORMAT_VERSION as int, 2);
    lemma_le_bytes(w, 1);
    lemma_le_bytes(n, 8);
    lemma_le_bytes(l, 2);
    lemma_le_bytes(e, 2);
    lemma_le_bytes(b, 2);
    lemma_le_bytes(0, 10);
    lemma_pow256();
    assert(s.subrange(8, 16) =~= le_bytes(n, 8));
    assert(s.subrange(16, 18) =~= le_bytes(l, 2));
    assert(s.subrange(18, 20) =~= le_bytes(e, 2));
    lemma_le_at(s, 8, 8, n);
    lemma_le_at(s, 16, 2, l);
    lemma_le_at(s, 18, 2, e);
    lemma_eight_bytes(s, 8);
    lemma_two_bytes(s, 16);
    lemma_two_bytes(s, 18);
    if v.len() > 0 {
        let m = lemma_largest(v@);
        assert(is_max(v@, m));
    }
}

/// A view of a compressed container has the codes of the tree.
pub proof fn compressed_view_codes<'a, T: WTIndexable, const B_SIZE: usize>(
    v: Vec<T>,
    tree: HuffQWaveletTree<T, RSQVector<B_SIZE>>,
    bytes: &'a [u8],
    view: HqwtView<'a, T, B_SIZE>,
    codes: &[PrefixCode],
    owned: &Vec<PrefixCode>,
)
    requires
        compressed_view(v, tree, bytes, view),
        call_ensures(HqwtView::<'a, T, B_SIZE>::codes_encode, (&view,), codes),
        call_ensures(HuffQWaveletTree::<T, RSQVector<B_SIZE>>::codes_encode, (&tree,), owned),
    ensures
        codes@ == owned@,
{
    lemma_compressed_bytes(v, tree, bytes);
    lemma_huff_tree_opens(tree, 0, view);
}

/// Every question can be put to a view of a compressed container.
pub proof fn compressed_view_open_to_questions<'a, T: WTIndexable, const B_SIZE: usize>(
    v: Vec<T>,
    tree: HuffQWaveletTree<T, RSQVector<B_SIZE>>,
    bytes: &'a [u8],
    view: HqwtView<'a, T, B_SIZE>,
    symbol: T,
    i: usize,
)
    requires
        compressed_view(v, tree, bytes, view),
    ensures
        call_requires(HqwtView::<'a, T, B_SIZE>::get, (&view, i)),
        call_requires(HqwtView::<'a, T, B_SIZE>::rank, (&view, symbol, i)),
        call_requires(HqwtView::<'a, T, B_SIZE>::select, (&view, symbol, i)),
{
    lemma_compressed_view(v, tree, bytes, view);
}

} // verus!
