//! Listing the symbols of a range of positions.

use std::ops::Range;

use vstd::arithmetic::power2::{
    lemma2_to64, lemma2_to64_rest, lemma_pow2_strictly_increases, lemma_pow2_unfold, pow2,
};
use vstd::prelude::*;

use super::{BinRSforWT, WaveletTree, WaveletTreeParts};
use crate::builder::{code_set, lemma_codable};
use crate::codes::{code_digits, coded, lemma_code_digits};
use crate::digits::{lemma_digits_of, lemma_radix_pow, lemma_value_of_digits};
use crate::indexable::WTIndexable;
use crate::level::{code_of, DigitLevel};
use crate::matrix::{lemma_plain_path, lemma_prefix_free, plain_levels};
use crate::occs::{
    is_path, leaves, leaves_from, lemma_node_child, lemma_node_uniform, node, paths_prefix_free,
};
use crate::tables::{
    decode_symbol, entry_at, row_encodes, row_has, row_sorted, row_symbol, rows_view,
};
use crate::tree::{
    ascending, count_sum, entry_of, lemma_element, lemma_lists, lemma_represents,
    lemma_represents_path, lemma_root_node, lemma_symbol_code, lists, occs_ok,
};
use crate::wavelet::{
    child, count, digits_below, lemma_below_zero, lemma_child_bounds, lemma_count_bounds,
    lemma_count_mono, path,
};

verus! {

/// One end of a range of positions.
#[derive(Clone, Copy, Debug, PartialEq, Eq, Structural)]
pub enum PositionBound {
    Included(usize),
    Excluded(usize),
    Unbounded,
}

/// The first position of a range that begins at `bound`.
pub open spec fn first_position(bound: PositionBound) -> int {
    match bound {
        PositionBound::Included(p) => p as int,
        PositionBound::Excluded(p) => p + 1,
        PositionBound::Unbounded => 0,
    }
}

/// The position behind a range of a sequence of length `n` that ends at `bound`.
pub open spec fn end_position(bound: PositionBound, n: int) -> int {
    match bound {
        PositionBound::Included(p) => p + 1,
        PositionBound::Excluded(p) => p as int,
        PositionBound::Unbounded => n,
    }
}

struct OccsRangeFrame {
    start: usize,
    end: usize,
    level: usize,
    bit_path: u64,
}

/// A walk over the symbols that occur in a range, with their numbers of
/// occurrences.
pub struct OccsRangeIter<'a, T, BRS, const COMPRESSED: bool> {
    tree: &'a WaveletTree<T, BRS, COMPRESSED>,
    stack: Vec<OccsRangeFrame>,
}

/// The digits on the way to a frame.
spec fn frame_code(f: OccsRangeFrame) -> Seq<u8> {
    code_of(f.bit_path, f.level as int, 1)
}

spec fn frame_leaves(levels: Seq<Seq<u8>>, f: OccsRangeFrame) -> Seq<(Seq<u8>, int)> {
    leaves(levels, f.level as int, f.start as int, f.end as int, frame_code(f), 2)
}

/// What the frames of a stack, topmost first, still yield.
spec fn pending(levels: Seq<Seq<u8>>, stack: Seq<OccsRangeFrame>) -> Seq<(Seq<u8>, int)>
    decreases stack.len(),
{
    if stack.len() == 0 {
        Seq::empty()
    } else {
        frame_leaves(levels, stack.last()) + pending(levels, stack.drop_last())
    }
}

spec fn frame_walk<T: WTIndexable, BRS: BinRSforWT>(
    parts: WaveletTreeParts<T, BRS>,
    compressed: bool,
    f: OccsRangeFrame,
) -> Seq<Option<(T, usize)>> {
    parts.walk(compressed, f.level as int, f.start as int, f.end as int, frame_code(f))
}

/// What the walks from the frames of a stack, topmost first, meet.
spec fn pending_walk<T: WTIndexable, BRS: BinRSforWT>(
    parts: WaveletTreeParts<T, BRS>,
    compressed: bool,
    stack: Seq<OccsRangeFrame>,
) -> Seq<Option<(T, usize)>>
    decreases stack.len(),
{
    if stack.len() == 0 {
        Seq::empty()
    } else {
        frame_walk(parts, compressed, stack.last()) + pending_walk(
            parts,
            compressed,
            stack.drop_last(),
        )
    }
}

/// A walk that ends at its first frame.
proof fn lemma_walk_end<T: WTIndexable, BRS: BinRSforWT>(
    parts: WaveletTreeParts<T, BRS>,
    compressed: bool,
    f: OccsRangeFrame,
    rest: Seq<OccsRangeFrame>,
    all: Seq<Option<(T, usize)>>,
)
    requires
        f.start < f.end,
        all == frame_walk(parts, compressed, f) + pending_walk(parts, compressed, rest),
        parts.leaf_symbol(compressed, frame_code(f)) is None ==> f.level >= parts.n_levels || f.end
            > parts.levels()[f.level as int].len(),
    ensures
        all.len() > 0,
        all.first() == match parts.leaf_symbol(compressed, frame_code(f)) {
            Some(t) => Some((t, (f.end - f.start) as usize)),
            None => None,
        },
        all.drop_first() == pending_walk(parts, compressed, rest),
{
    assert(all.drop_first() =~= pending_walk(parts, compressed, rest));
}

/// A walk that goes on below its first frame.
proof fn lemma_walk_on<T: WTIndexable, BRS: BinRSforWT>(
    parts: WaveletTreeParts<T, BRS>,
    compressed: bool,
    f: OccsRangeFrame,
    left: OccsRangeFrame,
    right: OccsRangeFrame,
)
    requires
        f.start < f.end,
        f.level < parts.n_levels,
        parts.leaf_symbol(compressed, frame_code(f)) is None,
        f.end <= parts.levels()[f.level as int].len(),
        left.level == f.level + 1,
        right.level == f.level + 1,
        left.start == child(parts.levels()[f.level as int], 0, f.start as int),
        left.end == child(parts.levels()[f.level as int], 0, f.end as int),
        right.start == child(parts.levels()[f.level as int], 1, f.start as int),
        right.end == child(parts.levels()[f.level as int], 1, f.end as int),
        frame_code(left) == frame_code(f).push(0),
        frame_code(right) == frame_code(f).push(1),
    ensures
        frame_walk(parts, compressed, f) == frame_walk(parts, compressed, left) + frame_walk(
            parts,
            compressed,
            right,
        ),
{
}

/// How much work the frames are.
spec fn work(n_levels: int, stack: Seq<OccsRangeFrame>) -> int
    decreases stack.len(),
{
    if stack.len() == 0 {
        0
    } else {
        (stack.last().end - stack.last().start) * (n_levels - stack.last().level + 1) + work(
            n_levels,
            stack.drop_last(),
        )
    }
}

proof fn lemma_work(n_levels: int, stack: Seq<OccsRangeFrame>)
    requires
        forall|k: int|
            0 <= k < stack.len() ==> (#[trigger] stack[k]).start < stack[k].end && stack[k].level
                <= n_levels,
    ensures
        work(n_levels, stack) >= 0,
    decreases stack.len(),
{
    if stack.len() > 0 {
        let f = stack.last();
        assert(f == stack[stack.len() - 1]);
        assert((f.end - f.start) * (n_levels - f.level + 1) >= 0) by (nonlinear_arith)
            requires
                f.start < f.end,
                f.level <= n_levels,
        ;
        assert forall|k: int| 0 <= k < stack.drop_last().len() implies (
        #[trigger] stack.drop_last()[k]).start < stack.drop_last()[k].end
            && stack.drop_last()[k].level <= n_levels by {
            assert(stack.drop_last()[k] == stack[k]);
        }
        lemma_work(n_levels, stack.drop_last());
    }
}

/// One more bit on the way.
proof fn lemma_bit_path(bit_path: u64, level: int, b: u64)
    requires
        0 <= level < 64,
        bit_path < pow2(level as nat),
        b <= 1,
    ensures
        bit_path < 0x8000_0000_0000_0000,
        (bit_path << 1) | b == 2 * bit_path + b,
        2 * bit_path + b < pow2((level + 1) as nat),
        code_of((2 * bit_path + b) as u64, level + 1, 1) == code_of(bit_path, level, 1).push(
            b as u8,
        ),
{
    lemma2_to64_rest();
    lemma_pow2_unfold((level + 1) as nat);
    if level < 63 {
        lemma_pow2_strictly_increases(level as nat, 63);
    }
    assert((bit_path << 1) | b == 2 * bit_path + b) by (bit_vector)
        requires
            bit_path < 0x8000_0000_0000_0000,
            b <= 1,
    ;
    let v = 2 * bit_path + b;
    assert(v / 2 == bit_path && v % 2 == b);
}

/// The rows of a finished frame make up one leaf.
proof fn lemma_finished(
    levels: Seq<Seq<u8>>,
    f: OccsRangeFrame,
    rest: Seq<OccsRangeFrame>,
    all: Seq<(Seq<u8>, int)>,
)
    requires
        f.start < f.end,
        path(levels, f.level as int, f.start as int).len() == 0,
        all == frame_leaves(levels, f) + pending(levels, rest),
    ensures
        all.len() > 0,
        all[0] == (frame_code(f), f.end - f.start),
        all.drop_first() == pending(levels, rest),
{
    assert(frame_leaves(levels, f) =~= seq![(frame_code(f), f.end - f.start)]);
    assert(all.drop_first() =~= pending(levels, rest));
}

/// The leaves of an unfinished frame are those of its two halves.
proof fn lemma_split(
    levels: Seq<Seq<u8>>,
    f: OccsRangeFrame,
    left: OccsRangeFrame,
    right: OccsRangeFrame,
)
    requires
        f.start < f.end,
        f.level < levels.len(),
        f.start < levels[f.level as int].len(),
        left.level == f.level + 1,
        right.level == f.level + 1,
        left.start == child(levels[f.level as int], 0, f.start as int),
        left.end == child(levels[f.level as int], 0, f.end as int),
        right.start == child(levels[f.level as int], 1, f.start as int),
        right.end == child(levels[f.level as int], 1, f.end as int),
        frame_code(left) == frame_code(f).push(0),
        frame_code(right) == frame_code(f).push(1),
    ensures
        frame_leaves(levels, f) == frame_leaves(levels, left) + frame_leaves(levels, right),
{
    let l = f.level as int;
    let a = f.start as int;
    let b = f.end as int;
    let pre = frame_code(f);
    let two = leaves_from(levels, l, a, b, pre, 2, 2);
    let one = leaves_from(levels, l, a, b, pre, 2, 1);
    assert(two =~= Seq::empty());
    assert(one =~= frame_leaves(levels, right));
    assert(leaves_from(levels, l, a, b, pre, 2, 0) =~= frame_leaves(levels, left) + one);
}

/// In a plain tree a frame above the bottom is not finished.
proof fn lemma_plain_node(levels: Seq<Seq<u8>>, n: int, f: OccsRangeFrame)
    requires
        plain_levels(levels, n, 2),
        node(levels, n, f.level as int, f.start as int, f.end as int, frame_code(f)),
        f.start < f.end,
        f.level < levels.len(),
    ensures
        path(levels, f.level as int, f.start as int).len() > 0,
{
    let pre = frame_code(f);
    let rest = path(levels, f.level as int, f.start as int);
    assert(is_path(levels, n, pre + rest));
    let i = choose|i: int| 0 <= i < n && #[trigger] path(levels, 0, i) == pre + rest;
    lemma_plain_path(levels, n, 2, 0, i);
}

/// The rows of an unfinished frame lie inside their level.
proof fn lemma_node_inside(levels: Seq<Seq<u8>>, n: int, f: OccsRangeFrame)
    requires
        paths_prefix_free(levels, n),
        node(levels, n, f.level as int, f.start as int, f.end as int, frame_code(f)),
        f.start < f.end,
        path(levels, f.level as int, f.start as int).len() > 0,
    ensures
        f.level < levels.len(),
        f.end <= levels[f.level as int].len(),
{
    let l = f.level as int;
    if f.end > levels[l].len() {
        lemma_node_uniform(
            levels,
            n,
            l,
            f.start as int,
            f.end as int,
            frame_code(f),
            f.end - 1,
            f.start as int,
        );
    }
}

proof fn lemma_binary_counts(s: Seq<u8>, i: int)
    requires
        digits_below(s, 2),
        0 <= i <= s.len(),
    ensures
        count(s, 0, i) + count(s, 1, i) == i,
    decreases i,
{
    if i > 0 {
        lemma_binary_counts(s, i - 1);
        assert(s[i - 1] < 2);
    }
}

impl<'a, T: WTIndexable, BRS: BinRSforWT, const COMPRESSED: bool> OccsRangeIter<
    'a,
    T,
    BRS,
    COMPRESSED,
> {
    spec fn frame_ok(&self, f: OccsRangeFrame) -> bool {
        &&& f.start < f.end
        &&& f.level <= self.tree.parts.n_levels
        &&& f.bit_path < pow2(f.level as nat)
        &&& self.tree.canonical() ==> node(
            self.tree.levels(),
            self.tree.parts.n as int,
            f.level as int,
            f.start as int,
            f.end as int,
            frame_code(f),
        )
    }

    pub closed spec fn wf(&self) -> bool {
        &&& self.tree.wf()
        &&& forall|k: int| 0 <= k < self.stack.len() ==> self.frame_ok(#[trigger] self.stack[k])
        &&& self.stack.len() > 0 ==> self.tree.parts.n > 0
    }

    /// The tree that is walked.
    pub closed spec fn source(&self) -> WaveletTree<T, BRS, COMPRESSED> {
        *self.tree
    }

    /// How much work is left.
    pub closed spec fn effort(&self) -> int {
        work(self.tree.parts.n_levels as int, self.stack@)
    }

    /// The codes of the symbols that are still to come, with their counts.
    pub closed spec fn remaining(&self) -> Seq<(Seq<u8>, int)> {
        pending(self.tree.levels(), self.stack@)
    }

    /// What the calls of `next` give, one after the other.
    pub closed spec fn outcomes(&self) -> Seq<Option<(T, usize)>> {
        pending_walk(self.tree.parts, COMPRESSED, self.stack@)
    }

    /// The symbol at a frame is found in the row of its level.
    proof fn lemma_frame_symbol(&self, f: OccsRangeFrame)
        requires
            self.tree.wf(),
            self.tree.parts.n > 0,
            self.frame_ok(f),
        ensures
            self.tree.parts.leaf_symbol(COMPRESSED, frame_code(f)) == if COMPRESSED {
                row_symbol(
                    self.tree.parts.codes_decode->0[f.level as int]@,
                    f.bit_path as u32,
                )
            } else if f.level == self.tree.parts.n_levels {
                Some(T::truncated(f.bit_path))
            } else {
                None
            },
    {
        lemma_digits_of(f.bit_path as int, f.level as int, 2);
        lemma_radix_pow(1, f.level as nat);
        lemma_value_of_digits(f.bit_path as int, f.level as int, 2);
    }

    /// In a canonical compressed tree the rows of a frame are finished where
    /// the decoding table has the digits of the frame.
    proof fn lemma_leaf(&self, f: OccsRangeFrame)
        requires
            self.tree.wf(),
            self.tree.canonical(),
            self.tree.parts.n > 0,
            COMPRESSED,
            self.frame_ok(f),
        ensures
            ({
                let row = self.tree.parts.codes_decode->0[f.level as int]@;
                let content = f.bit_path as u32;
                let finished = path(
                    self.tree.levels(),
                    f.level as int,
                    f.start as int,
                ).len() == 0;
                &&& finished <==> exists|j: int| entry_at(row, content, j)
                &&& forall|j: int| #[trigger]
                    entry_at(row, content, j) ==> entry_of(
                        self.tree.levels(),
                        self.tree.table(),
                        1,
                        (row[j].1, (f.end - f.start) as usize),
                        (frame_code(f), f.end - f.start),
                    )
            }),
    {
        let t = self.tree;
        t.lemma_bits();
        let lv = t.levels();
        let s = t.seq();
        let table = t.table();
        let n_levels = t.parts.n_levels as int;
        let encode = t.parts.codes_encode->0@;
        let decode = rows_view(t.parts.codes_decode->0@);
        let l = f.level as int;
        let row = t.parts.codes_decode->0[l]@;
        let pre = frame_code(f);
        assert(decode[l] == row);
        lemma2_to64();
        if l < 32 {
            lemma_pow2_strictly_increases(l as nat, 32);
        }
        let content = f.bit_path as u32;
        assert(content == f.bit_path);
        let rest = path(lv, l, f.start as int);
        assert(is_path(lv, t.parts.n as int, pre + rest));
        let i = choose|i: int| 0 <= i < t.parts.n && #[trigger] path(lv, 0, i) == pre + rest;
        lemma_represents_path(lv, s, table, 1, i);
        lemma_element(s, table, n_levels, 1, i);
        lemma_symbol_code(s, table, n_levels, 1, s[i]);
        let x = s[i].val() as int;
        lemma_digits_of(f.bit_path as int, l, 2);
        lemma_radix_pow(1, l as nat);
        lemma_value_of_digits(f.bit_path as int, l, 2);
        assert(encode[x].len as int / 1 == encode[x].len);
        lemma_code_digits(encode, n_levels, 1, x);
        if rest.len() == 0 {
            assert(pre + rest =~= pre);
            assert(encode[x].len == l);
            assert(encode[x].content == content);
            assert(row_has(row, content, x));
            let j = choose|j: int| #[trigger] entry_at(row, content, j) && row[j].1.val() == x;
            assert(entry_at(row, content, j));
        }
        assert forall|j: int| #[trigger] entry_at(row, content, j) implies rest.len() == 0
            && entry_of(
            lv,
            table,
            1,
            (row[j].1, (f.end - f.start) as usize),
            (pre, f.end - f.start),
        ) by {
            if l == 0 {
                assert(row.len() == 0);
            }
            assert(row_encodes(encode, decode[l], l));
            let e = row[j];
            let y = e.1.val() as int;
            assert(encode[y].content == content && encode[y].len == l);
            assert(coded(encode, y));
            assert(code_digits(encode[y], 1) == pre) by {
                assert(encode[y].len as int / 1 == l);
            }
            lemma_codable(s, table, n_levels, 1);
            lemma_symbol_code(s, table, n_levels, 1, e.1);
            assert(pre =~= (pre + rest).subrange(0, pre.len() as int));
            lemma_prefix_free(
                code_set(table, n_levels, 1),
                n_levels,
                2,
                pre,
                pre + rest,
            );
            assert(rest.len() == 0);
        }
    }

    /// The next symbol with its number of occurrences. The order is ascending
    /// in a plain tree, and undefined in a compressed one.
    #[verifier::rlimit(100)]
    #[verifier::spinoff_prover]
    pub fn next(&mut self) -> (r: Option<(T, usize)>)
        requires
            old(self).wf(),
        ensures
            final(self).wf(),
            final(self).source() == old(self).source(),
            r is Some ==> 0 <= final(self).effort() < old(self).effort(),
            if old(self).outcomes().len() > 0 {
                &&& r == old(self).outcomes().first()
                &&& final(self).outcomes() == old(self).outcomes().drop_first()
            } else {
                &&& r is None
                &&& final(self).outcomes() == old(self).outcomes()
            },
            old(self).source().canonical() ==> match r {
                Some(entry) => {
                    &&& old(self).remaining().len() > 0
                    &&& entry_of(
                        old(self).source().levels(),
                        old(self).source().table(),
                        1,
                        entry,
                        old(self).remaining()[0],
                    )
                    &&& final(self).remaining() == old(self).remaining().drop_first()
                },
                None => old(self).remaining().len() == 0 && final(self).remaining().len() == 0,
            },
    {
        let ghost first = self.remaining();
        let ghost walk = self.outcomes();
        let ghost lv = self.tree.levels();
        let ghost canonical = self.tree.canonical();
        proof {
            self.tree.lemma_bits();
            self.tree.lemma_rows_sorted();
        }
        loop
            invariant
                self.wf(),
                self.source() == old(self).source(),
                lv == self.tree.levels(),
                canonical == self.tree.canonical(),
                canonical == old(self).source().canonical(),
                first == old(self).remaining(),
                walk == old(self).outcomes(),
                walk == self.outcomes(),
                canonical ==> self.remaining() == first,
                self.effort() <= old(self).effort(),
            decreases work(self.tree.parts.n_levels as int, self.stack@),
        {
            let ghost stack = self.stack@;
            let cur: OccsRangeFrame = match self.stack.pop() {
                None => {
                    return None;
                },
                Some(cur) => cur,
            };
            let tree = self.tree;
            let ghost rest = self.stack@;
            proof {
                assert(cur == stack[stack.len() - 1]);
                assert(rest =~= stack.drop_last());
                assert(stack.last() == cur);
                assert(self.frame_ok(cur));
                tree.lemma_bits();
                tree.lemma_rows_sorted();
                lemma2_to64();
                assert(walk == frame_walk(tree.parts, COMPRESSED, cur) + pending_walk(
                    tree.parts,
                    COMPRESSED,
                    rest,
                ));
                self.lemma_frame_symbol(cur);
                if canonical {
                    lemma_represents(lv, tree.seq(), tree.table(), 1);
                    assert(first == frame_leaves(lv, cur) + pending(lv, rest));
                }
                assert forall|k: int| 0 <= k < rest.len() implies self.frame_ok(
                    #[trigger] rest[k],
                ) by {
                    assert(rest[k] == stack[k]);
                }
                assert forall|k: int| 0 <= k < stack.len() implies (#[trigger] stack[k]).start
                    < stack[k].end && stack[k].level <= tree.parts.n_levels by {
                    if k < rest.len() {
                        assert(rest[k] == stack[k]);
                        assert(self.frame_ok(rest[k]));
                    }
                }
                lemma_work(tree.parts.n_levels as int, rest);
                let h = tree.parts.n_levels - cur.level + 1;
                let a = cur.end - cur.start;
                assert(a * h > 0) by (nonlinear_arith)
                    requires
                        a > 0,
                        h > 0,
                ;
                assert(work(tree.parts.n_levels as int, stack) == a * h + work(
                    tree.parts.n_levels as int,
                    rest,
                ));
            }
            let size: usize = cur.end - cur.start;
            if COMPRESSED {
                match &tree.parts.codes_decode {
                    Some(decode) => {
                        let row = &decode[cur.level];
                        assert(row_sorted(row@));
                        match decode_symbol(row, cur.bit_path as u32) {
                            Some(symbol) => {
                                proof {
                                    lemma_walk_end(tree.parts, COMPRESSED, cur, rest, walk);
                                    if canonical {
                                        self.lemma_leaf(cur);
                                        lemma_finished(lv, cur, rest, first);
                                    }
                                }
                                return Some((symbol, size));
                            },
                            None => {
                                proof {
                                    if canonical {
                                        self.lemma_leaf(cur);
                                    }
                                }
                            },
                        }
                    },
                    None => {
                        return None;
                    },
                }
            } else if cur.level == tree.parts.n_levels {
                let symbol: T = T::from_u64(cur.bit_path);
                proof {
                    tree.lemma_plain_canonical();
                    T::lemma_width();
                    if tree.parts.n_levels < T::bit_width() {
                        lemma_pow2_strictly_increases(tree.parts.n_levels as nat, T::bit_width());
                    }
                    T::lemma_truncated(cur.bit_path);
                    assert(1 * lv.len() == tree.parts.n_levels);
                    lemma_walk_end(tree.parts, COMPRESSED, cur, rest, walk);
                    lemma_finished(lv, cur, rest, first);
                }
                return Some((symbol, size));
            }
            if cur.level >= tree.parts.n_levels {
                proof {
                    lemma_walk_end(tree.parts, COMPRESSED, cur, rest, walk);
                    if canonical {
                        assert(path(lv, cur.level as int, cur.start as int).len() == 0);
                    }
                }
                return None;
            }
            let bv = &tree.parts.bvs[cur.level];
            let ghost s = bv.digits();
            let ghost l = cur.level as int;
            proof {
                assert(lv[l] == s);
                assert(bv.wf());
                if canonical {
                    if !COMPRESSED {
                        assert forall|m: int| 0 <= m < lv.len() implies (#[trigger] lv[m]).len()
                            == tree.parts.n && digits_below(lv[m], 2) by {
                            assert(tree.parts.lens[m] == tree.parts.n);
                        }
                        lemma_plain_node(lv, tree.parts.n as int, cur);
                    }
                    assert(path(lv, l, cur.start as int).len() > 0);
                    lemma_node_inside(lv, tree.parts.n as int, cur);
                }
            }
            if cur.end > bv.level_len() {
                proof {
                    lemma_walk_end(tree.parts, COMPRESSED, cur, rest, walk);
                }
                return None;
            }
            let r_lo: usize = bv.digit_rank(1, cur.start);
            let r_hi: usize = bv.digit_rank(1, cur.end);
            let offset: usize = bv.digits_smaller(1);
            proof {
                lemma_binary_counts(s, cur.start as int);
                lemma_binary_counts(s, cur.end as int);
                lemma_count_bounds(s, 0, cur.start as int);
                lemma_count_bounds(s, 0, cur.end as int);
                lemma_child_bounds(s, 1, cur.end as int);
                lemma_child_bounds(s, 0, cur.end as int);
                lemma_count_mono(s, 1, cur.start as int, cur.end as int);
                lemma_count_mono(s, 0, cur.start as int, cur.end as int);
                bv.lemma_level();
                lemma_below_zero(s, s.len() as int);
                lemma_bit_path(cur.bit_path, l, 0);
                lemma_bit_path(cur.bit_path, l, 1);
                let b = cur.bit_path;
                assert((b << 1) | 0 == b << 1) by (bit_vector);
                lemma_digits_of(cur.bit_path as int, l, 2);
                if canonical {
                    lemma_node_child(
                        lv,
                        tree.parts.n as int,
                        l,
                        cur.start as int,
                        cur.end as int,
                        frame_code(cur),
                        0,
                    );
                    lemma_node_child(
                        lv,
                        tree.parts.n as int,
                        l,
                        cur.start as int,
                        cur.end as int,
                        frame_code(cur),
                        1,
                    );
                }
            }
            let right: OccsRangeFrame = OccsRangeFrame {
                start: offset + r_lo,
                end: offset + r_hi,
                level: cur.level + 1,
                bit_path: (cur.bit_path << 1) | 1,
            };
            let left: OccsRangeFrame = OccsRangeFrame {
                start: cur.start - r_lo,
                end: cur.end - r_hi,
                level: cur.level + 1,
                bit_path: cur.bit_path << 1,
            };
            let ghost gl = left;
            let ghost gr = right;
            if right.start < right.end {
                self.stack.push(right);
            }
            let ghost mid = self.stack@;
            if left.start < left.end {
                self.stack.push(left);
            }
            proof {
                let nl = tree.parts.n_levels as int;
                assert(gl.start < gl.end ==> self.frame_ok(gl));
                assert(gr.start < gr.end ==> self.frame_ok(gr));
                assert(mid == if gr.start < gr.end {
                    rest.push(gr)
                } else {
                    rest
                });
                assert(self.stack@ == if gl.start < gl.end {
                    mid.push(gl)
                } else {
                    mid
                });
                assert(rest.push(gr).drop_last() =~= rest);
                assert(mid.push(gl).drop_last() =~= mid);
                assert(pending(lv, mid) =~= frame_leaves(lv, gr) + pending(lv, rest));
                assert(pending(lv, self.stack@) =~= frame_leaves(lv, gl) + pending(lv, mid));
                assert(pending_walk(tree.parts, COMPRESSED, mid) =~= frame_walk(
                    tree.parts,
                    COMPRESSED,
                    gr,
                ) + pending_walk(tree.parts, COMPRESSED, rest));
                assert(pending_walk(tree.parts, COMPRESSED, self.stack@) =~= frame_walk(
                    tree.parts,
                    COMPRESSED,
                    gl,
                ) + pending_walk(tree.parts, COMPRESSED, mid));
                lemma_walk_on(tree.parts, COMPRESSED, cur, gl, gr);
                assert(pending_walk(tree.parts, COMPRESSED, self.stack@) =~= walk);
                if canonical {
                    lemma_split(lv, cur, gl, gr);
                    assert(pending(lv, self.stack@) =~= frame_leaves(lv, cur) + pending(lv, rest));
                }
                let a = gl.end - gl.start;
                let b = gr.end - gr.start;
                let h = nl - l;
                assert(a + b == cur.end - cur.start);
                assert(a * h + b * h < (a + b) * (h + 1)) by (nonlinear_arith)
                    requires
                        a + b > 0,
                        a >= 0,
                        b >= 0,
                        h > 0,
                ;
                assert(0 * h == 0);
                assert(work(nl, mid) == b * h + work(nl, rest));
                assert(work(nl, self.stack@) == a * h + work(nl, mid));
                assert(work(nl, stack) == (a + b) * (h + 1) + work(nl, rest));
                assert forall|k: int| 0 <= k < self.stack.len() implies self.frame_ok(
                    #[trigger] self.stack[k],
                ) by {
                    if k < rest.len() {
                        assert(self.stack[k] == rest[k]);
                    }
                }
                assert forall|k: int| 0 <= k < self.stack.len() implies (
                #[trigger] self.stack@[k]).start < self.stack@[k].end && self.stack@[k].level
                    <= nl by {
                    assert(self.frame_ok(self.stack[k]));
                }
                lemma_work(nl, self.stack@);
            }
        }
    }

    /// The symbols that are still to come, with their numbers of occurrences.
    pub fn collect(self) -> (out: Vec<(T, usize)>)
        requires
            self.wf(),
        ensures
            out.len() <= self.outcomes().len(),
            forall|t: int|
                0 <= t < out.len() ==> self.outcomes()[t] == Some(#[trigger] out[t]),
            out.len() < self.outcomes().len() ==> self.outcomes()[out.len() as int] is None,
            self.source().canonical() ==> lists(
                self.source().levels(),
                self.source().table(),
                1,
                out@,
                self.remaining(),
            ),
    {
        let ghost canonical = self.source().canonical();
        let ghost lv = self.source().levels();
        let ghost table = self.source().table();
        let ghost all = self.remaining();
        let ghost walk = self.outcomes();
        let ghost tree = self.source();
        let mut it = self;
        let mut out: Vec<(T, usize)> = Vec::new();
        assert(all.skip(0) =~= all);
        assert(walk.skip(0) =~= walk);
        loop
            invariant_except_break
                it.outcomes() == walk.skip(out.len() as int),
            invariant
                it.wf(),
                it.source() == tree,
                canonical == tree.canonical(),
                lv == tree.levels(),
                table == tree.table(),
                out.len() <= walk.len(),
                forall|t: int| 0 <= t < out.len() ==> walk[t] == Some(#[trigger] out[t]),
                canonical ==> {
                    &&& out.len() <= all.len()
                    &&& it.remaining() == all.skip(out.len() as int)
                    &&& forall|t: int|
                        0 <= t < out.len() ==> entry_of(lv, table, 1, #[trigger] out[t], all[t])
                },
            ensures
                out.len() <= walk.len(),
                forall|t: int| 0 <= t < out.len() ==> walk[t] == Some(#[trigger] out[t]),
                out.len() < walk.len() ==> walk[out.len() as int] is None,
                canonical ==> lists(lv, table, 1, out@, all),
            decreases it.effort(),
        {
            match it.next() {
                Some(entry) => {
                    let ghost before = out.len() as int;
                    out.push(entry);
                    proof {
                        assert(walk.skip(before).drop_first() =~= walk.skip(before + 1));
                        if canonical {
                            assert(all.skip(before)[0] == all[before]);
                            assert(all.skip(before).drop_first() =~= all.skip(before + 1));
                        }
                    }
                },
                None => {
                    proof {
                        if out.len() < walk.len() {
                            assert(walk.skip(out.len() as int)[0] == walk[out.len() as int]);
                        }
                    }
                    break;
                },
            }
        }
        out
    }
}

impl<T: WTIndexable, BRS: BinRSforWT, const COMPRESSED: bool> WaveletTree<T, BRS, COMPRESSED> {
    /// Lists the symbols that occur in `range`, which must be in bounds, with
    /// their numbers of occurrences.
    pub fn occs_range_unchecked(&self, range: Range<usize>) -> (it: OccsRangeIter<
        '_,
        T,
        BRS,
        COMPRESSED,
    >)
        requires
            self.wf(),
            range.start <= range.end <= self.seq().len(),
        ensures
            it.wf(),
            it.source() == *self,
            it.outcomes() == self.view_parts().walk(
                COMPRESSED,
                0,
                range.start as int,
                range.end as int,
                Seq::empty(),
            ),
            it.remaining() == leaves(
                self.levels(),
                0,
                range.start as int,
                range.end as int,
                Seq::empty(),
                2,
            ),
    {
        let mut stack: Vec<OccsRangeFrame> = Vec::new();
        if range.start == range.end {
            let it = OccsRangeIter { tree: self, stack };
            assert(it.remaining() =~= Seq::empty());
            assert(it.outcomes() =~= Seq::empty());
            return it;
        }
        let frame: OccsRangeFrame = OccsRangeFrame {
            start: range.start,
            end: range.end,
            level: 0,
            bit_path: 0,
        };
        proof {
            lemma_root_node(
                self.levels(),
                self.parts.n as int,
                range.start as int,
                range.end as int,
            );
            lemma2_to64();
            assert(frame_code(frame) =~= Seq::empty());
        }
        stack.push(frame);
        let it = OccsRangeIter { tree: self, stack };
        proof {
            assert(it.stack@.drop_last() =~= Seq::empty());
            assert(it.stack@.last() == frame);
            assert(pending(self.levels(), it.stack@.drop_last()) =~= Seq::empty());
            assert(it.remaining() =~= frame_leaves(self.levels(), frame));
            assert(pending_walk(self.parts, COMPRESSED, it.stack@.drop_last()) =~= Seq::empty());
            assert(it.outcomes() =~= frame_walk(self.parts, COMPRESSED, frame));
        }
        it
    }

    /// Lists the symbols that occur between two bounds, with their numbers of
    /// occurrences. `None` where the bounds are out of range or reversed.
    pub fn occs_range_bounds(&self, start: PositionBound, end: PositionBound) -> (r: Option<
        OccsRangeIter<'_, T, BRS, COMPRESSED>,
    >)
        requires
            self.wf(),
        ensures
            ({
                let n = self.seq().len() as int;
                let from = first_position(start);
                let to = end_position(end, n);
                match r {
                    Some(it) => {
                        &&& from <= to <= n
                        &&& it.wf()
                        &&& it.source() == *self
                        &&& it.outcomes() == self.view_parts().walk(
                            COMPRESSED,
                            0,
                            from,
                            to,
                            Seq::empty(),
                        )
                        &&& it.remaining() == leaves(self.levels(), 0, from, to, Seq::empty(), 2)
                    },
                    None => !(from <= to <= n),
                }
            }),
    {
        let from: usize = match start {
            PositionBound::Included(p) => p,
            PositionBound::Excluded(p) => match p.checked_add(1) {
                Some(q) => q,
                None => {
                    return None;
                },
            },
            PositionBound::Unbounded => 0,
        };
        let to: usize = match end {
            PositionBound::Included(p) => match p.checked_add(1) {
                Some(q) => q,
                None => {
                    return None;
                },
            },
            PositionBound::Excluded(p) => p,
            PositionBound::Unbounded => self.parts.n,
        };
        if to > self.parts.n || from > to {
            return None;
        }
        Some(self.occs_range_unchecked(from..to))
    }

    /// Lists the symbols that occur in `range`, with their numbers of
    /// occurrences. `None` where the range is out of bounds or reversed.
    pub fn occs_range(&self, range: Range<usize>) -> (r: Option<
        OccsRangeIter<'_, T, BRS, COMPRESSED>,
    >)
        requires
            self.wf(),
        ensures
            match r {
                Some(it) => {
                    &&& range.start <= range.end <= self.seq().len()
                    &&& it.wf()
                    &&& it.source() == *self
                    &&& it.outcomes() == self.view_parts().walk(
                        COMPRESSED,
                        0,
                        range.start as int,
                        range.end as int,
                        Seq::empty(),
                    )
                    &&& it.remaining() == leaves(
                        self.levels(),
                        0,
                        range.start as int,
                        range.end as int,
                        Seq::empty(),
                        2,
                    )
                },
                None => !(range.start <= range.end <= self.seq().len()),
            },
    {
        self.occs_range_bounds(
            PositionBound::Included(range.start),
            PositionBound::Excluded(range.end),
        )
    }

    /// What the list of a range says: every symbol of the range is listed
    /// once, its count is the difference of its ranks at the two ends, the
    /// counts add up to the length of the range, and in a plain tree the
    /// symbols ascend.
    pub proof fn lemma_occs_range(&self, start: int, end: int, out: Seq<(T, usize)>)
        requires
            self.wf(),
            self.canonical(),
            0 <= start <= end <= self.seq().len(),
            lists(
                self.levels(),
                self.table(),
                1,
                out,
                leaves(self.levels(), 0, start, end, Seq::empty(), 2),
            ),
        ensures
            occs_ok(self.seq(), start, end, out),
            count_sum(out) == end - start,
            !COMPRESSED ==> ascending(out),
    {
        if self.parts.n > 0 {
            lemma_lists(self.levels(), self.seq(), self.table(), 1, start, end, out);
        } else {
            assert(leaves(self.levels(), 0, start, end, Seq::empty(), 2) =~= Seq::empty());
        }
    }
}

} // verus!
