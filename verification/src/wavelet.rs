//! The mathematics of a wavelet matrix.
//!
//! A level is a sequence of digits. The row at position `p` of one level
//! stands at position `step(level, p)` of the next: rows are grouped by digit,
//! and keep their order inside a group. The digits met on the way down are the
//! `path` of the row, and every query of a tree is a statement about paths.

use vstd::prelude::*;

verus! {

/// How many of the first `i` digits equal `d`.
pub open spec fn count(s: Seq<u8>, d: u8, i: int) -> int
    decreases i,
{
    if i <= 0 {
        0
    } else {
        count(s, d, i - 1) + if s[i - 1] == d {
            1int
        } else {
            0int
        }
    }
}

/// How many of the first `i` digits are smaller than `d`.
pub open spec fn below(s: Seq<u8>, d: int, i: int) -> int
    decreases i,
{
    if i <= 0 {
        0
    } else {
        below(s, d, i - 1) + if s[i - 1] < d {
            1int
        } else {
            0int
        }
    }
}

/// Where the boundary `p` of a level lies in the group of digit `d` on the
/// next level.
pub open spec fn child(s: Seq<u8>, d: u8, p: int) -> int {
    below(s, d as int, s.len() as int) + count(s, d, p)
}

/// Where the row at `p` stands on the next level.
pub open spec fn step(s: Seq<u8>, p: int) -> int {
    child(s, s[p], p)
}

/// Every digit is smaller than `radix`.
pub open spec fn digits_below(s: Seq<u8>, radix: int) -> bool {
    forall|p: int| 0 <= p < s.len() ==> (#[trigger] s[p]) < radix
}

/// The digits met by the row at position `p` of level `l` on its way down.
pub open spec fn path(levels: Seq<Seq<u8>>, l: int, p: int) -> Seq<u8>
    decreases levels.len() - l,
{
    if l < 0 || l >= levels.len() || p < 0 || p >= levels[l].len() {
        Seq::empty()
    } else {
        seq![levels[l][p]] + path(levels, l + 1, step(levels[l], p))
    }
}

/// How many rows in `a..b` of level `l` have a path that starts with `code`.
pub open spec fn pcount(levels: Seq<Seq<u8>>, l: int, code: Seq<u8>, a: int, b: int) -> int
    decreases b - a,
{
    if b <= a {
        0
    } else {
        pcount(levels, l, code, a, b - 1) + if code.is_prefix_of(path(levels, l, b - 1)) {
            1int
        } else {
            0int
        }
    }
}

/// Where the boundary `p` of the top level lies after following the first `l`
/// digits of `code`.
pub open spec fn walk(levels: Seq<Seq<u8>>, code: Seq<u8>, p: int, l: int) -> int
    decreases l,
{
    if l <= 0 {
        p
    } else {
        child(levels[l - 1], code[l - 1], walk(levels, code, p, l - 1))
    }
}

/// Following `code` from the boundary `p` never leaves a level.
pub open spec fn walk_fits(levels: Seq<Seq<u8>>, code: Seq<u8>, p: int) -> bool {
    &&& code.len() <= levels.len()
    &&& forall|l: int|
        0 <= l < code.len() ==> #[trigger] walk(levels, code, p, l) <= levels[l].len()
}

pub proof fn lemma_count_bounds(s: Seq<u8>, d: u8, i: int)
    ensures
        0 <= count(s, d, i),
        i >= 0 ==> count(s, d, i) <= i,
    decreases i,
{
    if i > 0 {
        lemma_count_bounds(s, d, i - 1);
    }
}

pub proof fn lemma_count_mono(s: Seq<u8>, d: u8, i: int, j: int)
    requires
        0 <= i <= j,
    ensures
        count(s, d, i) <= count(s, d, j) <= count(s, d, i) + (j - i),
    decreases j,
{
    if i < j {
        lemma_count_mono(s, d, i, j - 1);
    }
}

/// Counting only looks at the digits before the position.
pub proof fn lemma_count_local(s: Seq<u8>, t: Seq<u8>, d: u8, i: int)
    requires
        forall|p: int| 0 <= p < i ==> s[p] == t[p],
    ensures
        count(s, d, i) == count(t, d, i),
    decreases i,
{
    if i > 0 {
        lemma_count_local(s, t, d, i - 1);
    }
}

pub proof fn lemma_below_step(s: Seq<u8>, d: u8, i: int)
    ensures
        below(s, d as int + 1, i) == below(s, d as int, i) + count(s, d, i),
    decreases i,
{
    if i > 0 {
        lemma_below_step(s, d, i - 1);
    }
}

pub proof fn lemma_below_bounds(s: Seq<u8>, d: int, i: int)
    requires
        i >= 0,
    ensures
        0 <= below(s, d, i) <= i,
    decreases i,
{
    if i > 0 {
        lemma_below_bounds(s, d, i - 1);
    }
}

pub proof fn lemma_below_mono(s: Seq<u8>, d: int, e: int, i: int)
    requires
        d <= e,
    ensures
        below(s, d, i) <= below(s, e, i),
    decreases i,
{
    if i > 0 {
        lemma_below_mono(s, d, e, i - 1);
    }
}

pub proof fn lemma_below_all(s: Seq<u8>, d: int, i: int)
    requires
        0 <= i <= s.len(),
        forall|p: int| 0 <= p < i ==> (#[trigger] s[p]) < d,
    ensures
        below(s, d, i) == i,
    decreases i,
{
    if i > 0 {
        lemma_below_all(s, d, i - 1);
    }
}

pub proof fn lemma_below_zero(s: Seq<u8>, i: int)
    ensures
        below(s, 0, i) == 0,
    decreases i,
{
    if i > 0 {
        lemma_below_zero(s, i - 1);
    }
}

/// Boundaries map to boundaries, in order.
pub proof fn lemma_child_bounds(s: Seq<u8>, d: u8, p: int)
    requires
        0 <= p <= s.len(),
    ensures
        0 <= below(s, d as int, s.len() as int) <= child(s, d, p) <= s.len(),
        child(s, d, p) <= below(s, d as int + 1, s.len() as int),
        child(s, d, 0) == below(s, d as int, s.len() as int),
{
    lemma_count_mono(s, d, 0, p);
    lemma_count_mono(s, d, p, s.len() as int);
    lemma_below_step(s, d, s.len() as int);
    lemma_below_bounds(s, d as int + 1, s.len() as int);
    lemma_below_bounds(s, d as int, s.len() as int);
}

pub proof fn lemma_step_bounds(s: Seq<u8>, p: int)
    requires
        0 <= p < s.len(),
    ensures
        0 <= step(s, p) < s.len(),
        child(s, s[p], p + 1) == step(s, p) + 1,
{
    lemma_child_bounds(s, s[p], p);
    lemma_child_bounds(s, s[p], p + 1);
}

/// Among the occurrences of a digit, each rank is taken by one position.
pub proof fn lemma_select_exists(s: Seq<u8>, d: u8, k: int, n: int) -> (p: int)
    requires
        0 <= k < count(s, d, n),
        0 <= n <= s.len(),
    ensures
        0 <= p < n,
        s[p] == d,
        count(s, d, p) == k,
    decreases n,
{
    if s[n - 1] == d && count(s, d, n - 1) == k {
        n - 1
    } else {
        lemma_select_exists(s, d, k, n - 1)
    }
}

/// `step` orders rows by digit first, then by position.
pub proof fn lemma_step_order(s: Seq<u8>, p: int, q: int)
    requires
        0 <= p < s.len(),
        0 <= q < s.len(),
    ensures
        step(s, p) < step(s, q) <==> (s[p] < s[q] || (s[p] == s[q] && p < q)),
        step(s, p) == step(s, q) <==> p == q,
{
    let n = s.len() as int;
    lemma_child_bounds(s, s[p], p + 1);
    lemma_child_bounds(s, s[q], q + 1);
    lemma_child_bounds(s, s[p], p);
    lemma_child_bounds(s, s[q], q);
    if s[p] < s[q] {
        lemma_below_mono(s, s[p] as int + 1, s[q] as int, n);
    } else if s[q] < s[p] {
        lemma_below_mono(s, s[q] as int + 1, s[p] as int, n);
    } else if p < q {
        lemma_count_mono(s, s[p], p + 1, q);
    } else if q < p {
        lemma_count_mono(s, s[p], q + 1, p);
    }
}

/// Every position of the next level is the image of a row.
pub proof fn lemma_step_onto(s: Seq<u8>, j: int, radix: u8) -> (p: int)
    requires
        0 <= j < below(s, radix as int, s.len() as int),
    ensures
        0 <= p < s.len(),
        s[p] < radix,
        step(s, p) == j,
    decreases radix,
{
    let n = s.len() as int;
    if radix == 0 {
        lemma_below_zero(s, n);
        0
    } else {
        let d = (radix - 1) as u8;
        lemma_below_step(s, d, n);
        lemma_below_bounds(s, d as int, n);
        if j < below(s, d as int, n) {
            lemma_step_onto(s, j, d)
        } else {
            lemma_select_exists(s, d, j - below(s, d as int, n), n)
        }
    }
}

pub proof fn lemma_prefix_cons(code: Seq<u8>, d: u8, rest: Seq<u8>)
    requires
        code.len() > 0,
    ensures
        code.is_prefix_of(seq![d] + rest) <==> (code[0] == d && code.drop_first().is_prefix_of(
            rest,
        )),
{
    let full = seq![d] + rest;
    if code.is_prefix_of(full) {
        assert(code[0] == full.subrange(0, code.len() as int)[0]);
        assert forall|i: int| 0 <= i < code.len() - 1 implies code.drop_first()[i] == rest[i] by {
            assert(code[i + 1] == full.subrange(0, code.len() as int)[i + 1]);
        }
        assert(code.drop_first() =~= rest.subrange(0, code.len() - 1));
    }
    if code[0] == d && code.drop_first().is_prefix_of(rest) {
        assert forall|i: int| 0 <= i < code.len() implies code[i] == full[i] by {
            if i > 0 {
                assert(code.drop_first()[i - 1] == rest.subrange(0, code.len() - 1)[i - 1]);
            }
        }
        assert(code =~= full.subrange(0, code.len() as int));
    }
}

pub proof fn lemma_pcount_bounds(levels: Seq<Seq<u8>>, l: int, code: Seq<u8>, a: int, b: int)
    requires
        a <= b,
    ensures
        0 <= pcount(levels, l, code, a, b) <= b - a,
    decreases b - a,
{
    if a < b {
        lemma_pcount_bounds(levels, l, code, a, b - 1);
    }
}

pub proof fn lemma_pcount_split(
    levels: Seq<Seq<u8>>,
    l: int,
    code: Seq<u8>,
    a: int,
    m: int,
    b: int,
)
    requires
        a <= m <= b,
    ensures
        pcount(levels, l, code, a, b) == pcount(levels, l, code, a, m) + pcount(
            levels,
            l,
            code,
            m,
            b,
        ),
    decreases b - m,
{
    if m < b {
        lemma_pcount_split(levels, l, code, a, m, b - 1);
    }
}

pub proof fn lemma_pcount_empty(levels: Seq<Seq<u8>>, l: int, code: Seq<u8>, a: int, b: int)
    requires
        a <= b,
        code.len() == 0,
    ensures
        pcount(levels, l, code, a, b) == b - a,
    decreases b - a,
{
    if a < b {
        lemma_pcount_empty(levels, l, code, a, b - 1);
        assert(code =~= path(levels, l, b - 1).subrange(0, 0));
    }
}

/// Counting a code on one level is counting its rest on the next, between the
/// images of the two boundaries.
pub proof fn lemma_pcount_step(levels: Seq<Seq<u8>>, l: int, code: Seq<u8>, a: int, b: int)
    requires
        0 <= l < levels.len(),
        code.len() > 0,
        0 <= a <= b <= levels[l].len(),
    ensures
        child(levels[l], code[0], a) <= child(levels[l], code[0], b),
        pcount(levels, l, code, a, b) == pcount(
            levels,
            l + 1,
            code.drop_first(),
            child(levels[l], code[0], a),
            child(levels[l], code[0], b),
        ),
    decreases b - a,
{
    lemma_count_mono(levels[l], code[0], a, b);
    if a < b {
        lemma_pcount_step(levels, l, code, a, b - 1);
        lemma_prefix_cons(
            code,
            levels[l][b - 1],
            path(levels, l + 1, step(levels[l], b - 1)),
        );
        lemma_count_mono(levels[l], code[0], a, b - 1);
    }
}

pub proof fn lemma_walk_mono(levels: Seq<Seq<u8>>, code: Seq<u8>, p: int, q: int, l: int)
    requires
        0 <= p <= q,
        0 <= l <= code.len(),
        walk_fits(levels, code, q),
    ensures
        0 <= walk(levels, code, p, l) <= walk(levels, code, q, l),
    decreases l,
{
    if l > 0 {
        lemma_walk_mono(levels, code, p, q, l - 1);
        let s = levels[l - 1];
        let wp = walk(levels, code, p, l - 1);
        let wq = walk(levels, code, q, l - 1);
        lemma_count_mono(s, code[l - 1], wp, wq);
        lemma_child_bounds(s, code[l - 1], wp);
    }
}

/// Smaller boundaries fit where larger ones do.
pub proof fn lemma_walk_fits_mono(levels: Seq<Seq<u8>>, code: Seq<u8>, p: int, q: int)
    requires
        0 <= p <= q,
        walk_fits(levels, code, q),
    ensures
        walk_fits(levels, code, p),
{
    assert forall|l: int| 0 <= l < code.len() implies #[trigger] walk(levels, code, p, l)
        <= levels[l].len() by {
        lemma_walk_mono(levels, code, p, q, l);
        assert(walk(levels, code, q, l) <= levels[l].len());
    }
}

/// Counting the rows whose path starts with `code` may stop after any number
/// of digits.
pub proof fn lemma_pcount_walk(
    levels: Seq<Seq<u8>>,
    code: Seq<u8>,
    a: int,
    b: int,
    l: int,
)
    requires
        0 <= a <= b,
        0 <= l <= code.len(),
        walk_fits(levels, code, b),
    ensures
        0 <= walk(levels, code, a, l) <= walk(levels, code, b, l),
        pcount(levels, 0, code, a, b) == pcount(
            levels,
            l,
            code.skip(l),
            walk(levels, code, a, l),
            walk(levels, code, b, l),
        ),
    decreases l,
{
    lemma_walk_mono(levels, code, a, b, l);
    if l == 0 {
        assert(code.skip(0) =~= code);
    } else {
        lemma_pcount_walk(levels, code, a, b, l - 1);
        lemma_walk_mono(levels, code, a, b, l - 1);
        assert(walk(levels, code, b, l - 1) <= levels[l - 1].len());
        let rest = code.skip(l - 1);
        assert(rest.drop_first() =~= code.skip(l));
        lemma_pcount_step(
            levels,
            l - 1,
            rest,
            walk(levels, code, a, l - 1),
            walk(levels, code, b, l - 1),
        );
    }
}

/// The difference of the two walks is the number of rows met on the way.
pub proof fn lemma_walk_counts(levels: Seq<Seq<u8>>, code: Seq<u8>, a: int, b: int)
    requires
        0 <= a <= b,
        walk_fits(levels, code, b),
    ensures
        pcount(levels, 0, code, a, b) == walk(levels, code, b, code.len() as int) - walk(
            levels,
            code,
            a,
            code.len() as int,
        ),
{
    let m = code.len() as int;
    lemma_pcount_walk(levels, code, a, b, m);
    lemma_pcount_empty(
        levels,
        m,
        code.skip(m),
        walk(levels, code, a, m),
        walk(levels, code, b, m),
    );
}

} // verus!
