//! The levels that a sequence of codes gives rise to.
//!
//! Level `l` holds digit `l` of every code that has one. From one level to the
//! next, codes that are finished leave and the others are stably partitioned
//! by digit. For this to be undone by `step`, finished rows must stand behind
//! the rows that go on: that is what the order on codes below asks for.

use vstd::prelude::*;

use crate::wavelet::{
    below, child, count, digits_below, lemma_below_bounds, lemma_below_mono, lemma_child_bounds,
    lemma_count_mono, lemma_step_bounds, lemma_step_onto, lemma_step_order, path, pcount, step,
    walk, walk_fits,
};

verus! {

/// The first `l` digits of `a`, read backwards, come before those of `b`.
pub open spec fn rev_lt(a: Seq<u8>, b: Seq<u8>, l: int) -> bool
    decreases l,
{
    l > 0 && (a[l - 1] < b[l - 1] || (a[l - 1] == b[l - 1] && rev_lt(a, b, l - 1)))
}

/// A set of codes that a wavelet matrix can hold: no code is empty or longer
/// than `n_levels`, and where one code is shorter than another, the other is
/// ordered before it after as many digits.
pub open spec fn wm_codes(codes: spec_fn(Seq<u8>) -> bool, n_levels: int, radix: int) -> bool {
    &&& 2 <= radix <= 255
    &&& forall|a: Seq<u8>| #[trigger]
        codes(a) ==> 0 < a.len() <= n_levels && digits_below(a, radix)
    &&& forall|a: Seq<u8>, b: Seq<u8>| #[trigger]
        codes(a) && #[trigger] codes(b) && a.len() < b.len() ==> rev_lt(b, a, a.len() as int)
}

/// The group of a code after level `l`: its digit, or `radix` if it is finished.
pub open spec fn bucket(c: Seq<u8>, l: int, radix: int) -> u8 {
    if c.len() > l + 1 {
        c[l]
    } else {
        radix as u8
    }
}

pub open spec fn buckets(rows: Seq<Seq<u8>>, l: int, radix: int) -> Seq<u8> {
    Seq::new(rows.len(), |p: int| bucket(rows[p], l, radix))
}

/// The codes that go on after level `l`, in their order on level `l + 1`.
pub open spec fn next_rows(rows: Seq<Seq<u8>>, l: int, radix: int) -> Seq<Seq<u8>> {
    let b = buckets(rows, l, radix);
    Seq::new(
        below(b, radix, b.len() as int) as nat,
        |j: int| rows[choose|p: int| 0 <= p < rows.len() && #[trigger] step(b, p) == j],
    )
}

/// The codes of the rows on level `l`.
pub open spec fn rows_at(codes: Seq<Seq<u8>>, l: int, radix: int) -> Seq<Seq<u8>>
    decreases l,
{
    if l <= 0 {
        codes
    } else {
        next_rows(rows_at(codes, l - 1, radix), l - 1, radix)
    }
}

/// Digit `l` of each row.
pub open spec fn digits_at(rows: Seq<Seq<u8>>, l: int) -> Seq<u8> {
    Seq::new(rows.len(), |p: int| rows[p][l])
}

/// The levels of a tree over rows with these codes.
pub open spec fn build(codes: Seq<Seq<u8>>, n_levels: int, radix: int) -> Seq<Seq<u8>> {
    Seq::new(n_levels as nat, |l: int| digits_at(rows_at(codes, l, radix), l))
}

/// All codes of `rows` belong to `codes`.
pub open spec fn rows_in(rows: Seq<Seq<u8>>, codes: spec_fn(Seq<u8>) -> bool) -> bool {
    forall|p: int| 0 <= p < rows.len() ==> codes(#[trigger] rows[p])
}

/// No row is finished before level `l`, and the rows are in order.
pub open spec fn live(rows: Seq<Seq<u8>>, codes: spec_fn(Seq<u8>) -> bool, l: int) -> bool {
    &&& rows_in(rows, codes)
    &&& forall|p: int| 0 <= p < rows.len() ==> (#[trigger] rows[p]).len() > l
    &&& forall|p: int, q: int|
        0 <= p < q < rows.len() ==> !rev_lt(#[trigger] rows[q], #[trigger] rows[p], l)
}

pub proof fn lemma_rev_lt_asym(a: Seq<u8>, b: Seq<u8>, l: int)
    ensures
        !(rev_lt(a, b, l) && rev_lt(b, a, l)),
    decreases l,
{
    if l > 0 {
        lemma_rev_lt_asym(a, b, l - 1);
    }
}

pub proof fn lemma_rev_lt_same(a: Seq<u8>, b: Seq<u8>, l: int)
    requires
        forall|i: int| 0 <= i < l ==> a[i] == b[i],
    ensures
        !rev_lt(a, b, l),
    decreases l,
{
    if l > 0 {
        lemma_rev_lt_same(a, b, l - 1);
    }
}

/// Of two different codes of one length, one is ordered before the other.
pub proof fn lemma_rev_lt_total(a: Seq<u8>, b: Seq<u8>, l: int)
    requires
        exists|i: int| 0 <= i < l && a[i] != b[i],
    ensures
        rev_lt(a, b, l) || rev_lt(b, a, l),
    decreases l,
{
    if l > 0 && a[l - 1] == b[l - 1] {
        let i = choose|i: int| 0 <= i < l && a[i] != b[i];
        assert(0 <= i < l - 1 && a[i] != b[i]);
        lemma_rev_lt_total(a, b, l - 1);
    }
}

/// No code of the set starts with another.
pub proof fn lemma_prefix_free(
    codes: spec_fn(Seq<u8>) -> bool,
    n_levels: int,
    radix: int,
    a: Seq<u8>,
    b: Seq<u8>,
)
    requires
        wm_codes(codes, n_levels, radix),
        codes(a),
        codes(b),
        a.is_prefix_of(b),
    ensures
        a == b,
{
    assert forall|i: int| 0 <= i < a.len() implies a[i] == b[i] by {
        assert(a[i] == b.subrange(0, a.len() as int)[i]);
    }
    if a.len() < b.len() {
        lemma_rev_lt_same(b, a, a.len() as int);
    } else {
        assert(a =~= b);
    }
}

proof fn lemma_below_same(s: Seq<u8>, t: Seq<u8>, d: int, i: int)
    requires
        forall|q: int| #![trigger s[q]] 0 <= q < i ==> (s[q] < d <==> t[q] < d),
    ensures
        below(s, d, i) == below(t, d, i),
    decreases i,
{
    if i > 0 {
        lemma_below_same(s, t, d, i - 1);
        assert(s[i - 1] < d <==> t[i - 1] < d);
    }
}

proof fn lemma_count_same(s: Seq<u8>, t: Seq<u8>, d: u8, i: int)
    requires
        forall|q: int| #![trigger s[q]] 0 <= q < i ==> (s[q] == d <==> t[q] == d),
    ensures
        count(s, d, i) == count(t, d, i),
    decreases i,
{
    if i > 0 {
        lemma_count_same(s, t, d, i - 1);
        assert(s[i - 1] == d <==> t[i - 1] == d);
    }
}

/// A row that goes on is found on the next level at the image of its bucket.
pub proof fn lemma_next_row(rows: Seq<Seq<u8>>, l: int, radix: int, p: int)
    requires
        0 <= p < rows.len(),
        0 < radix <= 255,
        buckets(rows, l, radix)[p] < radix,
    ensures
        0 <= step(buckets(rows, l, radix), p) < next_rows(rows, l, radix).len(),
        next_rows(rows, l, radix)[step(buckets(rows, l, radix), p)] == rows[p],
{
    let b = buckets(rows, l, radix);
    let n = rows.len() as int;
    let j = step(b, p);
    lemma_below_bounds(b, radix, n);
    lemma_step_bounds(b, p);
    lemma_child_bounds(b, b[p], p + 1);
    lemma_below_mono(b, b[p] as int + 1, radix, n);
    let q = choose|q: int| 0 <= q < rows.len() && #[trigger] step(b, q) == j;
    assert(0 <= p < rows.len() && step(b, p) == j);
    lemma_step_order(b, p, q);
}

/// Every row of the next level went on from this one.
pub proof fn lemma_next_onto(rows: Seq<Seq<u8>>, l: int, radix: int, j: int) -> (p: int)
    requires
        0 < radix <= 255,
        0 <= j < next_rows(rows, l, radix).len(),
    ensures
        0 <= p < rows.len(),
        buckets(rows, l, radix)[p] < radix,
        step(buckets(rows, l, radix), p) == j,
        next_rows(rows, l, radix)[j] == rows[p],
{
    let b = buckets(rows, l, radix);
    lemma_below_bounds(b, radix, rows.len() as int);
    let p = lemma_step_onto(b, j, radix as u8);
    lemma_next_row(rows, l, radix, p);
    p
}

pub proof fn lemma_bucket(
    rows: Seq<Seq<u8>>,
    codes: spec_fn(Seq<u8>) -> bool,
    n_levels: int,
    radix: int,
    l: int,
    p: int,
)
    requires
        wm_codes(codes, n_levels, radix),
        live(rows, codes, l),
        0 <= l,
        0 <= p < rows.len(),
    ensures
        digits_at(rows, l)[p] == rows[p][l],
        rows[p][l] < radix,
        buckets(rows, l, radix)[p] < radix <==> rows[p].len() > l + 1,
        rows[p].len() > l + 1 ==> buckets(rows, l, radix)[p] == rows[p][l],
        rows[p].len() <= l + 1 ==> buckets(rows, l, radix)[p] == radix && rows[p].len() == l + 1,
{
    assert(codes(rows[p]));
    assert(digits_below(rows[p], radix));
    assert(rows[p].len() > l);
}

pub proof fn lemma_next_live(
    rows: Seq<Seq<u8>>,
    codes: spec_fn(Seq<u8>) -> bool,
    n_levels: int,
    radix: int,
    l: int,
)
    requires
        wm_codes(codes, n_levels, radix),
        live(rows, codes, l),
        0 <= l,
    ensures
        live(next_rows(rows, l, radix), codes, l + 1),
{
    let next = next_rows(rows, l, radix);
    let b = buckets(rows, l, radix);
    assert forall|j: int| 0 <= j < next.len() implies codes(#[trigger] next[j]) && next[j].len() > l
        + 1 by {
        let p = lemma_next_onto(rows, l, radix, j);
        lemma_bucket(rows, codes, n_levels, radix, l, p);
        assert(codes(rows[p]));
    }
    assert forall|i: int, j: int| 0 <= i < j < next.len() implies !rev_lt(
        #[trigger] next[j],
        #[trigger] next[i],
        l + 1,
    ) by {
        let p = lemma_next_onto(rows, l, radix, i);
        let q = lemma_next_onto(rows, l, radix, j);
        lemma_bucket(rows, codes, n_levels, radix, l, p);
        lemma_bucket(rows, codes, n_levels, radix, l, q);
        lemma_step_order(b, p, q);
        if p < q {
            assert(!rev_lt(rows[q], rows[p], l));
        }
    }
}

pub proof fn lemma_rows_live(
    rows: Seq<Seq<u8>>,
    codes: spec_fn(Seq<u8>) -> bool,
    n_levels: int,
    radix: int,
    l: int,
)
    requires
        wm_codes(codes, n_levels, radix),
        rows_in(rows, codes),
        0 <= l,
    ensures
        live(rows_at(rows, l, radix), codes, l),
        l >= n_levels ==> rows_at(rows, l, radix).len() == 0,
    decreases l,
{
    if l > 0 {
        lemma_rows_live(rows, codes, n_levels, radix, l - 1);
        lemma_next_live(rows_at(rows, l - 1, radix), codes, n_levels, radix, l - 1);
    } else {
        assert forall|p: int| 0 <= p < rows.len() implies (#[trigger] rows[p]).len() > 0 by {
            assert(codes(rows[p]));
        }
    }
    let r = rows_at(rows, l, radix);
    if l >= n_levels && r.len() > 0 {
        assert(codes(r[0]));
    }
}

/// A row that goes on has the same image by its digit as by its bucket.
proof fn lemma_step_on(
    rows: Seq<Seq<u8>>,
    codes: spec_fn(Seq<u8>) -> bool,
    n_levels: int,
    radix: int,
    l: int,
    p: int,
)
    requires
        wm_codes(codes, n_levels, radix),
        live(rows, codes, l),
        0 <= l,
        0 <= p < rows.len(),
        rows[p].len() > l + 1,
    ensures
        step(digits_at(rows, l), p) == step(buckets(rows, l, radix), p),
{
    let s = digits_at(rows, l);
    let b = buckets(rows, l, radix);
    let d = rows[p][l];
    lemma_bucket(rows, codes, n_levels, radix, l, p);
    assert forall|q: int| 0 <= q < rows.len() implies ((#[trigger] s[q]) < d as int <==> b[q]
        < d as int) by {
        lemma_bucket(rows, codes, n_levels, radix, l, q);
        if rows[q].len() <= l + 1 {
            assert(codes(rows[q]) && codes(rows[p]));
            assert(rev_lt(rows[p], rows[q], l + 1));
        }
    }
    assert forall|q: int| 0 <= q < p implies ((#[trigger] s[q]) == d <==> b[q] == d) by {
        lemma_bucket(rows, codes, n_levels, radix, l, q);
        if rows[q].len() <= l + 1 {
            assert(codes(rows[q]) && codes(rows[p]));
            assert(rev_lt(rows[p], rows[q], l + 1));
            assert(!rev_lt(rows[p], rows[q], l));
        }
    }
    lemma_below_same(s, b, d as int, rows.len() as int);
    lemma_count_same(s, b, d, p);
}

proof fn lemma_going_on_bound(
    rows: Seq<Seq<u8>>,
    codes: spec_fn(Seq<u8>) -> bool,
    n_levels: int,
    radix: int,
    l: int,
    p: int,
    i: int,
)
    requires
        wm_codes(codes, n_levels, radix),
        live(rows, codes, l),
        0 <= l,
        0 <= p < rows.len(),
        rows[p].len() == l + 1,
        0 <= i <= rows.len(),
    ensures
        below(buckets(rows, l, radix), radix, i) <= below(
            digits_at(rows, l),
            rows[p][l] as int,
            i,
        ) + count(
            digits_at(rows, l),
            rows[p][l],
            if i < p {
                i
            } else {
                p
            },
        ),
    decreases i,
{
    if i > 0 {
        lemma_going_on_bound(rows, codes, n_levels, radix, l, p, i - 1);
        let q = i - 1;
        lemma_bucket(rows, codes, n_levels, radix, l, q);
        if rows[q].len() > l + 1 {
            assert(codes(rows[q]) && codes(rows[p]));
            assert(rev_lt(rows[q], rows[p], l + 1));
            if rows[q][l] == rows[p][l] && q > p {
                assert(!rev_lt(rows[q], rows[p], l));
            }
        }
    }
}

/// A finished row leaves the next level.
proof fn lemma_step_off(
    rows: Seq<Seq<u8>>,
    codes: spec_fn(Seq<u8>) -> bool,
    n_levels: int,
    radix: int,
    l: int,
    p: int,
)
    requires
        wm_codes(codes, n_levels, radix),
        live(rows, codes, l),
        0 <= l,
        0 <= p < rows.len(),
        rows[p].len() == l + 1,
    ensures
        step(digits_at(rows, l), p) >= next_rows(rows, l, radix).len(),
{
    lemma_going_on_bound(rows, codes, n_levels, radix, l, p, rows.len() as int);
    lemma_below_bounds(buckets(rows, l, radix), radix, rows.len() as int);
}

/// Reading the levels back gives the rest of each code.
pub proof fn lemma_build_path(
    rows: Seq<Seq<u8>>,
    codes: spec_fn(Seq<u8>) -> bool,
    n_levels: int,
    radix: int,
    l: int,
    p: int,
)
    requires
        wm_codes(codes, n_levels, radix),
        rows_in(rows, codes),
        0 <= l,
        0 <= p < rows_at(rows, l, radix).len(),
    ensures
        path(build(rows, n_levels, radix), l, p) == rows_at(rows, l, radix)[p].skip(l),
    decreases n_levels - l,
{
    lemma_rows_live(rows, codes, n_levels, radix, l);
    lemma_rows_live(rows, codes, n_levels, radix, l + 1);
    let levels = build(rows, n_levels, radix);
    let r = rows_at(rows, l, radix);
    let next = rows_at(rows, l + 1, radix);
    assert(next == next_rows(r, l, radix));
    let s = digits_at(r, l);
    assert(levels[l] == s);
    lemma_bucket(r, codes, n_levels, radix, l, p);
    lemma_step_bounds(s, p);
    if r[p].len() > l + 1 {
        lemma_step_on(r, codes, n_levels, radix, l, p);
        lemma_next_row(r, l, radix, p);
        lemma_build_path(rows, codes, n_levels, radix, l + 1, step(s, p));
        assert(r[p].skip(l) =~= seq![r[p][l]] + r[p].skip(l + 1));
    } else {
        lemma_step_off(r, codes, n_levels, radix, l, p);
        if l + 1 < n_levels {
            assert(levels[l + 1] == digits_at(next, l + 1));
        }
        assert(path(levels, l + 1, step(s, p)) =~= Seq::<u8>::empty());
        assert(r[p].skip(l) =~= seq![r[p][l]]);
        assert(seq![r[p][l]] + Seq::<u8>::empty() =~= seq![r[p][l]]);
    }
}

/// Following a code of the set never leaves the levels.
proof fn lemma_build_walk(
    rows: Seq<Seq<u8>>,
    codes: spec_fn(Seq<u8>) -> bool,
    n_levels: int,
    radix: int,
    c: Seq<u8>,
    l: int,
)
    requires
        wm_codes(codes, n_levels, radix),
        rows_in(rows, codes),
        codes(c),
        0 <= l < c.len(),
    ensures
        0 <= walk(build(rows, n_levels, radix), c, rows.len() as int, l) <= rows_at(
            rows,
            l,
            radix,
        ).len(),
        forall|q: int|
            0 <= q < walk(build(rows, n_levels, radix), c, rows.len() as int, l) ==> !rev_lt(
                c,
                #[trigger] rows_at(rows, l, radix)[q],
                l,
            ),
    decreases l,
{
    if l > 0 {
        let m = l - 1;
        lemma_build_walk(rows, codes, n_levels, radix, c, m);
        lemma_rows_live(rows, codes, n_levels, radix, m);
        let levels = build(rows, n_levels, radix);
        let r = rows_at(rows, m, radix);
        let next = rows_at(rows, l, radix);
        assert(next == next_rows(r, m, radix));
        let n = r.len() as int;
        let w = walk(levels, c, rows.len() as int, m);
        let s = digits_at(r, m);
        let b = buckets(r, m, radix);
        let d = c[m];
        assert(levels[m] == s);
        assert(digits_below(c, radix));
        assert forall|q: int| 0 <= q < n implies ((#[trigger] s[q]) < d as int <==> b[q]
            < d as int) by {
            lemma_bucket(r, codes, n_levels, radix, m, q);
            if r[q].len() <= m + 1 {
                assert(codes(r[q]) && codes(c));
                assert(rev_lt(c, r[q], m + 1));
            }
        }
        assert forall|q: int| 0 <= q < w implies ((#[trigger] s[q]) == d <==> b[q] == d) by {
            lemma_bucket(r, codes, n_levels, radix, m, q);
            assert(!rev_lt(c, r[q], m));
            if r[q].len() <= m + 1 {
                assert(codes(r[q]) && codes(c));
                assert(rev_lt(c, r[q], m + 1));
            }
        }
        lemma_below_same(s, b, d as int, n);
        lemma_count_same(s, b, d, w);
        lemma_child_bounds(b, d, w);
        lemma_below_mono(b, d as int + 1, radix, n);
        let e = child(b, d, w);
        assert(walk(levels, c, rows.len() as int, l) == e);
        assert forall|j: int| 0 <= j < e implies !rev_lt(c, #[trigger] next[j], l) by {
            let p = lemma_next_onto(r, m, radix, j);
            lemma_bucket(r, codes, n_levels, radix, m, p);
            if b[p] > d {
                lemma_child_bounds(b, b[p], p);
                lemma_below_mono(b, d as int + 1, b[p] as int, n);
            } else if b[p] == d {
                if p >= w {
                    lemma_count_mono(b, d, w, p);
                }
                assert(!rev_lt(c, r[p], m));
            }
        }
    }
}

pub proof fn lemma_build_fits(
    rows: Seq<Seq<u8>>,
    codes: spec_fn(Seq<u8>) -> bool,
    n_levels: int,
    radix: int,
    c: Seq<u8>,
)
    requires
        wm_codes(codes, n_levels, radix),
        rows_in(rows, codes),
        codes(c),
    ensures
        walk_fits(build(rows, n_levels, radix), c, rows.len() as int),
{
    let levels = build(rows, n_levels, radix);
    assert forall|l: int| 0 <= l < c.len() implies #[trigger] walk(
        levels,
        c,
        rows.len() as int,
        l,
    ) <= levels[l].len() by {
        lemma_build_walk(rows, codes, n_levels, radix, c, l);
    }
}

/// How many of the first `i` rows have code `c`.
pub open spec fn code_count(rows: Seq<Seq<u8>>, c: Seq<u8>, i: int) -> int
    decreases i,
{
    if i <= 0 {
        0
    } else {
        code_count(rows, c, i - 1) + if rows[i - 1] == c {
            1int
        } else {
            0int
        }
    }
}

/// Counting paths that start with a code is counting the rows of that code.
pub proof fn lemma_build_count(
    rows: Seq<Seq<u8>>,
    codes: spec_fn(Seq<u8>) -> bool,
    n_levels: int,
    radix: int,
    c: Seq<u8>,
    i: int,
)
    requires
        wm_codes(codes, n_levels, radix),
        rows_in(rows, codes),
        codes(c),
        0 <= i <= rows.len(),
    ensures
        pcount(build(rows, n_levels, radix), 0, c, 0, i) == code_count(rows, c, i),
    decreases i,
{
    if i > 0 {
        lemma_build_count(rows, codes, n_levels, radix, c, i - 1);
        lemma_build_path(rows, codes, n_levels, radix, 0, i - 1);
        assert(rows[i - 1].skip(0) =~= rows[i - 1]);
        assert(codes(rows[i - 1]));
        if c.is_prefix_of(rows[i - 1]) {
            lemma_prefix_free(codes, n_levels, radix, c, rows[i - 1]);
        } else if rows[i - 1] == c {
            assert(c =~= c.subrange(0, c.len() as int));
        }
    }
}

/// The paths of the rows of the top level.
pub open spec fn paths_of(levels: Seq<Seq<u8>>, n: int) -> Seq<Seq<u8>> {
    Seq::new(n as nat, |i: int| path(levels, 0, i))
}

/// All levels have `n` digits below `radix`.
pub open spec fn plain_levels(levels: Seq<Seq<u8>>, n: int, radix: int) -> bool {
    forall|l: int|
        0 <= l < levels.len() ==> (#[trigger] levels[l]).len() == n && digits_below(
            levels[l],
            radix,
        )
}

/// On levels of one length every path meets every level.
pub proof fn lemma_plain_path(levels: Seq<Seq<u8>>, n: int, radix: int, l: int, p: int)
    requires
        plain_levels(levels, n, radix),
        0 <= l <= levels.len(),
        0 <= p < n,
    ensures
        path(levels, l, p).len() == levels.len() - l,
        digits_below(path(levels, l, p), radix),
    decreases levels.len() - l,
{
    if l < levels.len() {
        let s = levels[l];
        assert(s.len() == n && digits_below(s, radix));
        lemma_step_bounds(s, p);
        lemma_plain_path(levels, n, radix, l + 1, step(s, p));
        let rest = path(levels, l + 1, step(s, p));
        assert forall|q: int| 0 <= q < path(levels, l, p).len() implies (#[trigger] path(
            levels,
            l,
            p,
        )[q]) < radix by {
            if q > 0 {
                assert(path(levels, l, p)[q] == rest[q - 1]);
            }
        }
    }
}

/// On levels of one length the rows of level `l` are what is left of the paths.
proof fn lemma_plain_rows(levels: Seq<Seq<u8>>, n: int, radix: int, l: int)
    requires
        plain_levels(levels, n, radix),
        2 <= radix <= 255,
        0 <= l < levels.len(),
        0 <= n,
    ensures
        rows_at(paths_of(levels, n), l, radix).len() == n,
        forall|p: int|
            0 <= p < n ==> {
                let row = #[trigger] rows_at(paths_of(levels, n), l, radix)[p];
                row.len() == levels.len() && row.skip(l) == path(levels, l, p)
            },
    decreases l,
{
    let codes = paths_of(levels, n);
    if l == 0 {
        assert forall|p: int| 0 <= p < n implies {
            let row = #[trigger] rows_at(codes, 0, radix)[p];
            row.len() == levels.len() && row.skip(0) == path(levels, 0, p)
        } by {
            lemma_plain_path(levels, n, radix, 0, p);
            assert(codes[p].skip(0) =~= codes[p]);
        }
    } else {
        let m = l - 1;
        lemma_plain_rows(levels, n, radix, m);
        let rows = rows_at(codes, m, radix);
        let next = rows_at(codes, l, radix);
        assert(next == next_rows(rows, m, radix));
        let s = levels[m];
        let b = buckets(rows, m, radix);
        assert(s.len() == n && digits_below(s, radix));
        assert forall|p: int| 0 <= p < n implies b[p] == s[p] by {
            assert(rows[p].skip(m) == path(levels, m, p));
            assert(rows[p].skip(m)[0] == rows[p][m]);
        }
        assert(b =~= s);
        crate::wavelet::lemma_below_all(s, radix, n);
        assert forall|j: int| 0 <= j < n implies {
            let row = #[trigger] next[j];
            row.len() == levels.len() && row.skip(l) == path(levels, l, j)
        } by {
            let p = lemma_next_onto(rows, m, radix, j);
            assert(rows[p].skip(m) == path(levels, m, p));
            assert(rows[p].skip(l) =~= rows[p].skip(m).drop_first());
            assert(path(levels, m, p).drop_first() =~= path(levels, l, j));
        }
    }
}

/// Levels of one length are those that their paths give rise to.
pub proof fn lemma_plain_levels(levels: Seq<Seq<u8>>, n: int, radix: int)
    requires
        plain_levels(levels, n, radix),
        2 <= radix <= 255,
        0 <= n,
    ensures
        levels == build(paths_of(levels, n), levels.len() as int, radix),
{
    let built = build(paths_of(levels, n), levels.len() as int, radix);
    assert forall|l: int| 0 <= l < levels.len() implies levels[l] == built[l] by {
        lemma_plain_rows(levels, n, radix, l);
        let rows = rows_at(paths_of(levels, n), l, radix);
        assert(levels[l].len() == n);
        assert forall|p: int| 0 <= p < n implies levels[l][p] == rows[p][l] by {
            assert(rows[p].skip(l) == path(levels, l, p));
            assert(rows[p].skip(l)[0] == rows[p][l]);
        }
        assert(levels[l] =~= built[l]);
    }
    assert(levels =~= built);
}

} // verus!
