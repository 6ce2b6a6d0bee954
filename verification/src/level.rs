//! Levels of a tree, and the walks that answer queries on a stack of levels.

use vstd::prelude::*;

use crate::digits::{
    digit_at, digits_of, lemma_digits_of, lemma_push_mod, push_digit, radix_of, value,
};
use crate::wavelet::{
    below, child, count, digits_below, lemma_child_bounds, lemma_count_bounds, lemma_count_mono,
    lemma_pcount_bounds, lemma_pcount_empty, lemma_pcount_split, lemma_pcount_step,
    lemma_pcount_walk, lemma_prefix_cons, lemma_step_bounds, lemma_walk_counts, lemma_walk_mono,
    path, pcount, step, walk, walk_fits,
};

verus! {

/// One level of a tree: a sequence of digits with rank and select.
pub trait DigitLevel: Sized {
    /// The digits of the level.
    spec fn digits(&self) -> Seq<u8>;

    /// The support data agrees with the digits.
    spec fn wf(&self) -> bool;

    /// How many bits a digit has.
    spec fn digit_bits() -> u32;

    proof fn lemma_level(&self)
        requires
            self.wf(),
        ensures
            Self::digit_bits() == 1 || Self::digit_bits() == 2,
            digits_below(self.digits(), radix_of(Self::digit_bits())),
            self.digits().len() <= usize::MAX,
    ;

    /// How many bits a digit has.
    fn bits() -> (b: u32)
        ensures
            b == Self::digit_bits(),
            b == 1 || b == 2,
    ;

    /// The number of digits.
    fn level_len(&self) -> (n: usize)
        requires
            self.wf(),
        ensures
            n == self.digits().len(),
    ;

    /// The digit at position `p`.
    fn digit(&self, p: usize) -> (d: u8)
        requires
            self.wf(),
            p < self.digits().len(),
        ensures
            d == self.digits()[p as int],
            d < radix_of(Self::digit_bits()),
    ;

    /// How many of the first `p` digits equal `d`.
    fn digit_rank(&self, d: u8, p: usize) -> (k: usize)
        requires
            self.wf(),
            d < radix_of(Self::digit_bits()),
            p <= self.digits().len(),
        ensures
            k == count(self.digits(), d, p as int),
    ;

    /// How many digits of the level are smaller than `d`.
    fn digits_smaller(&self, d: u8) -> (k: usize)
        requires
            self.wf(),
            d < radix_of(Self::digit_bits()),
        ensures
            k == below(self.digits(), d as int, self.digits().len() as int),
    ;

    /// The position of occurrence `k` of `d`, counting from zero.
    fn digit_select(&self, d: u8, k: usize) -> (r: Option<usize>)
        requires
            self.wf(),
            d < radix_of(Self::digit_bits()),
        ensures
            match r {
                Some(p) => p < self.digits().len() && self.digits()[p as int] == d && count(
                    self.digits(),
                    d,
                    p as int,
                ) == k,
                None => count(self.digits(), d, self.digits().len() as int) <= k,
            },
    ;
}

/// The digits of each level.
pub open spec fn level_digits<L: DigitLevel>(levels: Seq<L>) -> Seq<Seq<u8>> {
    Seq::new(levels.len(), |l: int| levels[l].digits())
}

/// Every level is well formed.
pub open spec fn levels_wf<L: DigitLevel>(levels: Seq<L>) -> bool {
    forall|l: int| 0 <= l < levels.len() ==> (#[trigger] levels[l]).wf()
}

/// A code of `len` digits held in the low bits of a word.
pub open spec fn code_of(content: u64, len: int, bits: u32) -> Seq<u8> {
    digits_of(content as int, len, radix_of(bits))
}

/// Follows the row at position `i` down the levels. Returns the number that its
/// path writes, modulo two to the 64, and the length of the path.
pub fn descend<L: DigitLevel>(levels: &Vec<L>, i: usize) -> (r: (u64, usize))
    requires
        levels_wf(levels@),
    ensures
        r.1 == path(level_digits(levels@), 0, i as int).len(),
        r.1 <= levels.len(),
        r.0 == value(
            path(level_digits(levels@), 0, i as int),
            radix_of(L::digit_bits()),
        ) % 0x1_0000_0000_0000_0000,
{
    let ghost lv = level_digits(levels@);
    let ghost full = path(lv, 0, i as int);
    let ghost radix = radix_of(L::digit_bits());
    let bits: u32 = L::bits();
    let mut cur: usize = i;
    let mut result: u64 = 0;
    let mut depth: usize = 0;
    let ghost mut done: Seq<u8> = Seq::empty();
    assert(full =~= done + path(lv, 0, cur as int));
    while depth < levels.len() && cur < levels[depth].level_len()
        invariant
            levels_wf(levels@),
            lv == level_digits(levels@),
            depth <= levels.len(),
            full == done + path(lv, depth as int, cur as int),
            done.len() == depth,
            bits == L::digit_bits(),
            bits == 1 || bits == 2,
            radix == radix_of(bits),
            result == value(done, radix) % 0x1_0000_0000_0000_0000,
        ensures
            depth <= levels.len(),
            full == done + path(lv, depth as int, cur as int),
            path(lv, depth as int, cur as int).len() == 0,
            done.len() == depth,
            result == value(done, radix) % 0x1_0000_0000_0000_0000,
        decreases levels.len() - depth,
    {
        let level = &levels[depth];
        assert(lv[depth as int] == level.digits());
        let d: u8 = level.digit(cur);
        proof {
            lemma_step_bounds(level.digits(), cur as int);
            level.lemma_level();
            assert(done.push(d).drop_last() =~= done);
            lemma_push_mod(value(done, radix), radix, d as int, 0x1_0000_0000_0000_0000);
            assert(done.push(d) + path(lv, depth + 1, step(level.digits(), cur as int)) =~= done
                + path(lv, depth as int, cur as int));
            done = done.push(d);
        }
        result = push_digit(result, d, bits);
        cur = level.digits_smaller(d) + level.digit_rank(d, cur);
        depth = depth + 1;
    }
    assert(full =~= done);
    (result, depth)
}

/// Counts the rows in `0..i` whose path starts with the code of `len` digits
/// in `content`. `None` where the code leaves the levels.
pub fn rank_walk<L: DigitLevel>(levels: &Vec<L>, content: u64, len: usize, i: usize) -> (r: Option<
    usize,
>)
    requires
        levels_wf(levels@),
        len <= levels.len(),
    ensures
        ({
            let lv = level_digits(levels@);
            let code = code_of(content, len as int, L::digit_bits());
            match r {
                Some(k) => walk_fits(lv, code, i as int) && k == pcount(lv, 0, code, 0, i as int),
                None => !walk_fits(lv, code, i as int),
            }
        }),
{
    let bits: u32 = L::bits();
    let ghost lv = level_digits(levels@);
    let ghost code = code_of(content, len as int, bits);
    proof {
        lemma_digits_of(content as int, len as int, radix_of(bits));
    }
    let mut cur_i: usize = i;
    let mut cur_p: usize = 0;
    let mut l: usize = 0;
    while l < len
        invariant
            levels_wf(levels@),
            lv == level_digits(levels@),
            l <= len <= levels.len(),
            bits == L::digit_bits(),
            bits == 1 || bits == 2,
            code == code_of(content, len as int, bits),
            code.len() == len,
            cur_p <= cur_i,
            cur_i == walk(lv, code, i as int, l as int),
            cur_p == walk(lv, code, 0, l as int),
            forall|m: int| 0 <= m < l ==> #[trigger] walk(lv, code, i as int, m) <= lv[m].len(),
        decreases len - l,
    {
        let level = &levels[l];
        assert(lv[l as int] == level.digits());
        if cur_i > level.level_len() {
            assert(!(walk(lv, code, i as int, l as int) <= lv[l as int].len()));
            return None;
        }
        let d: u8 = digit_at(content, len, l, bits);
        assert(d == code[l as int]);
        let smaller: usize = level.digits_smaller(d);
        proof {
            lemma_child_bounds(level.digits(), d, cur_i as int);
            lemma_child_bounds(level.digits(), d, cur_p as int);
            lemma_count_mono(level.digits(), d, cur_p as int, cur_i as int);
            level.lemma_level();
        }
        cur_p = smaller + level.digit_rank(d, cur_p);
        cur_i = smaller + level.digit_rank(d, cur_i);
        l = l + 1;
    }
    proof {
        assert(walk_fits(lv, code, i as int));
        lemma_walk_counts(lv, code, 0, i as int);
    }
    Some(cur_i - cur_p)
}

/// The position of occurrence `k`, counting from zero, of the rows whose path
/// starts with the code of `len` digits in `content`.
#[verifier::rlimit(40)]
#[verifier::spinoff_prover]
pub fn select_walk<L: DigitLevel>(levels: &Vec<L>, content: u64, len: usize, k: usize) -> (r: Option<
    usize,
>)
    requires
        levels_wf(levels@),
        0 < len <= levels.len(),
    ensures
        ({
            let lv = level_digits(levels@);
            let code = code_of(content, len as int, L::digit_bits());
            match r {
                Some(p) => {
                    &&& p < lv[0].len()
                    &&& code.is_prefix_of(path(lv, 0, p as int))
                    &&& pcount(lv, 0, code, 0, p as int) == k
                },
                None => walk_fits(lv, code, lv[0].len() as int) ==> pcount(
                    lv,
                    0,
                    code,
                    0,
                    lv[0].len() as int,
                ) <= k,
            }
        }),
{
    let bits: u32 = L::bits();
    let ghost lv = level_digits(levels@);
    let ghost code = code_of(content, len as int, bits);
    let ghost n = lv[0].len() as int;
    proof {
        lemma_digits_of(content as int, len as int, radix_of(bits));
    }
    let mut path_off: Vec<usize> = Vec::with_capacity(len);
    let mut rank_path_off: Vec<usize> = Vec::with_capacity(len);
    let mut b: usize = 0;
    let mut l: usize = 0;
    while l < len
        invariant
            levels_wf(levels@),
            lv == level_digits(levels@),
            l <= len <= levels.len(),
            n == lv[0].len(),
            bits == L::digit_bits(),
            bits == 1 || bits == 2,
            code == code_of(content, len as int, bits),
            code.len() == len,
            b == walk(lv, code, 0, l as int),
            path_off.len() == l,
            rank_path_off.len() == l,
            forall|m: int| 0 <= m < l ==> #[trigger] path_off[m] == walk(lv, code, 0, m),
            forall|m: int| 0 <= m < l ==> path_off[m] <= (#[trigger] lv[m]).len(),
            forall|m: int|
                0 <= m < l ==> #[trigger] rank_path_off[m] == count(
                    lv[m],
                    code[m],
                    walk(lv, code, 0, m),
                ),
        decreases len - l,
    {
        let level = &levels[l];
        assert(lv[l as int] == level.digits());
        if b > level.level_len() {
            proof {
                if walk_fits(lv, code, n) {
                    lemma_walk_mono(lv, code, 0, n, l as int);
                    assert(walk(lv, code, n, l as int) <= lv[l as int].len());
                }
            }
            return None;
        }
        path_off.push(b);
        let d: u8 = digit_at(content, len, l, bits);
        assert(d == code[l as int]);
        let rank_b: usize = level.digit_rank(d, b);
        proof {
            lemma_child_bounds(level.digits(), d, b as int);
            level.lemma_level();
        }
        b = rank_b + level.digits_smaller(d);
        rank_path_off.push(rank_b);
        l = l + 1;
    }
    let mut result: usize = k;
    let ghost fits = walk_fits(lv, code, n);
    proof {
        let a = walk(lv, code, 0, len as int);
        assert(code.skip(len as int).len() == 0);
        lemma_pcount_empty(lv, len as int, code.skip(len as int), a, a + k as int);
        assert(code.skip(len as int) =~= path(lv, len as int, a + k as int).subrange(0, 0));
    }
    while l > 0
        invariant
            levels_wf(levels@),
            lv == level_digits(levels@),
            0 <= l <= len <= levels.len(),
            0 < len,
            n == lv[0].len(),
            bits == L::digit_bits(),
            bits == 1 || bits == 2,
            code == code_of(content, len as int, bits),
            code.len() == len,
            path_off.len() == len,
            rank_path_off.len() == len,
            forall|m: int| 0 <= m < len ==> #[trigger] path_off[m] == walk(lv, code, 0, m),
            forall|m: int| 0 <= m < len ==> path_off[m] <= (#[trigger] lv[m]).len(),
            forall|m: int|
                0 <= m < len ==> #[trigger] rank_path_off[m] == count(
                    lv[m],
                    code[m],
                    walk(lv, code, 0, m),
                ),
            fits == walk_fits(lv, code, n),
            l < len ==> walk(lv, code, 0, l as int) + result < lv[l as int].len(),
            code.skip(l as int).is_prefix_of(
                path(lv, l as int, walk(lv, code, 0, l as int) + result),
            ),
            pcount(
                lv,
                l as int,
                code.skip(l as int),
                walk(lv, code, 0, l as int),
                walk(lv, code, 0, l as int) + result,
            ) == k,
        decreases l,
    {
        let m: usize = l - 1;
        let level = &levels[m];
        let base: usize = path_off[m];
        let rank_b: usize = rank_path_off[m];
        let d: u8 = digit_at(content, len, m, bits);
        let ghost s = level.digits();
        let ghost a = walk(lv, code, 0, m as int);
        let ghost a2 = walk(lv, code, 0, l as int);
        let ghost j2 = a2 + result as int;
        let ghost rest = code.skip(m as int);
        proof {
            assert(lv[m as int] == s);
            assert(path_off[m as int] <= lv[m as int].len());
            level.lemma_level();
            assert(d == code[m as int]);
            assert(rest.drop_first() =~= code.skip(l as int));
            assert(a2 == child(s, d, a));
            assert(rest[0] == d);
            lemma_child_bounds(s, d, a);
        }
        let selected: Option<usize> = match rank_b.checked_add(result) {
            Some(x) => level.digit_select(d, x),
            None => None,
        };
        match selected {
            Some(j) => {
                proof {
                    if j < a {
                        lemma_count_mono(s, d, j + 1, a);
                    }
                    assert(child(s, d, j as int) == j2);
                    assert(step(s, j as int) == j2);
                    lemma_prefix_cons(rest, d, path(lv, l as int, j2));
                    lemma_pcount_step(lv, m as int, rest, a, j as int);
                }
                result = j - base;
            },
            None => {
                proof {
                    if fits {
                        lemma_count_bounds(s, d, s.len() as int);
                        lemma_walk_mono(lv, code, 0, n, m as int);
                        let e = walk(lv, code, n, m as int);
                        assert(e <= s.len());
                        lemma_pcount_walk(lv, code, 0, n, m as int);
                        lemma_pcount_step(lv, m as int, rest, a, e);
                        lemma_count_mono(s, d, e, s.len() as int);
                        assert(child(s, d, e) <= j2);
                        lemma_pcount_split(
                            lv,
                            l as int,
                            code.skip(l as int),
                            a2,
                            child(s, d, e),
                            j2,
                        );
                        lemma_pcount_bounds(lv, l as int, code.skip(l as int), child(s, d, e), j2);
                    }
                }
                return None;
            },
        }
        l = m;
    }
    proof {
        assert(code.skip(0) =~= code);
    }
    Some(result)
}

/// Follows the row at position `i` down the levels. Returns the number that its
/// path writes, modulo two to the 64, and how many of the rows in `0..=i` have
/// a path that starts with that of `i`.
pub fn descend_and_rank<L: DigitLevel>(levels: &Vec<L>, i: usize) -> (r: (u64, usize))
    requires
        levels_wf(levels@),
        levels.len() > 0,
        i < levels[0].digits().len(),
    ensures
        ({
            let lv = level_digits(levels@);
            let p = path(lv, 0, i as int);
            &&& r.0 == value(p, radix_of(L::digit_bits())) % 0x1_0000_0000_0000_0000
            &&& r.1 == pcount(lv, 0, p, 0, i + 1)
        }),
{
    let ghost lv = level_digits(levels@);
    let ghost full = path(lv, 0, i as int);
    let ghost radix = radix_of(L::digit_bits());
    let bits: u32 = L::bits();
    let mut cur: usize = i;
    let mut cur_p: usize = 0;
    let mut result: u64 = 0;
    let mut depth: usize = 0;
    let ghost mut done: Seq<u8> = Seq::empty();
    proof {
        assert(full =~= done + path(lv, 0, cur as int));
        levels[0].lemma_level();
    }
    while depth < levels.len() && cur < levels[depth].level_len()
        invariant
            levels_wf(levels@),
            lv == level_digits(levels@),
            depth <= levels.len(),
            full == done + path(lv, depth as int, cur as int),
            done.len() == depth,
            bits == L::digit_bits(),
            bits == 1 || bits == 2,
            radix == radix_of(bits),
            result == value(done, radix) % 0x1_0000_0000_0000_0000,
            0 <= cur_p <= cur,
            cur < usize::MAX,
            pcount(lv, 0, full, 0, i as int) == pcount(
                lv,
                depth as int,
                path(lv, depth as int, cur as int),
                cur_p as int,
                cur as int,
            ),
        ensures
            depth <= levels.len(),
            full == done + path(lv, depth as int, cur as int),
            path(lv, depth as int, cur as int).len() == 0,
            done.len() == depth,
            result == value(done, radix) % 0x1_0000_0000_0000_0000,
            0 <= cur_p <= cur,
            cur < usize::MAX,
            pcount(lv, 0, full, 0, i as int) == pcount(
                lv,
                depth as int,
                path(lv, depth as int, cur as int),
                cur_p as int,
                cur as int,
            ),
        decreases levels.len() - depth,
    {
        let level = &levels[depth];
        let ghost s = level.digits();
        assert(lv[depth as int] == s);
        let d: u8 = level.digit(cur);
        let ghost here = path(lv, depth as int, cur as int);
        let smaller: usize = level.digits_smaller(d);
        proof {
            lemma_step_bounds(s, cur as int);
            level.lemma_level();
            assert(done.push(d).drop_last() =~= done);
            lemma_push_mod(value(done, radix), radix, d as int, 0x1_0000_0000_0000_0000);
            assert(done.push(d) + path(lv, depth + 1, step(s, cur as int)) =~= done + here);
            assert(here.drop_first() =~= path(lv, depth + 1, step(s, cur as int)));
            lemma_pcount_step(lv, depth as int, here, cur_p as int, cur as int);
            lemma_child_bounds(s, d, cur_p as int);
            done = done.push(d);
        }
        result = push_digit(result, d, bits);
        cur_p = smaller + level.digit_rank(d, cur_p);
        cur = smaller + level.digit_rank(d, cur);
        depth = depth + 1;
    }
    proof {
        assert(full =~= done);
        lemma_pcount_empty(
            lv,
            depth as int,
            path(lv, depth as int, cur as int),
            cur_p as int,
            cur as int,
        );
    }
    (result, cur - cur_p + 1)
}

/// Occurrence `k` of `d`, counting from zero, is at `p`.
pub open spec fn occurs_at(s: Seq<u8>, d: u8, k: int, p: int) -> bool {
    0 <= p < s.len() && s[p] == d && count(s, d, p) == k
}

/// The position that `k` comes from when the levels are followed down by one
/// code and up by another: each level on the way up counts occurrences from
/// where the way down has met it, at boundary `b` of level `l` first. `None`
/// where the way down leaves the levels, or the way up finds no occurrence, or
/// none behind that boundary.
pub open spec fn two_ways(
    levels: Seq<Seq<u8>>,
    down: Seq<u8>,
    up: Seq<u8>,
    l: int,
    b: int,
    k: int,
) -> Option<int>
    decreases down.len() - l,
{
    if l >= down.len() {
        Some(k)
    } else if b > levels[l].len() {
        None
    } else {
        let s = levels[l];
        match two_ways(levels, down, up, l + 1, child(s, down[l], b), k) {
            None => None,
            Some(x) => {
                let j = count(s, down[l], b) + x;
                if exists|p: int| b <= p && occurs_at(s, up[l], j, p) {
                    Some((choose|p: int| b <= p && occurs_at(s, up[l], j, p)) - b)
                } else {
                    None
                }
            },
        }
    }
}

/// Where the walk ends on one level, it ends on all before.
proof fn lemma_two_ways_none(
    levels: Seq<Seq<u8>>,
    down: Seq<u8>,
    up: Seq<u8>,
    l: int,
    k: int,
)
    requires
        0 <= l <= down.len(),
        two_ways(levels, down, up, l, walk(levels, down, 0, l), k) is None,
    ensures
        two_ways(levels, down, up, 0, 0, k) is None,
    decreases l,
{
    if l > 0 {
        lemma_two_ways_none(levels, down, up, l - 1, k);
    }
}

/// A digit occurs for the `k`-th time at one position.
proof fn lemma_occurs_once(s: Seq<u8>, d: u8, k: int, p: int, q: int)
    requires
        occurs_at(s, d, k, p),
        occurs_at(s, d, k, q),
    ensures
        p == q,
{
    if p < q {
        lemma_count_mono(s, d, p + 1, q);
    } else if q < p {
        lemma_count_mono(s, d, q + 1, p);
    }
}

/// Follows the levels down by the code of `len` digits in `down`, and up by that
/// in `up`.
pub fn select_two_ways<L: DigitLevel>(
    levels: &Vec<L>,
    down: u64,
    up: u64,
    len: usize,
    k: usize,
) -> (r: Option<usize>)
    requires
        levels_wf(levels@),
        len <= levels.len(),
    ensures
        ({
            let found = two_ways(
                level_digits(levels@),
                code_of(down, len as int, L::digit_bits()),
                code_of(up, len as int, L::digit_bits()),
                0,
                0,
                k as int,
            );
            match r {
                Some(p) => found == Some(p as int),
                None => found is None,
            }
        }),
{
    let bits: u32 = L::bits();
    let ghost lv = level_digits(levels@);
    let ghost dc = code_of(down, len as int, bits);
    let ghost uc = code_of(up, len as int, bits);
    proof {
        lemma_digits_of(down as int, len as int, radix_of(bits));
        lemma_digits_of(up as int, len as int, radix_of(bits));
    }
    let mut path_off: Vec<usize> = Vec::with_capacity(len);
    let mut rank_path_off: Vec<usize> = Vec::with_capacity(len);
    let mut b: usize = 0;
    let mut l: usize = 0;
    while l < len
        invariant
            levels_wf(levels@),
            lv == level_digits(levels@),
            l <= len <= levels.len(),
            bits == L::digit_bits(),
            bits == 1 || bits == 2,
            dc == code_of(down, len as int, bits),
            uc == code_of(up, len as int, bits),
            dc.len() == len,
            b == walk(lv, dc, 0, l as int),
            path_off.len() == l,
            rank_path_off.len() == l,
            forall|m: int| 0 <= m < l ==> #[trigger] path_off[m] == walk(lv, dc, 0, m),
            forall|m: int| 0 <= m < l ==> path_off[m] <= (#[trigger] lv[m]).len(),
            forall|m: int|
                0 <= m < l ==> #[trigger] rank_path_off[m] == count(
                    lv[m],
                    dc[m],
                    walk(lv, dc, 0, m),
                ),
        decreases len - l,
    {
        let level = &levels[l];
        assert(lv[l as int] == level.digits());
        if b > level.level_len() {
            proof {
                lemma_two_ways_none(lv, dc, uc, l as int, k as int);
            }
            return None;
        }
        path_off.push(b);
        let d: u8 = digit_at(down, len, l, bits);
        assert(d == dc[l as int]);
        let rank_b: usize = level.digit_rank(d, b);
        proof {
            lemma_child_bounds(level.digits(), d, b as int);
            level.lemma_level();
        }
        b = rank_b + level.digits_smaller(d);
        rank_path_off.push(rank_b);
        l = l + 1;
    }
    let mut result: usize = k;
    while l > 0
        invariant
            levels_wf(levels@),
            lv == level_digits(levels@),
            0 <= l <= len <= levels.len(),
            bits == L::digit_bits(),
            bits == 1 || bits == 2,
            dc == code_of(down, len as int, bits),
            uc == code_of(up, len as int, bits),
            dc.len() == len,
            uc.len() == len,
            path_off.len() == len,
            rank_path_off.len() == len,
            forall|m: int| 0 <= m < len ==> #[trigger] path_off[m] == walk(lv, dc, 0, m),
            forall|m: int| 0 <= m < len ==> path_off[m] <= (#[trigger] lv[m]).len(),
            forall|m: int|
                0 <= m < len ==> #[trigger] rank_path_off[m] == count(
                    lv[m],
                    dc[m],
                    walk(lv, dc, 0, m),
                ),
            two_ways(lv, dc, uc, l as int, walk(lv, dc, 0, l as int), k as int) == Some(
                result as int,
            ),
        decreases l,
    {
        let m: usize = l - 1;
        let level = &levels[m];
        let base: usize = path_off[m];
        let rank_b: usize = rank_path_off[m];
        let d: u8 = digit_at(up, len, m, bits);
        let ghost s = level.digits();
        let ghost j = rank_b + result;
        proof {
            assert(lv[m as int] == s);
            assert(path_off[m as int] <= lv[m as int].len());
            level.lemma_level();
            assert(d == uc[m as int]);
            lemma_count_bounds(s, d, s.len() as int);
        }
        let selected: Option<usize> = match rank_b.checked_add(result) {
            Some(x) => level.digit_select(d, x),
            None => None,
        };
        match selected {
            Some(p) => {
                assert(occurs_at(s, d, j, p as int));
                proof {
                    assert forall|q: int| occurs_at(s, d, j, q) implies q == p by {
                        lemma_occurs_once(s, d, j, p as int, q);
                    }
                }
                if p < base {
                    proof {
                        lemma_two_ways_none(lv, dc, uc, m as int, k as int);
                    }
                    return None;
                }
                result = p - base;
            },
            None => {
                proof {
                    assert forall|q: int| !occurs_at(s, d, j, q) by {
                        if occurs_at(s, d, j, q) {
                            lemma_count_mono(s, d, q + 1, s.len() as int);
                        }
                    }
                    lemma_two_ways_none(lv, dc, uc, m as int, k as int);
                }
                return None;
            },
        }
        l = m;
    }
    Some(result)
}

} // verus!
