//! Code lengths and codes from symbol frequencies.

use minimum_redundancy::{BitsPerFragment, Coding};
use vstd::arithmetic::power::{lemma_pow_positive, pow};
use vstd::arithmetic::power2::lemma2_to64;
use vstd::prelude::*;

use crate::codes::{codes_greedy, lens_ok, weights, PrefixCode};
use crate::digits::{lemma_radix_pow, radix_of};
use crate::indexable::WTIndexable;
use crate::order::{by_frequency, lemma_by_frequency, sort_by_frequency};

verus! {

/// The sum of `f(0)` to `f(n - 1)`.
pub open spec fn sum_of(f: spec_fn(int) -> int, n: int) -> int
    decreases n,
{
    if n <= 0 {
        0
    } else {
        sum_of(f, n - 1) + f(n - 1)
    }
}

/// How much of all words of `k` digits codes of these lengths take up.
pub open spec fn kraft_sum(lens: Seq<u32>, radix: int, k: int) -> int {
    sum_of(|j: int| pow(radix, (k - lens[j]) as nat), lens.len() as int)
}

/// Kraft's inequality: there is a prefix code with these lengths.
pub open spec fn kraft(lens: Seq<u32>, radix: int) -> bool {
    &&& forall|j: int| 0 <= j < lens.len() ==> (#[trigger] lens[j]) > 0
    &&& forall|k: int|
        0 <= k && (forall|j: int| 0 <= j < lens.len() ==> (#[trigger] lens[j]) <= k)
            ==> #[trigger] kraft_sum(lens, radix, k) <= pow(radix, k as nat)
}

/// How many digits a text with these frequencies takes with these lengths.
pub open spec fn cost(freqs: Seq<usize>, lens: Seq<u32>) -> int {
    sum_of(|j: int| freqs[j] * lens[j], freqs.len() as int)
}

pub open spec fn total_occurrences(freqs: Seq<usize>) -> int {
    sum_of(|j: int| freqs[j] as int, freqs.len() as int)
}

/// How many values a tree of degree two to the `bits` can have so that no level
/// of it has more nodes than a word can count.
pub open spec fn most_values(bits: u32) -> int {
    if bits == 1 {
        0xffff_ffff
    } else {
        0xffff_fffd
    }
}

/// The lengths of the codes that `Coding::from_sorted` builds for values with
/// these frequencies, with `bits` bits for a digit, as `Coding::code_lengths`
/// gives them.
pub uninterp spec fn coding_lens(values: Seq<usize>, freqs: Seq<usize>, bits: u8) -> Seq<u32>;

/// The lengths of a minimum-redundancy code: `Coding::from_sorted` builds the
/// Huffman tree of degree two to the `bits_per_fragment` over values that are
/// sorted by their frequencies, and `Coding::code_lengths` returns the depth of
/// each value's leaf. It compares and adds frequencies, in the order in which
/// they are given, and consults nothing else, so the lengths are settled by the
/// arguments. They are the depths of a tree of that degree, so they are
/// positive, at most the number of values, and satisfy Kraft's inequality; and
/// no code takes fewer digits for the given frequencies.
#[verifier::external_body]
fn minimum_redundancy_lengths(
    values: &Vec<usize>,
    frequencies: &Vec<usize>,
    bits_per_fragment: u8,
) -> (lens: Vec<u32>)
    requires
        bits_per_fragment == 1 || bits_per_fragment == 2,
        0 < values.len() <= most_values(bits_per_fragment as u32),
        frequencies.len() == values.len(),
        values@.no_duplicates(),
        forall|i: int, j: int|
            0 <= i < j < frequencies.len() ==> (#[trigger] frequencies[i]) <= (
            #[trigger] frequencies[j]),
        forall|i: int| 0 <= i < frequencies.len() ==> (#[trigger] frequencies[i]) > 0,
        total_occurrences(frequencies@) <= usize::MAX,
    ensures
        lens@ == coding_lens(values@, frequencies@, bits_per_fragment),
        lens.len() == frequencies.len(),
        kraft(lens@, radix_of(bits_per_fragment as u32)),
        forall|j: int| 0 <= j < lens.len() ==> (#[trigger] lens[j]) <= frequencies.len(),
        forall|other: Seq<u32>|
            other.len() == frequencies.len() && #[trigger] kraft(
                other,
                radix_of(bits_per_fragment as u32),
            ) ==> cost(frequencies@, lens@) <= cost(frequencies@, other),
{
    let mut freq: Vec<usize> = frequencies.clone();
    let sorted: Box<[usize]> = values.clone().into_boxed_slice();
    let coding = Coding::from_sorted(BitsPerFragment(bits_per_fragment), sorted, &mut freq);
    let lens = coding.code_lengths();
    values.iter().map(|value| lens[value]).collect()
}

/// The symbols that occur, with their frequencies.
pub open spec fn occurring(freqs: Seq<usize>, n: int) -> Seq<(usize, usize)>
    decreases n,
{
    if n <= 0 {
        Seq::empty()
    } else if freqs[n - 1] > 0 {
        occurring(freqs, n - 1).push(((n - 1) as usize, freqs[n - 1]))
    } else {
        occurring(freqs, n - 1)
    }
}

/// The symbols that occur, in ascending order.
pub open spec fn used_symbols(freqs: Seq<usize>) -> Seq<usize> {
    occurring(freqs, freqs.len() as int).map_values(|e: (usize, usize)| e.0)
}

/// The frequencies of symbols.
pub open spec fn frequencies_of(freqs: Seq<usize>, symbols: Seq<usize>) -> Seq<usize> {
    symbols.map_values(|s: usize| freqs[s as int])
}

/// The lengths of the codes of symbols.
pub open spec fn lens_of(lens: Seq<u32>, symbols: Seq<usize>) -> Seq<u32> {
    symbols.map_values(|s: usize| lens[s as int])
}

/// The sum of `f` over the symbols that occur.
pub open spec fn sum_occurring(freqs: Seq<usize>, f: spec_fn(int) -> int, n: int) -> int
    decreases n,
{
    if n <= 0 {
        0
    } else {
        sum_occurring(freqs, f, n - 1) + if freqs[n - 1] > 0 {
            f(n - 1)
        } else {
            0
        }
    }
}

/// The lengths of codes in digits.
pub open spec fn digit_lens(codes: Seq<PrefixCode>, bits: u32) -> Seq<u32> {
    codes.map_values(|code: PrefixCode| code.len / bits)
}

/// These are the lengths of a prefix code for the symbols that occur, and no
/// other takes fewer digits for a text in which symbols have these frequencies.
pub open spec fn minimum_redundancy(freqs: Seq<usize>, lens: Seq<u32>, bits: u32) -> bool {
    let used = used_symbols(freqs);
    &&& lens.len() == freqs.len()
    &&& forall|s: int| 0 <= s < lens.len() ==> (#[trigger] lens[s] > 0 <==> freqs[s] > 0)
    &&& kraft(lens_of(lens, used), radix_of(bits))
    &&& forall|other: Seq<u32>|
        other.len() == used.len() && #[trigger] kraft(other, radix_of(bits)) ==> cost(
            frequencies_of(freqs, used),
            lens_of(lens, used),
        ) <= cost(frequencies_of(freqs, used), other)
}

/// The symbols that occur, the rarest first.
pub open spec fn frequency_order(freqs: Seq<usize>) -> Seq<usize> {
    used_symbols(freqs).sort_by(by_frequency(freqs))
}

/// The lengths in digits of the codes for symbols with these frequencies, zero
/// for symbols that do not occur.
pub open spec fn code_lens(freqs: Seq<usize>, bits: u32) -> Seq<u32> {
    let order = frequency_order(freqs);
    let lens = coding_lens(order, frequencies_of(freqs, order), bits as u8);
    Seq::new(
        freqs.len(),
        |s: int|
            if freqs[s] > 0 {
                lens[order.index_of(s as usize)]
            } else {
                0u32
            },
    )
}

/// More symbols occur than a code can have values.
pub open spec fn too_many(freqs: Seq<usize>, bits: u32) -> bool {
    used_symbols(freqs).len() > most_values(bits)
}

/// One of the codes has more than 32 bits.
pub open spec fn overlong(freqs: Seq<usize>, bits: u32) -> bool {
    exists|s: int| 0 <= s < freqs.len() && #[trigger] code_lens(freqs, bits)[s] * bits > 32
}

/// There are no codes of at most 32 bits for these frequencies.
pub open spec fn codes_fail(freqs: Seq<usize>, bits: u32) -> bool {
    too_many(freqs, bits) || overlong(freqs, bits)
}

/// A code with a word of more than 32 bits is as short as can be for these
/// frequencies.
pub open spec fn long_needed(freqs: Seq<usize>, bits: u32) -> bool {
    exists|lens: Seq<u32>| #[trigger]
        minimum_redundancy(freqs, lens, bits) && exists|s: int|
            0 <= s < lens.len() && #[trigger] lens[s] * bits > 32
}

/// The length of the longest of the first `n` codes.
pub open spec fn longest_len(lens: Seq<u32>, n: int) -> int
    decreases n,
{
    if n <= 0 {
        0
    } else {
        let before = longest_len(lens, n - 1);
        if lens[n - 1] > before {
            lens[n - 1] as int
        } else {
            before
        }
    }
}

/// The codes that belong to symbols with these frequencies.
pub open spec fn codes_for(freqs: Seq<usize>, codes: Seq<PrefixCode>, bits: u32) -> bool {
    &&& codes.len() == freqs.len()
    &&& digit_lens(codes, bits) == code_lens(freqs, bits)
    &&& codes_greedy(codes, bits)
}

/// Codes of no symbols are as short as can be.
pub proof fn lemma_nothing_redundant(bits: u32)
    requires
        bits == 1 || bits == 2,
    ensures
        minimum_redundancy(Seq::<usize>::empty(), Seq::<u32>::empty(), bits),
{
    let freqs = Seq::<usize>::empty();
    let used = used_symbols(freqs);
    let lens = lens_of(Seq::<u32>::empty(), used);
    assert forall|k: int|
        0 <= k && (forall|j: int| 0 <= j < lens.len() ==> (#[trigger] lens[j])
            <= k) implies #[trigger] kraft_sum(lens, radix_of(bits), k) <= pow(
        radix_of(bits),
        k as nat,
    ) by {
        lemma_pow_positive(radix_of(bits), k as nat);
    }
}

proof fn lemma_sum_same(f: spec_fn(int) -> int, g: spec_fn(int) -> int, n: int)
    requires
        forall|j: int| 0 <= j < n ==> #[trigger] f(j) == g(j),
    ensures
        sum_of(f, n) == sum_of(g, n),
    decreases n,
{
    if n > 0 {
        lemma_sum_same(f, g, n - 1);
        assert(f(n - 1) == g(n - 1));
    }
}

proof fn lemma_occurring(freqs: Seq<usize>, n: int)
    requires
        0 <= n <= freqs.len(),
        freqs.len() <= usize::MAX,
    ensures
        occurring(freqs, n).len() <= n,
        forall|j: int|
            0 <= j < occurring(freqs, n).len() ==> {
                let e = #[trigger] occurring(freqs, n)[j];
                e.0 < n && e.1 == freqs[e.0 as int] && e.1 > 0
            },
        forall|i: int, j: int|
            0 <= i < j < occurring(freqs, n).len() ==> (#[trigger] occurring(freqs, n)[i]).0 < (
            #[trigger] occurring(freqs, n)[j]).0,
        forall|s: int|
            0 <= s < n && #[trigger] freqs[s] > 0 ==> exists|j: int|
                0 <= j < occurring(freqs, n).len() && (#[trigger] occurring(freqs, n)[j]).0 == s,
    decreases n,
{
    if n > 0 {
        lemma_occurring(freqs, n - 1);
        let before = occurring(freqs, n - 1);
        let after = occurring(freqs, n);
        assert forall|s: int| 0 <= s < n && #[trigger] freqs[s] > 0 implies exists|j: int|
            0 <= j < after.len() && (#[trigger] after[j]).0 == s by {
            if s == n - 1 {
                assert(after[after.len() - 1].0 == s);
            } else {
                let j = choose|j: int| 0 <= j < before.len() && (#[trigger] before[j]).0 == s;
                assert(after[j].0 == s);
            }
        }
    }
}

/// Summing over the list of symbols that occur is summing over the table.
proof fn lemma_sum_occurring(freqs: Seq<usize>, f: spec_fn(int) -> int, n: int)
    requires
        0 <= n <= freqs.len(),
        freqs.len() <= usize::MAX,
    ensures
        sum_of(
            |j: int| f(occurring(freqs, n)[j].0 as int),
            occurring(freqs, n).len() as int,
        ) == sum_occurring(freqs, f, n),
    decreases n,
{
    if n > 0 {
        lemma_sum_occurring(freqs, f, n - 1);
        let before = occurring(freqs, n - 1);
        let after = occurring(freqs, n);
        let g = |j: int| f(before[j].0 as int);
        let h = |j: int| f(after[j].0 as int);
        assert forall|j: int| 0 <= j < before.len() implies #[trigger] g(j) == h(j) by {
            assert(before[j] == after[j]);
        }
        lemma_sum_same(g, h, before.len() as int);
        if freqs[n - 1] > 0 {
            assert(h(before.len() as int) == f(n - 1));
        }
    }
}

/// The symbols that occur, once each.
pub proof fn lemma_used(freqs: Seq<usize>)
    requires
        freqs.len() <= usize::MAX,
    ensures
        used_symbols(freqs).len() <= freqs.len(),
        used_symbols(freqs).no_duplicates(),
        forall|s: usize|
            #[trigger] used_symbols(freqs).contains(s) <==> s < freqs.len() && freqs[s as int] > 0,
        forall|j: int|
            0 <= j < used_symbols(freqs).len() ==> (#[trigger] used_symbols(freqs)[j]) < freqs.len(),
{
    let n = freqs.len() as int;
    let pairs = occurring(freqs, n);
    let used = used_symbols(freqs);
    lemma_occurring(freqs, n);
    assert forall|i: int, j: int| 0 <= i < j < used.len() implies used[i] != used[j] by {
        assert(pairs[i].0 < pairs[j].0);
    }
    assert forall|s: usize| #[trigger] used.contains(s) <==> s < n && freqs[s as int] > 0 by {
        if used.contains(s) {
            let j = choose|j: int| 0 <= j < used.len() && used[j] == s;
            assert(pairs[j].0 == s);
        }
        if s < n && freqs[s as int] > 0 {
            let j = choose|j: int| 0 <= j < pairs.len() && (#[trigger] pairs[j]).0 == s as int;
            assert(used[j] == s);
        }
    }
    assert forall|j: int| 0 <= j < used.len() implies (#[trigger] used[j]) < n by {
        assert(pairs[j].0 < n);
    }
}

/// The order of the symbols that occur lists the same symbols.
proof fn lemma_frequency_order(freqs: Seq<usize>)
    requires
        freqs.len() <= usize::MAX,
    ensures
        ({
            let order = frequency_order(freqs);
            &&& order.to_multiset() == used_symbols(freqs).to_multiset()
            &&& order.len() == used_symbols(freqs).len()
            &&& order.no_duplicates()
            &&& forall|s: usize|
                #[trigger] order.contains(s) <==> s < freqs.len() && freqs[s as int] > 0
            &&& forall|i: int, j: int|
                0 <= i < j < order.len() ==> freqs[(#[trigger] order[i]) as int]
                    <= freqs[(#[trigger] order[j]) as int]
            &&& forall|j: int|
                0 <= j < order.len() ==> (#[trigger] order[j]) < freqs.len() && freqs[order[j] as int]
                    > 0
        }),
{
    broadcast use vstd::seq_lib::group_to_multiset_ensures;

    let used = used_symbols(freqs);
    let order = frequency_order(freqs);
    let leq = by_frequency(freqs);
    lemma_used(freqs);
    lemma_by_frequency(freqs);
    used.lemma_sort_by_ensures(leq);
    assert(order.to_multiset().len() == used.to_multiset().len());
    used.lemma_multiset_has_no_duplicates();
    order.lemma_multiset_has_no_duplicates_conv();
    assert forall|s: usize|
        #[trigger] order.contains(s) <==> s < freqs.len() && freqs[s as int] > 0 by {
        assert(order.to_multiset().count(s) == used.to_multiset().count(s));
        assert(used.contains(s) <==> used.to_multiset().count(s) > 0);
    }
    assert forall|i: int, j: int| 0 <= i < j < order.len() implies freqs[(
    #[trigger] order[i]) as int] <= freqs[(#[trigger] order[j]) as int] by {
        assert(leq(order[i], order[j]));
    }
    assert forall|j: int| 0 <= j < order.len() implies (#[trigger] order[j]) < freqs.len()
        && freqs[order[j] as int] > 0 by {
        assert(order.contains(order[j]));
    }
}

/// The sum of `g` over a list of symbols.
spec fn list_sum(g: spec_fn(int) -> int, a: Seq<usize>) -> int {
    sum_of(|j: int| g(a[j] as int), a.len() as int)
}

/// A sum over a list of symbols does not depend on their order.
proof fn lemma_sum_permuted(g: spec_fn(int) -> int, a: Seq<usize>, b: Seq<usize>)
    requires
        a.to_multiset() == b.to_multiset(),
    ensures
        list_sum(g, a) == list_sum(g, b),
    decreases a.len(),
{
    broadcast use vstd::seq_lib::group_to_multiset_ensures;

    a.to_multiset_ensures();
    b.to_multiset_ensures();
    if a.len() > 0 {
        let n = a.len() - 1;
        let x = a[n];
        assert(a.contains(x));
        assert(b.to_multiset().count(x) > 0);
        assert(b.contains(x));
        let i = choose|i: int| 0 <= i < b.len() && b[i] == x;
        let a2 = a.remove(n);
        let b2 = b.remove(i);
        assert(a2.to_multiset() == b2.to_multiset());
        lemma_sum_permuted(g, a2, b2);
        lemma_sum_removed(g, a, n);
        lemma_sum_removed(g, b, i);
        assert(list_sum(g, a) == list_sum(g, a2) + g(x as int));
        assert(list_sum(g, b) == list_sum(g, b2) + g(x as int));
    } else {
        assert(b.to_multiset().len() == 0);
    }
}

proof fn lemma_sum_removed(g: spec_fn(int) -> int, a: Seq<usize>, i: int)
    requires
        0 <= i < a.len(),
    ensures
        list_sum(g, a) == list_sum(g, a.remove(i)) + g(a[i] as int),
    decreases a.len(),
{
    let n = a.len() - 1;
    let f = |j: int| g(a[j] as int);
    let h = |j: int| g(a.remove(i)[j] as int);
    if i == n {
        assert forall|j: int| 0 <= j < n implies #[trigger] f(j) == h(j) by {}
        lemma_sum_same(f, h, n);
    } else {
        let a1 = a.drop_last();
        lemma_sum_removed(g, a1, i);
        let f1 = |j: int| g(a1[j] as int);
        let h1 = |j: int| g(a1.remove(i)[j] as int);
        assert forall|j: int| 0 <= j < n implies #[trigger] f1(j) == f(j) by {}
        lemma_sum_same(f1, f, n);
        assert forall|j: int| 0 <= j < n - 1 implies #[trigger] h1(j) == h(j) by {}
        lemma_sum_same(h1, h, n - 1);
        assert(h(n - 1) == g(a[n] as int));
    }
}

/// The frequencies of a list of the symbols that occur.
proof fn lemma_total(freqs: Seq<usize>, order: Seq<usize>)
    requires
        freqs.len() <= usize::MAX,
        order.to_multiset() == used_symbols(freqs).to_multiset(),
    ensures
        total_occurrences(frequencies_of(freqs, order)) == sum_occurring(
            freqs,
            |s: int| freqs[s] as int,
            freqs.len() as int,
        ),
{
    let n = freqs.len() as int;
    let used = used_symbols(freqs);
    let pairs = occurring(freqs, n);
    let g = |s: int| freqs[s] as int;
    lemma_sum_permuted(g, order, used);
    lemma_sum_occurring(freqs, g, n);
    lemma_sum_same(|j: int| g(used[j] as int), |j: int| g(pairs[j].0 as int), used.len() as int);
    lemma_sum_same(
        |j: int| frequencies_of(freqs, order)[j] as int,
        |j: int| g(order[j] as int),
        order.len() as int,
    );
}

proof fn lemma_cost_permuted(freqs: Seq<usize>, lens: Seq<u32>, a: Seq<usize>, b: Seq<usize>)
    requires
        a.to_multiset() == b.to_multiset(),
    ensures
        cost(frequencies_of(freqs, a), lens_of(lens, a)) == cost(
            frequencies_of(freqs, b),
            lens_of(lens, b),
        ),
{
    let g = |s: int| freqs[s] * lens[s];
    lemma_sum_permuted(g, a, b);
    lemma_sum_same(
        |j: int| frequencies_of(freqs, a)[j] * lens_of(lens, a)[j],
        |j: int| g(a[j] as int),
        a.len() as int,
    );
    lemma_sum_same(
        |j: int| frequencies_of(freqs, b)[j] * lens_of(lens, b)[j],
        |j: int| g(b[j] as int),
        b.len() as int,
    );
}

proof fn lemma_kraft_permuted(lens: Seq<u32>, a: Seq<usize>, b: Seq<usize>, radix: int)
    requires
        a.to_multiset() == b.to_multiset(),
        kraft(lens_of(lens, a), radix),
    ensures
        kraft(lens_of(lens, b), radix),
{
    broadcast use vstd::seq_lib::group_to_multiset_ensures;

    let p = lens_of(lens, a);
    let q = lens_of(lens, b);
    assert forall|j: int| 0 <= j < b.len() implies a.contains(#[trigger] b[j]) by {
        assert(b.contains(b[j]));
        assert(a.to_multiset().count(b[j]) > 0);
    }
    assert forall|i: int| 0 <= i < a.len() implies b.contains(#[trigger] a[i]) by {
        assert(a.contains(a[i]));
        assert(b.to_multiset().count(a[i]) > 0);
    }
    assert forall|j: int| 0 <= j < q.len() implies (#[trigger] q[j]) > 0 by {
        assert(a.contains(b[j]));
        let i = a.index_of(b[j]);
        assert(p[i] > 0);
    }
    assert forall|k: int|
        0 <= k && (forall|j: int| 0 <= j < q.len() ==> (#[trigger] q[j])
            <= k) implies #[trigger] kraft_sum(q, radix, k) <= pow(radix, k as nat) by {
        assert forall|i: int| 0 <= i < p.len() implies (#[trigger] p[i]) <= k by {
            assert(b.contains(a[i]));
            let j = b.index_of(a[i]);
            assert(q[j] <= k);
        }
        assert(kraft_sum(p, radix, k) <= pow(radix, k as nat));
        let g = |s: int| pow(radix, (k - lens[s]) as nat);
        lemma_sum_permuted(g, a, b);
        lemma_sum_same(
            |j: int| pow(radix, (k - p[j]) as nat),
            |j: int| g(a[j] as int),
            a.len() as int,
        );
        lemma_sum_same(
            |j: int| pow(radix, (k - q[j]) as nat),
            |j: int| g(b[j] as int),
            b.len() as int,
        );
    }
}

/// What the symbols that occur cost, as a sum over the table.
pub proof fn lemma_used_sum(freqs: Seq<usize>, lens: Seq<u32>)
    requires
        freqs.len() <= usize::MAX,
    ensures
        cost(frequencies_of(freqs, used_symbols(freqs)), lens_of(lens, used_symbols(freqs)))
            == sum_occurring(freqs, |s: int| freqs[s] * lens[s], freqs.len() as int),
{
    let n = freqs.len() as int;
    let used = used_symbols(freqs);
    let pairs = occurring(freqs, n);
    let g = |s: int| freqs[s] * lens[s];
    lemma_sum_occurring(freqs, g, n);
    lemma_sum_same(
        |j: int| frequencies_of(freqs, used)[j] * lens_of(lens, used)[j],
        |j: int| g(pairs[j].0 as int),
        used.len() as int,
    );
}

/// A table of lengths for the symbols of a list.
spec fn table_of(used: Seq<usize>, other: Seq<u32>, n: int) -> Seq<u32> {
    Seq::new(
        n as nat,
        |s: int|
            if used.contains(s as usize) {
                other[used.index_of(s as usize)]
            } else {
                0
            },
    )
}

/// What is as short as can be in one order is so in another.
proof fn lemma_redundancy(freqs: Seq<usize>, lens: Seq<u32>, order: Seq<usize>, bits: u32)
    requires
        bits == 1 || bits == 2,
        freqs.len() <= usize::MAX,
        lens.len() == freqs.len(),
        order.to_multiset() == used_symbols(freqs).to_multiset(),
        forall|s: int| 0 <= s < lens.len() ==> (#[trigger] lens[s] > 0 <==> freqs[s] > 0),
        kraft(lens_of(lens, order), radix_of(bits)),
        forall|other: Seq<u32>|
            other.len() == order.len() && #[trigger] kraft(other, radix_of(bits)) ==> cost(
                frequencies_of(freqs, order),
                lens_of(lens, order),
            ) <= cost(frequencies_of(freqs, order), other),
    ensures
        minimum_redundancy(freqs, lens, bits),
{
    let radix = radix_of(bits);
    let used = used_symbols(freqs);
    let n = freqs.len() as int;
    lemma_used(freqs);
    lemma_kraft_permuted(lens, order, used, radix);
    lemma_cost_permuted(freqs, lens, order, used);
    assert forall|other: Seq<u32>|
        other.len() == used.len() && #[trigger] kraft(other, radix) implies cost(
        frequencies_of(freqs, used),
        lens_of(lens, used),
    ) <= cost(frequencies_of(freqs, used), other) by {
        let table = table_of(used, other, n);
        assert(lens_of(table, used) =~= other) by {
            assert forall|j: int| 0 <= j < used.len() implies lens_of(table, used)[j]
                == other[j] by {
                assert(used.contains(used[j]));
                let i = used.index_of(used[j]);
                assert(used[i] == used[j]);
            }
        }
        lemma_kraft_permuted(table, used, order, radix);
        lemma_cost_permuted(freqs, table, order, used);
        assert(lens_of(table, order).len() == order.len());
    }
}

proof fn lemma_weights(freqs: Seq<usize>, lens: Seq<u32>, bits: u32, n: int)
    requires
        bits == 1 || bits == 2,
        0 <= n <= freqs.len(),
        lens.len() == freqs.len(),
        forall|s: int|
            0 <= s < lens.len() ==> (#[trigger] lens[s] > 0 <==> freqs[s] > 0) && lens[s] * bits
                <= 32,
    ensures
        weights(lens, bits, n) == sum_occurring(
            freqs,
            |s: int| pow(radix_of(bits), (32int / (bits as int) - lens[s]) as nat),
            n,
        ),
    decreases n,
{
    if n > 0 {
        lemma_weights(freqs, lens, bits, n - 1);
        let s = n - 1;
        let k = 32int / (bits as int);
        assert(lens[s] * bits <= 32);
        if lens[s] > 0 {
            let e = (k - lens[s]) as nat;
            assert(k * bits == 32 && lens[s] <= k && bits as nat * e == 32 - lens[s] * bits)
                by (nonlinear_arith)
                requires
                    k == 32int / (bits as int),
                    bits == 1 || bits == 2,
                    lens[s] * bits <= 32,
                    e == k - lens[s],
            ;
            lemma_radix_pow(bits, e);
        }
    }
}

/// The lengths in digits of minimum-redundancy codes for symbols with these
/// frequencies, zero for symbols that do not occur. `None` for an alphabet that
/// is too large.
pub fn huffman_lens(frequencies: &Vec<usize>, bits: u32) -> (r: Option<Vec<u32>>)
    requires
        bits == 1 || bits == 2,
        sum_occurring(
            frequencies@,
            |s: int| frequencies@[s] as int,
            frequencies.len() as int,
        ) <= usize::MAX,
    ensures
        r is Some <==> !too_many(frequencies@, bits),
        r matches Some(lens) ==> {
            &&& lens@ == code_lens(frequencies@, bits)
            &&& lens.len() == frequencies.len()
            &&& forall|s: int|
                0 <= s < lens.len() ==> (#[trigger] lens[s] > 0 <==> frequencies[s] > 0)
            &&& forall|s: int|
                0 <= s < lens.len() ==> (#[trigger] lens[s]) <= used_symbols(frequencies@).len()
            &&& (forall|s: int| 0 <= s < lens.len() ==> #[trigger] lens[s] * bits <= 32)
                ==> lens_ok(lens@, bits)
            &&& minimum_redundancy(frequencies@, lens@, bits)
        },
{
    let n: usize = frequencies.len();
    let ghost freqs = frequencies@;
    let mut symbols: Vec<usize> = Vec::new();
    let mut i: usize = 0;
    assert(symbols@ =~= occurring(freqs, 0).map_values(|e: (usize, usize)| e.0));
    while i < n
        invariant
            i <= n,
            n == frequencies.len(),
            freqs == frequencies@,
            symbols@ == occurring(freqs, i as int).map_values(|e: (usize, usize)| e.0),
        decreases n - i,
    {
        if frequencies[i] > 0 {
            symbols.push(i);
        }
        i = i + 1;
        assert(symbols@ =~= occurring(freqs, i as int).map_values(|e: (usize, usize)| e.0));
    }
    let most: u64 = if bits == 1 {
        0xffff_ffff
    } else {
        0xffff_fffd
    };
    if symbols.len() as u64 > most {
        return None;
    }
    proof {
        lemma_used(freqs);
        lemma_frequency_order(freqs);
    }
    let order: Vec<usize> = sort_by_frequency(frequencies, &symbols);
    let mut lens: Vec<u32> = vec![0u32; n];
    if order.len() == 0 {
        proof {
            lemma_no_weights(lens@, bits, n as int);
            lemma2_to64();
            assert forall|s: int| 0 <= s < n implies #[trigger] freqs[s] == 0 by {
                if freqs[s] > 0 {
                    assert(order@.contains(s as usize));
                }
            }
            lemma_nothing_redundant(bits);
            let none = Seq::<usize>::empty();
            assert(used_symbols(freqs) =~= used_symbols(none));
            assert(lens_of(lens@, used_symbols(freqs)) =~= lens_of(
                Seq::<u32>::empty(),
                used_symbols(none),
            ));
            assert(frequencies_of(freqs, used_symbols(freqs)) =~= frequencies_of(
                none,
                used_symbols(none),
            ));
            assert(lens@ =~= code_lens(freqs, bits));
        }
        return Some(lens);
    }
    let mut sorted: Vec<usize> = Vec::new();
    let mut k: usize = 0;
    while k < order.len()
        invariant
            k <= order.len(),
            n == frequencies.len(),
            freqs == frequencies@,
            forall|q: int| 0 <= q < order.len() ==> (#[trigger] order[q]) < n,
            sorted.len() == k,
            forall|q: int| 0 <= q < k ==> #[trigger] sorted[q] == freqs[order[q] as int],
        decreases order.len() - k,
    {
        sorted.push(frequencies[order[k]]);
        k = k + 1;
    }
    proof {
        assert(sorted@ =~= frequencies_of(freqs, order@));
        lemma_total(freqs, order@);
        assert forall|a: int, b: int| 0 <= a < b < sorted.len() implies (#[trigger] sorted[a]) <= (
        #[trigger] sorted[b]) by {
            assert(freqs[order[a] as int] <= freqs[order[b] as int]);
        }
        assert forall|a: int| 0 <= a < sorted.len() implies (#[trigger] sorted[a]) > 0 by {
            assert(freqs[order[a] as int] > 0);
        }
    }
    let short: Vec<u32> = minimum_redundancy_lengths(&order, &sorted, bits as u8);
    let mut j: usize = 0;
    while j < order.len()
        invariant
            j <= order.len(),
            n == frequencies.len(),
            freqs == frequencies@,
            order@.no_duplicates(),
            short.len() == order.len(),
            lens.len() == n,
            forall|q: int| 0 <= q < order.len() ==> (#[trigger] order[q]) < n,
            forall|q: int| 0 <= q < j ==> lens[(#[trigger] order[q]) as int] == short[q],
            forall|s: int|
                0 <= s < n && (forall|q: int| 0 <= q < j ==> (#[trigger] order[q]) != s)
                    ==> #[trigger] lens[s] == 0,
        decreases order.len() - j,
    {
        let s: usize = order[j];
        let ghost before = lens@;
        lens[s] = short[j];
        proof {
            assert forall|q: int| 0 <= q < j + 1 implies lens[(#[trigger] order[q]) as int]
                == short[q] by {
                if q < j {
                    assert(order@[q] != order@[j as int]);
                }
            }
            assert forall|t: int|
                0 <= t < n && (forall|q: int| 0 <= q < j + 1 ==> (#[trigger] order[q])
                    != t) implies #[trigger] lens[t] == 0 by {
                assert(order[j as int] != t);
                assert(before[t] == 0);
            }
        }
        j = j + 1;
    }
    proof {
        let m = order.len() as int;
        assert(short@ =~= lens_of(lens@, order@)) by {
            assert forall|q: int| 0 <= q < m implies short@[q] == lens_of(lens@, order@)[q] by {
                assert(lens[order[q] as int] == short[q]);
            }
        }
        assert forall|s: int| 0 <= s < n implies (#[trigger] lens[s] > 0 <==> freqs[s] > 0)
            && lens[s] <= m && lens[s] == code_lens(freqs, bits)[s] by {
            if freqs[s] > 0 {
                assert(order@.contains(s as usize));
                let q = order@.index_of(s as usize);
                assert(order[q] == s as usize);
                assert(lens[order[q] as int] == short[q]);
                assert(short[q] > 0);
            } else {
                assert forall|q: int| 0 <= q < m implies (#[trigger] order[q]) != s by {
                    assert(freqs[order[q] as int] > 0);
                }
            }
        }
        assert(lens@ =~= code_lens(freqs, bits));
        lemma_redundancy(freqs, lens@, order@, bits);
        if forall|s: int| 0 <= s < lens.len() ==> #[trigger] lens[s] * bits <= 32 {
            lemma_short_codes(freqs, lens@, bits);
        }
    }
    Some(lens)
}

/// Lengths that satisfy Kraft's inequality and fit into words leave room for
/// codes.
proof fn lemma_short_codes(freqs: Seq<usize>, lens: Seq<u32>, bits: u32)
    requires
        bits == 1 || bits == 2,
        freqs.len() <= usize::MAX,
        minimum_redundancy(freqs, lens, bits),
        forall|s: int| 0 <= s < lens.len() ==> #[trigger] lens[s] * bits <= 32,
    ensures
        lens_ok(lens, bits),
{
    let n = freqs.len() as int;
    let radix = radix_of(bits);
    let m = 32int / (bits as int);
    let used = used_symbols(freqs);
    let short = lens_of(lens, used);
    lemma_used(freqs);
    lemma_weights(freqs, lens, bits, n);
    assert forall|q: int| 0 <= q < short.len() implies (#[trigger] short[q]) <= m by {
        assert(lens[used[q] as int] * bits <= 32);
        let x = short[q];
        assert(x <= m) by (nonlinear_arith)
            requires
                x * bits <= 32,
                m == 32int / (bits as int),
                bits == 1 || bits == 2,
        ;
    }
    assert(kraft_sum(short, radix, m) <= pow(radix, m as nat));
    let f = |s: int| pow(radix, (m - lens[s]) as nat);
    lemma_sum_occurring(freqs, f, n);
    let g = |q: int| pow(radix, (m - short[q]) as nat);
    let h = |q: int| f(occurring(freqs, n)[q].0 as int);
    assert forall|q: int| 0 <= q < short.len() implies #[trigger] g(q) == h(q) by {
        assert(used[q] == occurring(freqs, n)[q].0);
    }
    lemma_sum_same(g, h, short.len() as int);
    lemma_radix_pow(bits, m as nat);
    assert(bits as nat * m as nat == 32) by (nonlinear_arith)
        requires
            m == 32int / (bits as int),
            bits == 1 || bits == 2,
    ;
}

proof fn lemma_no_weights(lens: Seq<u32>, bits: u32, n: int)
    requires
        forall|s: int| 0 <= s < n ==> #[trigger] lens[s] == 0,
    ensures
        weights(lens, bits, n) == 0,
    decreases n,
{
    if n > 0 {
        lemma_no_weights(lens, bits, n - 1);
    }
}

/// How many of the first `i` symbols have the number `v`.
pub open spec fn value_count<T: WTIndexable>(s: Seq<T>, v: int, i: int) -> int
    decreases i,
{
    if i <= 0 {
        0
    } else {
        value_count(s, v, i - 1) + if s[i - 1].val() == v {
            1int
        } else {
            0int
        }
    }
}

/// How often each number below `size` occurs.
pub open spec fn frequency_table<T: WTIndexable>(s: Seq<T>, size: int) -> Seq<usize> {
    Seq::new(size as nat, |v: int| value_count(s, v, s.len() as int) as usize)
}

proof fn lemma_value_count<T: WTIndexable>(s: Seq<T>, v: int, i: int)
    requires
        0 <= i <= s.len(),
    ensures
        0 <= value_count(s, v, i) <= i,
        value_count(s, v, i) > 0 <==> exists|j: int| 0 <= j < i && (#[trigger] s[j]).val() == v,
    decreases i,
{
    if i > 0 {
        lemma_value_count(s, v, i - 1);
        if value_count(s, v, i - 1) > 0 {
            let j = choose|j: int| 0 <= j < i - 1 && (#[trigger] s[j]).val() == v;
            assert(0 <= j < i && s[j].val() == v);
        } else if s[i - 1].val() == v {
            assert(0 <= i - 1 < i && s[i - 1].val() == v);
        }
    }
}

/// A number occurs where its frequency is not zero.
pub proof fn lemma_frequency<T: WTIndexable>(s: Seq<T>, size: int, v: int)
    requires
        0 <= v < size,
        s.len() <= usize::MAX,
    ensures
        frequency_table(s, size)[v] > 0 <==> exists|j: int|
            0 <= j < s.len() && (#[trigger] s[j]).val() == v,
{
    lemma_value_count(s, v, s.len() as int);
}

spec fn table_sum(f: Seq<usize>, n: int) -> int
    decreases n,
{
    if n <= 0 {
        0
    } else {
        table_sum(f, n - 1) + f[n - 1]
    }
}

proof fn lemma_table_sum(f: Seq<usize>, n: int)
    requires
        0 <= n <= f.len(),
    ensures
        sum_occurring(f, |s: int| f[s] as int, n) == table_sum(f, n),
    decreases n,
{
    if n > 0 {
        lemma_table_sum(f, n - 1);
    }
}

proof fn lemma_table_sum_step(f: Seq<usize>, v: int, x: usize, n: int)
    requires
        0 <= v < f.len(),
        0 <= n <= f.len(),
    ensures
        table_sum(f.update(v, x), n) == table_sum(f, n) + if v < n {
            x - f[v]
        } else {
            0
        },
    decreases n,
{
    if n > 0 {
        lemma_table_sum_step(f, v, x, n - 1);
    }
}

proof fn lemma_table_sum_zero(f: Seq<usize>, n: int)
    requires
        forall|s: int| 0 <= s < n ==> #[trigger] f[s] == 0,
    ensures
        table_sum(f, n) == 0,
    decreases n,
{
    if n > 0 {
        lemma_table_sum_zero(f, n - 1);
    }
}

proof fn lemma_value_count_push<T: WTIndexable>(s: Seq<T>, x: T, v: int, i: int)
    requires
        0 <= i <= s.len(),
    ensures
        value_count(s.push(x), v, i) == value_count(s, v, i),
    decreases i,
{
    if i > 0 {
        lemma_value_count_push(s, x, v, i - 1);
    }
}

/// Another symbol raises its frequency.
pub proof fn lemma_frequency_push<T: WTIndexable>(s: Seq<T>, x: T, size: int)
    requires
        0 <= x.val() < size,
        s.len() < usize::MAX,
    ensures
        ({
            let before = frequency_table(s, size);
            let v = x.val() as int;
            &&& before[v] < usize::MAX
            &&& frequency_table(s.push(x), size) == before.update(v, (before[v] + 1) as usize)
        }),
{
    let before = frequency_table(s, size);
    let after = frequency_table(s.push(x), size);
    let v = x.val() as int;
    assert forall|w: int| 0 <= w < size implies after[w] == before.update(
        v,
        (before[v] + 1) as usize,
    )[w] by {
        lemma_value_count_push(s, x, w, s.len() as int);
        lemma_value_count(s, w, s.len() as int);
        lemma_value_count(s, v, s.len() as int);
    }
    lemma_value_count(s, v, s.len() as int);
    assert(after =~= before.update(v, (before[v] + 1) as usize));
}

/// Frequencies add up to the length of the sequence.
pub proof fn lemma_frequency_sum<T: WTIndexable>(s: Seq<T>, size: int)
    requires
        0 <= size,
        s.len() <= usize::MAX,
        forall|i: int| 0 <= i < s.len() ==> (#[trigger] s[i]).val() < size,
    ensures
        ({
            let f = frequency_table(s, size);
            sum_occurring(f, |v: int| f[v] as int, size) == s.len()
        }),
{
    lemma_table_sum_len(s, size);
    lemma_table_sum(frequency_table(s, size), size);
}

proof fn lemma_table_sum_len<T: WTIndexable>(s: Seq<T>, size: int)
    requires
        0 <= size,
        s.len() <= usize::MAX,
        forall|i: int| 0 <= i < s.len() ==> (#[trigger] s[i]).val() < size,
    ensures
        table_sum(frequency_table(s, size), size) == s.len(),
    decreases s.len(),
{
    let f = frequency_table(s, size);
    if s.len() == 0 {
        lemma_table_sum_zero(f, size);
    } else {
        let t = s.drop_last();
        let x = s.last();
        assert forall|i: int| 0 <= i < t.len() implies (#[trigger] t[i]).val() < size by {
            assert(t[i] == s[i]);
        }
        lemma_table_sum_len(t, size);
        assert(s =~= t.push(x));
        assert(s[s.len() - 1].val() < size);
        lemma_frequency_push(t, x, size);
        let g = frequency_table(t, size);
        let v = x.val() as int;
        lemma_table_sum_step(g, v, (g[v] + 1) as usize, size);
    }
}

/// Counts how often each number below `size` occurs. `None` where the sequence
/// holds a larger number.
pub fn symbol_frequencies<T: WTIndexable>(sequence: &[T], size: usize) -> (r: Option<Vec<usize>>)
    ensures
        match r {
            Some(table) => {
                &&& forall|i: int| 0 <= i < sequence@.len() ==> (#[trigger] sequence@[i]).val() < size
                &&& table@ == frequency_table(sequence@, size as int)
                &&& sum_occurring(table@, |s: int| table@[s] as int, size as int)
                    == sequence@.len()
            },
            None => exists|i: int|
                0 <= i < sequence@.len() && (#[trigger] sequence@[i]).val() >= size,
        },
{
    let mut table: Vec<usize> = vec![0usize; size];
    let n: usize = sequence.len();
    let mut i: usize = 0;
    while i < n
        invariant
            i <= n,
            n == sequence@.len(),
            table.len() == size,
            forall|j: int| 0 <= j < i ==> (#[trigger] sequence@[j]).val() < size,
            forall|v: int|
                0 <= v < size ==> #[trigger] table[v] == value_count(sequence@, v, i as int),
        decreases n - i,
    {
        let v: u64 = sequence[i].to_u64();
        if v >= size as u64 {
            assert(sequence@[i as int].val() >= size);
            return None;
        }
        let at: usize = v as usize;
        proof {
            lemma_value_count(sequence@, at as int, i as int);
        }
        table[at] = table[at] + 1;
        i = i + 1;
    }
    proof {
        lemma_frequency_sum(sequence@, size as int);
        assert(table@ =~= frequency_table(sequence@, size as int));
    }
    Some(table)
}

} // verus!
