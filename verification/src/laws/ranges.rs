//! What sorting out the symbols of a range gives.

use vstd::prelude::*;

use crate::indexable::WTIndexable;
use crate::plain::symbol_of;
use crate::quadwt::{lemma_vals_count, vals};
use crate::sorting::{dedup, lemma_dedup, lemma_multiset_count, lemma_sort_counts};

verus! {

/// The same symbols in ascending order, each as often as before.
pub open spec fn in_order<T: WTIndexable>(part: Seq<T>, out: Seq<T>) -> bool {
    &&& out.len() == part.len()
    &&& out.to_multiset() == part.to_multiset()
    &&& forall|i: int, j: int|
        0 <= i < j < out.len() ==> (#[trigger] out[i]).val() <= (#[trigger] out[j]).val()
}

/// The same symbols in ascending order, each once.
pub open spec fn once_in_order<T: WTIndexable>(part: Seq<T>, out: Seq<T>) -> bool {
    &&& forall|t: T| #[trigger] out.contains(t) <==> part.contains(t)
    &&& forall|i: int, j: int|
        0 <= i < j < out.len() ==> (#[trigger] out[i]).val() < (#[trigger] out[j]).val()
}

/// Symbols that ascend are determined by how often each of them stands there.
pub proof fn lemma_in_order_unique<T: WTIndexable>(part: Seq<T>, a: Seq<T>, b: Seq<T>)
    requires
        in_order(part, a),
        in_order(part, b),
    ensures
        a == b,
    decreases part.len(),
{
    broadcast use vstd::seq_lib::group_to_multiset_ensures;

    let n = part.len() as int - 1;
    a.to_multiset_ensures();
    b.to_multiset_ensures();
    if part.len() == 0 {
        assert(a =~= b);
    } else {
        let x = a[n];
        let y = b[n];
        assert(a.contains(x) && b.contains(y));
        assert(b.to_multiset().count(x) > 0 && a.to_multiset().count(y) > 0);
        assert(b.contains(x) && a.contains(y));
        let i = choose|i: int| 0 <= i < b.len() && b[i] == x;
        let j = choose|j: int| 0 <= j < a.len() && a[j] == y;
        assert(x.val() <= y.val());
        assert(y.val() <= x.val());
        x.lemma_val();
        y.lemma_val();
        assert(x == y);
        let a2 = a.drop_last();
        let b2 = b.drop_last();
        assert(a =~= a2.push(x));
        assert(b =~= b2.push(x));
        assert(a2.to_multiset() =~= a.to_multiset().remove(x));
        assert(b2.to_multiset() =~= b.to_multiset().remove(x));
        lemma_in_order_unique(a2, a2, b2);
    }
}

proof fn lemma_val_of<T: WTIndexable>(t: T)
    ensures
        symbol_of::<T>(t.val() as int) == t,
{
    t.lemma_val();
    vstd::arithmetic::div_mod::lemma_small_mod(t.val() as nat, 0x1_0000_0000_0000_0000);
}

/// The numbers of a part, sorted, name its symbols in order.
pub proof fn lemma_extracted<T: WTIndexable>(part: Seq<T>, out: Seq<T>)
    requires
        out == vals(part).sort().map_values(|v: int| symbol_of::<T>(v)),
    ensures
        in_order(part, out),
{
    let numbers = vals(part);
    let sorted = numbers.sort();
    let n = part.len() as int;
    lemma_sort_counts(numbers, 0);
    numbers.lemma_sort_ensures();
    numbers.to_multiset_ensures();
    sorted.to_multiset_ensures();
    assert forall|i: int| 0 <= i < n implies (#[trigger] out[i]).val() == sorted[i] by {
        assert(sorted.contains(sorted[i]));
        assert(numbers.to_multiset().count(sorted[i]) > 0);
        assert(numbers.contains(sorted[i]));
        let k = choose|k: int| 0 <= k < numbers.len() && numbers[k] == sorted[i];
        lemma_val_of(part[k]);
    }
    assert(vals(out) =~= sorted);
    assert forall|a: T| out.to_multiset().count(a) == part.to_multiset().count(a) by {
        lemma_multiset_count(out, a);
        lemma_multiset_count(part, a);
        lemma_vals_count(out, a, n);
        lemma_vals_count(part, a, n);
        lemma_sort_counts(numbers, a.val() as int);
    }
    assert(out.to_multiset() =~= part.to_multiset());
}

/// The numbers of a part, sorted and without repetitions, name its symbols in
/// order, each once.
pub proof fn lemma_extracted_once<T: WTIndexable>(part: Seq<T>, out: Seq<T>)
    requires
        out == dedup(vals(part).sort()).map_values(|v: int| symbol_of::<T>(v)),
    ensures
        once_in_order(part, out),
{
    let numbers = vals(part);
    let sorted = numbers.sort();
    let once = dedup(sorted);
    lemma_sort_counts(numbers, 0);
    lemma_dedup(sorted);
    numbers.lemma_sort_ensures();
    numbers.to_multiset_ensures();
    sorted.to_multiset_ensures();
    assert forall|v: int| #[trigger] sorted.contains(v) <==> numbers.contains(v) by {
        assert(sorted.to_multiset().count(v) == numbers.to_multiset().count(v));
    }
    assert forall|i: int| 0 <= i < out.len() implies (#[trigger] out[i]).val() == once[i]
        && part.contains(out[i]) by {
        assert(sorted.contains(once[i]));
        assert(numbers.contains(once[i]));
        let k = choose|k: int| 0 <= k < numbers.len() && numbers[k] == once[i];
        lemma_val_of(part[k]);
        assert(part[k] == out[i]);
    }
    assert forall|t: T| part.contains(t) implies #[trigger] out.contains(t) by {
        let k = choose|k: int| 0 <= k < part.len() && part[k] == t;
        assert(numbers[k] == t.val());
        assert(numbers.contains(t.val() as int));
        assert(sorted.contains(t.val() as int));
        let i = choose|i: int| 0 <= i < sorted.len() && sorted[i] == t.val();
        assert(once.contains(sorted[i]));
        let u = choose|u: int| 0 <= u < once.len() && once[u] == t.val();
        lemma_val_of(t);
        assert(out[u] == t);
    }
}

} // verus!
