//! Decoding tables: for every code length, the codes of that length with their
//! symbols, ordered by code.

use vstd::prelude::*;

use crate::codes::{coded, table_ok, PrefixCode};
use crate::indexable::WTIndexable;

verus! {

/// Codes come in strictly ascending order.
pub open spec fn row_sorted<T>(row: Seq<(u32, T)>) -> bool {
    forall|i: int, j: int| 0 <= i < j < row.len() ==> (#[trigger] row[i]).0 < (#[trigger] row[j]).0
}

/// Entry `j` of the row is for `content`.
pub open spec fn entry_at<T>(row: Seq<(u32, T)>, content: u32, j: int) -> bool {
    0 <= j < row.len() && row[j].0 == content
}

/// The symbol that the row has for `content`.
pub open spec fn row_symbol<T>(row: Seq<(u32, T)>, content: u32) -> Option<T> {
    if exists|j: int| entry_at(row, content, j) {
        Some(row[choose|j: int| entry_at(row, content, j)].1)
    } else {
        None
    }
}

/// The row has `content` for symbol `s`.
pub open spec fn row_has<T: WTIndexable>(row: Seq<(u32, T)>, content: u32, s: int) -> bool {
    exists|j: int| #[trigger] entry_at(row, content, j) && row[j].1.val() == s
}

/// Every code of the encoding table is found in the row of its length.
pub open spec fn decodes<T: WTIndexable>(
    encode: Seq<PrefixCode>,
    decode: Seq<Seq<(u32, T)>>,
) -> bool {
    forall|s: int|
        #![trigger encode[s]]
        coded(encode, s) ==> encode[s].len < decode.len() && row_has(
            decode[encode[s].len as int],
            encode[s].content,
            s,
        )
}

/// Every entry of row `len` is a code of that length.
pub open spec fn row_encodes<T: WTIndexable>(
    encode: Seq<PrefixCode>,
    row: Seq<(u32, T)>,
    len: int,
) -> bool {
    forall|j: int|
        0 <= j < row.len() ==> {
            let e = #[trigger] row[j];
            e.1.val() < encode.len() && encode[e.1.val() as int].content == e.0
                && encode[e.1.val() as int].len == len
        }
}

/// The two tables belong together.
pub open spec fn tables_agree<T: WTIndexable>(
    encode: Seq<PrefixCode>,
    decode: Seq<Seq<(u32, T)>>,
) -> bool {
    &&& decodes(encode, decode)
    &&& forall|len: int| 0 <= len < decode.len() ==> row_sorted(#[trigger] decode[len])
    &&& forall|len: int| 0 < len < decode.len() ==> row_encodes(encode, #[trigger] decode[len], len)
}

/// The rows behind vectors.
pub open spec fn rows_view<T>(decode: Seq<Vec<(u32, T)>>) -> Seq<Seq<(u32, T)>> {
    Seq::new(decode.len(), |len: int| decode[len]@)
}

/// Looking a code up gives its symbol.
pub proof fn lemma_row_symbol<T: WTIndexable>(
    encode: Seq<PrefixCode>,
    decode: Seq<Seq<(u32, T)>>,
    t: T,
)
    requires
        tables_agree(encode, decode),
        coded(encode, t.val() as int),
    ensures
        encode[t.val() as int].len < decode.len(),
        row_symbol(
            decode[encode[t.val() as int].len as int],
            encode[t.val() as int].content,
        ) == Some(t),
{
    let s = t.val() as int;
    let row = decode[encode[s].len as int];
    let content = encode[s].content;
    assert(row_has(row, content, s));
    let j = choose|j: int| #[trigger] entry_at(row, content, j) && row[j].1.val() == s;
    let k = choose|k: int| entry_at(row, content, k);
    assert(entry_at(row, content, j));
    assert(row_sorted(row));
    if j < k {
        assert(row[j].0 < row[k].0);
    } else if k < j {
        assert(row[k].0 < row[j].0);
    }
    t.lemma_val();
    row[j].1.lemma_val();
}

/// The first position whose code is not smaller than `content`.
fn lower_bound<T>(row: &Vec<(u32, T)>, content: u32) -> (at: usize)
    ensures
        at <= row.len(),
        row_sorted(row@) ==> forall|j: int| 0 <= j < at ==> (#[trigger] row[j]).0 < content,
        row_sorted(row@) ==> forall|j: int| at <= j < row.len() ==> (#[trigger] row[j]).0 >= content,
{
    let mut lo: usize = 0;
    let mut hi: usize = row.len();
    while lo < hi
        invariant
            lo <= hi <= row.len(),
            row_sorted(row@) ==> forall|j: int| 0 <= j < lo ==> (#[trigger] row[j]).0 < content,
            row_sorted(row@) ==> forall|j: int|
                hi <= j < row.len() ==> (#[trigger] row[j]).0 >= content,
        decreases hi - lo,
    {
        let mid: usize = lo + (hi - lo) / 2;
        if row[mid].0 < content {
            proof {
                if row_sorted(row@) {
                    assert forall|j: int| 0 <= j < mid + 1 implies (#[trigger] row[j]).0
                        < content by {
                        if j < mid {
                            assert(row[j].0 < row[mid as int].0);
                        }
                    }
                }
            }
            lo = mid + 1;
        } else {
            proof {
                if row_sorted(row@) {
                    assert forall|j: int| mid <= j < row.len() implies (#[trigger] row[j]).0
                        >= content by {
                        if j > mid {
                            assert(row[mid as int].0 < row[j].0);
                        }
                    }
                }
            }
            hi = mid;
        }
    }
    lo
}

/// The position of `content` in a row, by binary search.
pub fn find_code<T>(row: &Vec<(u32, T)>, content: u32) -> (r: Option<usize>)
    ensures
        match r {
            Some(j) => entry_at(row@, content, j as int),
            None => row_sorted(row@) ==> !exists|j: int| entry_at(row@, content, j),
        },
{
    let at: usize = lower_bound(row, content);
    if at < row.len() && row[at].0 == content {
        assert(entry_at(row@, content, at as int));
        Some(at)
    } else {
        proof {
            if row_sorted(row@) {
                assert forall|j: int| !entry_at(row@, content, j) by {
                    if entry_at(row@, content, j) {
                        if j < at {
                            assert(row[j].0 < content);
                        } else if at < j {
                            assert(row[at as int].0 >= content);
                            assert(row[at as int].0 < row[j].0);
                        }
                    }
                }
            }
        }
        None
    }
}

/// The symbol that a row has for `content`.
pub fn decode_symbol<T: Copy>(row: &Vec<(u32, T)>, content: u32) -> (r: Option<T>)
    requires
        row_sorted(row@),
    ensures
        r == row_symbol(row@, content),
{
    match find_code(row, content) {
        Some(j) => {
            proof {
                let k = choose|k: int| entry_at(row@, content, k);
                assert(entry_at(row@, content, j as int));
                if j < k {
                    assert(row[j as int].0 < row[k].0);
                } else if k < j {
                    assert(row[k].0 < row[j as int].0);
                }
            }
            Some(row[j].1)
        },
        None => None,
    }
}

/// Collects the codes of one length, in order.
fn decode_row<T: WTIndexable>(encode: &Vec<PrefixCode>, len: u32, Ghost(n_levels): Ghost<int>, Ghost(
    bits,
): Ghost<u32>) -> (row: Vec<(u32, T)>)
    requires
        table_ok(encode@, n_levels, bits),
        encode.len() <= T::max_val() + 1,
        len > 0,
    ensures
        row_sorted(row@),
        row_encodes(encode@, row@, len as int),
        forall|s: int|
            0 <= s < encode.len() && (#[trigger] encode[s]).len == len ==> row_has(
                row@,
                encode[s].content,
                s,
            ),
{
    let mut row: Vec<(u32, T)> = Vec::new();
    let mut s: usize = 0;
    while s < encode.len()
        invariant
            s <= encode.len(),
            table_ok(encode@, n_levels, bits),
            encode.len() <= T::max_val() + 1,
            len > 0,
            row_sorted(row@),
            row_encodes(encode@, row@, len as int),
            forall|j: int| 0 <= j < row.len() ==> (#[trigger] row[j]).1.val() < s,
            forall|t: int|
                0 <= t < s && (#[trigger] encode[t]).len == len ==> row_has(
                    row@,
                    encode[t].content,
                    t,
                ),
        decreases encode.len() - s,
    {
        let code: PrefixCode = encode[s];
        if code.len == len {
            let at: usize = lower_bound(&row, code.content);
            let symbol: T = T::from_u64(s as u64);
            let ghost before = row@;
            proof {
                T::lemma_truncated(s as u64);
                assert(symbol.val() == s);
                if at < before.len() && before[at as int].0 == code.content {
                    let t = before[at as int].1.val() as int;
                    assert(t < s);
                    assert(coded(encode@, t) && coded(encode@, s as int));
                    assert(encode@[t] == encode@[s as int]);
                }
            }
            row.insert(at, (code.content, symbol));
            proof {
                assert forall|i: int, j: int| 0 <= i < j < row.len() implies (#[trigger] row[i]).0
                    < (#[trigger] row[j]).0 by {
                    let x = if i < at {
                        before[i].0
                    } else if i == at {
                        code.content
                    } else {
                        before[i - 1].0
                    };
                    let y = if j < at {
                        before[j].0
                    } else if j == at {
                        code.content
                    } else {
                        before[j - 1].0
                    };
                    assert(row[i].0 == x && row[j].0 == y);
                    if i < at && j > at {
                        assert(before[i].0 < before[j - 1].0);
                    } else if i == at {
                        if j - 1 > at {
                            assert(before[at as int].0 < before[j - 1].0);
                        }
                        assert(before[at as int].0 >= code.content);
                    }
                }
                assert forall|t: int|
                    0 <= t < s + 1 && (#[trigger] encode[t]).len == len implies row_has(
                    row@,
                    encode[t].content,
                    t,
                ) by {
                    if t == s {
                        assert(entry_at(row@, code.content, at as int));
                    } else {
                        assert(row_has(before, encode[t].content, t));
                        let j = choose|j: int| #[trigger]
                            entry_at(before, encode[t].content, j) && before[j].1.val() == t;
                        let k = if j < at {
                            j
                        } else {
                            j + 1
                        };
                        assert(row[k] == before[j]);
                        assert(entry_at(row@, encode[t].content, k));
                    }
                }
                assert forall|j: int| 0 <= j < row.len() implies {
                    let e = #[trigger] row[j];
                    e.1.val() < encode.len() && encode[e.1.val() as int].content == e.0
                        && encode[e.1.val() as int].len == len && e.1.val() < s + 1
                } by {
                    if j < at {
                        assert(row[j] == before[j]);
                    } else if j > at {
                        assert(row[j] == before[j - 1]);
                    }
                }
            }
        }
        s = s + 1;
    }
    row
}

/// The decoding table for codes of at most `max_len` bits.
pub(crate) fn decode_table<T: WTIndexable>(
    encode: &Vec<PrefixCode>,
    max_len: u32,
    Ghost(n_levels): Ghost<int>,
    Ghost(bits): Ghost<u32>,
) -> (decode: Vec<Vec<(u32, T)>>)
    requires
        table_ok(encode@, n_levels, bits),
        encode.len() <= T::max_val() + 1,
        forall|s: int| 0 <= s < encode.len() ==> (#[trigger] encode[s]).len <= max_len,
        max_len < u32::MAX,
    ensures
        decode.len() == max_len + 1,
        decode[0].len() == 0,
        tables_agree(encode@, rows_view(decode@)),
{
    let mut decode: Vec<Vec<(u32, T)>> = Vec::new();
    let empty: Vec<(u32, T)> = Vec::new();
    decode.push(empty);
    let mut len: u32 = 1;
    while len <= max_len
        invariant
            1 <= len <= max_len + 1,
            max_len < u32::MAX,
            table_ok(encode@, n_levels, bits),
            encode.len() <= T::max_val() + 1,
            decode.len() == len,
            decode[0].len() == 0,
            forall|k: int| 0 <= k < len ==> row_sorted((#[trigger] decode[k])@),
            forall|k: int| 0 < k < len ==> row_encodes(encode@, (#[trigger] decode[k])@, k),
            forall|s: int|
                0 <= s < encode.len() && 0 < (#[trigger] encode[s]).len < len ==> row_has(
                    decode[encode[s].len as int]@,
                    encode[s].content,
                    s,
                ),
        decreases max_len + 1 - len,
    {
        let row: Vec<(u32, T)> = decode_row(encode, len, Ghost(n_levels), Ghost(bits));
        decode.push(row);
        len = len + 1;
    }
    decode
}

/// The symbols of a row.
spec fn row_symbols<T: WTIndexable>(row: Seq<(u32, T)>) -> Seq<int> {
    Seq::new(row.len(), |j: int| row[j].1.val() as int)
}

/// The symbols whose codes are shorter than `b`.
spec fn shorter(encode: Seq<PrefixCode>, b: int) -> Set<int> {
    Set::new(|s: int| 0 <= s < encode.len() && encode[s].len < b)
}

/// How many entries the first `b` rows have.
pub open spec fn entry_total<T>(decode: Seq<Seq<(u32, T)>>, b: int) -> int
    decreases b,
{
    if b <= 0 {
        0
    } else {
        entry_total(decode, b - 1) + decode[b - 1].len()
    }
}

/// No symbol has two entries in a row.
proof fn lemma_row_symbols<T: WTIndexable>(encode: Seq<PrefixCode>, row: Seq<(u32, T)>, len: int)
    requires
        row_sorted(row),
        row_encodes(encode, row, len),
    ensures
        row_symbols(row).to_set().finite(),
        row_symbols(row).to_set().len() == row.len(),
        forall|s: int|
            #[trigger] row_symbols(row).to_set().contains(s) ==> 0 <= s < encode.len()
                && encode[s].len == len,
{
    let symbols = row_symbols(row);
    assert forall|i: int, j: int|
        0 <= i < symbols.len() && 0 <= j < symbols.len() && i != j implies symbols[i]
        != symbols[j] by {
        if i < j {
            assert(row[i].0 < row[j].0);
        } else {
            assert(row[j].0 < row[i].0);
        }
        assert(encode[row[i].1.val() as int].content == row[i].0);
        assert(encode[row[j].1.val() as int].content == row[j].0);
    }
    assert(symbols.no_duplicates());
    symbols.unique_seq_to_set();
    assert forall|s: int| #[trigger] symbols.to_set().contains(s) implies 0 <= s < encode.len()
        && encode[s].len == len by {
        let j = choose|j: int| 0 <= j < symbols.len() && symbols[j] == s;
        assert(row[j].1.val() == s);
    }
}

/// The rows have no more entries than there are codes of their lengths.
proof fn lemma_entries_shorter<T: WTIndexable>(
    encode: Seq<PrefixCode>,
    decode: Seq<Seq<(u32, T)>>,
    b: int,
)
    requires
        tables_agree(encode, decode),
        decode.len() > 0 ==> decode[0].len() == 0,
        0 <= b <= decode.len(),
    ensures
        shorter(encode, b).finite(),
        0 <= entry_total(decode, b) <= shorter(encode, b).len(),
    decreases b,
{
    vstd::set_lib::lemma_int_range(0, encode.len() as int);
    let all = vstd::set_lib::set_int_range(0, encode.len() as int);
    assert(shorter(encode, b).subset_of(all));
    vstd::set_lib::lemma_len_subset(shorter(encode, b), all);
    if b > 0 {
        lemma_entries_shorter(encode, decode, b - 1);
        let before = shorter(encode, b - 1);
        if b > 1 {
            let row = decode[b - 1];
            lemma_row_symbols(encode, row, b - 1);
            let here = row_symbols(row).to_set();
            assert(before.disjoint(here));
            vstd::set_lib::lemma_set_disjoint_lens(before, here);
            assert((before + here).subset_of(shorter(encode, b)));
            vstd::set_lib::lemma_len_subset(before + here, shorter(encode, b));
        } else {
            assert(before.subset_of(shorter(encode, b)));
            vstd::set_lib::lemma_len_subset(before, shorter(encode, b));
        }
    }
}

/// A decoding table has no more entries than there are codes.
pub proof fn lemma_entry_total<T: WTIndexable>(
    encode: Seq<PrefixCode>,
    decode: Seq<Seq<(u32, T)>>,
)
    requires
        tables_agree(encode, decode),
        decode.len() > 0 ==> decode[0].len() == 0,
    ensures
        0 <= entry_total(decode, decode.len() as int) <= encode.len(),
        forall|b: int, j: int|
            0 <= b < decode.len() && 0 <= j < decode[b].len() ==> (#[trigger] decode[b][j]).1.val()
                < encode.len(),
{
    vstd::set_lib::lemma_int_range(0, encode.len() as int);
    let all = vstd::set_lib::set_int_range(0, encode.len() as int);
    let b = decode.len() as int;
    lemma_entries_shorter(encode, decode, b);
    assert(shorter(encode, b).subset_of(all));
    vstd::set_lib::lemma_len_subset(shorter(encode, b), all);
    assert forall|b: int, j: int| 0 <= b < decode.len() && 0 <= j < decode[b].len() implies (
    #[trigger] decode[b][j]).1.val() < encode.len() by {
        assert(b > 0);
        assert(row_encodes(encode, decode[b], b));
    }
}

/// A row has no more entries than the table.
pub proof fn lemma_row_total<T>(decode: Seq<Seq<(u32, T)>>, b: int, k: int)
    requires
        0 <= k < b,
    ensures
        decode[k].len() <= entry_total(decode, b),
        0 <= entry_total(decode, b - 1),
    decreases b,
{
    if b - 1 > k {
        lemma_row_total(decode, b - 1, k);
    } else {
        lemma_total_sign(decode, b - 1);
    }
}

proof fn lemma_total_sign<T>(decode: Seq<Seq<(u32, T)>>, b: int)
    ensures
        0 <= entry_total(decode, b),
    decreases b,
{
    if b > 0 {
        lemma_total_sign(decode, b - 1);
    }
}

/// Two sorted rows with the same entries are the same.
proof fn lemma_rows_same<T>(a: Seq<(u32, T)>, b: Seq<(u32, T)>)
    requires
        row_sorted(a),
        row_sorted(b),
        forall|i: int| 0 <= i < a.len() ==> b.contains(#[trigger] a[i]),
        forall|j: int| 0 <= j < b.len() ==> a.contains(#[trigger] b[j]),
    ensures
        a == b,
    decreases a.len(),
{
    if a.len() == 0 {
        if b.len() > 0 {
            assert(a.contains(b[0]));
        }
        assert(a =~= b);
    } else {
        assert(b.contains(a[0]));
        let x = a.last();
        let y = b.last();
        let i = choose|i: int| 0 <= i < a.len() && a[i] == b[b.len() - 1];
        let j = choose|j: int| 0 <= j < b.len() && b[j] == a[a.len() - 1];
        assert(a.contains(b[b.len() - 1]) && b.contains(a[a.len() - 1]));
        assert(x == y) by {
            if i < a.len() - 1 {
                assert(a[i].0 < a[a.len() - 1].0);
                assert(b[j].0 <= b[b.len() - 1].0);
            }
        }
        let a2 = a.drop_last();
        let b2 = b.drop_last();
        assert forall|k: int| 0 <= k < a2.len() implies b2.contains(#[trigger] a2[k]) by {
            assert(a2[k] == a[k]);
            assert(b.contains(a[k]));
            let m = choose|m: int| 0 <= m < b.len() && b[m] == a[k];
            assert(a[k].0 < a[a.len() - 1].0);
            assert(b2[m] == a[k]);
        }
        assert forall|k: int| 0 <= k < b2.len() implies a2.contains(#[trigger] b2[k]) by {
            assert(b2[k] == b[k]);
            assert(a.contains(b[k]));
            let m = choose|m: int| 0 <= m < a.len() && a[m] == b[k];
            assert(b[k].0 < b[b.len() - 1].0);
            assert(a2[m] == b[k]);
        }
        lemma_rows_same(a2, b2);
        assert(a =~= a2.push(x));
        assert(b =~= b2.push(y));
    }
}

/// An entry of one table stands in the other.
proof fn lemma_entry_in<T: WTIndexable>(
    encode: Seq<PrefixCode>,
    a: Seq<Seq<(u32, T)>>,
    b: Seq<Seq<(u32, T)>>,
    len: int,
    i: int,
)
    requires
        tables_agree(encode, a),
        tables_agree(encode, b),
        0 < len < a.len(),
        a.len() == b.len(),
        0 <= i < a[len].len(),
    ensures
        b[len].contains(a[len][i]),
{
    let e = a[len][i];
    let s = e.1.val() as int;
    assert(row_encodes(encode, a[len], len));
    assert(coded(encode, s));
    assert(row_has(b[len], e.0, s));
    let j = choose|j: int| #[trigger] entry_at(b[len], e.0, j) && b[len][j].1.val() == s;
    b[len][j].1.lemma_val();
    e.1.lemma_val();
    assert(b[len][j].1 == e.1);
    assert(b[len][j] == e);
}

/// An encoding table has one decoding table with so many rows.
pub proof fn lemma_decode_unique<T: WTIndexable>(
    encode: Seq<PrefixCode>,
    a: Seq<Seq<(u32, T)>>,
    b: Seq<Seq<(u32, T)>>,
)
    requires
        tables_agree(encode, a),
        tables_agree(encode, b),
        a.len() == b.len(),
        a.len() > 0 ==> a[0].len() == 0 && b[0].len() == 0,
    ensures
        a == b,
{
    assert forall|len: int| 0 <= len < a.len() implies a[len] == b[len] by {
        if len == 0 {
            assert(a[0] =~= b[0]);
        } else {
            assert(row_sorted(a[len]) && row_sorted(b[len]));
            assert forall|i: int| 0 <= i < a[len].len() implies b[len].contains(
                #[trigger] a[len][i],
            ) by {
                lemma_entry_in(encode, a, b, len, i);
            }
            assert forall|i: int| 0 <= i < b[len].len() implies a[len].contains(
                #[trigger] b[len][i],
            ) by {
                lemma_entry_in(encode, b, a, len, i);
            }
            lemma_rows_same(a[len], b[len]);
        }
    }
    assert(a =~= b);
}

} // verus!
