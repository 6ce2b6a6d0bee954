# qwt

Wavelet trees over sequences of unsigned integers, verified with Verus.

A wavelet tree answers which symbol stands at a position (`get`), how often a
symbol occurs before it (`rank`), and where it occurs for the k-th time
(`select`). The library has

- quad trees, plain and with minimum-redundancy codes (`quadwt`),
- binary trees, plain and with minimum-redundancy codes (`binwt`),
- containers: trees as bytes that are queried in place (`bytes`), and builds of
  such containers from a stream of symbols within budgets of memory and disk.

## How it is laid out

- `src/` is the library. What a tree represents is a sequence, `seq()`; the
  contracts of the queries speak of that sequence alone. `wavelet`, `matrix` and
  `tree` hold the theory: how the levels of a tree arise from a sequence, and
  what walks down the levels compute. `codes`, `tables`, `order` and `huffman`
  deal with prefix codes, `lengths` with the size of the levels. The functions
  `lemma_*` that are public state what holds across functions: for instance that
  a container opens to the tree it was written from, or that a direct build
  gives the bytes of the tree of its source.
- `tests/` runs the library.
- `app/` does what is left: files, iterator and serde impls, and the detection
  of processor features.

The proofs rest on the specifications that Verus gives to the standard library
and on four items of the library's own, each with a doc comment that says what
is claimed: `u64::count_ones`, `u16::from_ne_bytes`, the address of a slice, and
the lengths of the codes that the crate `minimum_redundancy` computes.
