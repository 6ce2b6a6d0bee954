//! Wavelet trees over sequences of unsigned integers.
//!
//! A tree answers three questions: which symbol stands at a position (`get`),
//! how often a symbol occurs before a position (`rank`), and where a symbol
//! occurs for the k-th time (`select`).
//!
//! * [`binwt`] has trees of bits, plain ([`WT`]) and compressed with Huffman
//!   codes ([`HWT`]).
//! * [`quadwt`] has trees of digits of two bits, plain ([`QWT256`], [`QWT512`])
//!   and compressed ([`HQWT256`], [`HQWT512`]).
//! * [`bytes`] has containers of quad trees that can be queried where they lie,
//!   and the construction of containers from streams of symbols.

pub mod binwt;
pub mod bitvector;
pub mod builder;
pub mod bytes;
pub mod codes;
pub mod digits;
pub mod extract;
pub mod huffman;
pub mod indexable;
pub mod iter;
pub mod kernel;
pub mod laws;
pub mod lengths;
pub mod level;
pub mod matrix;
pub mod occs;
pub mod order;
pub mod plain;
pub mod quadwt;
pub mod qvector;
pub mod sorting;
pub mod tables;
pub mod tree;
pub mod utils;
pub mod wavelet;
pub mod words;

pub use self::binwt::{HWT, WT, WaveletTree};
pub use self::indexable::WTIndexable;
pub use self::iter::{AccessUnsigned, WTIterator};
pub use self::quadwt::huffqwt::{HQWT256, HQWT512, HuffQWaveletTree};
pub use self::quadwt::{QWT256, QWT512, QWaveletTree};
