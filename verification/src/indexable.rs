//! Symbol types.

use vstd::arithmetic::power2::{lemma2_to64, pow2};
use vstd::prelude::*;

verus! {

/// An unsigned integer type whose values can be the symbols of a sequence.
pub trait WTIndexable: Copy + Sized {
    /// The symbol as a number.
    spec fn val(self) -> u64;

    /// The symbol that holds the low bits of `v`.
    spec fn truncated(v: u64) -> Self;

    /// The largest symbol.
    spec fn max_val() -> u64;

    /// How many bits a symbol has.
    spec fn bit_width() -> nat;

    proof fn lemma_width()
        ensures
            8 <= Self::bit_width() <= 64,
            Self::bit_width() % 8 == 0,
            Self::max_val() + 1 == pow2(Self::bit_width()),
    ;

    proof fn lemma_val(self)
        ensures
            self.val() <= Self::max_val(),
            Self::truncated(self.val()) == self,
    ;

    proof fn lemma_truncated(v: u64)
        requires
            v <= Self::max_val(),
        ensures
            Self::truncated(v).val() == v,
    ;

    /// The symbol as a number.
    fn to_u64(self) -> (v: u64)
        ensures
            v == self.val(),
    ;

    /// The symbol that holds the low bits of `v`.
    fn from_u64(v: u64) -> (t: Self)
        ensures
            t == Self::truncated(v),
    ;

    /// How many bits a symbol has.
    fn width() -> (w: u32)
        ensures
            w == Self::bit_width(),
    ;
}

impl WTIndexable for u8 {
    open spec fn val(self) -> u64 {
        self as u64
    }

    open spec fn truncated(v: u64) -> Self {
        v as u8
    }

    open spec fn max_val() -> u64 {
        u8::MAX as u64
    }

    open spec fn bit_width() -> nat {
        8
    }

    proof fn lemma_width() {
        lemma2_to64();
    }

    proof fn lemma_val(self) {
    }

    proof fn lemma_truncated(v: u64) {
    }

    fn to_u64(self) -> (v: u64) {
        self as u64
    }

    fn from_u64(v: u64) -> (t: Self) {
        v as u8
    }

    fn width() -> (w: u32) {
        8
    }
}

impl WTIndexable for u16 {
    open spec fn val(self) -> u64 {
        self as u64
    }

    open spec fn truncated(v: u64) -> Self {
        v as u16
    }

    open spec fn max_val() -> u64 {
        u16::MAX as u64
    }

    open spec fn bit_width() -> nat {
        16
    }

    proof fn lemma_width() {
        lemma2_to64();
    }

    proof fn lemma_val(self) {
    }

    proof fn lemma_truncated(v: u64) {
    }

    fn to_u64(self) -> (v: u64) {
        self as u64
    }

    fn from_u64(v: u64) -> (t: Self) {
        v as u16
    }

    fn width() -> (w: u32) {
        16
    }
}

impl WTIndexable for u32 {
    open spec fn val(self) -> u64 {
        self as u64
    }

    open spec fn truncated(v: u64) -> Self {
        v as u32
    }

    open spec fn max_val() -> u64 {
        u32::MAX as u64
    }

    open spec fn bit_width() -> nat {
        32
    }

    proof fn lemma_width() {
        lemma2_to64();
    }

    proof fn lemma_val(self) {
    }

    proof fn lemma_truncated(v: u64) {
    }

    fn to_u64(self) -> (v: u64) {
        self as u64
    }

    fn from_u64(v: u64) -> (t: Self) {
        v as u32
    }

    fn width() -> (w: u32) {
        32
    }
}

impl WTIndexable for u64 {
    open spec fn val(self) -> u64 {
        self
    }

    open spec fn truncated(v: u64) -> Self {
        v
    }

    open spec fn max_val() -> u64 {
        u64::MAX
    }

    open spec fn bit_width() -> nat {
        64
    }

    proof fn lemma_width() {
        lemma2_to64();
    }

    proof fn lemma_val(self) {
    }

    proof fn lemma_truncated(v: u64) {
    }

    fn to_u64(self) -> (v: u64) {
        self
    }

    fn from_u64(v: u64) -> (t: Self) {
        v
    }

    fn width() -> (w: u32) {
        64
    }
}

impl WTIndexable for usize {
    open spec fn val(self) -> u64 {
        self as u64
    }

    open spec fn truncated(v: u64) -> Self {
        v as usize
    }

    open spec fn max_val() -> u64 {
        usize::MAX as u64
    }

    open spec fn bit_width() -> nat {
        usize::BITS as nat
    }

    proof fn lemma_width() {
        lemma2_to64();
        if usize::BITS == 32 {
            assert(usize::MAX == 0xffff_ffff);
        } else {
            assert(usize::BITS == 64);
            assert(usize::MAX == 0xffff_ffff_ffff_ffff);
        }
    }

    proof fn lemma_val(self) {
    }

    proof fn lemma_truncated(v: u64) {
    }

    fn to_u64(self) -> (v: u64) {
        self as u64
    }

    fn from_u64(v: u64) -> (t: Self) {
        v as usize
    }

    fn width() -> (w: u32) {
        usize::BITS
    }
}

} // verus!
