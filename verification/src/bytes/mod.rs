//! Byte containers of wavelet trees.
//!
//! A container begins with a header of 32 bytes and a directory with one entry
//! per level. The payload of the levels lies behind it at aligned offsets.

pub mod audit;
pub mod buffer;
pub mod container;
pub mod dir;
pub mod direct;
pub mod direct_huff;
pub mod encoder;
pub mod error;
pub mod hqwb;
pub mod hview;
pub mod image;
pub mod layout;
pub mod le;
pub mod level;
pub mod passes;
pub mod payload;
pub mod qwtb;
pub mod view;
pub mod writer;

use vstd::prelude::*;

pub use self::buffer::AlignedBytes;
pub use self::direct::{qwt256_u32_output_upper_bound, DirectQwtBuildBudget, DirectQwtBuildStats};
pub use self::direct_huff::hqwt256_u32_output_upper_bound;
pub use self::error::{DirectQwtBuildError, LayoutError};
pub use self::hqwb::{hqwt256_to_bytes, hqwt_to_bytes};
pub use self::hview::HqwtView;
pub use self::level::RSQVectorView;
pub use self::qwtb::{qwt256_to_bytes, qwt_to_bytes};
pub use self::view::QwtView;

verus! {

/// Bytes of a container's header.
pub const HEADER_SIZE: usize = 32;

/// The format version that is written and read.
pub const FORMAT_VERSION: u16 = 1;

/// Flag of containers whose blocks have 512 rows.
pub const FLAG_B512: u8 = 1;

/// Flag of containers with prefetch support data.
pub const FLAG_PREFETCH: u8 = 2;

/// Bytes of a directory entry of a plain container.
pub const LEVEL_DIR_SIZE: usize = 128;

/// Bytes of a directory entry of a Huffman container.
pub const HQWT_LEVEL_DIR_SIZE: usize = 136;

/// The first multiple of `align` that is not smaller than `x`.
pub open spec fn aligned(x: int, align: int) -> int {
    ((x + align - 1) / align) * align
}

pub proof fn lemma_aligned(x: int, align: int)
    requires
        0 < align,
    ensures
        x <= aligned(x, align) < x + align,
        aligned(x, align) % align == 0,
{
    vstd::arithmetic::div_mod::lemma_fundamental_div_mod(x + align - 1, align);
    let q = (x + align - 1) / align;
    assert(q * align == align * q) by (nonlinear_arith);
    vstd::arithmetic::div_mod::lemma_mod_multiples_basic(q, align);
}

/// Rounds up to a multiple of `align`.
pub fn align_up(value: usize, align: usize) -> (r: usize)
    requires
        0 < align,
        value + align - 1 <= usize::MAX,
    ensures
        r == aligned(value as int, align as int),
        value <= r < value + align,
        r as int % align as int == 0,
{
    proof {
        lemma_aligned(value as int, align as int);
    }
    ((value + (align - 1)) / align) * align
}

/// The size of `count` elements of `elem` bytes at offset `off`, where they lie
/// inside of `total` bytes.
pub fn checked_region(off: usize, count: usize, elem: usize, total: usize) -> (r: Result<
    usize,
    LayoutError,
>)
    ensures
        match r {
            Ok(size) => off + count * elem <= total && size == count * elem,
            Err(e) => off + count * elem > total && e == LayoutError::Truncated,
        },
{
    match count.checked_mul(elem) {
        Some(size) => match off.checked_add(size) {
            Some(end) => if end <= total {
                Ok(size)
            } else {
                Err(LayoutError::Truncated)
            },
            None => Err(LayoutError::Truncated),
        },
        None => Err(LayoutError::Truncated),
    }
}

/// The number that two bytes hold in the order of the host.
///
/// Calls `u16::from_ne_bytes`, which takes the first byte as the low or as the
/// high one.
#[verifier::external_body]
fn host_u16(bytes: [u8; 2]) -> (x: u16)
    ensures
        x == bytes@[0] + 256 * bytes@[1] || x == 256 * bytes@[0] + bytes@[1],
{
    u16::from_ne_bytes(bytes)
}

/// The bytes by which the order of the host is told.
pub fn order_probe() -> (b: [u8; 2])
    ensures
        b@ == seq![1u8, 0u8],
{
    let b: [u8; 2] = [1, 0];
    assert(b@ =~= seq![1u8, 0u8]);
    b
}

/// What becomes of a host for which the bytes of [`order_probe`] hold the number
/// `one`: a little-endian one takes the first byte as the low one.
pub fn check_host_order(one: u16) -> (r: Result<(), LayoutError>)
    ensures
        r == if one == 1 {
            Ok::<(), LayoutError>(())
        } else {
            Err(LayoutError::BigEndian)
        },
{
    if one == 1 {
        Ok(())
    } else {
        Err(LayoutError::BigEndian)
    }
}

/// The host can read the bytes of [`order_probe`] as the number `one`.
pub closed spec fn host_reads(one: u16) -> bool {
    exists|probe: [u8; 2]|
        probe@ == seq![1u8, 0u8] && #[trigger] call_ensures(host_u16, (probe,), one)
}

/// The host can be told to be one for which `answer` is given: what it reads the
/// probe as decides.
pub open spec fn host_answers(answer: Result<(), LayoutError>) -> bool {
    exists|one: u16|
        #[trigger] host_reads(one) && (answer is Ok <==> one == 1) && (answer is Err ==> answer
            == Err::<(), LayoutError>(LayoutError::BigEndian))
}

/// Refuses hosts that are not little-endian. Which host this is, is not known
/// here: [`check_host_order`] says what becomes of either, and the answer rests on
/// nothing but what the host reads.
pub fn ensure_le() -> (r: Result<(), LayoutError>)
    ensures
        r is Err ==> r == Err::<(), LayoutError>(LayoutError::BigEndian),
        host_answers(r),
{
    let probe = order_probe();
    let one: u16 = host_u16(probe);
    assert(call_ensures(host_u16, (probe,), one));
    assert(host_reads(one));
    check_host_order(one)
}

/// A host that reads the low byte first is accepted, and one that reads it last is
/// refused.
proof fn host_order_decides(r: Result<(), LayoutError>)
    requires
        call_ensures(ensure_le, (), r),
    ensures
        (forall|probe: [u8; 2], x: u16| #[trigger]
            call_ensures(host_u16, (probe,), x) ==> x == probe@[0] + 256 * probe@[1]) ==> r is Ok,
        (forall|probe: [u8; 2], x: u16| #[trigger]
            call_ensures(host_u16, (probe,), x) ==> x == 256 * probe@[0] + probe@[1]) ==> r
            == Err::<(), LayoutError>(LayoutError::BigEndian),
{
}

} // verus!
