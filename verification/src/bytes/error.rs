//! Errors of the byte containers.

use vstd::prelude::*;

verus! {

/// Why bytes are not a container.
#[derive(Clone, Copy, Debug, PartialEq, Eq)]
pub enum LayoutError {
    /// The host is not little-endian.
    BigEndian,
    /// The bytes end before the container does.
    Truncated,
    /// The container does not begin with its magic bytes.
    BadMagic,
    /// The container has another format version.
    BadVersion,
    /// The container was written with prefetch support data.
    PrefetchNotSupported,
    /// The payload does not begin at a multiple of its alignment.
    Misaligned,
    /// The container would be larger than memory.
    TooLarge,
    /// Parts of the container contradict each other.
    Inconsistent { detail: &'static str },
}

/// Failures of direct container construction.
#[derive(Clone, Copy, Debug, PartialEq, Eq)]
pub enum DirectQwtBuildError {
    InvalidInput(&'static str),
    BufferBudget { required: u64, limit: u64 },
    ScratchBudget { required: u64, limit: u64 },
    Overflow(&'static str),
}

} // verus!
