//! SV39 virtual-memory subsystem for a single-hart RV64 teaching kernel.
//!
//! The crate models physical memory explicitly ([`page_table::PhysMem`]), so
//! every page-table walk, frame allocation and user-pointer translation is
//! ordinary verified code: address arithmetic, a LIFO frame allocator, the
//! three-level radix page table, address spaces made of non-overlapping
//! regions, and the translation layer that resolves user pointers for
//! system calls.

use vstd::prelude::*;

pub mod address;
pub mod frame_allocator;
pub mod memory_set;
pub mod page_table;
pub mod syscall;
pub mod translate;

verus! {

/// Every failure the subsystem can report.
///
/// `OutOfMemory`, `AlreadyMapped`, `NotMapped` and `InvalidFrame` indicate
/// kernel-invariant violations that a caller should treat as fatal;
/// `Overlap`, `NoSuchMapping`, `UnmappedAccess`, `CrossPageValue`,
/// `Misaligned` and `UnterminatedString` are ordinary failures reachable
/// from user-supplied arguments.
#[derive(Clone, Copy, Debug, PartialEq, Eq, Structural)]
pub enum MmError {
    /// The frame pool is exhausted.
    OutOfMemory,
    /// `map` was asked to overwrite a slot that is already valid.
    AlreadyMapped,
    /// `unmap` was asked to clear a slot that is not valid.
    NotMapped,
    /// A new region collides with an existing region.
    Overlap,
    /// An unmap request does not exactly match a known region.
    NoSuchMapping,
    /// A translation touched a virtual page with no valid mapping.
    UnmappedAccess,
    /// A single-page value translation would straddle a page boundary.
    CrossPageValue,
    /// A start address or length violates page alignment requirements.
    Misaligned,
    /// A frame was returned to the pool that the pool does not own.
    InvalidFrame,
    /// A string scan ran past its length cap without finding a terminator.
    UnterminatedString,
}

} // verus!
