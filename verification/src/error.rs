//! The error kinds shared by the buddy allocator and the memory manager.
//! All of them are non-fatal: every operation reports failure through a
//! `Result` and leaves the structure unchanged.

use vstd::prelude::*;

verus! {

/// Why an allocator or manager operation was refused.
#[derive(Debug, Clone, Copy, PartialEq, Eq, Structural)]
pub enum MemError {
    /// A zero-byte allocation or an update to size zero was requested.
    InvalidSize,
    /// No free block, even after all possible splits, is large enough.
    OutOfMemory,
    /// The logical id is unknown, was already deleted, or was never assigned.
    NotFound,
    /// A deallocation request lies outside the arena or is misaligned.
    InvalidRange,
    /// Honouring the request would corrupt the free set; the operation is
    /// aborted with the state unchanged.
    InvariantViolation,
}

} // verus!
