//! Failure values reported by a memory access capability.

use vstd::prelude::*;

verus! {

/// Why a raw read or write against the target memory failed.
///
/// The scanning engine itself only distinguishes "succeeded" from "failed";
/// the variants exist so that a capability implementation can report what
/// went wrong at its own boundary.
#[derive(Clone, Copy, Debug, PartialEq, Eq, Structural)]
pub enum AccessError {
    /// The address range is not mapped in the target, or is no valid address at all.
    UnmappedAddress,
    /// The target refused the access.
    PermissionDenied,
    /// The target moved fewer bytes than were asked for.
    PartialTransfer,
}

/// Result of one raw or typed memory operation.
pub type MemoryResult<T> = Result<T, AccessError>;

} // verus!
