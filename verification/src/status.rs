//! Status codes returned by the firmware service model.

use vstd::prelude::*;

verus! {

/// Outcome code of a firmware service call.
#[derive(Clone, Copy, PartialEq, Eq, Structural, Debug)]
pub enum Status {
    /// The call completed.
    Success,
    /// The named item does not exist.
    NotFound,
    /// The supplied buffer is smaller than the data to return.
    BufferTooSmall,
    /// The request cannot be satisfied from the remaining resources.
    OutOfResources,
    /// An argument was outside the call's domain, such as a stale exit token.
    InvalidParameter,
    /// The operation is not supported on this object.
    Unsupported,
    /// The device reported an error.
    DeviceError,
    /// The operation was abandoned.
    Aborted,
}

} // verus!
