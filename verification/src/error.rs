//! The conditions that reading and writing can end in.
use vstd::prelude::*;

verus! {

/// Why an operation of a reader or a writer did not produce its result.
#[derive(Clone, Copy, Debug, PartialEq, Eq)]
pub enum Error {
    /// The source ran out before the requested token was found.
    EndOfInput,
    /// The underlying device reported a failure.  Nothing is retried.
    IoFailure,
    /// The reader was asked for a buffer too small for its unread bytes.
    BufferShrinkRejected,
}

/// What a device answers when it cannot do what it was asked.
#[derive(Clone, Copy, Debug, PartialEq, Eq)]
pub struct DeviceError;

} // verus!
