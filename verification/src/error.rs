//! Error kinds of the streaming engine.
//!
//! Errors are not recovered from within the engine: any error aborts the
//! in-flight capture or restore.

use vstd::prelude::*;

verus! {

/// What went wrong during capture or restore.
#[derive(Clone, Copy, Debug, PartialEq, Eq, Structural)]
pub enum Error {
    /// A passed file descriptor is not the expected kernel object type.
    InvalidDescriptor,
    /// A marker frame declares a length over the sanity cap, or its body
    /// fails to decode.
    MalformedFrame,
    /// A marker frame ends before its declared length.
    TruncatedFrame,
    /// Markers arrive out of the discipline that sequence numbers impose:
    /// data after the image end, a file committed twice, a marker without
    /// its prerequisite.
    SequenceViolation,
    /// A transfer of a declared byte count met an early close.
    UnexpectedEof,
    /// A request breaks the endpoint protocol, such as serving the same
    /// file name twice or inserting a duplicate name.
    ProtocolViolation,
    /// Any underlying system failure not covered above.
    SystemError,
}

} // verus!
