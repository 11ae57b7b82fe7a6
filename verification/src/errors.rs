use vstd::prelude::*;

verus! {

/// The error taxonomy of the synchronizer.
///
/// `TransportError` and `ParseError` are per-topic and recoverable: the run
/// skips the topic and goes on. `CorruptState` and `IOError` are hard errors
/// raised around snapshot handling. `UnknownDocument` reports an attempt to
/// mark a never-fetched document as read.
#[derive(Debug, Clone, Copy, PartialEq, Eq, Structural)]
pub enum SyncError {
    TransportError,
    ParseError,
    CorruptState,
    IOError,
    UnknownDocument,
}

} // verus!
