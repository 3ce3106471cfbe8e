//! The error taxonomy shared by the log and the store.

use vstd::prelude::*;

verus! {

/// Everything that can go wrong inside the library.
///
/// File-level failures (permissions, disk errors) belong to the embedding
/// program, which owns the file; they never arise in here.
#[derive(Debug, Clone, Copy, PartialEq, Eq, Structural)]
pub enum KvError {
    /// `remove` was asked for a key that has no current association.
    KeyNotFound,
    /// Bytes did not form a complete, well-formed log entry. Replay
    /// surfaces this instead of silently treating a corrupt or truncated
    /// tail as a clean end of the log.
    DecodeError,
}

} // verus!
