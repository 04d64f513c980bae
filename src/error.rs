//! The ways an operation of the engine can fail.

use vstd::prelude::*;

verus! {

/// What went wrong, by kind.
#[derive(Debug, Clone, Copy, PartialEq, Eq, Structural)]
pub enum FinError {
    /// A plugin reference that names no plugin.
    InvalidSpec,
    /// A plugin's archive could not be fetched or unpacked.
    FetchFailure,
    /// A plugin's files could not be copied into place.
    InstallIoFailure,
    /// The persisted lock state could not be read or parsed.
    CorruptState,
    /// The lock state could not be persisted.
    StateWriteFailure,
}

} // verus!
