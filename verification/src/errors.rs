//! Error taxonomy of the mutation engine.

use vstd::prelude::*;

verus! {

/// Failures a mutation can surface.
///
/// - `Io`: an object write or read failed; surfaced immediately, the whole
///   mutation is the caller's to retry.
/// - `MultipleMatch`: the on-conflict key matched one source row to more
///   than one target row (or two source rows to one target row); a semantic
///   error, never retried.
/// - `ConflictingOperation`: two folded operations were logically
///   incompatible (for example a replacement of a row another partition
///   deleted); an internal-consistency failure, never expected under
///   correct partitioning.
/// - `MaxRetriesExceeded`: the bounded commit retry budget ran out.
/// - `Aborted`: a concurrent commit touched an overlapping block set; the
///   mutation fails with no partial state visible.
#[derive(Clone, Copy, Debug, PartialEq, Eq, Structural)]
pub enum MutationError {
    Io,
    MultipleMatch,
    ConflictingOperation,
    MaxRetriesExceeded,
    Aborted,
}

impl MutationError {
    /// A short human-readable name for the error.
    pub fn describe(&self) -> (r: &'static str)
        ensures
            r@ == self.describe_spec(),
    {
        match self {
            MutationError::Io => "storage i/o failure",
            MutationError::MultipleMatch => "multiple rows matched under the on-conflict key",
            MutationError::ConflictingOperation => "conflicting block operations",
            MutationError::MaxRetriesExceeded => "commit retry budget exceeded",
            MutationError::Aborted => "aborted: concurrent commit touched an overlapping block set",
        }
    }

    pub open spec fn describe_spec(&self) -> Seq<char> {
        match self {
            MutationError::Io => "storage i/o failure"@,
            MutationError::MultipleMatch => "multiple rows matched under the on-conflict key"@,
            MutationError::ConflictingOperation => "conflicting block operations"@,
            MutationError::MaxRetriesExceeded => "commit retry budget exceeded"@,
            MutationError::Aborted => "aborted: concurrent commit touched an overlapping block set"@,
        }
    }
}

} // verus!
