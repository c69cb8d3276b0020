//! The fatal conditions of a run. Each aborts the run; the surrounding
//! application converts one into an exit code and a message. Network and
//! parse failures happen at the application's edge and never reach the
//! library. Duplicate package ids and unknown dependency ids are not fatal:
//! the index and the resolver report them as data.

use vstd::prelude::*;

verus! {

/// A condition that aborts the whole run.
#[derive(Clone, Copy, Debug, PartialEq, Eq, Structural)]
pub enum FatalError {
    /// The channel document lacks the expected manifest id, or that
    /// manifest's payloads lack the fixed catalog file name.
    MissingManifestEntry,
    /// No catalog package id matches the requested toolchain version.
    NoMatchingToolchain,
    /// Two payloads of one resolved set share a file name; downloading would
    /// silently overwrite one with the other.
    DuplicatePayloadName,
    /// A payload's bytes do not match its declared digest after a fetch or
    /// during post-verification.
    IntegrityError,
}

} // verus!
