//! Guest-observable outcomes that are not plain booleans.
//!
//! Recoverable host failures (a missing file, a directory in the way) never
//! surface here: they translate to a `false` result at the facade boundary.
//! What does surface is the unsupported-feature signal: configuration errors
//! and unimplemented failure paths must abort the call loudly rather than
//! return a wrong answer quietly, and they do so as an explicit value that
//! the guest boundary turns into a fatal error.

use vstd::prelude::*;

verus! {

/// An unsupported-feature signal, by cause.
#[derive(PartialEq, Eq, Structural, Clone, Copy, Debug)]
pub enum Unsupported {
    /// A search-path domain mask other than the single supported user domain,
    /// or a request for an un-expanded tilde path.
    Configuration,
    /// A search-path directory identifier outside the supported table.
    Directory,
    /// A non-absent attributes payload.
    Attributes,
    /// A directory-creation request without intermediate directories.
    Intermediates,
    /// A failure should be reported through a requested error out-parameter,
    /// but constructing a structured error object is unimplemented.
    ErrorObject,
    /// A failing copy cannot report its failure yet.
    CopyFailure,
}

/// The attributes of a stored item: at least its size in bytes. A missing or
/// unreadable item reports size 0 without signalling failure.
#[derive(PartialEq, Eq, Structural, Clone, Copy, Debug)]
pub struct FileAttributes {
    pub file_size: u64,
}

} // verus!
