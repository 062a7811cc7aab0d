//! Error taxonomy: one structural error with a tagged cause, and one parse
//! error. I/O failures stay with the callers that perform I/O.

use vstd::prelude::*;

verus! {

/// Why a manifest is structurally unusable.
#[derive(Clone, Copy, PartialEq, Eq, Structural, Debug)]
pub enum ErrorKind {
    /// The upward search exhausted the directory tree without finding the file.
    NotFound,
    /// A requested dependency table exists but holds a value that is not a table.
    TypeConflict,
    /// Neither "package" nor "project" is present at save time, or a section
    /// to be written out is not a table.
    MissingPrimarySection,
}

/// Catch-all error for a manifest that is missing or incorrectly structured.
#[derive(Clone, Copy, PartialEq, Eq, Structural, Debug)]
pub struct ManifestError {
    pub kind: ErrorKind,
}

impl ManifestError {
    pub fn new(kind: ErrorKind) -> (e: ManifestError)
        ensures
            e.kind == kind,
    {
        ManifestError { kind }
    }

    /// A human-readable account of the failure.
    pub fn description(&self) -> (r: &'static str)
        ensures
            r@ == "Your Cargo.toml is either missing or incorrectly structured."@,
    {
        "Your Cargo.toml is either missing or incorrectly structured."
    }
}

/// The document text is not a well-formed document: the parser stops at the
/// first structural error.
#[derive(Clone, Copy, PartialEq, Eq, Structural, Debug)]
pub struct ParseError;

impl ParseError {
    pub fn description(&self) -> (r: &'static str)
        ensures
            r@ == "The manifest text could not be parsed."@,
    {
        "The manifest text could not be parsed."
    }
}

} // verus!
