//! Error taxonomy of the library.
//!
//! Validation failures carry every violated rule at once, so a caller can
//! report all problems in a single response.

use vstd::prelude::*;

verus! {

/// One violated rule of a configuration or a stored record.
#[derive(Clone, Copy, PartialEq, Eq, Structural, Debug)]
pub enum ValidationError {
    /// The requested output length lies outside `1..=64`.
    InvalidTargetLength,
    /// The domain is empty (after trimming, where trimming applies).
    EmptyDomain,
    /// The passphrase is empty (after trimming, where trimming applies).
    EmptyPassword,
    /// The username is empty (after trimming, where trimming applies).
    EmptyUsername,
    /// The charset expression is empty.
    EmptyCharset,
    /// The charset expression is not empty but does not parse.
    InvalidCharset,
    /// The record name is empty.
    EmptyName,
    /// The algorithm tag stored on a record is empty.
    EmptyVersion,
}

/// Every failure the library can report.
#[derive(Debug)]
pub enum Error {
    /// The derived byte string had an unusable length.
    InvalidHashOutput,
    /// A charset range is malformed, crosses classes, or decreases.
    ParserInvalidRange,
    /// An input was structurally unusable (for example an empty charset
    /// expression handed directly to the parser).
    InvalidInput,
    /// A storage-level failure, such as a duplicate unique name.
    DatabaseError(String),
    /// An unrecognized algorithm tag.
    InvalidHashFuncVersion,
    /// A failure while rendering the JSON output encoding.
    InvalidJsonError(String),
    /// A failure while rendering the QR output encoding.
    InvalidQrError(String),
    /// One or more validation rules were violated; all of them are listed.
    ValidationError(Vec<ValidationError>),
    /// A structurally invalid archive, a missing manifest, or an archive
    /// I/O failure.
    BackupError(String),
}

} // verus!
