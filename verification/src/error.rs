//! Why extraction fails.
use vstd::prelude::*;

verus! {

/// A failure to read a file: `std::io::Error`.
#[verifier::external_type_specification]
#[verifier::external_body]
pub struct ExIoError(std::io::Error);

/// Why extraction fails.
#[derive(Debug)]
pub enum LiteParseError {
    /// The file could not be read.
    Io(std::io::Error),
    /// The document could not be opened.
    Pdf(String),
    /// Anything else.
    Other(String),
}

} // verus!
