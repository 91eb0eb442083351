//! The error type used throughout the public API.

use vstd::prelude::*;

verus! {

/// `std::io::Error` is carried inside [`LayouterError`] so that callers that
/// persist a rendered document can hand any I/O failure back through the
/// library's own error type.  The type is opaque here; the library never
/// inspects it.
#[verifier::external_type_specification]
#[verifier::external_body]
pub struct ExIoError(std::io::Error);

/// The error type of the public API.
///
/// It either carries a plain description (configuration errors, rejected
/// tree edits) or wraps an I/O error raised while writing a rendered
/// document.
#[derive(Debug)]
pub struct LayouterError {
    /// A human readable description of the error.
    pub description: String,
    /// The wrapped I/O error, if any.
    pub io_error: Option<std::io::Error>,
}

impl LayouterError {
    /// Creates an error from a plain description.
    pub fn from_description(description: String) -> (r: Self)
        ensures
            r.description@ == description@,
            r.io_error is None,
    {
        Self { description, io_error: None }
    }

    /// Creates an error wrapping an I/O error.
    pub fn from_io_error(io_error: std::io::Error) -> (r: Self)
        ensures
            r.description@ == "IoError"@,
            r.io_error is Some,
    {
        Self { description: "IoError".to_owned(), io_error: Some(io_error) }
    }

    /// The error's description text.
    pub fn message(&self) -> (r: String)
        ensures
            r@ == self.description@,
    {
        self.description.clone()
    }
}

/// The `Result` type used within the public API.
pub type Result<T> = std::result::Result<T, LayouterError>;

} // verus!
