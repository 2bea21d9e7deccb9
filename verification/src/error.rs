//! Errors of every pipeline stage. Backend-specific errors are absorbed as
//! text, so the error type does not depend on any inference runtime.
use vstd::prelude::*;

verus! {

/// std's `std::io::Error`, carried opaque by [`VisionError::Io`]; nothing is
/// assumed about its contents.
#[verifier::external_type_specification]
#[verifier::external_body]
pub struct ExIoError(std::io::Error);

/// Failure of decoding, inference or any other pipeline stage.
#[derive(Debug)]
pub enum VisionError {
    /// Opening or reading a file failed.
    Io(std::io::Error),
    /// An image or video could not be decoded.
    Decode(String),
    /// The inference backend failed to load or run a model.
    Backend(String),
    /// The requested feature is not wired up yet.
    NotWired(&'static str),
    /// The input is outside what is supported.
    Unsupported(String),
}

impl VisionError {
    /// A backend error carrying `detail`.
    pub fn backend(detail: String) -> (e: Self)
        ensures
            e matches VisionError::Backend(d) && d@ == detail@,
    {
        VisionError::Backend(detail)
    }

    /// A decode error carrying `detail`.
    pub fn decode(detail: String) -> (e: Self)
        ensures
            e matches VisionError::Decode(d) && d@ == detail@,
    {
        VisionError::Decode(detail)
    }
}

/// The text of an I/O error, by std's `Display` of `std::io::Error`
/// (through `ToString::to_string`). Trusted, and nothing is stated of the
/// text: it comes from the operating system's description of the error.
#[verifier::external_body]
fn io_error_text(e: &std::io::Error) -> (text: String) {
    e.to_string()
}

impl VisionError {
    /// The message shown for the error: a prefix naming the stage, then the
    /// detail; an I/O error shows the I/O error's own text.
    pub fn message(&self) -> (m: String)
        ensures
            self matches VisionError::Decode(d) ==> m@ == "decode error: "@ + d@,
            self matches VisionError::Backend(d) ==> m@ == "backend error: "@ + d@,
            self matches VisionError::NotWired(d) ==> m@ == "not wired yet: "@ + d@,
            self matches VisionError::Unsupported(d) ==> m@ == "unsupported: "@ + d@,
    {
        match self {
            VisionError::Io(e) => io_error_text(e),
            VisionError::Decode(d) => {
                let mut m = String::from_str("decode error: ");
                m.append(d.as_str());
                m
            },
            VisionError::Backend(d) => {
                let mut m = String::from_str("backend error: ");
                m.append(d.as_str());
                m
            },
            VisionError::NotWired(d) => {
                let mut m = String::from_str("not wired yet: ");
                m.append(d);
                m
            },
            VisionError::Unsupported(d) => {
                let mut m = String::from_str("unsupported: ");
                m.append(d.as_str());
                m
            },
        }
    }
}

/// Earlier name of [`VisionError`].
pub type OcrError = VisionError;

/// Result of pipeline operations.
pub type Result<T> = std::result::Result<T, VisionError>;

} // verus!
