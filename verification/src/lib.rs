//! EC: a click controller for Linux. This crate holds its verified logic:
//! the deadline-driven click scheduler, command-line and configuration
//! parsing, the runtime status record, device classification and the
//! readiness rules. Device, file and process access live in the program
//! around it.
pub mod cli;
pub mod click;
pub mod config;
pub mod doctor;
pub mod input;
pub mod runtime;
pub mod setup;
pub mod text;

use vstd::prelude::*;

verus! {

/// Declares `std::io::Error` so that results of I/O can be carried through
/// verified code. Nothing about its contents is known here.
#[verifier::external_type_specification]
#[verifier::external_body]
pub struct ExIoError(std::io::Error);

/// The library's error: a message for the user, or a failed I/O operation
/// on a named path.
#[derive(Debug)]
pub enum Error {
    Message(String),
    Io { operation: &'static str, path: String, source: std::io::Error },
}

impl Error {
    /// Whether this is a message error whose text is `text`.
    pub open spec fn is_message(self, text: Seq<char>) -> bool {
        match self {
            Error::Message(s) => s@ == text,
            _ => false,
        }
    }
}

/// The error for a failed I/O operation on `path`, which is shown in its
/// display form.
pub fn io_failure(operation: &'static str, path: &[u8], source: std::io::Error) -> (e: Error)
    ensures
        e matches Error::Io { operation: o, path: p, .. } && o == operation && p@
            == text::lossy_text(path@),
{
    Error::Io { operation, path: text::display_bytes(path), source }
}

/// Builds `Error::Message` from a string literal.
pub fn message(text: &str) -> (e: Error)
    ensures
        e.is_message(text@),
{
    Error::Message(String::from_str(text))
}

} // verus!
