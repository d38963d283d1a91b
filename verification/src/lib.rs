//! A minimal HTTP/1.0 static-file server core.
//!
//! The library parses a raw request buffer into a structured [`http::Request`],
//! builds a structured [`http::Response`] from file contents, and serializes
//! the response back to text.  All parsing, header bookkeeping and
//! serialization logic lives here and is verified; the surrounding program
//! (socket handling, file reads) supplies plain strings and forwards the
//! serialized bytes.

pub mod http;
pub mod laws;
pub mod text;

use vstd::prelude::*;

use crate::http::{BuildError, ParseError};

verus! {

/// A failure while serving one connection.
///
/// Only a missing or unreadable file is recovered from (by substituting a
/// fallback page); every other failure is fatal for the connection and no
/// response bytes are produced.
#[derive(Debug, PartialEq, Eq, Structural, Clone, Copy)]
pub enum ServiceError {
    /// The bytes read from the connection were not valid text.
    Encoding,
    /// Reading from or writing to the connection failed.
    TransportIo,
    /// The request buffer could not be parsed; no response is sent.
    Protocol(ParseError),
    /// The fallback page itself could not be built.
    Fallback(BuildError),
}

/// The resource substituted when building a response fails: a missing file is
/// answered with the not-found page, any other read failure with the
/// server-error page.
pub fn fallback_resource(err: &BuildError) -> (r: &'static str)
    ensures
        r@ == (match err {
            BuildError::NotFound => "/404.html"@,
            BuildError::Io => "/500.html"@,
        }),
{
    match err {
        BuildError::NotFound => "/404.html",
        BuildError::Io => "/500.html",
    }
}

/// The status a fallback response carries, so that its status line
/// distinguishes it from a success: a missing file is reported as not found,
/// any other read failure as an internal server error.
pub fn fallback_status(err: &BuildError) -> (r: (u32, &'static str))
    ensures
        match err {
            BuildError::NotFound => r.0 == 404 && r.1@ == "Not Found"@,
            BuildError::Io => r.0 == 500 && r.1@ == "Internal Server Error"@,
        },
{
    match err {
        BuildError::NotFound => (404, "Not Found"),
        BuildError::Io => (500, "Internal Server Error"),
    }
}

} // verus!
