//! The failures that request parsing can signal. Every failure is terminal
//! for its connection; none is ever retried.

use vstd::prelude::*;

verus! {

/// Why a request could not be parsed.
#[derive(Clone, Copy, Debug, PartialEq, Eq, Structural)]
pub enum ParseError {
    /// The request line was not three whitespace-separated tokens, or its
    /// target was not valid UTF-8.
    MalformedRequestLine,
    /// The method token was none of GET, POST, PUT, DELETE.
    InvalidMethod,
    /// The version token was not `HTTP/1.1`.
    UnsupportedHttpVersion,
    /// A header line lacked a colon, had a field name outside the token
    /// character set, a space before the colon, or a value that was not
    /// valid UTF-8.
    MalformedHeader,
    /// The Content-Length value was not a non-negative integer that fits
    /// the machine.
    MalformedContentLength,
    /// A header or request line kept growing past the read buffer's
    /// capacity, so the parse can never advance.
    LineTooLong,
}

impl ParseError {
    /// A short description for diagnostics.
    pub fn message(&self) -> (r: &'static str)
        ensures
            match self {
                ParseError::MalformedRequestLine => r@ == "Malformed Request Line"@,
                ParseError::InvalidMethod => r@ == "Invalid Request Method"@,
                ParseError::UnsupportedHttpVersion => r@ == "Unsupported HTTP Version"@,
                ParseError::MalformedHeader => r@ == "Malformed Header"@,
                ParseError::MalformedContentLength => r@ == "Malformed Content-Length Header"@,
                ParseError::LineTooLong => r@ == "Line Too Long"@,
            },
    {
        match self {
            ParseError::MalformedRequestLine => "Malformed Request Line",
            ParseError::InvalidMethod => "Invalid Request Method",
            ParseError::UnsupportedHttpVersion => "Unsupported HTTP Version",
            ParseError::MalformedHeader => "Malformed Header",
            ParseError::MalformedContentLength => "Malformed Content-Length Header",
            ParseError::LineTooLong => "Line Too Long",
        }
    }
}

} // verus!
