//! Errors of the parser and of the builder.

use vstd::prelude::*;

use crate::headers::HeaderSyntaxError;

verus! {

/// Whether an error reports a malformed value or a misuse at run time.
#[derive(Debug, Clone, Copy, PartialEq, Eq)]
pub enum ErrorKind {
    /// The input or an argument is malformed.
    Value,
    /// The operation cannot proceed in the current state or configuration.
    Runtime,
}

/// Errors of the multipart parser.
#[derive(Debug, Clone, Copy, PartialEq, Eq)]
pub enum MultipartError {
    /// The boundary is empty or longer than 70 bytes.
    BoundaryLength,
    /// A header charset other than `utf8` was asked for.
    UnsupportedCharset,
    /// The data fed so far exceeds the maximum size.
    MaxSizeExceeded,
    /// A header line has no `:`.
    MalformedHeader,
    /// A header name is not valid UTF-8.
    InvalidHeaderName,
    /// A header value is not valid UTF-8.
    InvalidHeaderValue,
    /// A header name is empty.
    MissingHeaderName,
    /// A header line ends with a line feed that no carriage return precedes.
    InvalidHeaderLineBreak,
    /// A delimiter line ends with a line feed that no carriage return precedes.
    InvalidDelimiterLineBreak,
    /// A `Content-Type` or `Content-Disposition` value is malformed.
    HeaderSyntax(HeaderSyntaxError),
    /// A part has no `Content-Disposition` header.
    MissingContentDisposition,
    /// A part's disposition is not `form-data`.
    InvalidContentDisposition,
    /// A part's `Content-Disposition` has no `name` parameter.
    MissingNameParameter,
    /// The input ended before the closing delimiter.
    IncompleteMessage,
    /// A header line is longer than the limit.
    HeaderTooLong,
    /// A part has more header lines than the limit.
    TooManyHeaders,
}

impl MultipartError {
    /// The kind of this error.
    pub fn kind(&self) -> (r: ErrorKind)
        ensures
            r == (match *self {
                MultipartError::UnsupportedCharset | MultipartError::MaxSizeExceeded => ErrorKind::Runtime,
                _ => ErrorKind::Value,
            }),
    {
        match self {
            MultipartError::UnsupportedCharset | MultipartError::MaxSizeExceeded => ErrorKind::Runtime,
            _ => ErrorKind::Value,
        }
    }
}

/// Errors of the multipart builder.
#[derive(Debug, Clone, Copy, PartialEq, Eq)]
pub enum BuilderError {
    /// The boundary is empty or longer than 70 bytes.
    BoundaryLength,
    /// The boundary holds a byte that RFC 2046 does not allow, or ends with a space.
    BoundaryCharacters,
    /// `build` was already called.
    AlreadyFinished,
    /// A header name is empty.
    MissingHeaderName,
    /// A header name holds `:`, a carriage return or a line feed.
    InvalidHeaderNameCharacter,
    /// A header value holds a carriage return or a line feed.
    InvalidHeaderValueLineBreak,
    /// The system's random number source failed while choosing a boundary.
    RandomnessUnavailable,
}

impl BuilderError {
    /// The kind of this error.
    pub fn kind(&self) -> (r: ErrorKind)
        ensures
            r == (match *self {
                BuilderError::AlreadyFinished | BuilderError::RandomnessUnavailable => ErrorKind::Runtime,
                _ => ErrorKind::Value,
            }),
    {
        match self {
            BuilderError::AlreadyFinished | BuilderError::RandomnessUnavailable => ErrorKind::Runtime,
            _ => ErrorKind::Value,
        }
    }
}

} // verus!
