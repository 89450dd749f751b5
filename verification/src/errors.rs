//! The ways a call can fail.

use vstd::prelude::*;

verus! {

/// A value that the host was expected to supply and did not.
#[derive(Clone, Copy, Debug, PartialEq, Eq, Structural)]
pub enum Missing {
    Window,
    ResponseBuilderHeaders,
    FetchResponseHeaders,
    HeaderName,
    HeaderValue,
    ResponseBody,
}

impl Missing {
    /// The characters of [`Missing::message`].
    pub open spec fn text(self) -> Seq<char> {
        match self {
            Missing::Window => "Could not get window"@,
            Missing::ResponseBuilderHeaders => "Could not get headers from response builder"@,
            Missing::FetchResponseHeaders => "Could not get headers from fetch response"@,
            Missing::HeaderName => "Header name is not a string"@,
            Missing::HeaderValue => "Header value is not a string"@,
            Missing::ResponseBody => "Fetch response has no body"@,
        }
    }

    /// The text shown for this absence.
    pub fn message(&self) -> (text: &'static str)
        ensures
            text@ == self.text(),
    {
        match *self {
            Missing::Window => "Could not get window",
            Missing::ResponseBuilderHeaders => "Could not get headers from response builder",
            Missing::FetchResponseHeaders => "Could not get headers from fetch response",
            Missing::HeaderName => "Header name is not a string",
            Missing::HeaderValue => "Header value is not a string",
            Missing::ResponseBody => "Fetch response has no body",
        }
    }
}

/// Why a call failed. Each kind is distinct, so that a caller can tell a
/// body that never carried trailers from a failed fetch or a broken frame.
#[derive(Clone, Copy, Debug, PartialEq, Eq, Structural)]
pub enum ClientError {
    /// The host's dispatch failed; the cause is opaque.
    Transport,
    /// An outbound header value holds a byte that is not visible ASCII.
    HeaderToStrError,
    /// A header name is not a valid HTTP token.
    InvalidHeaderName,
    /// A header value holds a byte that HTTP does not allow.
    InvalidHeaderValue,
    /// The host did not supply a value that was needed.
    UnexpectedOptionNone(Missing),
    /// A payload is longer than the four length bytes of a frame can say.
    TryFromIntError,
    /// The text encoding of a body is broken: a character outside the
    /// alphabet, a misplaced padding, or a length that is no whole number of
    /// groups at the end of the stream.
    Encoding,
    /// A frame follows the terminal frame.
    FrameDecode,
    /// The stream ended in the middle of a frame.
    UnexpectedEof,
    /// The stream ended before a terminal frame.
    MissingTrailers,
    /// The terminal frame's block ends in the middle of a line, or is empty.
    HttpIncompleteParseError,
    /// A line of the terminal frame's block has no colon.
    HttpParseError,
}

impl ClientError {
    /// The characters of [`ClientError::message`].
    pub open spec fn text(self) -> Seq<char> {
        match self {
            ClientError::Transport => "fetch failed"@,
            ClientError::HeaderToStrError => "failed to convert header to a str"@,
            ClientError::InvalidHeaderName => "invalid HTTP header name"@,
            ClientError::InvalidHeaderValue => "failed to parse header value"@,
            ClientError::UnexpectedOptionNone(missing) => missing.text(),
            ClientError::TryFromIntError => "out of range integral type conversion attempted"@,
            ClientError::Encoding => "invalid base64 body"@,
            ClientError::FrameDecode => "frame after trailers"@,
            ClientError::UnexpectedEof => "stream ended inside a frame"@,
            ClientError::MissingTrailers => "stream ended without trailer"@,
            ClientError::HttpIncompleteParseError => "Could not parse the complete HTTP headers"@,
            ClientError::HttpParseError => "invalid trailer line"@,
        }
    }

    /// The text shown for this error.
    pub fn message(&self) -> (text: &'static str)
        ensures
            text@ == self.text(),
    {
        match *self {
            ClientError::Transport => "fetch failed",
            ClientError::HeaderToStrError => "failed to convert header to a str",
            ClientError::InvalidHeaderName => "invalid HTTP header name",
            ClientError::InvalidHeaderValue => "failed to parse header value",
            ClientError::UnexpectedOptionNone(missing) => missing.message(),
            ClientError::TryFromIntError => "out of range integral type conversion attempted",
            ClientError::Encoding => "invalid base64 body",
            ClientError::FrameDecode => "frame after trailers",
            ClientError::UnexpectedEof => "stream ended inside a frame",
            ClientError::MissingTrailers => "stream ended without trailer",
            ClientError::HttpIncompleteParseError => "Could not parse the complete HTTP headers",
            ClientError::HttpParseError => "invalid trailer line",
        }
    }
}

} // verus!
