//! The errors that building, sending and redirecting a request can end in.
use vstd::prelude::*;

verus! {

/// Everything that can go wrong while building, sending or following a
/// request.
#[derive(Clone, Debug, PartialEq, Eq)]
pub enum Error {
    /// The URL does not start with `http://` or `https://`.
    InvalidProtocol,
    /// A redirect pointed at an absolute URL whose protocol is neither
    /// `http://` nor `https://`.
    InvalidProtocolInRedirect,
    /// The server asked for a redirect but sent no `location` header.
    RedirectLocationMissing,
    /// More redirects were followed than the request allows.
    TooManyRedirections,
    /// A redirect led back to a URL that was already visited.
    InfiniteRedirectionLoop,
    /// A host label could not be converted to punycode.
    PunycodeConversionFailed,
    /// The request's deadline passed.
    RequestTimedOut,
    /// No address could be resolved for the host.
    AddressNotFound,
    /// The response's headers grew past the configured cap.
    HeadersOverflow,
    /// The response's status line grew past the configured cap.
    StatusLineOverflow,
    /// The response's status line could not be understood.
    InvalidStatusLine,
    /// A chunk-size line of a chunked body is too long or not a
    /// hexadecimal number.
    MalformedChunkLength,
    /// A chunk of a chunked body is not followed by a line ending.
    MalformedChunkEnd,
    /// A line of the response head is not valid UTF-8.
    InvalidUtf8InResponse,
    /// Reading from or writing to the stream failed, with the reason.
    StreamReadError(String),
    /// Some other failure, described in words.
    Other(String),
}

} // verus!
