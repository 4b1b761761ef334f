//! A minimal document-fetching client: URL resolution, HTTP/1.1 request
//! serialization, strict response parsing, named-character-reference decoding,
//! and tag-stripping body rendering. The byte-level network exchange itself is
//! left to the embedding program; everything here is pure computation.

use vstd::prelude::*;

pub mod entity;
pub mod render;
pub mod request;
pub mod response;
pub mod text;
pub mod url;

verus! {

/// A fault in what the caller handed to the client: such inputs are rejected
/// outright, never retried or repaired.
#[derive(Clone, Copy, Debug, PartialEq, Eq, Structural)]
pub enum ConfigError {
    /// The port component of a URL is not a decimal 16-bit unsigned integer.
    InvalidPort,
    /// A line of the entity-definition source carries no entity name.
    MissingEntityName,
}

/// A failure of the byte-level exchange. The library itself performs no I/O;
/// these variants exist so the embedding program can report transport
/// failures in the same taxonomy as the library's own errors.
#[derive(Clone, Copy, Debug, PartialEq, Eq, Structural)]
pub enum TransportError {
    /// The host name did not resolve to a socket address.
    Resolve,
    /// No connection could be established.
    Connect,
    /// The TLS handshake over the established connection failed.
    TlsHandshake,
    /// Writing the request or reading the response failed.
    Io,
}

/// A response that does not satisfy the narrow protocol surface this client
/// accepts. Such responses are rejected rather than repaired.
#[derive(Clone, Copy, Debug, PartialEq, Eq, Structural)]
pub enum ProtocolError {
    /// The response is empty: there is no status line at all.
    MissingStatus,
    /// The status line holds no token for the protocol version.
    MissingVersion,
    /// The status line ends after the version: there is no status code.
    MissingStatusCode,
    /// The status code token is not a decimal 16-bit unsigned integer.
    InvalidStatusCode,
    /// The status line ends after the status code: there is no reason phrase.
    MissingExplanation,
    /// The response declares a `Transfer-Encoding`, which is unsupported.
    UnsupportedTransferEncoding,
    /// The response declares a `Content-Encoding`, which is unsupported.
    UnsupportedContentEncoding,
}

/// Every failure the fetch pipeline can report, by the stage that raised it.
/// None of these is retried or silently swallowed.
#[derive(Clone, Copy, Debug, PartialEq, Eq, Structural)]
pub enum FetchError {
    Config(ConfigError),
    Transport(TransportError),
    Protocol(ProtocolError),
}

} // verus!
