//! General error type used in the crate.
use vstd::prelude::*;

use crate::proto::ProtocolError;

verus! {

/// An I/O error of the standard library, carried through opaquely.
#[verifier::external_type_specification]
#[verifier::external_body]
pub struct ExIoError(std::io::Error);

/// Generic error when using WebSockets with this crate.
#[derive(Debug)]
#[non_exhaustive]
pub enum Error {
    /// Attempted to read from or write to a closed stream.
    AlreadyClosed,
    /// DNS lookup failed.
    CannotResolveHost,
    /// Attempted to connect a client to a remote without configured URI.
    NoUriConfigured,
    /// The URI does not use the `ws` or `wss` scheme.
    UnsupportedScheme,
    /// Attempted to add a header that the library sets itself.
    DisallowedHeader,
    /// WebSocket protocol violation.
    Protocol(ProtocolError),
    /// Payload length limit was exceeded.
    PayloadTooLong { len: usize, max_len: usize },
    /// I/O error.
    Io(std::io::Error),
    /// The HTTP/1.1 Upgrade failed.
    Upgrade(crate::upgrade::Error),
}

} // verus!
