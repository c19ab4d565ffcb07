//! A strict WebSocket (RFC 6455) protocol library: frame (un)masking, UTF-8
//! validation, frame header encoding and decoding, message assembly and the
//! connection state machine, the HTTP/1.1 upgrade handshake and the
//! `Sec-WebSocket-Extensions` header grammar.
pub mod client;
pub mod encoding;
pub mod error;
pub mod extensions;
pub mod mask;
pub mod proto;
pub mod rand;
pub mod server;
pub mod sha;
pub mod upgrade;
pub mod utf8;
pub use error::Error;
