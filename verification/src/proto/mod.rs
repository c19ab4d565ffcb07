//! A correct and complete implementation of RFC 6455: frame header encoding
//! and decoding, message assembly and the connection state machine.
pub use self::error::ProtocolError;

pub mod codec;
pub mod error;
pub mod queue;
pub mod stream;
pub mod types;

pub use self::codec::WebSocketProtocol;
pub use self::queue::{EncodedFrame, FrameQueue};
pub use self::stream::{Connection, ConnectionView, ReadGate};
pub use self::types::{
    extend_bytes, CloseCode, Config, Frame, Limits, Message, OpCode, Payload, Role, StreamState,
};
