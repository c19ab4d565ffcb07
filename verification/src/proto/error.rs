//! WebSocket protocol error type.
use vstd::prelude::*;

verus! {

/// Error encountered on protocol violations by the other end of the connection.
#[derive(Debug, Clone, Copy, PartialEq, Eq, Structural)]
#[non_exhaustive]
pub enum ProtocolError {
    /// A fragmented control frame was received.
    FragmentedControlFrame,
    /// An invalid close code has been received.
    InvalidCloseCode,
    /// An invalid opcode was received.
    InvalidOpcode,
    /// An invalid payload length was received.
    InvalidPayloadLength,
    /// An invalid RSV was received. This is used by extensions, which are
    /// currently unsupported.
    InvalidRsv,
    /// An invalid UTF-8 segment was received when valid UTF-8 was expected.
    InvalidUtf8,
    /// A masked frame was unexpectedly received.
    UnexpectedMaskedFrame,
    /// An unmasked frame was unexpectedly received.
    UnexpectedUnmaskedFrame,
}

/// The human-readable description of each protocol error.
pub open spec fn protocol_error_text(e: ProtocolError) -> &'static str {
    match e {
        ProtocolError::FragmentedControlFrame => "fragmented control frame",
        ProtocolError::InvalidCloseCode => "invalid close code",
        ProtocolError::InvalidOpcode => "invalid opcode",
        ProtocolError::InvalidPayloadLength => "invalid payload length",
        ProtocolError::InvalidRsv => "invalid extension",
        ProtocolError::InvalidUtf8 => "invalid utf-8",
        ProtocolError::UnexpectedMaskedFrame => "unexpected masked frame",
        ProtocolError::UnexpectedUnmaskedFrame => "unexpected unmasked frame",
    }
}

impl ProtocolError {
    /// Stringify this variant.
    pub fn as_str(&self) -> (r: &'static str)
        ensures
            r@ == protocol_error_text(*self)@,
    {
        match self {
            Self::FragmentedControlFrame => "fragmented control frame",
            Self::InvalidCloseCode => "invalid close code",
            Self::InvalidOpcode => "invalid opcode",
            Self::InvalidPayloadLength => "invalid payload length",
            Self::InvalidRsv => "invalid extension",
            Self::InvalidUtf8 => "invalid utf-8",
            Self::UnexpectedMaskedFrame => "unexpected masked frame",
            Self::UnexpectedUnmaskedFrame => "unexpected unmasked frame",
        }
    }
}

} // verus!
