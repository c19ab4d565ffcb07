//! Types required for the WebSocket protocol implementation.
use vstd::prelude::*;
use vstd::utf8::*;
use vstd::string::*;

use super::error::ProtocolError;
use crate::utf8;

verus! {

broadcast use vstd::seq_lib::group_seq_properties;

/// The opcode of a WebSocket frame. It denotes the type of the frame or an
/// assembled message.
///
/// A fully assembled [`Message`] will never have a continuation opcode.
#[derive(Debug, PartialEq, Eq, Clone, Copy, Structural)]
pub enum OpCode {
    /// A continuation opcode. This will never be encountered in a full
    /// [`Message`].
    Continuation,
    /// A text opcode.
    Text,
    /// A binary opcode.
    Binary,
    /// A close opcode.
    Close,
    /// A ping opcode.
    Ping,
    /// A pong opcode.
    Pong,
}

/// Whether an opcode is that of a control frame (close, ping or pong).
pub open spec fn is_control_opcode(op: OpCode) -> bool {
    op == OpCode::Close || op == OpCode::Ping || op == OpCode::Pong
}

/// The four-bit wire value of an opcode.
pub open spec fn opcode_value(op: OpCode) -> u8 {
    match op {
        OpCode::Continuation => 0,
        OpCode::Text => 1,
        OpCode::Binary => 2,
        OpCode::Close => 8,
        OpCode::Ping => 9,
        OpCode::Pong => 10,
    }
}

/// The opcode with the given wire value, if there is one.
pub open spec fn opcode_of(value: u8) -> Option<OpCode> {
    if value == 0 {
        Some(OpCode::Continuation)
    } else if value == 1 {
        Some(OpCode::Text)
    } else if value == 2 {
        Some(OpCode::Binary)
    } else if value == 8 {
        Some(OpCode::Close)
    } else if value == 9 {
        Some(OpCode::Ping)
    } else if value == 10 {
        Some(OpCode::Pong)
    } else {
        None
    }
}

impl OpCode {
    /// Whether this is a control opcode (i.e. close, ping or pong).
    pub fn is_control(self) -> (r: bool)
        ensures
            r == is_control_opcode(self),
    {
        match self {
            Self::Close | Self::Ping | Self::Pong => true,
            _ => false,
        }
    }

    /// The opcode with the given wire value.
    ///
    /// # Errors
    ///
    /// Returns [`ProtocolError::InvalidOpcode`] for values that are no opcode.
    pub fn from_u8(value: u8) -> (r: Result<Self, ProtocolError>)
        ensures
            r matches Ok(op) ==> opcode_of(value) == Some(op),
            r is Err ==> opcode_of(value) is None && r == Err::<Self, _>(
                ProtocolError::InvalidOpcode,
            ),
    {
        match value {
            0 => Ok(Self::Continuation),
            1 => Ok(Self::Text),
            2 => Ok(Self::Binary),
            8 => Ok(Self::Close),
            9 => Ok(Self::Ping),
            10 => Ok(Self::Pong),
            _ => Err(ProtocolError::InvalidOpcode),
        }
    }

    /// The wire value of this opcode.
    pub fn as_u8(self) -> (r: u8)
        ensures
            r == opcode_value(self),
    {
        match self {
            Self::Continuation => 0,
            Self::Text => 1,
            Self::Binary => 2,
            Self::Close => 8,
            Self::Ping => 9,
            Self::Pong => 10,
        }
    }
}

/// Every opcode is found again from its wire value.
pub proof fn lemma_opcode_roundtrip(op: OpCode)
    ensures
        opcode_of(opcode_value(op)) == Some(op),
        opcode_value(op) < 16,
{
}

/// Close codes that can be received or sent at all.
pub open spec fn valid_close_code(code: u16) -> bool {
    (1000 <= code <= 1015) || (3000 <= code <= 4999)
}

/// Close codes that may not be sent over the wire.
pub open spec fn reserved_close_code(code: u16) -> bool {
    code == 1004 || code == 1005 || code == 1006 || code == 1015
}

/// Close status code.
#[derive(Clone, Copy, Debug, Eq, PartialEq, Structural)]
pub struct CloseCode(u16);

impl View for CloseCode {
    type V = u16;

    closed spec fn view(&self) -> u16 {
        self.0
    }
}

impl CloseCode {
    /// Only valid close codes can be held.
    #[verifier::type_invariant]
    closed spec fn inv(self) -> bool {
        valid_close_code(self.0)
    }

    /// Normal closure, meaning that the purpose for which the connection was
    /// established has been fulfilled.
    pub fn normal_closure() -> (r: Self)
        ensures
            r@ == 1000,
    {
        Self(1000)
    }

    /// Endpoint is "going away", such as a server going down or a browser
    /// having navigated away from a page.
    pub fn going_away() -> (r: Self)
        ensures
            r@ == 1001,
    {
        Self(1001)
    }

    /// Endpoint is terminating the connection due to a protocol error.
    pub fn protocol_error() -> (r: Self)
        ensures
            r@ == 1002,
    {
        Self(1002)
    }

    /// Endpoint is terminating the connection because it has received a type of
    /// data it cannot accept.
    pub fn unsupported_data() -> (r: Self)
        ensures
            r@ == 1003,
    {
        Self(1003)
    }

    /// No status code was actually present.
    pub fn no_status_received() -> (r: Self)
        ensures
            r@ == 1005,
    {
        Self(1005)
    }

    /// Endpoint is terminating the connection because it has received data
    /// within a message that was not consistent with the type of the message.
    pub fn invalid_frame_payload_data() -> (r: Self)
        ensures
            r@ == 1007,
    {
        Self(1007)
    }

    /// Endpoint is terminating the connection because it has received a message
    /// that violates its policy.
    pub fn policy_violation() -> (r: Self)
        ensures
            r@ == 1008,
    {
        Self(1008)
    }

    /// Endpoint is terminating the connection because it has received a message
    /// that is too big for it to process.
    pub fn message_too_big() -> (r: Self)
        ensures
            r@ == 1009,
    {
        Self(1009)
    }

    /// Client is terminating the connection because it has expected the server
    /// to negotiate one or more extension, but the server didn't return them in
    /// the response message of the WebSocket handshake.
    pub fn mandatory_extension() -> (r: Self)
        ensures
            r@ == 1010,
    {
        Self(1010)
    }

    /// Server is terminating the connection because it encountered an
    /// unexpected condition that prevented it from fulfilling the request.
    pub fn internal_server_error() -> (r: Self)
        ensures
            r@ == 1011,
    {
        Self(1011)
    }

    /// Service is restarted. A client may reconnect, and if it choses to do,
    /// should reconnect using a randomized delay of 5--30s.
    pub fn service_restart() -> (r: Self)
        ensures
            r@ == 1012,
    {
        Self(1012)
    }

    /// Service is experiencing overload. A client should only connect to a
    /// different IP (when there are multiple for the target) or reconnect to
    /// the same IP upon user action.
    pub fn service_overload() -> (r: Self)
        ensures
            r@ == 1013,
    {
        Self(1013)
    }

    /// The server was acting as a gateway or proxy and received an invalid
    /// response from the upstream server. This is similar to the HTTP 502
    /// status code.
    pub fn bad_gateway() -> (r: Self)
        ensures
            r@ == 1014,
    {
        Self(1014)
    }


    /// Whether the close code is reserved and cannot be sent over the wire.
    pub fn is_reserved(self) -> (r: bool)
        ensures
            r == reserved_close_code(self@),
    {
        let v = self.0;
        v == 1004 || v == 1005 || v == 1006 || v == 1015
    }

    /// The numeric value of the close code.
    pub fn as_u16(self) -> (r: u16)
        ensures
            r == self@,
            valid_close_code(r),
    {
        proof {
            use_type_invariant(self);
        }
        self.0
    }

    /// The close code with the given numeric value.
    ///
    /// # Errors
    ///
    /// Returns [`ProtocolError::InvalidCloseCode`] when the value is no valid
    /// close code, i.e. outside of 1000 to 1015 and 3000 to 4999.
    pub fn from_u16(value: u16) -> (r: Result<Self, ProtocolError>)
        ensures
            r is Ok <==> valid_close_code(value),
            r matches Ok(c) ==> c@ == value,
            r matches Err(e) ==> e == ProtocolError::InvalidCloseCode,
    {
        if (1000 <= value && value <= 1015) || (3000 <= value && value <= 4999) {
            Ok(Self(value))
        } else {
            Err(ProtocolError::InvalidCloseCode)
        }
    }
}


/// The two bytes of `v` in network (big-endian) order.
pub open spec fn u16_be_bytes(v: u16) -> Seq<u8> {
    seq![(v / 256) as u8, (v % 256) as u8]
}

/// The number whose big-endian bytes are `hi` and `lo`.
pub open spec fn be_u16(hi: u8, lo: u8) -> u16 {
    (hi as int * 256 + lo as int) as u16
}

/// The payload of a close message with the given code and reason: empty
/// without a code, otherwise the code followed by the reason.
pub open spec fn close_payload(code: Option<u16>, reason: Seq<u8>) -> Seq<u8> {
    match code {
        Some(c) => u16_be_bytes(c) + reason,
        None => Seq::empty(),
    }
}

/// A close payload as the protocol allows it: empty, or a close code that may
/// be sent followed by a UTF-8 reason.
pub open spec fn valid_close_payload(p: Seq<u8>) -> bool {
    p.len() == 0 || (p.len() >= 2 && valid_close_code(be_u16(p[0], p[1])) && !reserved_close_code(
        be_u16(p[0], p[1]),
    ) && valid_utf8(p.skip(2)))
}

/// What an assembled message may hold: never a continuation opcode; control
/// messages carry at most 125 bytes, close messages a valid close payload.
pub open spec fn valid_message(opcode: OpCode, p: Seq<u8>) -> bool {
    &&& opcode != OpCode::Continuation
    &&& (is_control_opcode(opcode) ==> p.len() <= 125)
    &&& (opcode == OpCode::Close ==> valid_close_payload(p))
}

/// The websocket message payload storage.
#[derive(Debug)]
pub struct Payload {
    /// The raw payload data.
    data: Vec<u8>,
}

impl View for Payload {
    type V = Seq<u8>;

    closed spec fn view(&self) -> Seq<u8> {
        self.data@
    }
}

impl Payload {
    /// Creates a payload that owns the given bytes.
    pub fn from_vec(value: Vec<u8>) -> (r: Self)
        ensures
            r@ == value@,
    {
        Self { data: value }
    }

    /// Creates a payload from a string.
    pub fn from_string(value: String) -> (r: Self)
        ensures
            r@ == encode_utf8(value@),
            valid_utf8(r@),
    {
        let bytes = value.as_str().as_bytes();
        proof {
            encode_utf8_valid_utf8(value@);
        }
        Self { data: vstd::slice::slice_to_vec(bytes) }
    }

    /// Creates a payload from a string slice.
    pub fn from_str(value: &str) -> (r: Self)
        ensures
            r@ == value.spec_bytes(),
            valid_utf8(r@),
    {
        proof {
            encode_utf8_valid_utf8(value@);
        }
        Self { data: vstd::slice::slice_to_vec(value.as_bytes()) }
    }

    /// Creates a payload from a byte slice.
    pub fn from_slice(value: &[u8]) -> (r: Self)
        ensures
            r@ == value@,
    {
        Self { data: vstd::slice::slice_to_vec(value) }
    }

    /// The number of payload bytes.
    pub fn len(&self) -> (r: usize)
        ensures
            r == self@.len(),
    {
        self.data.len()
    }

    /// Whether the payload holds no bytes.
    pub fn is_empty(&self) -> (r: bool)
        ensures
            r == (self@.len() == 0),
    {
        self.data.len() == 0
    }

    /// The payload bytes.
    pub fn as_slice(&self) -> (r: &[u8])
        ensures
            r@ == self@,
    {
        self.data.as_slice()
    }

    /// Consumes the payload, giving back its bytes.
    pub fn into_vec(self) -> (r: Vec<u8>)
        ensures
            r@ == self@,
    {
        self.data
    }

    /// Appends bytes to the payload.
    pub fn extend_from_slice(&mut self, bytes: &[u8])
        ensures
            final(self)@ == old(self)@ + bytes@,
    {
        extend_bytes(&mut self.data, bytes);
    }

    /// Shortens the buffer, keeping the first `len` bytes and dropping the
    /// rest.
    pub fn truncate(&mut self, len: usize)
        ensures
            final(self)@ == (if len < old(self)@.len() {
                old(self)@.take(len as int)
            } else {
                old(self)@
            }),
    {
        self.data.truncate(len);
    }

    /// Splits the buffer into two at the given index, returning the first
    /// part and keeping the rest.
    pub fn split_to(&mut self, at: usize) -> (r: Self)
        requires
            at <= old(self)@.len(),
        ensures
            r@ == old(self)@.take(at as int),
            final(self)@ == old(self)@.skip(at as int),
    {
        let mut head = self.data.split_off(at);
        std::mem::swap(&mut head, &mut self.data);
        Self { data: head }
    }

    /// A copy of the payload.
    pub fn duplicate(&self) -> (r: Self)
        ensures
            r@ == self@,
    {
        Self { data: vstd::slice::slice_to_vec(self.data.as_slice()) }
    }
}

/// Appends `bytes` to `v`.
pub fn extend_bytes(v: &mut Vec<u8>, bytes: &[u8])
    ensures
        final(v)@ == old(v)@ + bytes@,
{
    let mut i: usize = 0;
    while i < bytes.len()
        invariant
            i <= bytes@.len(),
            v@ == old(v)@ + bytes@.take(i as int),
        decreases bytes@.len() - i,
    {
        v.push(bytes[i]);
        i = i + 1;
        assert(v@ =~= old(v)@ + bytes@.take(i as int));
    }
    assert(bytes@.take(bytes@.len() as int) =~= bytes@);
}

/// The numeric value of an optional close code.
pub open spec fn close_code_value(code: Option<CloseCode>) -> Option<u16> {
    match code {
        Some(c) => Some(c@),
        None => None,
    }
}

/// The bytes of a close code followed by a reason.
fn close_bytes(code: CloseCode, reason: &[u8]) -> (r: Vec<u8>)
    ensures
        r@ == u16_be_bytes(code@) + reason@,
        be_u16(r@[0], r@[1]) == code@,
        r@.skip(2) == reason@,
        valid_close_code(code@),
{
    let v = code.as_u16();
    let mut data: Vec<u8> = Vec::new();
    data.push((v / 256) as u8);
    data.push((v % 256) as u8);
    assert(data@ =~= u16_be_bytes(v));
    extend_bytes(&mut data, reason);
    assert(data@.skip(2) =~= reason@);
    data
}

/// A WebSocket message: an opcode (never a continuation) and a payload.
///
/// Received messages are always validated prior to dealing with them, so all
/// the type casting methods are either almost or fully zero cost.
#[derive(Debug)]
pub struct Message {
    /// The [`OpCode`] of the message.
    pub(crate) opcode: OpCode,
    /// The payload of the message.
    pub(crate) payload: Payload,
}

impl View for Message {
    type V = (OpCode, Seq<u8>);

    closed spec fn view(&self) -> (OpCode, Seq<u8>) {
        (self.opcode, self.payload@)
    }
}

impl Message {
    /// Messages hold what the protocol allows them to.
    #[verifier::type_invariant]
    closed spec fn inv(self) -> bool {
        valid_message(self.opcode, self.payload@)
    }

    /// Builds a message from an opcode and a payload that fit together.
    pub(crate) fn from_parts(opcode: OpCode, payload: Payload) -> (r: Self)
        requires
            valid_message(opcode, payload@),
        ensures
            r@ == (opcode, payload@),
    {
        Self { opcode, payload }
    }

    /// Create a new text message. The payload contents must be valid UTF-8.
    pub fn text(payload: Payload) -> (r: Self)
        requires
            valid_utf8(payload@),
        ensures
            r@ == (OpCode::Text, payload@),
    {
        Self { opcode: OpCode::Text, payload }
    }

    /// Create a new binary message.
    pub fn binary(payload: Payload) -> (r: Self)
        ensures
            r@ == (OpCode::Binary, payload@),
    {
        Self { opcode: OpCode::Binary, payload }
    }

    /// Create a new close message. If a close code is specified, the reason
    /// is included after it; without a code the payload is empty.
    ///
    /// A close code must not be reserved and the reason must not exceed 123
    /// bytes.
    pub fn close(code: Option<CloseCode>, reason: &str) -> (r: Self)
        requires
            code matches Some(c) ==> !reserved_close_code(c@) && reason.spec_bytes().len() <= 123,
        ensures
            r@ == (OpCode::Close, close_payload(close_code_value(code), reason.spec_bytes())),
    {
        match code {
            Some(c) => {
                let data = close_bytes(c, reason.as_bytes());
                proof {
                    encode_utf8_valid_utf8(reason@);
                }
                let payload = Payload::from_vec(data);
                assert(valid_close_payload(payload@));
                Self { opcode: OpCode::Close, payload }
            },
            None => {
                let payload = Payload::from_vec(Vec::new());
                assert(payload@ =~= Seq::<u8>::empty());
                Self { opcode: OpCode::Close, payload }
            },
        }
    }

    /// Create a new ping message. The payload must not exceed 125 bytes.
    pub fn ping(payload: Payload) -> (r: Self)
        requires
            payload@.len() <= 125,
        ensures
            r@ == (OpCode::Ping, payload@),
    {
        Self { opcode: OpCode::Ping, payload }
    }

    /// Create a new pong message. The payload must not exceed 125 bytes.
    pub fn pong(payload: Payload) -> (r: Self)
        requires
            payload@.len() <= 125,
        ensures
            r@ == (OpCode::Pong, payload@),
    {
        Self { opcode: OpCode::Pong, payload }
    }

    /// Whether the message is a text message.
    pub fn is_text(&self) -> (r: bool)
        ensures
            r == (self@.0 == OpCode::Text),
    {
        self.opcode == OpCode::Text
    }

    /// Whether the message is a binary message.
    pub fn is_binary(&self) -> (r: bool)
        ensures
            r == (self@.0 == OpCode::Binary),
    {
        self.opcode == OpCode::Binary
    }

    /// Whether the message is a close message.
    pub fn is_close(&self) -> (r: bool)
        ensures
            r == (self@.0 == OpCode::Close),
    {
        self.opcode == OpCode::Close
    }

    /// Whether the message is a ping message.
    pub fn is_ping(&self) -> (r: bool)
        ensures
            r == (self@.0 == OpCode::Ping),
    {
        self.opcode == OpCode::Ping
    }

    /// Whether the message is a pong message.
    pub fn is_pong(&self) -> (r: bool)
        ensures
            r == (self@.0 == OpCode::Pong),
    {
        self.opcode == OpCode::Pong
    }

    /// The opcode of the message.
    pub fn opcode(&self) -> (r: OpCode)
        ensures
            r == self@.0,
            r != OpCode::Continuation,
    {
        proof {
            use_type_invariant(self);
        }
        self.opcode
    }

    /// Returns the message payload and consumes the message, regardless of
    /// type.
    pub fn into_payload(self) -> (r: Payload)
        ensures
            r@ == self@.1,
    {
        self.payload
    }

    /// Returns a reference to the message payload, regardless of message type.
    pub fn as_payload(&self) -> (r: &Payload)
        ensures
            r@ == self@.1,
    {
        &self.payload
    }

    /// Returns the payload as a string if it is a text message.
    ///
    /// The payload of a text message must be valid UTF-8, as
    /// [`Message::text`] asks and as the decoder checks for received text.
    pub fn as_text(&self) -> (r: Option<&str>)
        requires
            self@.0 == OpCode::Text ==> valid_utf8(self@.1),
        ensures
            r is Some <==> self@.0 == OpCode::Text,
            r matches Some(s) ==> s.spec_bytes() == self@.1 && s@ == decode_utf8(self@.1),
    {
        if self.opcode == OpCode::Text {
            match utf8::parse_str(self.payload.as_slice()) {
                Ok(s) => Some(s),
                Err(_) => {
                    assert(false);
                    None
                },
            }
        } else {
            None
        }
    }

    /// Returns the [`CloseCode`] and close reason if the message is a close
    /// message. A close message without payload carries
    /// [`CloseCode::no_status_received`] and an empty reason.
    pub fn as_close(&self) -> (r: Option<(CloseCode, &str)>)
        ensures
            r is Some <==> self@.0 == OpCode::Close,
            r matches Some((code, reason)) ==> {
                let p = self@.1;
                &&& code@ == (if p.len() == 0 {
                    1005
                } else {
                    be_u16(p[0], p[1])
                })
                &&& reason.spec_bytes() == (if p.len() == 0 {
                    Seq::<u8>::empty()
                } else {
                    p.skip(2)
                })
            },
    {
        proof {
            use_type_invariant(self);
        }
        if self.opcode != OpCode::Close {
            return None;
        }
        let p = self.payload.as_slice();
        let len = p.len();
        let code = if len == 0 {
            CloseCode::no_status_received()
        } else {
            match CloseCode::from_u16(((p[0] as u16) * 256 + p[1] as u16) as u16) {
                Ok(c) => c,
                Err(_) => {
                    assert(false);
                    CloseCode::no_status_received()
                },
            }
        };
        let start = if len >= 2 {
            2
        } else {
            len
        };
        let reason_bytes = vstd::slice::slice_subrange(p, start, len);
        assert(len == 0 ==> reason_bytes@ =~= Seq::<u8>::empty());
        assert(len >= 2 ==> reason_bytes@ =~= p@.skip(2));
        match utf8::parse_str(reason_bytes) {
            Ok(reason) => Some((code, reason)),
            Err(_) => {
                assert(false);
                None
            },
        }
    }
}

/// Configuration for limitations on reading of [`Message`]s from a
/// WebSocket stream to prevent high memory usage caused by malicious actors.
#[derive(Debug, Clone, Copy)]
pub struct Limits {
    /// The maximum allowed payload length. The default
    /// is 64 MiB.
    pub(crate) max_payload_len: usize,
}

impl View for Limits {
    type V = usize;

    /// The maximum allowed payload length.
    closed spec fn view(&self) -> usize {
        self.max_payload_len
    }
}

impl Limits {
    /// The maximum allowed payload length.
    pub fn max_len(&self) -> (r: usize)
        ensures
            r == self@,
    {
        self.max_payload_len
    }

    /// A limit configuration without any limits.
    pub fn unlimited() -> (r: Self)
        ensures
            r@ == usize::MAX,
    {
        Self { max_payload_len: usize::MAX }
    }

    /// Sets the maximum allowed payload length. `None` equals no limit. The
    /// default is 64 MiB.
    pub fn max_payload_len(self, size: Option<usize>) -> (r: Self)
        ensures
            r@ == (match size {
                Some(s) => s,
                None => usize::MAX,
            }),
    {
        let mut this = self;
        this.max_payload_len = match size {
            Some(s) => s,
            None => usize::MAX,
        };
        this
    }
}

impl Default for Limits {
    fn default() -> (r: Self)
        ensures
            r@ == 64 * 1024 * 1024,
    {
        Self { max_payload_len: 64 * 1024 * 1024 }
    }
}

/// Low-level configuration for a WebSocket stream that allows configuring
/// behavior for sending and receiving messages.
#[derive(Debug, Clone, Copy)]
pub struct Config {
    /// Frame payload size to split outgoing messages into.
    ///
    /// Consider decreasing this if the remote imposes a limit on the frame
    /// payload size. The default is 4MiB.
    pub(crate) frame_size: usize,
    /// Threshold of queued up bytes after which the underlying I/O is flushed
    /// before the sink is declared ready. The default is 8 KiB.
    pub(crate) flush_threshold: usize,
}

impl View for Config {
    type V = (usize, usize);

    /// The frame size and the flush threshold.
    closed spec fn view(&self) -> (usize, usize) {
        (self.frame_size, self.flush_threshold)
    }
}

impl Config {
    /// The frame size.
    pub fn frame_size_value(&self) -> (r: usize)
        ensures
            r == self@.0,
    {
        self.frame_size
    }

    /// The flush threshold.
    pub fn flush_threshold_value(&self) -> (r: usize)
        ensures
            r == self@.1,
    {
        self.flush_threshold
    }

    /// Frames are never empty-sized.
    pub open spec fn wf(&self) -> bool {
        self@.0 > 0
    }

    /// Set the frame payload size to split outgoing messages into. It must
    /// not be zero.
    ///
    /// Consider decreasing this if the remote imposes a limit on the frame
    /// payload size. The default is 4MiB.
    pub fn frame_size(self, frame_size: usize) -> (r: Self)
        requires
            frame_size != 0,
        ensures
            r@ == (frame_size, self@.1),
            r.wf(),
    {
        let mut this = self;
        this.frame_size = frame_size;
        this
    }

    /// Sets the threshold of queued up bytes after which the underlying I/O is
    /// flushed before the sink is declared ready. The default is 8 KiB.
    pub fn flush_threshold(self, threshold: usize) -> (r: Self)
        ensures
            r@ == (self@.0, threshold),
    {
        let mut this = self;
        this.flush_threshold = threshold;
        this
    }
}

impl Default for Config {
    fn default() -> (r: Self)
        ensures
            r@.0 == 4 * 1024 * 1024,
            r@.1 == 8 * 1024,
            r.wf(),
    {
        Self { frame_size: 4 * 1024 * 1024, flush_threshold: 8 * 1024 }
    }
}

/// Role assumed by a WebSocket stream in a connection.
#[derive(Debug, PartialEq, Eq, Clone, Copy, Structural)]
pub enum Role {
    /// The client end.
    Client,
    /// The server end.
    Server,
}

/// The connection state of the stream.
#[derive(Debug, PartialEq, Eq, Clone, Copy, Structural)]
pub enum StreamState {
    /// The connection is fully active and no close has been initiated.
    Active,
    /// The connection has been closed by the peer, but not yet acknowledged by
    /// us.
    ClosedByPeer,
    /// The connection has been closed by us, but not yet acknowledged.
    ClosedByUs,
    /// The close has been acknowledged by the end that did not initiate the
    /// close.
    CloseAcknowledged,
}


/// The eight bytes of `v` in network (big-endian) order.
pub open spec fn u64_be_bytes(v: nat) -> Seq<u8> {
    seq![
        ((v / 0x100000000000000) % 256) as u8,
        ((v / 0x1000000000000) % 256) as u8,
        ((v / 0x10000000000) % 256) as u8,
        ((v / 0x100000000) % 256) as u8,
        ((v / 0x1000000) % 256) as u8,
        ((v / 0x10000) % 256) as u8,
        ((v / 0x100) % 256) as u8,
        (v % 256) as u8,
    ]
}

/// The first header byte of a frame: the FIN bit and the opcode.
pub open spec fn frame_first_byte(is_final: bool, opcode: OpCode) -> u8 {
    ((if is_final {
        128int
    } else {
        0int
    }) + opcode_value(opcode)) as u8
}

/// The unmasked header of a frame with the given FIN bit, opcode and payload
/// length: the shortest of the 7-bit, 16-bit and 64-bit length encodings.
pub open spec fn frame_head(is_final: bool, opcode: OpCode, len: nat) -> Seq<u8> {
    let b0 = frame_first_byte(is_final, opcode);
    if len > 65535 {
        seq![b0, 127u8] + u64_be_bytes(len)
    } else if len > 125 {
        seq![b0, 126u8, (len / 256) as u8, (len % 256) as u8]
    } else {
        seq![b0, len as u8]
    }
}

/// A frame of a WebSocket [`Message`].
#[derive(Debug)]
pub struct Frame {
    /// The [`OpCode`] of the frame.
    pub opcode: OpCode,
    /// Whether this is the last frame of a message.
    pub is_final: bool,
    /// The payload bytes of the frame.
    pub payload: Payload,
}

/// The payloads of a sequence of frames.
pub open spec fn frame_payloads(frames: Seq<Frame>) -> Seq<Seq<u8>> {
    frames.map_values(|f: Frame| f.payload@)
}

/// `frames` are `payload` sent under `opcode`, cut into frames of
/// `frame_size` bytes: the first frame carries the opcode, the others are
/// continuations, only the last is final, all but the last are full and the
/// last is only empty when the whole payload is.
pub open spec fn chunked(opcode: OpCode, payload: Seq<u8>, frame_size: nat, frames: Seq<Frame>) -> bool {
    &&& frames.len() >= 1
    &&& frames[0].opcode == opcode
    &&& forall|i: int| 1 <= i < frames.len() ==> (#[trigger] frames[i]).opcode == OpCode::Continuation
    &&& forall|i: int| 0 <= i < frames.len() ==> (#[trigger] frames[i]).is_final == (i == frames.len() - 1)
    &&& forall|i: int| 0 <= i < frames.len() - 1 ==> (#[trigger] frames[i]).payload@.len() == frame_size
    &&& frames.last().payload@.len() <= frame_size
    &&& (frames.len() > 1 ==> frames.last().payload@.len() > 0)
    &&& frame_payloads(frames).flatten() == payload
}

/// The number of frames a payload of `len` bytes is cut into with frames
/// of `frame_size` bytes: one for an empty payload, otherwise
/// `len / frame_size` rounded up.
pub open spec fn frame_count(len: nat, frame_size: nat) -> nat {
    if len == 0 {
        1
    } else {
        ((len + frame_size - 1) as nat) / frame_size
    }
}

/// The first `k` frames of a chunking are full.
proof fn lemma_full_prefix_len(frames: Seq<Frame>, frame_size: nat, k: int)
    requires
        0 <= k < frames.len(),
        forall|i: int| 0 <= i < frames.len() - 1 ==> (#[trigger] frames[i]).payload@.len() == frame_size,
    ensures
        frame_payloads(frames.take(k)).flatten().len() == k * frame_size,
    decreases k,
{
    if k == 0 {
        assert(frame_payloads(frames.take(0)) =~= Seq::<Seq<u8>>::empty());
    } else {
        lemma_full_prefix_len(frames, frame_size, k - 1);
        assert(frame_payloads(frames.take(k)) =~= frame_payloads(frames.take(k - 1)).push(
            frames[k - 1].payload@,
        ));
        frame_payloads(frames.take(k - 1)).lemma_flatten_push(frames[k - 1].payload@);
        assert((k - 1) * frame_size + frame_size == k * frame_size) by (nonlinear_arith);
    }
}

/// A message cut into frames of `frame_size` bytes takes
/// [`frame_count`] frames: one if it is empty, otherwise its length divided
/// by the frame size, rounded up.
pub proof fn lemma_chunk_count(opcode: OpCode, payload: Seq<u8>, frame_size: nat, frames: Seq<Frame>)
    requires
        frame_size > 0,
        chunked(opcode, payload, frame_size, frames),
    ensures
        frames.len() == frame_count(payload.len(), frame_size),
{
    let n = frames.len() as int;
    lemma_full_prefix_len(frames, frame_size, n - 1);
    assert(frame_payloads(frames) =~= frame_payloads(frames.take(n - 1)).push(frames[n - 1].payload@));
    frame_payloads(frames.take(n - 1)).lemma_flatten_push(frames[n - 1].payload@);
    let r = frames.last().payload@.len() as int;
    let len = payload.len() as int;
    let fs = frame_size as int;
    assert(len == (n - 1) * fs + r);
    if len > 0 {
        assert(0 < r <= fs) by {
            if n == 1 {
                assert(len == r) by (nonlinear_arith)
                    requires
                        len == (n - 1) * fs + r,
                        n == 1,
                ;
            }
        }
        assert((len + fs - 1) / fs == n) by (nonlinear_arith)
            requires
                len == (n - 1) * fs + r,
                0 < r <= fs,
                n >= 1,
                fs > 0,
        ;
    } else {
        assert(n == 1) by (nonlinear_arith)
            requires
                0 == (n - 1) * fs + r,
                r >= 0,
                n >= 1,
                fs > 0,
                n > 1 ==> r > 0,
        ;
    }
}

/// Writes the big-endian bytes of `l` into `out[2..10]`.
fn write_u64_be(out: &mut [u8; 10], l: u64)
    ensures
        final(out)@.subrange(2, 10) == u64_be_bytes(l as nat),
        final(out)@[0] == old(out)@[0],
        final(out)@[1] == old(out)@[1],
{
    out[2] = (l / 0x100000000000000) as u8;
    out[3] = ((l / 0x1000000000000) % 256) as u8;
    out[4] = ((l / 0x10000000000) % 256) as u8;
    out[5] = ((l / 0x100000000) % 256) as u8;
    out[6] = ((l / 0x1000000) % 256) as u8;
    out[7] = ((l / 0x10000) % 256) as u8;
    out[8] = ((l / 0x100) % 256) as u8;
    out[9] = (l % 256) as u8;
    assert(out@.subrange(2, 10) =~= u64_be_bytes(l as nat));
}

impl Frame {
    /// Encode the frame head into `out`, returning how many bytes were written.
    pub fn encode(&self, out: &mut [u8; 10]) -> (r: u8)
        ensures
            r as int == frame_head(self.is_final, self.opcode, self.payload@.len()).len(),
            final(out)@.take(r as int) == frame_head(self.is_final, self.opcode, self.payload@.len()),
            final(out)@.skip(r as int) == old(out)@.skip(r as int),
    {
        let op = self.opcode.as_u8();
        let b0: u8 = if self.is_final {
            128 + op
        } else {
            op
        };
        out[0] = b0;
        let len = self.payload.len();
        if len > 65535 {
            out[1] = 127;
            write_u64_be(out, len as u64);
            assert(out@.take(10) =~= frame_head(self.is_final, self.opcode, self.payload@.len()));
            assert(out@.skip(10) =~= old(out)@.skip(10));
            10
        } else if len > 125 {
            out[1] = 126;
            out[2] = (len / 256) as u8;
            out[3] = (len % 256) as u8;
            assert(out@.take(4) =~= frame_head(self.is_final, self.opcode, self.payload@.len()));
            assert(out@.skip(4) =~= old(out)@.skip(4));
            4
        } else {
            out[1] = len as u8;
            assert(out@.take(2) =~= frame_head(self.is_final, self.opcode, self.payload@.len()));
            assert(out@.skip(2) =~= old(out)@.skip(2));
            2
        }
    }

    /// The single, final frame that carries a whole message.
    pub fn from_message(value: Message) -> (r: Self)
        ensures
            r.opcode == value@.0,
            r.is_final,
            r.payload@ == value@.1,
    {
        Self { opcode: value.opcode, is_final: true, payload: value.payload }
    }

    /// A close frame with the given code and reason.
    pub fn close(code: CloseCode, reason: &[u8]) -> (r: Self)
        ensures
            r.opcode == OpCode::Close,
            r.is_final,
            r.payload@ == close_payload(Some(code@), reason@),
    {
        Self { opcode: OpCode::Close, is_final: true, payload: Payload::from_vec(close_bytes(code, reason)) }
    }

    /// Default close frame: normal closure without a reason.
    pub fn default_close() -> (r: Self)
        ensures
            r.opcode == OpCode::Close,
            r.is_final,
            r.payload@ == close_payload(Some(1000), Seq::empty()),
    {
        let empty: [u8; 0] = [];
        Self::close(CloseCode::normal_closure(), empty.as_slice())
    }

    /// The close frame answering a protocol violation by the peer: code
    /// 1007 with reason "invalid utf8" for invalid UTF-8, code 1002 with the
    /// error's description otherwise.
    pub fn from_protocol_error(val: &ProtocolError) -> (r: Self)
        ensures
            r.opcode == OpCode::Close,
            r.is_final,
            r.payload@ == (if *val == ProtocolError::InvalidUtf8 {
                close_payload(Some(1007), "invalid utf8".spec_bytes())
            } else {
                close_payload(Some(1002), super::error::protocol_error_text(*val).spec_bytes())
            }),
    {
        match val {
            ProtocolError::InvalidUtf8 => Self::close(
                CloseCode::invalid_frame_payload_data(),
                "invalid utf8".as_bytes(),
            ),
            _ => Self::close(CloseCode::protocol_error(), val.as_str().as_bytes()),
        }
    }
}

impl Message {
    /// Splits this message into frames of `frame_size` payload bytes.
    pub fn into_frames(self, frame_size: usize) -> (r: std::collections::VecDeque<Frame>)
        requires
            frame_size > 0,
        ensures
            chunked(self@.0, self@.1, frame_size as nat, r@),
            r@.len() == frame_count(self@.1.len(), frame_size as nat),
    {
        let ghost full = self@.1;
        let opcode0 = self.opcode;
        let mut payload = self.payload;
        let mut opcode = opcode0;
        let mut frames: std::collections::VecDeque<Frame> = std::collections::VecDeque::new();
        loop
            invariant_except_break
                frames@.len() == 0 ==> opcode == opcode0 && payload@ == full,
                frames@.len() > 0 ==> {
                    &&& opcode == OpCode::Continuation
                    &&& frames@[0].opcode == opcode0
                    &&& forall|i: int| 1 <= i < frames@.len() ==> (#[trigger] frames@[i]).opcode == OpCode::Continuation
                    &&& forall|i: int| 0 <= i < frames@.len() ==> !(#[trigger] frames@[i]).is_final
                    &&& forall|i: int| 0 <= i < frames@.len() ==> (#[trigger] frames@[i]).payload@.len() == frame_size
                    &&& payload@.len() > 0
                    &&& frame_payloads(frames@).flatten() + payload@ == full
                },
            invariant
                frame_size > 0,
            ensures
                chunked(opcode0, full, frame_size as nat, frames@),
            decreases payload@.len(),
        {
            let n = if frame_size < payload.len() {
                frame_size
            } else {
                payload.len()
            };
            let chunk = payload.split_to(n);
            let is_final = payload.is_empty();
            let ghost before = frames@;
            frames.push_back(Frame { opcode, is_final, payload: chunk });
            proof {
                assert(frame_payloads(frames@) =~= frame_payloads(before).push(chunk@));
                frame_payloads(before).lemma_flatten_push(chunk@);
                if before.len() == 0 {
                    assert(frame_payloads(before) =~= Seq::<Seq<u8>>::empty());
                    assert(frame_payloads(before).flatten() =~= Seq::<u8>::empty());
                }
                assert(frame_payloads(frames@).flatten() + payload@ =~= full);
            }
            opcode = OpCode::Continuation;
            if is_final {
                proof {
                    assert(payload@ =~= Seq::<u8>::empty());
                    assert(frame_payloads(frames@).flatten() + payload@ =~= frame_payloads(frames@).flatten());
                }
                break;
            }
        }
        proof {
            lemma_chunk_count(opcode0, full, frame_size as nat, frames@);
        }
        frames
    }
}

} // verus!
