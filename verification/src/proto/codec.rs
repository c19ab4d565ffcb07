//! The WebSocket frame decoder: parses frame headers, unmasks payloads,
//! validates text payloads as they arrive and checks close frames.
use vstd::prelude::*;
use vstd::utf8::*;

use super::error::ProtocolError;
use super::types::{is_control_opcode, opcode_of, opcode_value, frame_head, frame_first_byte, u64_be_bytes, Frame, Limits, OpCode, Payload, Role, CloseCode, reserved_close_code, valid_close_code, be_u16};
use crate::mask;
use crate::utf8::{self, feed_accepts, feed_pending, Validator};
use crate::Error;

verus! {

broadcast use vstd::seq_lib::group_seq_properties;

/// The number whose big-endian bytes are `s[i..i + 8]`.
pub open spec fn be_u64_at(s: Seq<u8>, i: int) -> nat {
    (((((((s[i] as nat * 256 + s[i + 1] as nat) * 256 + s[i + 2] as nat) * 256 + s[i + 3] as nat)
        * 256 + s[i + 4] as nat) * 256 + s[i + 5] as nat) * 256 + s[i + 6] as nat) * 256 + s[i
        + 7] as nat) as nat
}

/// A parsed frame header.
pub struct FrameHead {
    /// Whether this is the last frame of a message.
    pub fin: bool,
    /// The frame's opcode.
    pub opcode: OpCode,
    /// Whether the payload is masked.
    pub masked: bool,
    /// The masking key (four zero bytes when unmasked).
    pub mask: Seq<u8>,
    /// The payload length.
    pub len: nat,
    /// The length of the header, i.e. where the payload starts.
    pub offset: nat,
}

/// The outcome of parsing a frame header.
pub enum HeadParse {
    /// More bytes are needed.
    Incomplete,
    /// The header is invalid.
    Invalid(Error),
    /// A valid header.
    Parsed(FrameHead),
}

/// Reads the masking key that follows the length, once the length is known
/// to be within the limit.
pub open spec fn parse_mask(
    s: Seq<u8>,
    max_len: usize,
    fin: bool,
    op: OpCode,
    masked: bool,
    len: nat,
    off: nat,
) -> HeadParse {
    if len > max_len {
        HeadParse::Invalid(
            Error::PayloadTooLong {
                len: (if len > usize::MAX {
                    usize::MAX as nat
                } else {
                    len
                }) as usize,
                max_len,
            },
        )
    } else if masked {
        if s.len() < off + 4 {
            HeadParse::Incomplete
        } else {
            HeadParse::Parsed(
                FrameHead {
                    fin,
                    opcode: op,
                    masked,
                    mask: s.subrange(off as int, off + 4 as int),
                    len,
                    offset: off + 4,
                },
            )
        }
    } else {
        HeadParse::Parsed(
            FrameHead { fin, opcode: op, masked, mask: seq![0u8, 0u8, 0u8, 0u8], len, offset: off },
        )
    }
}

/// Reads the payload length, in its 7-bit, 16-bit or 64-bit form.
pub open spec fn parse_len(s: Seq<u8>, max_len: usize, fin: bool, op: OpCode, masked: bool) -> HeadParse {
    let l7 = s[1] % 128;
    if op == OpCode::Close && l7 == 1 {
        HeadParse::Invalid(Error::Protocol(ProtocolError::InvalidPayloadLength))
    } else if l7 > 125 && is_control_opcode(op) {
        HeadParse::Invalid(Error::Protocol(ProtocolError::InvalidPayloadLength))
    } else if l7 == 126 {
        if s.len() < 4 {
            HeadParse::Incomplete
        } else {
            let l = s[2] as nat * 256 + s[3] as nat;
            if l <= 125 {
                HeadParse::Invalid(Error::Protocol(ProtocolError::InvalidPayloadLength))
            } else {
                parse_mask(s, max_len, fin, op, masked, l, 4)
            }
        }
    } else if l7 == 127 {
        if s.len() < 10 {
            HeadParse::Incomplete
        } else {
            let l = be_u64_at(s, 2);
            if l <= 65535 {
                HeadParse::Invalid(Error::Protocol(ProtocolError::InvalidPayloadLength))
            } else {
                parse_mask(s, max_len, fin, op, masked, l, 10)
            }
        }
    } else {
        parse_mask(s, max_len, fin, op, masked, l7 as nat, 2)
    }
}

/// Parses a frame header from the start of `s`, as received by an endpoint
/// of the given role, with the given payload limit, while a message with
/// opcode `frag` is being assembled (`Continuation` when none is).
pub open spec fn parse_head(s: Seq<u8>, role: Role, max_len: usize, frag: OpCode) -> HeadParse {
    if s.len() < 2 {
        HeadParse::Incomplete
    } else if (s[0] / 16) % 8 != 0 {
        HeadParse::Invalid(Error::Protocol(ProtocolError::InvalidRsv))
    } else {
        let fin = s[0] >= 128;
        match opcode_of(s[0] % 16) {
            None => HeadParse::Invalid(Error::Protocol(ProtocolError::InvalidOpcode)),
            Some(op) => {
                if is_control_opcode(op) && !fin {
                    HeadParse::Invalid(Error::Protocol(ProtocolError::FragmentedControlFrame))
                } else if !is_control_opcode(op) && ((frag == OpCode::Continuation) == (op
                    == OpCode::Continuation)) {
                    HeadParse::Invalid(Error::Protocol(ProtocolError::InvalidOpcode))
                } else {
                    let masked = s[1] >= 128;
                    if masked && role == Role::Client {
                        HeadParse::Invalid(Error::Protocol(ProtocolError::UnexpectedMaskedFrame))
                    } else if !masked && role == Role::Server {
                        HeadParse::Invalid(Error::Protocol(ProtocolError::UnexpectedUnmaskedFrame))
                    } else {
                        parse_len(s, max_len, fin, op, masked)
                    }
                }
            },
        }
    }
}

/// The exec form of a parsed frame header.
struct HeadInfo {
    fin: bool,
    opcode: OpCode,
    masked: bool,
    mask: [u8; 4],
    len: usize,
    offset: usize,
}

/// The exec form of the outcome of parsing a frame header.
enum HeadResult {
    Incomplete,
    Invalid(Error),
    Parsed(HeadInfo),
}

/// `r` is the exec form of `p`.
spec fn head_result_matches(r: HeadResult, p: HeadParse) -> bool {
    match (r, p) {
        (HeadResult::Incomplete, HeadParse::Incomplete) => true,
        (HeadResult::Invalid(e1), HeadParse::Invalid(e2)) => e1 == e2,
        (HeadResult::Parsed(h1), HeadParse::Parsed(h2)) => {
            &&& h1.fin == h2.fin
            &&& h1.opcode == h2.opcode
            &&& h1.masked == h2.masked
            &&& h1.mask@ == h2.mask
            &&& h1.len == h2.len
            &&& h1.offset == h2.offset
        },
        _ => false,
    }
}

/// The exec form of [`parse_mask`].
fn parse_mask_exec(
    s: &[u8],
    max_len: usize,
    fin: bool,
    op: OpCode,
    masked: bool,
    len: u64,
    off: usize,
) -> (r: HeadResult)
    requires
        off <= 10,
    ensures
        head_result_matches(r, parse_mask(s@, max_len, fin, op, masked, len as nat, off as nat)),
{
    if len > max_len as u64 {
        let reported: usize = if len > usize::MAX as u64 {
            usize::MAX
        } else {
            len as usize
        };
        return HeadResult::Invalid(Error::PayloadTooLong { len: reported, max_len });
    }
    if masked {
        if s.len() < off + 4 {
            HeadResult::Incomplete
        } else {
            let mask = [s[off], s[off + 1], s[off + 2], s[off + 3]];
            assert(mask@ =~= s@.subrange(off as int, off + 4));
            HeadResult::Parsed(
                HeadInfo { fin, opcode: op, masked, mask, len: len as usize, offset: off + 4 },
            )
        }
    } else {
        let mask = [0u8, 0u8, 0u8, 0u8];
        assert(mask@ =~= seq![0u8, 0u8, 0u8, 0u8]);
        HeadResult::Parsed(HeadInfo { fin, opcode: op, masked, mask, len: len as usize, offset: off })
    }
}

/// The exec form of [`parse_len`].
fn parse_len_exec(s: &[u8], max_len: usize, fin: bool, op: OpCode, masked: bool) -> (r: HeadResult)
    requires
        s@.len() >= 2,
    ensures
        head_result_matches(r, parse_len(s@, max_len, fin, op, masked)),
{
    let l7 = s[1] % 128;
    if op == OpCode::Close && l7 == 1 {
        HeadResult::Invalid(Error::Protocol(ProtocolError::InvalidPayloadLength))
    } else if l7 > 125 && op.is_control() {
        HeadResult::Invalid(Error::Protocol(ProtocolError::InvalidPayloadLength))
    } else if l7 == 126 {
        if s.len() < 4 {
            HeadResult::Incomplete
        } else {
            let l = (s[2] as u64) * 256 + (s[3] as u64);
            if l <= 125 {
                HeadResult::Invalid(Error::Protocol(ProtocolError::InvalidPayloadLength))
            } else {
                parse_mask_exec(s, max_len, fin, op, masked, l, 4)
            }
        }
    } else if l7 == 127 {
        if s.len() < 10 {
            HeadResult::Incomplete
        } else {
            let mut l: u64 = s[2] as u64;
            l = l * 256 + s[3] as u64;
            l = l * 256 + s[4] as u64;
            l = l * 256 + s[5] as u64;
            l = l * 256 + s[6] as u64;
            l = l * 256 + s[7] as u64;
            l = l * 256 + s[8] as u64;
            l = l * 256 + s[9] as u64;
            assert(l == be_u64_at(s@, 2));
            if l <= 65535 {
                HeadResult::Invalid(Error::Protocol(ProtocolError::InvalidPayloadLength))
            } else {
                parse_mask_exec(s, max_len, fin, op, masked, l, 10)
            }
        }
    } else {
        parse_mask_exec(s, max_len, fin, op, masked, l7 as u64, 2)
    }
}


/// The state of a decoder, as far as decoding depends on it.
pub struct DecoderState {
    /// The role of the decoding endpoint.
    pub role: Role,
    /// The maximum payload length accepted.
    pub max_len: usize,
    /// The opcode of the message being assembled (`Continuation` when none is).
    pub frag: OpCode,
    /// How many payload bytes of the current frame were unmasked and
    /// validated already.
    pub processed: nat,
    /// The partial UTF-8 scalar the validator holds.
    pub pending: Seq<u8>,
}

/// The outcome of one decoding step.
pub enum DecodeOutcome {
    /// More bytes are needed.
    Pending,
    /// The input violates the protocol or the limits.
    Failed(Error),
    /// A frame: its FIN bit, opcode, unmasked payload, and how many bytes of
    /// the input it took.
    Decoded(bool, OpCode, Seq<u8>, nat),
}

/// `raw` with the bytes from index `from` on unmasked with `mask`, byte `i`
/// with `mask[i % 4]`.
pub open spec fn unmask_from(raw: Seq<u8>, mask: Seq<u8>, from: int, masked: bool) -> Seq<u8> {
    Seq::new(raw.len(), |i: int| if masked && i >= from { raw[i] ^ mask[i % 4] } else { raw[i] })
}

/// The protocol violation in a close payload (of at least two bytes), if any.
pub open spec fn close_error(u: Seq<u8>) -> Option<ProtocolError> {
    let code = be_u16(u[0], u[1]);
    if !valid_close_code(code) || reserved_close_code(code) {
        Some(ProtocolError::InvalidCloseCode)
    } else if !valid_utf8(u.skip(2)) {
        Some(ProtocolError::InvalidUtf8)
    } else {
        None
    }
}

/// Whether a frame payload is part of a text message.
pub open spec fn is_text_frame(op: OpCode, frag: OpCode) -> bool {
    op == OpCode::Text || (op == OpCode::Continuation && frag == OpCode::Text)
}

/// The opcode of the message being assembled after a frame: set by the
/// first frame of a fragmented message and by its final continuation frame
/// (back to `Continuation`); control frames in between leave it alone.
pub open spec fn next_frag(frag: OpCode, fin: bool, op: OpCode) -> OpCode {
    if (fin && op == OpCode::Continuation) || (!fin && op != OpCode::Continuation) {
        op
    } else {
        frag
    }
}

/// One decoding step on the payload of a frame with header `h`.
pub open spec fn decode_payload(st: DecoderState, src: Seq<u8>, h: FrameHead) -> (
    DecodeOutcome,
    DecoderState,
    Seq<u8>,
) {
    let avail: nat = if src.len() - h.offset < h.len {
        (src.len() - h.offset) as nat
    } else {
        h.len
    };
    let complete = avail == h.len;
    let is_text = is_text_frame(h.opcode, st.frag);
    let done: nat = if st.processed < avail {
        st.processed
    } else {
        avail
    };
    let raw = src.subrange(h.offset as int, (h.offset + avail) as int);
    let u = unmask_from(raw, h.mask, done as int, h.masked);
    let touched = h.len > 0 && h.masked && (complete || is_text);
    let src2 = if touched {
        src.take(h.offset as int) + u + src.skip((h.offset + avail) as int)
    } else {
        src
    };
    let validate = h.len > 0 && is_text;
    let fed = u.skip(done as int);
    let last = complete && h.fin;
    if validate && !feed_accepts(st.pending, fed, last) {
        (DecodeOutcome::Failed(Error::Protocol(ProtocolError::InvalidUtf8)), st, src2)
    } else {
        let st2 = if validate {
            DecoderState { pending: feed_pending(st.pending, fed, last), processed: avail, ..st }
        } else {
            st
        };
        if !complete {
            (DecodeOutcome::Pending, st2, src2)
        } else if h.len > 0 && h.opcode == OpCode::Close && close_error(u) is Some {
            (DecodeOutcome::Failed(Error::Protocol(close_error(u)->0)), st2, src2)
        } else {
            (
                DecodeOutcome::Decoded(h.fin, h.opcode, u, h.offset + h.len),
                DecoderState { frag: next_frag(st.frag, h.fin, h.opcode), processed: 0, ..st2 },
                src2,
            )
        }
    }
}

/// One decoding step: what the decoder in state `st` makes of the buffer
/// `src`, the state it is left in and the buffer as it is left (payload
/// bytes are unmasked in place).
pub open spec fn decode_step(st: DecoderState, src: Seq<u8>) -> (DecodeOutcome, DecoderState, Seq<u8>) {
    match parse_head(src, st.role, st.max_len, st.frag) {
        HeadParse::Incomplete => (DecodeOutcome::Pending, st, src),
        HeadParse::Invalid(e) => (DecodeOutcome::Failed(e), st, src),
        HeadParse::Parsed(h) => decode_payload(st, src, h),
    }
}

/// `r` is what [`WebSocketProtocol::decode`] returns for the outcome `out`.
pub open spec fn decode_result_matches(r: Result<Option<(Frame, usize)>, Error>, out: DecodeOutcome) -> bool {
    match out {
        DecodeOutcome::Pending => r matches Ok(None),
        DecodeOutcome::Failed(e) => r matches Err(e2) && e2 == e,
        DecodeOutcome::Decoded(fin, op, payload, consumed) => r matches Ok(Some((f, n))) && f.is_final
            == fin && f.opcode == op && f.payload@ == payload && n == consumed,
    }
}

/// The WebSocket byte-level protocol: a decoder for single frames that must
/// be assembled into messages later.
#[derive(Debug)]
pub struct WebSocketProtocol {
    /// The [`Role`] this implementation should assume for the stream.
    pub(crate) role: Role,
    /// The [`Limits`] imposed on this stream.
    pub(crate) limits: Limits,
    /// Opcode of the full message.
    fragmented_message_opcode: OpCode,
    /// Index up to which the payload was processed (unmasked and validated).
    payload_processed: usize,
    /// UTF-8 validator.
    validator: Validator,
}

impl View for WebSocketProtocol {
    type V = DecoderState;

    closed spec fn view(&self) -> DecoderState {
        DecoderState {
            role: self.role,
            max_len: self.limits@,
            frag: self.fragmented_message_opcode,
            processed: self.payload_processed as nat,
            pending: self.validator@,
        }
    }
}

impl WebSocketProtocol {
    /// The validator is consistent.
    pub closed spec fn wf(&self) -> bool {
        self.validator.wf()
    }

    /// Creates a new WebSocket codec.
    pub fn new(role: Role, limits: Limits) -> (r: Self)
        ensures
            r.wf(),
            r@ == (DecoderState {
                role,
                max_len: limits@,
                frag: OpCode::Continuation,
                processed: 0,
                pending: Seq::empty(),
            }),
    {
        Self {
            role,
            limits,
            fragmented_message_opcode: OpCode::Continuation,
            payload_processed: 0,
            validator: Validator::new(),
        }
    }

    /// The limits imposed on the stream.
    pub fn limits(&self) -> (r: &Limits)
        ensures
            r@ == self@.max_len,
    {
        &self.limits
    }

    /// The limits imposed on the stream, to change in place.
    pub fn limits_mut(&mut self) -> (r: &mut Limits)
        ensures
            r@ == old(self)@.max_len,
            final(self)@ == (DecoderState { max_len: final(r)@, ..old(self)@ }),
            final(self).wf() == old(self).wf(),
    {
        &mut self.limits
    }

    /// Replaces the limits imposed on the stream.
    pub fn set_limits(&mut self, limits: Limits)
        requires
            old(self).wf(),
        ensures
            final(self).wf(),
            final(self)@ == (DecoderState { max_len: limits@, ..old(self)@ }),
    {
        self.limits = limits;
    }

    /// The role of the decoding endpoint.
    pub fn role(&self) -> (r: Role)
        ensures
            r == self@.role,
    {
        self.role
    }

    /// The exec form of [`parse_head`].
    fn parse_head(&self, s: &[u8]) -> (r: HeadResult)
        ensures
            head_result_matches(r, parse_head(s@, self@.role, self@.max_len, self@.frag)),
    {
        if s.len() < 2 {
            return HeadResult::Incomplete;
        }
        let b0 = s[0];
        let b1 = s[1];
        // Bits 1-3
        if (b0 / 16) % 8 != 0 {
            return HeadResult::Invalid(Error::Protocol(ProtocolError::InvalidRsv));
        }
        // Bit 0
        let fin = b0 >= 128;
        // Bits 4-7
        let opcode = match OpCode::from_u8(b0 % 16) {
            Ok(op) => op,
            Err(e) => return HeadResult::Invalid(Error::Protocol(e)),
        };
        if opcode.is_control() {
            if !fin {
                return HeadResult::Invalid(Error::Protocol(ProtocolError::FragmentedControlFrame));
            }
        } else if self.fragmented_message_opcode == OpCode::Continuation {
            if opcode == OpCode::Continuation {
                return HeadResult::Invalid(Error::Protocol(ProtocolError::InvalidOpcode));
            }
        } else if opcode != OpCode::Continuation {
            return HeadResult::Invalid(Error::Protocol(ProtocolError::InvalidOpcode));
        }
        let masked = b1 >= 128;
        if masked && self.role == Role::Client {
            return HeadResult::Invalid(Error::Protocol(ProtocolError::UnexpectedMaskedFrame));
        } else if !masked && self.role == Role::Server {
            return HeadResult::Invalid(Error::Protocol(ProtocolError::UnexpectedUnmaskedFrame));
        }
        parse_len_exec(s, self.limits.max_len(), fin, opcode, masked)
    }

    /// Decodes a frame from the start of `src`.
    ///
    /// Returns `Ok(None)` when more bytes are needed; payload bytes that are
    /// available already are unmasked in place and, for text, validated, so
    /// that invalid UTF-8 is detected before the frame is complete. A decoded
    /// frame comes with the number of bytes of `src` it took, which the caller
    /// removes from the buffer.
    ///
    /// # Errors
    ///
    /// Returns [`Error::Protocol`] on protocol violations by the peer and
    /// [`Error::PayloadTooLong`] when the frame exceeds the payload limit.
    pub fn decode(&mut self, src: &mut [u8]) -> (r: Result<Option<(Frame, usize)>, Error>)
        requires
            old(self).wf(),
        ensures
            ({
                let (out, st2, src2) = decode_step(old(self)@, old(src)@);
                &&& decode_result_matches(r, out)
                &&& !(out is Failed) ==> final(self)@ == st2 && final(src)@ == src2
                &&& !(out is Failed) ==> final(self).wf()
            }),
    {
        let h = match self.parse_head(src) {
            HeadResult::Incomplete => return Ok(None),
            HeadResult::Invalid(e) => return Err(e),
            HeadResult::Parsed(h) => h,
        };
        proof {
            lemma_parsed_head_bounds(src@, self@.role, self@.max_len, self@.frag);
            let hs = parse_head(src@, self@.role, self@.max_len, self@.frag)->Parsed_0;
            assert(hs == head_view(h));
        }
        self.decode_body(src, h)
    }

    /// Decodes the payload of a frame whose header was parsed as `h`.
    #[verifier::rlimit(40)]
    fn decode_body(&mut self, src: &mut [u8], h: HeadInfo) -> (r: Result<Option<(Frame, usize)>, Error>)
        requires
            old(self).wf(),
            h.offset <= old(src)@.len(),
            h.mask@.len() == 4,
            h.opcode == OpCode::Close ==> h.len != 1,
        ensures
            ({
                let (out, st2, src2) = decode_payload(old(self)@, old(src)@, head_view(h));
                &&& decode_result_matches(r, out)
                &&& !(out is Failed) ==> final(self)@ == st2 && final(src)@ == src2
                &&& !(out is Failed) ==> final(self).wf()
            }),
    {
        let ghost st = self@;
        let ghost s0 = src@;
        let ghost hs = head_view(h);
        let offset = h.offset;
        let len = h.len;
        let opcode = h.opcode;
        let fin = h.fin;
        let available = src.len() - offset;
        let avail = if available < len {
            available
        } else {
            len
        };
        let complete = avail == len;
        let is_text = opcode == OpCode::Text || (opcode == OpCode::Continuation
            && self.fragmented_message_opcode == OpCode::Text);
        let done = if self.payload_processed < avail {
            self.payload_processed
        } else {
            avail
        };
        let ghost raw = s0.subrange(offset as int, (offset + avail) as int);
        let ghost u = unmask_from(raw, hs.mask, done as int, h.masked);
        let ghost touched = len > 0 && h.masked && (complete || is_text);
        let ghost src2 = if touched {
            s0.take(offset as int) + u + s0.skip((offset + avail) as int)
        } else {
            s0
        };
        let ghost validate = len > 0 && is_text;
        let ghost fed_spec = u.skip(done as int);
        let ghost last = complete && fin;
        assert(is_text == is_text_frame(opcode, st.frag));
        if len != 0 {
            if h.masked && (complete || is_text) {
                mask::frame_range(&h.mask, src, offset + done, offset + avail, done % 4);
            }
            proof {
                lemma_unmask_in_place(s0, src@, offset as nat, done as nat, avail as nat, hs.mask, touched);
                if !touched && !h.masked {
                    assert(u =~= raw);
                    assert(src@.subrange(offset as int, (offset + avail) as int) =~= raw);
                }
                assert((touched || !h.masked) ==> src@.subrange(offset as int, (offset + avail) as int) == u);
                assert(src@ == src2);
            }
            if is_text {
                let fed = vstd::slice::slice_subrange(src, offset + done, offset + avail);
                assert(fed@ =~= fed_spec);
                match self.validator.feed(fed, complete && fin) {
                    Ok(()) => {},
                    Err(e) => {
                        return Err(Error::Protocol(e));
                    },
                }
                self.payload_processed = avail;
            }
            if !complete {
                return Ok(None);
            }
            if opcode == OpCode::Close {
                let hi = src[offset];
                let lo = src[offset + 1];
                assert(hi == u[0] && lo == u[1]);
                let code = match CloseCode::from_u16(((hi as u16) * 256 + lo as u16) as u16) {
                    Ok(c) => c,
                    Err(e) => return Err(Error::Protocol(e)),
                };
                if code.is_reserved() {
                    return Err(Error::Protocol(ProtocolError::InvalidCloseCode));
                }
                let reason = vstd::slice::slice_subrange(src, offset + 2, offset + len);
                assert(reason@ =~= u.skip(2));
                match utf8::parse_str(reason) {
                    Ok(_) => {},
                    Err(e) => return Err(Error::Protocol(e)),
                }
            }
        } else {
            assert(src2 == s0);
            assert(u =~= Seq::<u8>::empty());
        }
        let body = vstd::slice::slice_subrange(src, offset, offset + len);
        assert(body@ =~= u);
        let payload = Payload::from_slice(body);
        if (fin && opcode == OpCode::Continuation) || (!fin && opcode != OpCode::Continuation) {
            self.fragmented_message_opcode = opcode;
        }
        self.payload_processed = 0;
        Ok(Some((Frame { opcode, is_final: fin, payload }, offset + len)))
    }
}

/// The spec form of a parsed header.
spec fn head_view(h: HeadInfo) -> FrameHead {
    FrameHead {
        fin: h.fin,
        opcode: h.opcode,
        masked: h.masked,
        mask: h.mask@,
        len: h.len as nat,
        offset: h.offset as nat,
    }
}

/// A parsed header lies within the buffer, has a four-byte mask, and close
/// frames never announce a single payload byte.
proof fn lemma_parsed_head_bounds(s: Seq<u8>, role: Role, max_len: usize, frag: OpCode)
    ensures
        parse_head(s, role, max_len, frag) matches HeadParse::Parsed(h) ==> {
            &&& h.offset <= s.len()
            &&& h.mask.len() == 4
            &&& h.len <= max_len
            &&& (h.opcode == OpCode::Close ==> h.len != 1)
        },
{
}

/// Unmasking the payload range `[done, avail)` in place (when `touched`)
/// leaves the buffer as [`decode_payload`] describes it.
proof fn lemma_unmask_in_place(
    s0: Seq<u8>,
    s1: Seq<u8>,
    offset: nat,
    done: nat,
    avail: nat,
    mask: Seq<u8>,
    touched: bool,
)
    requires
        done <= avail,
        offset + avail <= s0.len(),
        mask.len() == 4,
        s1.len() == s0.len(),
        forall|j: int|
            0 <= j < s0.len() ==> #[trigger] s1[j] == if touched && offset + done <= j < offset
                + avail {
                s0[j] ^ mask[((j - (offset + done)) % 4 + (done % 4)) % 4]
            } else {
                s0[j]
            },
    ensures
        touched ==> s1 == s0.take(offset as int) + unmask_from(
            s0.subrange(offset as int, (offset + avail) as int),
            mask,
            done as int,
            true,
        ) + s0.skip((offset + avail) as int),
        !touched ==> s1 == s0,
        touched ==> s1.subrange(offset as int, (offset + avail) as int) == unmask_from(
            s0.subrange(offset as int, (offset + avail) as int),
            mask,
            done as int,
            true,
        ),
{
    if touched {
        let u = unmask_from(s0.subrange(offset as int, (offset + avail) as int), mask, done as int, true);
        assert forall|j: int| 0 <= j < s0.len() implies #[trigger] s1[j] == (s0.take(offset as int) + u
            + s0.skip((offset + avail) as int))[j] by {
            if offset + done <= j < offset + avail {
                let k = j - (offset + done);
                assert(((k % 4) + (done as int % 4)) % 4 == (k + done) % 4) by (nonlinear_arith)
                    requires
                        k >= 0,
                        done >= 0,
                ;
            }
        }
        assert(s1 =~= s0.take(offset as int) + u + s0.skip((offset + avail) as int));
        assert(s1.subrange(offset as int, (offset + avail) as int) =~= u);
    } else {
        assert(s1 =~= s0);
    }
}

} // verus!

verus! {

/// The header a sender puts on the wire: the encoded head, with the mask
/// bit set and the masking key appended when masked.
pub open spec fn wire_head(is_final: bool, opcode: OpCode, len: nat, masked: bool, mask: Seq<u8>) -> Seq<u8> {
    let head = frame_head(is_final, opcode, len);
    if masked {
        head.update(1, (head[1] + 128) as u8) + mask
    } else {
        head
    }
}

/// Reading back the big-endian bytes of a 64-bit number gives the number.
proof fn lemma_be_u64_roundtrip(v: nat)
    requires
        v < 0x1_0000_0000_0000_0000,
    ensures
        be_u64_at(u64_be_bytes(v), 0) == v,
{
    let b = u64_be_bytes(v);
    assert(b[0] as nat == v / 0x100000000000000);
    assert((v / 0x100000000000000) * 256 + (v / 0x1000000000000) % 256 == v / 0x1000000000000);
    assert((v / 0x1000000000000) * 256 + (v / 0x10000000000) % 256 == v / 0x10000000000);
    assert((v / 0x10000000000) * 256 + (v / 0x100000000) % 256 == v / 0x100000000);
    assert((v / 0x100000000) * 256 + (v / 0x1000000) % 256 == v / 0x1000000);
    assert((v / 0x1000000) * 256 + (v / 0x10000) % 256 == v / 0x10000);
    assert((v / 0x10000) * 256 + (v / 0x100) % 256 == v / 0x100);
    assert((v / 0x100) * 256 + v % 256 == v);
}

/// A frame header written by [`Frame::encode`], and masked by a client,
/// is read back by the peer's decoder as the same FIN bit, opcode and
/// payload length, whatever bytes follow it.
pub proof fn lemma_head_roundtrip(
    is_final: bool,
    opcode: OpCode,
    len: nat,
    mask: Seq<u8>,
    rest: Seq<u8>,
    role: Role,
    max_len: usize,
    frag: OpCode,
)
    requires
        mask.len() == 4,
        len <= max_len,
        is_control_opcode(opcode) ==> is_final && len <= 125,
        !is_control_opcode(opcode) ==> ((frag == OpCode::Continuation) != (opcode
            == OpCode::Continuation)),
        opcode == OpCode::Close ==> len != 1,
    ensures
        ({
            let masked = role == Role::Server;
            let key = if masked {
                mask
            } else {
                seq![0u8, 0u8, 0u8, 0u8]
            };
            let wire = wire_head(is_final, opcode, len, masked, mask);
            parse_head(wire + rest, role, max_len, frag) == HeadParse::Parsed(
                FrameHead {
                    fin: is_final,
                    opcode,
                    masked,
                    mask: key,
                    len,
                    offset: wire.len(),
                },
            )
        }),
{
    let masked = role == Role::Server;
    let head = frame_head(is_final, opcode, len);
    let wire = wire_head(is_final, opcode, len, masked, mask);
    let s = wire + rest;
    let b0 = frame_first_byte(is_final, opcode);
    assert(opcode_value(opcode) < 16);
    assert(s[0] == b0);
    assert((b0 / 16) % 8 == 0);
    assert(b0 % 16 == opcode_value(opcode));
    assert((b0 >= 128) == is_final);
    assert(opcode_of(b0 % 16) == Some(opcode));
    if len > 65535 {
        assert(len <= usize::MAX);
        lemma_be_u64_roundtrip(len);
        assert forall|i: int| 0 <= i < 8 implies s[2 + i] == u64_be_bytes(len)[i] by {
            assert(s.subrange(2, 10)[i] == s[2 + i]);
        }
        assert(be_u64_at(s, 2) == be_u64_at(u64_be_bytes(len), 0));
        if masked {
            assert(s.subrange(10, 14) =~= mask);
        }
    } else if len > 125 {
        assert(s[2] as nat * 256 + s[3] as nat == len);
        if masked {
            assert(s.subrange(4, 8) =~= mask);
        }
    } else {
        if masked {
            assert(s.subrange(2, 6) =~= mask);
        }
    }
}

} // verus!

verus! {

/// A buffer that holds a whole frame after a header that parses decodes to
/// that frame, when its unmasked payload passes the checks.
pub proof fn lemma_decode_whole_frame(st: DecoderState, src: Seq<u8>, h: FrameHead, u: Seq<u8>)
    requires
        parse_head(src, st.role, st.max_len, st.frag) == HeadParse::Parsed(h),
        st.processed == 0,
        src.len() >= h.offset + h.len,
        u == unmask_from(src.subrange(h.offset as int, (h.offset + h.len) as int), h.mask, 0, h.masked),
        h.len > 0 && is_text_frame(h.opcode, st.frag) ==> feed_accepts(st.pending, u, h.fin),
        h.len > 0 && h.opcode == OpCode::Close ==> close_error(u) is None,
    ensures
        decode_step(st, src).0 == DecodeOutcome::Decoded(h.fin, h.opcode, u, h.offset + h.len),
{
    assert(u.skip(0) =~= u);
}

/// A decoder that is not in the middle of a message or a frame yields a
/// final, non-empty text frame only when its payload is valid UTF-8.
pub proof fn lemma_decoded_text_is_utf8(st: DecoderState, src: Seq<u8>)
    requires
        st.frag == OpCode::Continuation,
        st.processed == 0,
        st.pending == Seq::<u8>::empty(),
    ensures
        match decode_step(st, src).0 {
            DecodeOutcome::Decoded(fin, op, p, n) => fin && op == OpCode::Text && p.len() > 0
                ==> valid_utf8(p),
            _ => true,
        },
{
    if let HeadParse::Parsed(h) = parse_head(src, st.role, st.max_len, st.frag) {
        let avail: nat = if src.len() - h.offset < h.len {
            (src.len() - h.offset) as nat
        } else {
            h.len
        };
        let raw = src.subrange(h.offset as int, (h.offset + avail) as int);
        let u = unmask_from(raw, h.mask, 0, h.masked);
        assert(Seq::<u8>::empty() + u.skip(0) =~= u);
    }
}

/// A header that parses does so from its own bytes alone: any buffer that
/// starts with the same bytes parses to the same header.
proof fn lemma_parse_head_stable(x: Seq<u8>, y: Seq<u8>, role: Role, max_len: usize, frag: OpCode)
    requires
        parse_head(x, role, max_len, frag) is Parsed,
        y.len() >= parse_head(x, role, max_len, frag)->Parsed_0.offset,
        y.take(parse_head(x, role, max_len, frag)->Parsed_0.offset as int) == x.take(
            parse_head(x, role, max_len, frag)->Parsed_0.offset as int,
        ),
    ensures
        parse_head(y, role, max_len, frag) == parse_head(x, role, max_len, frag),
{
    let h = parse_head(x, role, max_len, frag)->Parsed_0;
    lemma_parsed_head_bounds(x, role, max_len, frag);
    assert forall|i: int| 0 <= i < h.offset implies y[i] == x[i] by {
        assert(y.take(h.offset as int)[i] == x.take(h.offset as int)[i]);
    }
    assert(h.offset >= 2);
    assert(y[0] == x[0] && y[1] == x[1]);
    if x[1] % 128 == 126 {
        assert(h.offset >= 4);
        assert(y[2] == x[2] && y[3] == x[3]);
    }
    if x[1] % 128 == 127 {
        assert(h.offset >= 10);
        assert(be_u64_at(y, 2) == be_u64_at(x, 2)) by {
            assert(y[2] == x[2] && y[3] == x[3] && y[4] == x[4] && y[5] == x[5]);
            assert(y[6] == x[6] && y[7] == x[7] && y[8] == x[8] && y[9] == x[9]);
        }
    }
    if h.masked {
        let off = (h.offset - 4) as int;
        assert(y.subrange(off, off + 4) =~= x.subrange(off, off + 4));
    }
}

/// The frame-payload part of [`lemma_decode_split`], for a text payload.
#[verifier::rlimit(80)]
proof fn lemma_split_text_payload(st: DecoderState, s: Seq<u8>, m: Seq<u8>, h: FrameHead)
    requires
        h.offset <= s.len(),
        h.mask.len() == 4,
        st.processed <= s.len() - h.offset,
        h.len > 0,
        is_text_frame(h.opcode, st.frag),
        decode_payload(st, s, h).0 is Pending,
    ensures
        ({
            let (o1, st1, s1) = decode_payload(st, s, h);
            let (o2, st2, b2) = decode_payload(st1, s1 + m, h);
            let (od, std, bd) = decode_payload(st, s + m, h);
            &&& st1.frag == st.frag
            &&& s1.len() == s.len()
            &&& s1.take(h.offset as int) == s.take(h.offset as int)
            &&& !h.masked ==> s1 == s
            &&& o2 == od
            &&& !(od is Failed) ==> st2 == std && b2 == bd
        }),
{
    let (o1, st1, s1) = decode_payload(st, s, h);
    let off = h.offset as int;
    let sm = s + m;
    let avail1: nat = (s.len() - off) as nat;
    let done1: nat = st.processed;
    let raw1 = s.subrange(off, off + avail1);
    let u1 = unmask_from(raw1, h.mask, done1 as int, h.masked);
    let touched1 = h.masked;
    assert(avail1 < h.len);
    assert(s1.take(off) =~= s.take(off));
    assert(s1 == if touched1 {
        s.take(off) + u1 + s.skip(off + avail1)
    } else {
        s
    });
    let s1m = s1 + m;
    let avail2: nat = if sm.len() - off < h.len {
        (sm.len() - off) as nat
    } else {
        h.len
    };
    let raw_d = sm.subrange(off, off + avail2);
    let u_d = unmask_from(raw_d, h.mask, done1 as int, h.masked);
    assert(st1.processed == avail1);
    let fed1 = u1.skip(done1 as int);
    assert(st1.pending == feed_pending(st.pending, fed1, false));
    assert(feed_accepts(st.pending, fed1, false));
    let raw2 = s1m.subrange(off, off + avail2);
    let u2 = unmask_from(raw2, h.mask, avail1 as int, h.masked);
    assert(u2 =~= u_d) by {
        assert forall|i: int| 0 <= i < avail2 implies u2[i] == u_d[i] by {
            if i < avail1 {
                assert(raw2[i] == s1[off + i]);
                if touched1 {
                    assert(s1[off + i] == u1[i]);
                }
            } else {
                assert(raw2[i] == m[off + i - s.len()]);
                assert(raw_d[i] == m[off + i - s.len()]);
            }
        }
    }
    let fed2 = u2.skip(avail1 as int);
    assert(fed1 + fed2 =~= u_d.skip(done1 as int)) by {
        assert forall|i: int| 0 <= i < avail1 - done1 implies fed1[i] == u_d[done1 + i] by {
            assert(raw1[done1 + i] == raw_d[done1 + i]);
        }
    }
    let last = avail2 == h.len && h.fin;
    crate::utf8::lemma_feed_compose(st.pending, fed1, fed2, last);
    if h.masked {
        assert(s1m.take(off) + u2 + s1m.skip(off + avail2) =~= sm.take(off) + u_d + sm.skip(
            off + avail2,
        ));
    } else {
        assert(s1m =~= sm);
    }
}

/// The frame-payload part of [`lemma_decode_split`], for a payload that is
/// not validated.
proof fn lemma_split_plain_payload(st: DecoderState, s: Seq<u8>, m: Seq<u8>, h: FrameHead)
    requires
        h.offset <= s.len(),
        h.mask.len() == 4,
        !(h.len > 0 && is_text_frame(h.opcode, st.frag)),
        decode_payload(st, s, h).0 is Pending,
    ensures
        ({
            let (o1, st1, s1) = decode_payload(st, s, h);
            &&& st1 == st
            &&& s1 == s
        }),
{
}

/// Decoding a frame whose bytes arrive in two pieces, with the first
/// decoding step left waiting for more, has the same outcome as decoding
/// it once all bytes are there: the same frame or error, and (unless it
/// fails) the same decoder state and buffer. The waiting step takes no
/// byte: the buffer keeps its length and its header bytes, and only the
/// available payload of a masked frame may have been unmasked in place.
pub proof fn lemma_decode_split(st: DecoderState, s: Seq<u8>, m: Seq<u8>)
    requires
        decode_step(st, s).0 is Pending,
        parse_head(s, st.role, st.max_len, st.frag) matches HeadParse::Parsed(h) ==> st.processed
            <= s.len() - h.offset,
    ensures
        ({
            let (o1, st1, s1) = decode_step(st, s);
            let (o2, st2, b2) = decode_step(st1, s1 + m);
            let (od, std, bd) = decode_step(st, s + m);
            &&& s1.len() == s.len()
            &&& (parse_head(s, st.role, st.max_len, st.frag) matches HeadParse::Parsed(h)
                ==> s1.take(h.offset as int) == s.take(h.offset as int) && (!h.masked ==> s1 == s))
            &&& (!(parse_head(s, st.role, st.max_len, st.frag) is Parsed) ==> s1 == s)
            &&& o2 == od
            &&& !(od is Failed) ==> st2 == std && b2 == bd
        }),
{
    let (o1, st1, s1) = decode_step(st, s);
    match parse_head(s, st.role, st.max_len, st.frag) {
        HeadParse::Incomplete => {},
        HeadParse::Invalid(_) => {},
        HeadParse::Parsed(h) => {
            lemma_parsed_head_bounds(s, st.role, st.max_len, st.frag);
            let off = h.offset as int;
            let sm = s + m;
            assert(sm.take(off) =~= s.take(off));
            lemma_parse_head_stable(s, sm, st.role, st.max_len, st.frag);
            if h.len > 0 && is_text_frame(h.opcode, st.frag) {
                lemma_split_text_payload(st, s, m, h);
                assert(s1.len() == s.len());
                assert((s1 + m).take(off) =~= s.take(off));
                lemma_parse_head_stable(s, s1 + m, st.role, st.max_len, st.frag);
            } else {
                lemma_split_plain_payload(st, s, m, h);
            }
        },
    }
}


/// The opcode and FIN bit of a parsed header are those of the frame, and
/// the header was only accepted if its frame fits the message being
/// assembled.
proof fn lemma_parsed_head_opcode(s: Seq<u8>, role: Role, max_len: usize, frag: OpCode)
    ensures
        parse_head(s, role, max_len, frag) matches HeadParse::Parsed(h) ==> {
            &&& is_control_opcode(h.opcode) ==> h.fin
            &&& !is_control_opcode(h.opcode) ==> ((frag == OpCode::Continuation) != (h.opcode
                == OpCode::Continuation))
        },
{
}

/// What a decoded frame does to the message being assembled: a control
/// frame leaves it alone; a data frame is only decoded when it fits it (a
/// continuation exactly while a message is being assembled); a final data
/// frame ends the message, so that the decoder assembles none afterwards;
/// a non-final data frame leaves the decoder assembling a message of the
/// first frame's opcode.
pub proof fn lemma_decoded_frame_fragmentation(st: DecoderState, src: Seq<u8>)
    ensures
        decode_step(st, src).0 matches DecodeOutcome::Decoded(fin, op, _, _) ==> {
            let f2 = decode_step(st, src).1.frag;
            &&& is_control_opcode(op) ==> fin && f2 == st.frag
            &&& !is_control_opcode(op) ==> ((st.frag == OpCode::Continuation) != (op
                == OpCode::Continuation))
            &&& !is_control_opcode(op) && fin ==> f2 == OpCode::Continuation
            &&& !is_control_opcode(op) && !fin ==> f2 != OpCode::Continuation && f2 == (if op
                == OpCode::Continuation {
                st.frag
            } else {
                op
            })
        },
{
    lemma_parsed_head_opcode(src, st.role, st.max_len, st.frag);
}

} // verus!
