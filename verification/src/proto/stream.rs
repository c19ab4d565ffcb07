//! The connection logic of a WebSocket stream: the close handshake and its
//! state, the framing and queueing of outgoing messages, the answers to pings
//! and protocol violations, and the assembly of frames into messages.
//!
//! Reading from and writing to the underlying I/O is left to the caller,
//! which hands the frames it reads to [`Connection`] and writes out what the
//! [`FrameQueue`] holds.
use vstd::prelude::*;
use vstd::string::StringSliceAdditionalSpecFns;

use super::codec::{
    decode_step, is_text_frame, lemma_decode_whole_frame, lemma_head_roundtrip, unmask_from,
    wire_head, DecodeOutcome, DecoderState, FrameHead,
};
use super::error::ProtocolError;
use super::queue::{header_len_of, FrameQueue};
use super::types::{
    be_u16,
    chunked, frame_payloads, close_payload, frame_head, is_control_opcode, valid_close_payload, valid_message,
    CloseCode, Config, Frame, Message, OpCode, Payload, Role, StreamState,
};
use crate::Error;
use crate::mask::{self, apply_mask};

verus! {

broadcast use vstd::seq_lib::group_seq_properties;

/// The bytes a frame is sent as: its header, with the masking key when
/// masked, and its payload, masked when masked.
pub open spec fn frame_wire(
    is_final: bool,
    opcode: OpCode,
    payload: Seq<u8>,
    masked: bool,
    key: Seq<u8>,
) -> Seq<u8> {
    wire_head(is_final, opcode, payload.len(), masked, key) + (if masked {
        apply_mask(key, payload)
    } else {
        payload
    })
}

/// The 14-byte header buffer of a frame whose unmasked head `head[..n]` was
/// written by [`Frame::encode`], with the mask bit and key added when masked.
#[verifier::rlimit(30)]
fn build_header(
    head: &[u8; 10],
    n: usize,
    masked: bool,
    key: &[u8; 4],
    Ghost(is_final): Ghost<bool>,
    Ghost(opcode): Ghost<OpCode>,
    Ghost(len): Ghost<nat>,
) -> (r: [u8; 14])
    requires
        n == frame_head(is_final, opcode, len).len(),
        head@.take(n as int) == frame_head(is_final, opcode, len),
    ensures
        r@.take(header_len_of(r@) as int) == wire_head(is_final, opcode, len, masked, key@),
{
    let ghost fh = frame_head(is_final, opcode, len);
    assert(n <= 10 && n >= 2);
    assert(fh[1] < 128);
    let mut header = [0u8; 14];
    let mut i: usize = 0;
    while i < n
        invariant
            i <= n,
            n == fh.len(),
            2 <= n <= 10,
            head@.take(n as int) == fh,
            forall|j: int| 0 <= j < i ==> header@[j] == fh[j],
        decreases n - i,
    {
        header[i] = head[i];
        i = i + 1;
    }
    assert(header@[1] == fh[1]);
    if masked {
        header[n] = key[0];
        header[n + 1] = key[1];
        header[n + 2] = key[2];
        header[n + 3] = key[3];
        header[1] = header[1] + 128;
    }
    assert(header@.take(header_len_of(header@) as int) =~= wire_head(is_final, opcode, len, masked, key@));
    header
}

/// The state after queueing a frame with the given opcode in state `state`:
/// a close frame sent by us starts the closing handshake, unless it answers
/// the peer's close.
pub open spec fn state_after_queue(state: StreamState, opcode: OpCode) -> StreamState {
    if opcode == OpCode::Close && state != StreamState::ClosedByPeer {
        StreamState::ClosedByUs
    } else {
        state
    }
}

/// How far along the closing handshake a state is; it never goes back.
pub open spec fn close_progress(state: StreamState) -> nat {
    match state {
        StreamState::Active => 0,
        StreamState::ClosedByPeer => 1,
        StreamState::ClosedByUs => 1,
        StreamState::CloseAcknowledged => 2,
    }
}

/// `next` does not undo the closing handshake of `prev`.
pub open spec fn state_moves_on(prev: StreamState, next: StreamState) -> bool {
    ||| prev == next
    ||| close_progress(prev) < close_progress(next)
}

/// What the connection logic holds.
pub struct ConnectionView {
    /// The role of this endpoint.
    pub role: Role,
    /// The configured frame size.
    pub frame_size: usize,
    /// The configured flush threshold.
    pub flush_threshold: usize,
    /// The state of the closing handshake.
    pub state: StreamState,
    /// The opcode of the message being assembled (`Continuation` when none is).
    pub partial_opcode: OpCode,
    /// The payload of the message assembled so far.
    pub partial_payload: Seq<u8>,
    /// The bytes queued for sending and not yet written.
    pub queued: Seq<u8>,
}

/// The logic of a WebSocket stream: close handshake state, outgoing frame
/// queue and message assembly. The caller performs the I/O.
#[derive(Debug)]
pub struct Connection {
    /// The role of this endpoint.
    role: Role,
    /// Configuration for the stream.
    config: Config,
    /// The state of the current stream.
    state: StreamState,
    /// Payload of the full message that is being assembled.
    partial_payload: Payload,
    /// Opcode of the full message that is being assembled.
    partial_opcode: OpCode,
    /// Queue of outgoing frames to send.
    frame_queue: FrameQueue,
}

impl View for Connection {
    type V = ConnectionView;

    closed spec fn view(&self) -> ConnectionView {
        ConnectionView {
            role: self.role,
            frame_size: self.config@.0,
            flush_threshold: self.config@.1,
            state: self.state,
            partial_opcode: self.partial_opcode,
            partial_payload: self.partial_payload@,
            queued: self.frame_queue@,
        }
    }
}

impl Connection {
    /// The queue is consistent, frames have a size and the message being
    /// assembled is text or binary.
    pub closed spec fn wf(&self) -> bool {
        &&& self.frame_queue.wf()
        &&& self.config.wf()
        &&& (self.partial_opcode == OpCode::Continuation || self.partial_opcode == OpCode::Text
            || self.partial_opcode == OpCode::Binary)
    }

    /// Creates the logic of a fresh, active connection.
    pub fn new(role: Role, config: Config) -> (r: Self)
        requires
            config.wf(),
        ensures
            r.wf(),
            r@ == (ConnectionView {
                role,
                frame_size: config@.0,
                flush_threshold: config@.1,
                state: StreamState::Active,
                partial_opcode: OpCode::Continuation,
                partial_payload: Seq::empty(),
                queued: Seq::empty(),
            }),
    {
        let partial_payload = Payload::from_vec(Vec::new());
        assert(partial_payload@ =~= Seq::<u8>::empty());
        Self {
            role,
            config,
            state: StreamState::Active,
            partial_payload,
            partial_opcode: OpCode::Continuation,
            frame_queue: FrameQueue::new(),
        }
    }

    /// The state of the closing handshake.
    pub fn state(&self) -> (r: StreamState)
        ensures
            r == self@.state,
    {
        self.state
    }

    /// The queue of outgoing bytes.
    pub fn frame_queue(&self) -> (r: &FrameQueue)
        requires
            self.wf(),
        ensures
            r.wf(),
            r@ == self@.queued,
    {
        &self.frame_queue
    }

    /// Marks `n` queued bytes as written to the I/O.
    pub fn advance(&mut self, n: usize)
        requires
            old(self).wf(),
            n <= old(self)@.queued.len(),
        ensures
            final(self).wf(),
            final(self)@ == (ConnectionView { queued: old(self)@.queued.skip(n as int), ..old(self)@ }),
    {
        self.frame_queue.advance(n);
    }

    /// Masks (as a client) and queues a frame for sending.
    pub fn queue_frame(&mut self, frame: Frame)
        requires
            old(self).wf(),
            old(self)@.queued.len() + 14 + frame.payload@.len() <= usize::MAX,
        ensures
            final(self).wf(),
            final(self)@.state == state_after_queue(old(self)@.state, frame.opcode),
            exists|key: Seq<u8>|
                key.len() == 4 && final(self)@.queued == old(self)@.queued + frame_wire(
                    frame.is_final,
                    frame.opcode,
                    frame.payload@,
                    old(self)@.role == Role::Client,
                    key,
                ),
            final(self)@ == (ConnectionView {
                state: final(self)@.state,
                queued: final(self)@.queued,
                ..old(self)@
            }),
    {
        if frame.opcode == OpCode::Close && self.state != StreamState::ClosedByPeer {
            self.state = StreamState::ClosedByUs;
        }
        let mut head = [0u8; 10];
        let n = frame.encode(&mut head) as usize;
        let mut payload = frame.payload.into_vec();
        let ghost plain = payload@;
        let masked = self.role == Role::Client;
        let mut key = [0u8; 4];
        if masked {
            crate::rand::get_mask(&mut key);
            let mut k = key;
            mask::frame(&mut k, payload.as_mut_slice(), true);
        }
        let header = build_header(&head, n, masked, &key, Ghost(frame.is_final), Ghost(frame.opcode), Ghost(plain.len()));
        let ghost q0 = self.frame_queue@;
        assert(payload@ == (if masked { apply_mask(key@, plain) } else { plain }));
        self.frame_queue.push(header, payload);
        assert(self.frame_queue@ =~= q0 + frame_wire(frame.is_final, frame.opcode, plain, masked, key@));
        assert(key@.len() == 4 && self@.queued == old(self)@.queued + frame_wire(
            frame.is_final,
            frame.opcode,
            frame.payload@,
            old(self)@.role == Role::Client,
            key@,
        ));
    }

    /// What to do before reading the next frame.
    pub fn read_gate(&self) -> (r: ReadGate)
        requires
            self.wf(),
        ensures
            r == (match self@.state {
                StreamState::CloseAcknowledged => ReadGate::Finished,
                StreamState::ClosedByPeer => ReadGate::FlushThenFinish,
                _ => ReadGate::Read { flush_first: self@.queued.len() > 0 },
            }),
    {
        match self.state {
            StreamState::CloseAcknowledged => ReadGate::Finished,
            StreamState::ClosedByPeer => ReadGate::FlushThenFinish,
            _ => ReadGate::Read { flush_first: self.frame_queue.has_remaining() },
        }
    }

    /// Marks the close as acknowledged: after the acknowledgement of the
    /// peer's close was flushed, or once the I/O failed.
    pub fn acknowledge_close(&mut self)
        ensures
            final(self)@ == (ConnectionView { state: StreamState::CloseAcknowledged, ..old(self)@ }),
            old(self).wf() ==> final(self).wf(),
    {
        self.state = StreamState::CloseAcknowledged;
    }

    /// Whether the queue must be flushed before another message is accepted.
    pub fn must_flush_before_ready(&self) -> (r: bool)
        requires
            self.wf(),
        ensures
            r == (self@.queued.len() >= self@.flush_threshold),
    {
        self.frame_queue.remaining() >= self.config.flush_threshold_value()
    }

    /// Answers a frame read from the peer: a close received while active is
    /// echoed with its status code, a close received after ours completes
    /// the handshake, and a ping received while active is answered with a
    /// pong carrying the same payload.
    pub fn on_frame(&mut self, frame: &Frame)
        requires
            old(self).wf(),
            old(self)@.queued.len() + 14 + frame.payload@.len() <= usize::MAX,
        ensures
            final(self).wf(),
            final(self)@.state == state_after_frame(old(self)@.state, frame.opcode),
            match frame_reply(old(self)@.state, frame.opcode, frame.payload@) {
                Some((op, p)) => exists|key: Seq<u8>|
                    key.len() == 4 && final(self)@.queued == old(self)@.queued + frame_wire(
                        frame.is_final,
                        op,
                        p,
                        old(self)@.role == Role::Client,
                        key,
                    ),
                None => final(self)@.queued == old(self)@.queued,
            },
            final(self)@ == (ConnectionView {
                state: final(self)@.state,
                queued: final(self)@.queued,
                ..old(self)@
            }),
    {
        match frame.opcode {
            OpCode::Close => {
                if self.state == StreamState::Active {
                    self.state = StreamState::ClosedByPeer;
                    let mut payload = frame.payload.duplicate();
                    payload.truncate(2);
                    self.queue_frame(Frame { opcode: OpCode::Close, is_final: frame.is_final, payload });
                } else if self.state == StreamState::ClosedByUs {
                    self.state = StreamState::CloseAcknowledged;
                }
            },
            OpCode::Ping => {
                if self.state == StreamState::Active {
                    let payload = frame.payload.duplicate();
                    self.queue_frame(Frame { opcode: OpCode::Pong, is_final: frame.is_final, payload });
                }
            },
            _ => {},
        }
    }

    /// Reacts to a failed read: an I/O failure, or any failure after we
    /// closed, ends the connection; a protocol violation or an oversized
    /// payload is answered with a close frame.
    pub fn on_read_error(&mut self, err: &Error)
        requires
            old(self).wf(),
            old(self)@.queued.len() + 14 + 125 <= usize::MAX,
        ensures
            final(self).wf(),
            final(self)@.state == (if err is Io || old(self)@.state == StreamState::ClosedByUs {
                StreamState::CloseAcknowledged
            } else {
                StreamState::ClosedByPeer
            }),
            match error_reply(err) {
                Some(p) if !(err is Io || old(self)@.state == StreamState::ClosedByUs) => exists|
                    key: Seq<u8>,
                |
                    key.len() == 4 && final(self)@.queued == old(self)@.queued + frame_wire(
                        true,
                        OpCode::Close,
                        p,
                        old(self)@.role == Role::Client,
                        key,
                    ),
                _ => final(self)@.queued == old(self)@.queued,
            },
            final(self)@ == (ConnectionView {
                state: final(self)@.state,
                queued: final(self)@.queued,
                ..old(self)@
            }),
    {
        let io = match err {
            Error::Io(_) => true,
            _ => false,
        };
        if io || self.state == StreamState::ClosedByUs {
            self.state = StreamState::CloseAcknowledged;
            return;
        }
        self.state = StreamState::ClosedByPeer;
        match err {
            Error::Protocol(e) => {
                let frame = Frame::from_protocol_error(e);
                proof {
                    lemma_protocol_error_text_short(*e);
                }
                self.queue_frame(frame);
            },
            Error::PayloadTooLong { max_len, .. } => {
                let mut reason = Vec::new();
                crate::proto::types::extend_bytes(&mut reason, "max length: ".as_bytes());
                let digits = decimal_bytes(*max_len);
                crate::proto::types::extend_bytes(&mut reason, digits.as_slice());
                proof {
                    reveal_strlit("max length: ");
                    assert(vstd::utf8::is_ascii_chars("max length: "@));
                    lemma_ascii_len("max length: ");
                    lemma_decimal_len(*max_len as nat);
                    assert(reason@ == max_length_reason(*max_len));
                }
                let frame = Frame::close(CloseCode::message_too_big(), reason.as_slice());
                self.queue_frame(frame);
            },
            _ => {},
        }
    }

    /// Whether `frame` can be added to the message being assembled: it is a
    /// frame the protocol allows (control frames final with at most 125
    /// bytes, close frames with a valid close payload), a continuation only
    /// comes while a message is being assembled, and the message's length
    /// fits in memory. Frames from the decoder always can.
    pub fn can_assemble(&self, frame: &Frame) -> (r: bool)
        requires
            self.wf(),
        ensures
            r == (valid_frame(frame.is_final, frame.opcode, frame.payload@) && (frame.opcode
                == OpCode::Continuation ==> self@.partial_opcode != OpCode::Continuation)
                && self@.partial_payload.len() + frame.payload@.len() <= usize::MAX),
    {
        let len = frame.payload.len();
        if frame.opcode.is_control() && (!frame.is_final || len > 125) {
            return false;
        }
        if frame.opcode == OpCode::Close && !valid_close_bytes(frame.payload.as_slice()) {
            return false;
        }
        if frame.opcode == OpCode::Continuation && self.partial_opcode == OpCode::Continuation {
            return false;
        }
        self.partial_payload.len() <= usize::MAX - len
    }

    /// Adds a frame read from the peer to the message being assembled.
    ///
    /// Returns the message once it is complete: at once for a final frame
    /// that is not a continuation (control frames may arrive in the middle
    /// of a fragmented message), or with the final continuation frame.
    ///
    /// # Errors
    ///
    /// Returns [`Error::PayloadTooLong`] when a continuation would make the
    /// message longer than `max_len`.
    pub fn assemble(&mut self, frame: Frame, max_len: usize) -> (r: Result<Option<Message>, Error>)
        requires
            old(self).wf(),
            valid_frame(frame.is_final, frame.opcode, frame.payload@),
            frame.opcode == OpCode::Continuation ==> old(self)@.partial_opcode != OpCode::Continuation,
            old(self)@.partial_payload.len() + frame.payload@.len() <= usize::MAX,
        ensures
            final(self).wf(),
            ({
                let (res, op2, p2) = assemble_step(
                    old(self)@.partial_opcode,
                    old(self)@.partial_payload,
                    frame.is_final,
                    frame.opcode,
                    frame.payload@,
                    max_len,
                );
                &&& match res {
                    AssembleOutcome::Pending => r matches Ok(None),
                    AssembleOutcome::Complete(op, p) => r matches Ok(Some(m)) && m@ == (op, p),
                    AssembleOutcome::TooLong(len) => r matches Err(e) && e == Error::PayloadTooLong {
                        len,
                        max_len,
                    },
                }
                &&& final(self)@ == (ConnectionView {
                    partial_opcode: op2,
                    partial_payload: p2,
                    ..old(self)@
                })
            }),
    {
        let opcode = frame.opcode;
        let fin = frame.is_final;
        let len = self.partial_payload.len() + frame.payload.len();
        if opcode != OpCode::Continuation {
            if fin {
                return Ok(Some(Message::from_parts(opcode, frame.payload)));
            }
            self.partial_opcode = opcode;
            self.partial_payload = frame.payload;
            return Ok(None);
        } else if len > max_len {
            return Err(Error::PayloadTooLong { len, max_len });
        } else {
            self.partial_payload.extend_from_slice(frame.payload.as_slice());
        }
        if !fin {
            return Ok(None);
        }
        let opcode = self.partial_opcode;
        self.partial_opcode = OpCode::Continuation;
        let mut payload = Payload::from_vec(Vec::new());
        std::mem::swap(&mut payload, &mut self.partial_payload);
        assert(self.partial_payload@ =~= Seq::<u8>::empty());
        Ok(Some(Message::from_parts(opcode, payload)))
    }

    /// Queues a message for sending, split into frames of the configured
    /// frame size unless it is a control message or fits in one frame.
    ///
    /// # Errors
    ///
    /// Returns [`Error::AlreadyClosed`] once the connection is no longer
    /// active.
    #[verifier::rlimit(80)]
    pub fn start_send(&mut self, item: Message) -> (r: Result<(), Error>)
        requires
            old(self).wf(),
            old(self)@.queued.len() + 15 * (item@.1.len() + 1) <= usize::MAX,
        ensures
            final(self).wf(),
            r is Err <==> old(self)@.state != StreamState::Active,
            r matches Err(e) ==> e == Error::AlreadyClosed && final(self)@ == old(self)@,
            r is Ok ==> exists|frames: Seq<Frame>, keys: Seq<Seq<u8>>|
                {
                    &&& sent_as(item@.0, item@.1, old(self)@.frame_size as nat, frames)
                    &&& keys.len() == frames.len()
                    &&& forall|i: int| 0 <= i < keys.len() ==> (#[trigger] keys[i]).len() == 4
                    &&& final(self)@.queued == old(self)@.queued + frames_wire(
                        frames,
                        old(self)@.role == Role::Client,
                        keys,
                    )
                },
            r is Ok ==> final(self)@.state == state_after_queue(old(self)@.state, item@.0),
            final(self)@ == (ConnectionView {
                state: final(self)@.state,
                queued: final(self)@.queued,
                ..old(self)@
            }),
    {
        if self.state != StreamState::Active {
            return Err(Error::AlreadyClosed);
        }
        let opcode = item.opcode();
        let frame_size = self.config.frame_size_value();
        if opcode.is_control() || item.as_payload().len() <= frame_size {
            let frame = Frame::from_message(item);
            let ghost f = frame;
            self.queue_frame(frame);
            proof {
                let key = choose|key: Seq<u8>|
                    key.len() == 4 && self@.queued == old(self)@.queued + frame_wire(
                        f.is_final,
                        f.opcode,
                        f.payload@,
                        old(self)@.role == Role::Client,
                        key,
                    );
                lemma_frames_wire_one(f, old(self)@.role == Role::Client, key);
                assert(sent_as(item@.0, item@.1, frame_size as nat, seq![f]));
            }
            Ok(())
        } else {
            let mut frames = item.into_frames(frame_size);
            let ghost all = frames@;
            let ghost mut keys: Seq<Seq<u8>> = Seq::empty();
            let ghost q0 = self@.queued;
            let mut i: usize = 0;
            let n = frames.len();
            proof {
                lemma_chunked_room(item@.0, item@.1, frame_size as nat, all);
                assert(all.drop_first() =~= all.subrange(1, all.len() as int));
                assert(frames_wire(all.take(0), old(self)@.role == Role::Client, keys) =~= Seq::<u8>::empty());
            }
            while i < n
                invariant
                    self.wf(),
                    n == all.len(),
                    i <= n,
                    frames@ == all.skip(i as int),
                    keys.len() == i,
                    forall|j: int| 0 <= j < keys.len() ==> (#[trigger] keys[j]).len() == 4,
                    self@.queued == q0 + frames_wire(all.take(i as int), old(self)@.role == Role::Client, keys),
                    self@.queued.len() + 14 * (n - i) + payloads_len(all.skip(i as int)) <= usize::MAX,
                    self@ == (ConnectionView { state: self@.state, queued: self@.queued, ..old(self)@ }),
                    self@.state == StreamState::Active,
                    !is_control_opcode(item@.0),
                    chunked(item@.0, item@.1, frame_size as nat, all),
                    q0 == old(self)@.queued,
                decreases n - i,
            {
                let frame = frames.pop_front().unwrap();
                let ghost f = frame;
                proof {
                    assert(f == all[i as int]);
                    lemma_payloads_len_first(all.skip(i as int));
                    assert(all.skip(i as int).drop_first() =~= all.skip(i + 1));
                }
                let ghost before = self@.queued;
                self.queue_frame(frame);
                proof {
                    let key = choose|key: Seq<u8>|
                        key.len() == 4 && self@.queued == before + frame_wire(
                            f.is_final,
                            f.opcode,
                            f.payload@,
                            old(self)@.role == Role::Client,
                            key,
                        );
                    lemma_frames_wire_push(all.take(i as int), keys, f, old(self)@.role == Role::Client, key);
                    assert(all.take(i as int).push(f) =~= all.take(i + 1));
                    keys = keys.push(key);
                }
                i = i + 1;
            }
            proof {
                assert(all.take(n as int) =~= all);
            }
            Ok(())
        }
    }

    /// Starts closing the connection: queues a normal close frame if the
    /// connection is still active.
    pub fn begin_close(&mut self)
        requires
            old(self).wf(),
            old(self)@.queued.len() + 14 + 2 <= usize::MAX,
        ensures
            final(self).wf(),
            old(self)@.state == StreamState::Active ==> final(self)@.state == StreamState::ClosedByUs
                && exists|key: Seq<u8>|
                key.len() == 4 && final(self)@.queued == old(self)@.queued + frame_wire(
                    true,
                    OpCode::Close,
                    close_payload(Some(1000), Seq::empty()),
                    old(self)@.role == Role::Client,
                    key,
                ),
            old(self)@.state != StreamState::Active ==> final(self)@ == old(self)@,
            final(self)@ == (ConnectionView {
                state: final(self)@.state,
                queued: final(self)@.queued,
                ..old(self)@
            }),
    {
        if self.state == StreamState::Active {
            self.queue_frame(Frame::default_close());
        }
    }
}

/// What to do before reading the next frame.
#[derive(Debug, Clone, Copy, PartialEq, Eq, Structural)]
pub enum ReadGate {
    /// The closing handshake is complete: the stream has ended.
    Finished,
    /// The peer closed: flush the acknowledgement, then the stream ends.
    FlushThenFinish,
    /// Read the next frame, after trying to flush the queue if `flush_first`.
    Read { flush_first: bool },
}

/// The state after a frame with `opcode` was read from the peer.
pub open spec fn state_after_frame(state: StreamState, opcode: OpCode) -> StreamState {
    if opcode == OpCode::Close {
        match state {
            StreamState::Active => StreamState::ClosedByPeer,
            StreamState::ClosedByUs => StreamState::CloseAcknowledged,
            _ => state,
        }
    } else {
        state
    }
}

/// The frame (opcode and payload) queued in answer to a frame read from the
/// peer: the close echoed with at most its status code, a pong for a ping.
pub open spec fn frame_reply(state: StreamState, opcode: OpCode, payload: Seq<u8>) -> Option<
    (OpCode, Seq<u8>),
> {
    if state != StreamState::Active {
        None
    } else if opcode == OpCode::Close {
        Some((OpCode::Close, if payload.len() > 2 { payload.take(2) } else { payload }))
    } else if opcode == OpCode::Ping {
        Some((OpCode::Pong, payload))
    } else {
        None
    }
}

/// The decimal digits of `n` in ASCII, without leading zeros.
pub open spec fn decimal(n: nat) -> Seq<u8>
    decreases n,
{
    if n < 10 {
        seq![(48 + n) as u8]
    } else {
        decimal(n / 10).push((48 + n % 10) as u8)
    }
}

/// Ten to the power `k`.
pub open spec fn pow10(k: nat) -> nat
    decreases k,
{
    if k == 0 {
        1
    } else {
        10 * pow10((k - 1) as nat)
    }
}

/// The close reason sent when a message exceeds `max_len`.
pub open spec fn max_length_reason(max_len: usize) -> Seq<u8> {
    "max length: ".spec_bytes() + decimal(max_len as nat)
}

/// The close payload sent in answer to a failed read, if any.
pub open spec fn error_reply(err: &Error) -> Option<Seq<u8>> {
    match err {
        Error::Protocol(e) => Some(
            if *e == ProtocolError::InvalidUtf8 {
                close_payload(Some(1007), "invalid utf8".spec_bytes())
            } else {
                close_payload(Some(1002), super::error::protocol_error_text(*e).spec_bytes())
            },
        ),
        Error::PayloadTooLong { max_len, .. } => Some(
            close_payload(Some(1009), max_length_reason(*max_len)),
        ),
        _ => None,
    }
}

/// A number below `10^k` has at most `k` digits.
proof fn lemma_decimal_len_le(n: nat, k: nat)
    requires
        k >= 1,
        n < pow10(k),
    ensures
        decimal(n).len() <= k,
    decreases n,
{
    if n >= 10 {
        let k1 = (k - 1) as nat;
        if k1 == 0 {
            assert(pow10(k) == 10) by {
                reveal_with_fuel(pow10, 2);
            }
        } else {
            assert(pow10(k) == 10 * pow10(k1));
            assert(n / 10 < pow10(k1)) by (nonlinear_arith)
                requires
                    n < 10 * pow10(k1),
            ;
            lemma_decimal_len_le(n / 10, k1);
        }
    }
}

/// A `usize` has at most 20 digits.
proof fn lemma_decimal_len(n: nat)
    requires
        n <= usize::MAX,
    ensures
        decimal(n).len() <= 20,
{
    assert(pow10(20) == 100000000000000000000nat) by {
        reveal_with_fuel(pow10, 21);
    }
    lemma_decimal_len_le(n, 20);
}

/// The decimal digits of `n` in ASCII.
pub fn decimal_bytes(n: usize) -> (r: Vec<u8>)
    ensures
        r@ == decimal(n as nat),
    decreases n,
{
    if n < 10 {
        let d: u8 = 48 + (n as u8);
        vec![d]
    } else {
        let mut v = decimal_bytes(n / 10);
        let d: u8 = 48 + ((n % 10) as u8);
        v.push(d);
        v
    }
}

/// An ASCII string is encoded as one byte per character.
proof fn lemma_ascii_len(s: &str)
    requires
        vstd::utf8::is_ascii_chars(s@),
    ensures
        s.spec_bytes().len() == s@.len(),
{
    vstd::utf8::is_ascii_chars_encode_utf8(s@);
}

/// Every protocol error's description fits in a close frame.
proof fn lemma_protocol_error_text_short(e: ProtocolError)
    ensures
        super::error::protocol_error_text(e).spec_bytes().len() <= 123,
        "invalid utf8".spec_bytes().len() <= 123,
{
    reveal_strlit("invalid utf8");
    lemma_ascii_len("invalid utf8");
    match e {
        ProtocolError::FragmentedControlFrame => {
            reveal_strlit("fragmented control frame");
            lemma_ascii_len("fragmented control frame");
        },
        ProtocolError::InvalidCloseCode => {
            reveal_strlit("invalid close code");
            lemma_ascii_len("invalid close code");
        },
        ProtocolError::InvalidOpcode => {
            reveal_strlit("invalid opcode");
            lemma_ascii_len("invalid opcode");
        },
        ProtocolError::InvalidPayloadLength => {
            reveal_strlit("invalid payload length");
            lemma_ascii_len("invalid payload length");
        },
        ProtocolError::InvalidRsv => {
            reveal_strlit("invalid extension");
            lemma_ascii_len("invalid extension");
        },
        ProtocolError::InvalidUtf8 => {
            reveal_strlit("invalid utf-8");
            lemma_ascii_len("invalid utf-8");
        },
        ProtocolError::UnexpectedMaskedFrame => {
            reveal_strlit("unexpected masked frame");
            lemma_ascii_len("unexpected masked frame");
        },
        ProtocolError::UnexpectedUnmaskedFrame => {
            reveal_strlit("unexpected unmasked frame");
            lemma_ascii_len("unexpected unmasked frame");
        },
    }
}

/// Whether `p` is a close payload as the protocol allows it.
fn valid_close_bytes(p: &[u8]) -> (r: bool)
    ensures
        r == valid_close_payload(p@),
{
    let len = p.len();
    if len == 0 {
        return true;
    }
    if len < 2 {
        return false;
    }
    let code: u16 = (p[0] as u16) * 256 + p[1] as u16;
    assert(code == be_u16(p@[0], p@[1]));
    match CloseCode::from_u16(code) {
        Ok(c) => {
            if c.is_reserved() {
                return false;
            }
        },
        Err(_) => return false,
    }
    let rest = vstd::slice::slice_subrange(p, 2, len);
    assert(rest@ =~= p@.skip(2));
    crate::utf8::parse_str(rest).is_ok()
}

/// A frame as a peer may send it: control frames are final and carry at
/// most 125 bytes, close frames a valid close payload.
pub open spec fn valid_frame(fin: bool, op: OpCode, payload: Seq<u8>) -> bool {
    &&& (is_control_opcode(op) ==> fin && payload.len() <= 125)
    &&& (op == OpCode::Close ==> valid_close_payload(payload))
}

/// The outcome of adding a frame to a message being assembled.
pub enum AssembleOutcome {
    /// The message is not complete yet.
    Pending,
    /// A complete message: opcode and payload.
    Complete(OpCode, Seq<u8>),
    /// The message would grow to this length, beyond the limit.
    TooLong(usize),
}

/// Adding a frame to the message being assembled (opcode `op0`, payload
/// `p0`): the outcome, and the message being assembled afterwards.
pub open spec fn assemble_step(
    op0: OpCode,
    p0: Seq<u8>,
    fin: bool,
    op: OpCode,
    payload: Seq<u8>,
    max_len: usize,
) -> (AssembleOutcome, OpCode, Seq<u8>) {
    if op != OpCode::Continuation {
        if fin {
            (AssembleOutcome::Complete(op, payload), op0, p0)
        } else {
            (AssembleOutcome::Pending, op, payload)
        }
    } else if p0.len() + payload.len() > max_len {
        (AssembleOutcome::TooLong((p0.len() + payload.len()) as usize), op0, p0)
    } else if fin {
        (AssembleOutcome::Complete(op0, p0 + payload), OpCode::Continuation, Seq::empty())
    } else {
        (AssembleOutcome::Pending, op0, p0 + payload)
    }
}

/// `frames` are how a message with opcode `op` and payload `p` is sent:
/// as a single final frame when it is a control message or fits in one
/// frame, cut into frames of `frame_size` bytes otherwise.
pub open spec fn sent_as(op: OpCode, p: Seq<u8>, frame_size: nat, frames: Seq<Frame>) -> bool {
    if is_control_opcode(op) || p.len() <= frame_size {
        &&& frames.len() == 1
        &&& frames[0].opcode == op
        &&& frames[0].is_final
        &&& frames[0].payload@ == p
    } else {
        chunked(op, p, frame_size, frames)
    }
}

/// The bytes a sequence of frames is sent as, with the given masking keys.
pub open spec fn frames_wire(frames: Seq<Frame>, masked: bool, keys: Seq<Seq<u8>>) -> Seq<u8>
    decreases frames.len(),
{
    if frames.len() == 0 {
        Seq::empty()
    } else {
        frames_wire(frames.drop_last(), masked, keys.drop_last()) + frame_wire(
            frames.last().is_final,
            frames.last().opcode,
            frames.last().payload@,
            masked,
            keys.last(),
        )
    }
}

/// The total payload length of a sequence of frames.
pub open spec fn payloads_len(frames: Seq<Frame>) -> nat
    decreases frames.len(),
{
    if frames.len() == 0 {
        0
    } else {
        frames[0].payload@.len() + payloads_len(frames.drop_first())
    }
}

/// The first frame's payload counts first.
proof fn lemma_payloads_len_first(frames: Seq<Frame>)
    requires
        frames.len() > 0,
    ensures
        payloads_len(frames) == frames[0].payload@.len() + payloads_len(frames.drop_first()),
{
}

/// A single frame is sent as its own bytes.
proof fn lemma_frames_wire_one(f: Frame, masked: bool, key: Seq<u8>)
    ensures
        frames_wire(seq![f], masked, seq![key]) == frame_wire(
            f.is_final,
            f.opcode,
            f.payload@,
            masked,
            key,
        ),
{
    assert(seq![f].drop_last() =~= Seq::<Frame>::empty());
    assert(frames_wire(Seq::<Frame>::empty(), masked, Seq::<Seq<u8>>::empty()) =~= Seq::<u8>::empty());
    assert(seq![f].last() == f);
    assert(seq![key].last() == key);
    assert(seq![key].drop_last() =~= Seq::<Seq<u8>>::empty());
}

/// A frame queued last is sent last.
proof fn lemma_frames_wire_push(frames: Seq<Frame>, keys: Seq<Seq<u8>>, f: Frame, masked: bool, key: Seq<u8>)
    ensures
        frames_wire(frames.push(f), masked, keys.push(key)) == frames_wire(frames, masked, keys)
            + frame_wire(f.is_final, f.opcode, f.payload@, masked, key),
{
    assert(frames.push(f).drop_last() =~= frames);
    assert(keys.push(key).drop_last() =~= keys);
}

/// The frames a message is cut into carry its payload, and there is at most
/// one per payload byte, or one for an empty payload.
proof fn lemma_chunked_room(op: OpCode, p: Seq<u8>, frame_size: nat, frames: Seq<Frame>)
    requires
        chunked(op, p, frame_size, frames),
        frame_size > 0,
    ensures
        payloads_len(frames) == p.len(),
        frames.len() <= p.len() + 1,
{
    lemma_payloads_flatten(frames);
    lemma_frames_count(frames, frame_size);
}

/// The total payload length is the length of the payloads put together.
proof fn lemma_payloads_flatten(frames: Seq<Frame>)
    ensures
        payloads_len(frames) == super::types::frame_payloads(frames).flatten().len(),
    decreases frames.len(),
{
    if frames.len() > 0 {
        lemma_payloads_flatten(frames.drop_first());
        assert(super::types::frame_payloads(frames).drop_first() =~= super::types::frame_payloads(
            frames.drop_first(),
        ));
    }
}

/// All frames but the last carry at least one byte.
proof fn lemma_frames_count(frames: Seq<Frame>, frame_size: nat)
    requires
        frames.len() >= 1,
        frame_size > 0,
        forall|i: int| 0 <= i < frames.len() - 1 ==> (#[trigger] frames[i]).payload@.len() == frame_size,
    ensures
        frames.len() <= payloads_len(frames) + 1,
    decreases frames.len(),
{
    if frames.len() > 1 {
        let rest = frames.drop_first();
        assert forall|i: int| 0 <= i < rest.len() - 1 implies (#[trigger] rest[i]).payload@.len()
            == frame_size by {
            assert(rest[i] == frames[i + 1]);
        }
        lemma_frames_count(rest, frame_size);
        assert(frames[0].payload@.len() == frame_size);
    }
}


/// A frame queued by one end is read back by the other end's decoder as the
/// same frame: the same FIN bit, opcode and payload, taking exactly the
/// frame's bytes, whatever follows them. The decoder must be at the start of
/// a frame, the frame must be one the protocol allows in its state, and the
/// payload of a text frame must continue the text validly.
#[verifier::rlimit(40)]
pub proof fn lemma_frame_roundtrip(
    st: DecoderState,
    is_final: bool,
    opcode: OpCode,
    payload: Seq<u8>,
    key: Seq<u8>,
    rest: Seq<u8>,
)
    requires
        key.len() == 4,
        st.processed == 0,
        payload.len() <= st.max_len,
        valid_frame(is_final, opcode, payload),
        !is_control_opcode(opcode) ==> ((st.frag == OpCode::Continuation) != (opcode
            == OpCode::Continuation)),
        is_text_frame(opcode, st.frag) && payload.len() > 0 ==> crate::utf8::feed_accepts(
            st.pending,
            payload,
            is_final,
        ),
    ensures
        ({
            let wire = frame_wire(is_final, opcode, payload, st.role == Role::Server, key);
            decode_step(st, wire + rest).0 == DecodeOutcome::Decoded(
                is_final,
                opcode,
                payload,
                wire.len(),
            )
        }),
{
    let masked = st.role == Role::Server;
    let body = if masked {
        apply_mask(key, payload)
    } else {
        payload
    };
    let head = wire_head(is_final, opcode, payload.len(), masked, key);
    let wire = frame_wire(is_final, opcode, payload, masked, key);
    assert(wire + rest =~= head + (body + rest));
    lemma_head_roundtrip(is_final, opcode, payload.len(), key, body + rest, st.role, st.max_len, st.frag);
    let src = wire + rest;
    let mask = if masked {
        key
    } else {
        seq![0u8, 0u8, 0u8, 0u8]
    };
    let h = FrameHead { fin: is_final, opcode, masked, mask, len: payload.len(), offset: head.len() };
    let raw = src.subrange(head.len() as int, (head.len() + payload.len()) as int);
    assert(raw =~= body);
    lemma_unmask_body(key, payload, masked);
    assert(wire.len() == head.len() + payload.len());
    lemma_decode_whole_frame(st, src, h, payload);
}

/// Unmasking a frame body gives back the payload it was made from.
proof fn lemma_unmask_body(key: Seq<u8>, payload: Seq<u8>, masked: bool)
    requires
        key.len() == 4,
    ensures
        ({
            let body = if masked {
                apply_mask(key, payload)
            } else {
                payload
            };
            let mask = if masked {
                key
            } else {
                seq![0u8, 0u8, 0u8, 0u8]
            };
            unmask_from(body, mask, 0, masked) == payload
        }),
{
    if masked {
        mask::lemma_mask_involution(key, payload);
        assert(unmask_from(apply_mask(key, payload), key, 0, masked) =~= apply_mask(
            key,
            apply_mask(key, payload),
        ));
    } else {
        assert(unmask_from(payload, seq![0u8, 0u8, 0u8, 0u8], 0, masked) =~= payload);
    }
}

/// Assembling `frames` one after the other, starting from the message being
/// assembled `(op0, p0)`: the outcome of each frame, and the message being
/// assembled afterwards.
pub open spec fn assemble_frames(op0: OpCode, p0: Seq<u8>, frames: Seq<Frame>, max_len: usize) -> (
    Seq<AssembleOutcome>,
    OpCode,
    Seq<u8>,
)
    decreases frames.len(),
{
    if frames.len() == 0 {
        (Seq::empty(), op0, p0)
    } else {
        let (o, op1, p1) = assemble_step(
            op0,
            p0,
            frames[0].is_final,
            frames[0].opcode,
            frames[0].payload@,
            max_len,
        );
        let (os, op2, p2) = assemble_frames(op1, p1, frames.drop_first(), max_len);
        (seq![o] + os, op2, p2)
    }
}

/// `n` pending outcomes followed by `last`.
pub open spec fn pending_then(n: nat, last: AssembleOutcome) -> Seq<AssembleOutcome> {
    Seq::new(n, |i: int| AssembleOutcome::Pending).push(last)
}

/// The payloads of frames put together start with the first frame's.
proof fn lemma_payloads_first(frames: Seq<Frame>)
    requires
        frames.len() > 0,
    ensures
        frame_payloads(frames).flatten() == frames[0].payload@ + frame_payloads(
            frames.drop_first(),
        ).flatten(),
{
    assert(frame_payloads(frames).drop_first() =~= frame_payloads(frames.drop_first()));
}

/// Final continuation frames complete the message being assembled.
proof fn lemma_assemble_continuations(op: OpCode, acc: Seq<u8>, rest: Seq<Frame>, max_len: usize)
    requires
        rest.len() >= 1,
        op != OpCode::Continuation,
        forall|i: int| 0 <= i < rest.len() ==> (#[trigger] rest[i]).opcode == OpCode::Continuation,
        forall|i: int| 0 <= i < rest.len() ==> (#[trigger] rest[i]).is_final == (i == rest.len() - 1),
        acc.len() + frame_payloads(rest).flatten().len() <= max_len,
    ensures
        assemble_frames(op, acc, rest, max_len) == (
            pending_then(
                (rest.len() - 1) as nat,
                AssembleOutcome::Complete(op, acc + frame_payloads(rest).flatten()),
            ),
            OpCode::Continuation,
            Seq::<u8>::empty(),
        ),
    decreases rest.len(),
{
    let f = rest[0];
    let tail = rest.drop_first();
    lemma_payloads_first(rest);
    let step = assemble_step(op, acc, f.is_final, f.opcode, f.payload@, max_len);
    if rest.len() == 1 {
        assert(tail.len() == 0);
        assert(frame_payloads(tail).flatten() =~= Seq::<u8>::empty());
        assert(step == (AssembleOutcome::Complete(op, acc + f.payload@), OpCode::Continuation, Seq::<u8>::empty()));
        let rec = assemble_frames(OpCode::Continuation, Seq::<u8>::empty(), tail, max_len);
        assert(rec == (Seq::<AssembleOutcome>::empty(), OpCode::Continuation, Seq::<u8>::empty()));
        assert(seq![step.0] + rec.0 =~= seq![step.0]);
        assert(acc + f.payload@ =~= acc + frame_payloads(rest).flatten());
        assert(pending_then(0, AssembleOutcome::Complete(op, acc + f.payload@)) =~= seq![
            AssembleOutcome::Complete(op, acc + f.payload@),
        ]);
    } else {
        assert forall|i: int| 0 <= i < tail.len() implies (#[trigger] tail[i]).opcode
            == OpCode::Continuation && tail[i].is_final == (i == tail.len() - 1) by {
            assert(tail[i] == rest[i + 1]);
        }
        assert(step == (AssembleOutcome::Pending, op, acc + f.payload@));
        lemma_assemble_continuations(op, acc + f.payload@, tail, max_len);
        assert(acc + f.payload@ + frame_payloads(tail).flatten() =~= acc + frame_payloads(
            rest,
        ).flatten());
        assert(seq![AssembleOutcome::Pending] + pending_then(
            (tail.len() - 1) as nat,
            AssembleOutcome::Complete(op, acc + frame_payloads(rest).flatten()),
        ) =~= pending_then(
            (rest.len() - 1) as nat,
            AssembleOutcome::Complete(op, acc + frame_payloads(rest).flatten()),
        ));
    }
}

/// A final frame that does not continue a message (a control frame, or an
/// unfragmented message) is delivered as a message of its own, and the
/// message being assembled stays as it was.
pub proof fn lemma_final_frame_keeps_partial(
    op0: OpCode,
    p0: Seq<u8>,
    op: OpCode,
    payload: Seq<u8>,
    max_len: usize,
)
    requires
        op != OpCode::Continuation,
    ensures
        assemble_step(op0, p0, true, op, payload, max_len) == (
            AssembleOutcome::Complete(op, payload),
            op0,
            p0,
        ),
{
}

/// Assembling frames gives one outcome per frame.
proof fn lemma_assemble_frames_len(op0: OpCode, p0: Seq<u8>, frames: Seq<Frame>, max_len: usize)
    ensures
        assemble_frames(op0, p0, frames, max_len).0.len() == frames.len(),
    decreases frames.len(),
{
    if frames.len() > 0 {
        let (o, op1, p1) = assemble_step(
            op0,
            p0,
            frames[0].is_final,
            frames[0].opcode,
            frames[0].payload@,
            max_len,
        );
        lemma_assemble_frames_len(op1, p1, frames.drop_first(), max_len);
    }
}

/// A control frame received between the frames of a fragmented message
/// (or any final frame that does not continue a message) changes nothing
/// but itself: inserting it anywhere into a sequence of frames inserts its
/// own message at that place among the outcomes, and leaves every other
/// outcome and the message being assembled at the end as they were.
pub proof fn lemma_interleaved_frame(
    op0: OpCode,
    p0: Seq<u8>,
    frames: Seq<Frame>,
    k: int,
    c: Frame,
    max_len: usize,
)
    requires
        0 <= k <= frames.len(),
        c.is_final,
        c.opcode != OpCode::Continuation,
    ensures
        ({
            let (os, op1, p1) = assemble_frames(op0, p0, frames, max_len);
            let (os2, op2, p2) = assemble_frames(op0, p0, frames.insert(k, c), max_len);
            &&& os2 == os.insert(k, AssembleOutcome::Complete(c.opcode, c.payload@))
            &&& op2 == op1
            &&& p2 == p1
        }),
    decreases k,
{
    let x = AssembleOutcome::Complete(c.opcode, c.payload@);
    let fk = frames.insert(k, c);
    let (os, op1, p1) = assemble_frames(op0, p0, frames, max_len);
    lemma_assemble_frames_len(op0, p0, frames, max_len);
    if k == 0 {
        assert(fk[0] == c);
        assert(fk.drop_first() =~= frames);
        let (os2, op2, p2) = assemble_frames(op0, p0, fk, max_len);
        assert(os2 =~= os.insert(0, x));
    } else {
        let f = frames[0];
        assert(fk[0] == f);
        assert(fk.drop_first() =~= frames.drop_first().insert(k - 1, c));
        let (o, opa, pa) = assemble_step(op0, p0, f.is_final, f.opcode, f.payload@, max_len);
        lemma_interleaved_frame(opa, pa, frames.drop_first(), k - 1, c, max_len);
        let (osr, opr, pr) = assemble_frames(opa, pa, frames.drop_first(), max_len);
        lemma_assemble_frames_len(opa, pa, frames.drop_first(), max_len);
        assert(os == seq![o] + osr);
        let (os2, op2, p2) = assemble_frames(op0, p0, fk, max_len);
        assert(os2 == seq![o] + osr.insert(k - 1, x));
        assert(seq![o] + osr.insert(k - 1, x) =~= (seq![o] + osr).insert(k, x));
    }
}

/// A message sent as frames (as [`Connection::start_send`] queues it) and
/// read back frame by frame by a peer that is assembling no message is
/// assembled into the same message with the last frame, every frame before
/// it leaving the message pending, when the message is within the peer's
/// limit; the peer is then assembling no message again.
pub proof fn lemma_fragmentation_roundtrip(
    op: OpCode,
    p: Seq<u8>,
    frame_size: nat,
    frames: Seq<Frame>,
    max_len: usize,
)
    requires
        op != OpCode::Continuation,
        sent_as(op, p, frame_size, frames),
        p.len() <= max_len,
    ensures
        assemble_frames(OpCode::Continuation, Seq::empty(), frames, max_len) == (
            pending_then((frames.len() - 1) as nat, AssembleOutcome::Complete(op, p)),
            OpCode::Continuation,
            Seq::<u8>::empty(),
        ),
{
    let f = frames[0];
    let tail = frames.drop_first();
    if frames.len() == 1 {
        assert(f.is_final);
        assert(assemble_frames(OpCode::Continuation, Seq::empty(), tail, max_len) == (
            Seq::<AssembleOutcome>::empty(),
            OpCode::Continuation,
            Seq::<u8>::empty(),
        ));
        if !(is_control_opcode(op) || p.len() <= frame_size) {
            lemma_payloads_first(frames);
            assert(frame_payloads(tail).flatten() =~= Seq::<u8>::empty());
            assert(f.payload@ =~= p);
        }
        assert(pending_then(0, AssembleOutcome::Complete(op, p)) =~= seq![
            AssembleOutcome::Complete(op, p),
        ]);
    } else {
        assert(!(is_control_opcode(op) || p.len() <= frame_size));
        assert(!f.is_final);
        lemma_payloads_first(frames);
        assert forall|i: int| 0 <= i < tail.len() implies (#[trigger] tail[i]).opcode
            == OpCode::Continuation && tail[i].is_final == (i == tail.len() - 1) by {
            assert(tail[i] == frames[i + 1]);
        }
        lemma_assemble_continuations(op, f.payload@, tail, max_len);
        assert(seq![AssembleOutcome::Pending] + pending_then(
            (tail.len() - 1) as nat,
            AssembleOutcome::Complete(op, p),
        ) =~= pending_then((frames.len() - 1) as nat, AssembleOutcome::Complete(op, p)));
    }
}

/// The closing handshake only moves forward: neither a frame read from the
/// peer nor a frame queued for sending before the handshake is complete
/// brings the connection back to an earlier state, and a failed read while frames are still read (the
/// connection active, or closed by us) ends in a later state.
pub proof fn lemma_close_state_moves_on(state: StreamState, opcode: OpCode, io_failure: bool)
    ensures
        state_moves_on(state, state_after_frame(state, opcode)),
        state != StreamState::CloseAcknowledged ==> state_moves_on(
            state,
            state_after_queue(state, opcode),
        ),
        (state == StreamState::Active || state == StreamState::ClosedByUs) ==> state_moves_on(
            state,
            if io_failure || state == StreamState::ClosedByUs {
                StreamState::CloseAcknowledged
            } else {
                StreamState::ClosedByPeer
            },
        ),
{
}


/// A fragmented message with a control frame received between any two of
/// its frames (or before or after them) is still assembled into the same
/// message with its last frame, and the control frame is delivered on its
/// own where it came; the peer then assembles no message again.
pub proof fn lemma_fragmentation_with_control_frame(
    op: OpCode,
    p: Seq<u8>,
    frame_size: nat,
    frames: Seq<Frame>,
    max_len: usize,
    k: int,
    c: Frame,
)
    requires
        op != OpCode::Continuation,
        sent_as(op, p, frame_size, frames),
        p.len() <= max_len,
        0 <= k <= frames.len(),
        c.is_final,
        is_control_opcode(c.opcode),
    ensures
        assemble_frames(OpCode::Continuation, Seq::empty(), frames.insert(k, c), max_len) == (
            pending_then((frames.len() - 1) as nat, AssembleOutcome::Complete(op, p)).insert(
                k,
                AssembleOutcome::Complete(c.opcode, c.payload@),
            ),
            OpCode::Continuation,
            Seq::<u8>::empty(),
        ),
{
    lemma_fragmentation_roundtrip(op, p, frame_size, frames, max_len);
    lemma_interleaved_frame(OpCode::Continuation, Seq::empty(), frames, k, c, max_len);
}

} // verus!
