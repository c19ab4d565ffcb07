use tokio_websockets::mask;
use tokio_websockets::proto::{
    CloseCode, Config, Connection, Frame, Limits, Message, OpCode, Payload, ProtocolError,
    ReadGate, Role, StreamState, WebSocketProtocol,
};
use tokio_websockets::Error;

/// Takes all queued bytes out of the connection.
fn drain(conn: &mut Connection) -> Vec<u8> {
    let mut out = Vec::new();
    while conn.frame_queue().has_remaining() {
        let chunk = conn.frame_queue().chunk().to_vec();
        out.extend_from_slice(&chunk);
        conn.advance(chunk.len());
    }
    out
}

/// Decodes every complete frame of `bytes`, removing what was decoded.
fn decode_all(decoder: &mut WebSocketProtocol, bytes: &mut Vec<u8>) -> Vec<Frame> {
    let mut frames = Vec::new();
    loop {
        match decoder.decode(&mut bytes[..]) {
            Ok(Some((frame, n))) => {
                bytes.drain(..n);
                frames.push(frame);
            }
            Ok(None) => break,
            Err(e) => panic!("unexpected error: {e:?}"),
        }
    }
    frames
}

#[test]
fn opcode_values_round_trip() {
    for v in [0u8, 1, 2, 8, 9, 10] {
        assert_eq!(OpCode::from_u8(v).unwrap().as_u8(), v);
    }
    assert_eq!(OpCode::from_u8(3), Err(ProtocolError::InvalidOpcode));
    assert!(OpCode::Ping.is_control());
    assert!(!OpCode::Binary.is_control());
}

#[test]
fn close_codes() {
    assert_eq!(CloseCode::from_u16(999), Err(ProtocolError::InvalidCloseCode));
    assert_eq!(CloseCode::from_u16(3000).unwrap().as_u16(), 3000);
    assert!(CloseCode::from_u16(1005).unwrap().is_reserved());
    assert!(!CloseCode::normal_closure().is_reserved());
    assert_eq!(CloseCode::message_too_big().as_u16(), 1009);
}

#[test]
fn frame_header_encoding() {
    let frame = Frame { opcode: OpCode::Text, is_final: true, payload: Payload::from_slice(&[0u8; 200]) };
    let mut head = [0u8; 10];
    let n = frame.encode(&mut head);
    assert_eq!(n, 4);
    assert_eq!(&head[..4], &[0x81, 126, 0, 200]);
}

#[test]
fn client_frame_is_decoded_by_server() {
    let mut client = Connection::new(Role::Client, Config::default());
    client.start_send(Message::text(Payload::from_str("Hello world!"))).unwrap();
    let mut wire = drain(&mut client);
    // The client masks: the mask bit is set and the payload differs.
    assert_eq!(wire[1], 0x80 | 12);
    let mut server = WebSocketProtocol::new(Role::Server, Limits::default());
    let frames = decode_all(&mut server, &mut wire);
    assert_eq!(frames.len(), 1);
    assert_eq!(frames[0].opcode, OpCode::Text);
    assert!(frames[0].is_final);
    assert_eq!(frames[0].payload.as_slice(), b"Hello world!");
    assert!(wire.is_empty());
}

#[test]
fn fragmented_message_is_assembled() {
    let config = Config::default().frame_size(2);
    let mut server = Connection::new(Role::Server, config);
    server.start_send(Message::binary(Payload::from_slice(b"abcde"))).unwrap();
    let mut wire = drain(&mut server);
    let mut decoder = WebSocketProtocol::new(Role::Client, Limits::default());
    let frames = decode_all(&mut decoder, &mut wire);
    assert_eq!(frames.len(), 3);
    assert_eq!(frames[0].opcode, OpCode::Binary);
    assert_eq!(frames[1].opcode, OpCode::Continuation);
    assert!(!frames[1].is_final);
    assert!(frames[2].is_final);

    let mut client = Connection::new(Role::Client, Config::default());
    let mut message = None;
    for frame in frames {
        let out = client.assemble(frame, 100).unwrap();
        if out.is_some() {
            message = out;
        }
    }
    let message = message.unwrap();
    assert!(message.is_binary());
    assert_eq!(message.as_payload().as_slice(), b"abcde");
}

#[test]
fn assembled_message_beyond_limit_is_refused() {
    let mut conn = Connection::new(Role::Client, Config::default());
    let first = Frame { opcode: OpCode::Binary, is_final: false, payload: Payload::from_slice(b"abc") };
    assert!(conn.assemble(first, 4).unwrap().is_none());
    let second = Frame { opcode: OpCode::Continuation, is_final: true, payload: Payload::from_slice(b"de") };
    match conn.assemble(second, 4) {
        Err(Error::PayloadTooLong { len, max_len }) => {
            assert_eq!(len, 5);
            assert_eq!(max_len, 4);
        }
        other => panic!("unexpected: {other:?}"),
    }
}

#[test]
fn ping_is_answered_with_pong() {
    let mut conn = Connection::new(Role::Server, Config::default());
    let ping = Frame { opcode: OpCode::Ping, is_final: true, payload: Payload::from_slice(b"hi") };
    conn.on_frame(&ping);
    let wire = drain(&mut conn);
    assert_eq!(wire, vec![0x8A, 2, b'h', b'i']);
    assert_eq!(conn.state(), StreamState::Active);
}

#[test]
fn close_handshake_initiated_by_peer() {
    let mut conn = Connection::new(Role::Server, Config::default());
    let close = Frame {
        opcode: OpCode::Close,
        is_final: true,
        payload: Payload::from_slice(&[0x03, 0xE8, b'b', b'y', b'e']),
    };
    conn.on_frame(&close);
    assert_eq!(conn.state(), StreamState::ClosedByPeer);
    // The close is echoed with its status code only.
    assert_eq!(drain(&mut conn), vec![0x88, 2, 0x03, 0xE8]);
    assert_eq!(conn.read_gate(), ReadGate::FlushThenFinish);
    assert!(conn.start_send(Message::text(Payload::from_str("late"))).is_err());
    conn.acknowledge_close();
    assert_eq!(conn.read_gate(), ReadGate::Finished);
}

#[test]
fn close_handshake_initiated_by_us() {
    let mut conn = Connection::new(Role::Server, Config::default());
    conn.begin_close();
    assert_eq!(conn.state(), StreamState::ClosedByUs);
    assert_eq!(drain(&mut conn), vec![0x88, 2, 0x03, 0xE8]);
    let reply = Frame { opcode: OpCode::Close, is_final: true, payload: Payload::from_slice(&[0x03, 0xE8]) };
    conn.on_frame(&reply);
    assert_eq!(conn.state(), StreamState::CloseAcknowledged);
    assert!(drain(&mut conn).is_empty());
}

#[test]
fn oversized_message_is_answered_with_close() {
    let mut conn = Connection::new(Role::Server, Config::default());
    conn.on_read_error(&Error::PayloadTooLong { len: 20, max_len: 10 });
    assert_eq!(conn.state(), StreamState::ClosedByPeer);
    let mut expected = vec![0x88, 16, 0x03, 0xF1];
    expected.extend_from_slice(b"max length: 10");
    assert_eq!(drain(&mut conn), expected);
}

#[test]
fn protocol_violation_is_answered_with_close() {
    let mut conn = Connection::new(Role::Server, Config::default());
    conn.on_read_error(&Error::Protocol(ProtocolError::InvalidUtf8));
    let mut expected = vec![0x88, 14, 0x03, 0xEF];
    expected.extend_from_slice(b"invalid utf8");
    assert_eq!(drain(&mut conn), expected);
}

#[test]
fn decoder_refuses_reserved_bits() {
    let mut decoder = WebSocketProtocol::new(Role::Client, Limits::default());
    let mut bytes = vec![0xC1, 0];
    match decoder.decode(&mut bytes[..]) {
        Err(Error::Protocol(ProtocolError::InvalidRsv)) => {}
        other => panic!("unexpected: {other:?}"),
    }
}

#[test]
fn decoder_refuses_masked_frame_at_client() {
    let mut decoder = WebSocketProtocol::new(Role::Client, Limits::default());
    let mut bytes = vec![0x81, 0x81, 1, 2, 3, 4, b'a' ^ 1];
    match decoder.decode(&mut bytes[..]) {
        Err(Error::Protocol(ProtocolError::UnexpectedMaskedFrame)) => {}
        other => panic!("unexpected: {other:?}"),
    }
}

#[test]
fn decoder_refuses_unmasked_frame_at_server() {
    let mut decoder = WebSocketProtocol::new(Role::Server, Limits::default());
    let mut bytes = vec![0x81, 1, b'a'];
    match decoder.decode(&mut bytes[..]) {
        Err(Error::Protocol(ProtocolError::UnexpectedUnmaskedFrame)) => {}
        other => panic!("unexpected: {other:?}"),
    }
}

#[test]
fn decoder_refuses_payload_beyond_limit() {
    let mut decoder = WebSocketProtocol::new(Role::Client, Limits::default().max_payload_len(Some(3)));
    let mut bytes = vec![0x82, 4, 1, 2, 3, 4];
    match decoder.decode(&mut bytes[..]) {
        Err(Error::PayloadTooLong { len: 4, max_len: 3 }) => {}
        other => panic!("unexpected: {other:?}"),
    }
}

#[test]
fn decoder_refuses_invalid_utf8_text() {
    let mut decoder = WebSocketProtocol::new(Role::Client, Limits::default());
    let mut bytes = vec![0x81, 2, 0xC3, 0x28];
    match decoder.decode(&mut bytes[..]) {
        Err(Error::Protocol(ProtocolError::InvalidUtf8)) => {}
        other => panic!("unexpected: {other:?}"),
    }
}

#[test]
fn decoder_waits_for_more_bytes() {
    let mut decoder = WebSocketProtocol::new(Role::Client, Limits::default());
    let mut bytes = vec![0x82, 4, 1, 2];
    assert!(decoder.decode(&mut bytes[..]).unwrap().is_none());
}

#[test]
fn decoder_refuses_fragmented_control_frame() {
    let mut decoder = WebSocketProtocol::new(Role::Client, Limits::default());
    let mut bytes = vec![0x09, 0];
    match decoder.decode(&mut bytes[..]) {
        Err(Error::Protocol(ProtocolError::FragmentedControlFrame)) => {}
        other => panic!("unexpected: {other:?}"),
    }
}

#[test]
fn decoder_refuses_invalid_close_code() {
    let mut decoder = WebSocketProtocol::new(Role::Client, Limits::default());
    let mut bytes = vec![0x88, 2, 0x03, 0xED];
    match decoder.decode(&mut bytes[..]) {
        Err(Error::Protocol(ProtocolError::InvalidCloseCode)) => {}
        other => panic!("unexpected: {other:?}"),
    }
}

#[test]
fn mask_twice_restores_data() {
    let plain: Vec<u8> = (0..1024u32).map(|i| (i % 251) as u8).collect();
    let mut data = plain.clone();
    let mut key = [0x12, 0x34, 0x56, 0x78];
    mask::frame(&mut key, &mut data, true);
    assert_ne!(data, plain);
    let mut key = [0x12, 0x34, 0x56, 0x78];
    mask::frame(&mut key, &mut data, true);
    assert_eq!(data, plain);
}

#[test]
fn mask_formula() {
    let mut data = vec![0u8; 6];
    let mut key = [1, 2, 3, 4];
    mask::frame(&mut key, &mut data, true);
    assert_eq!(data, vec![1, 2, 3, 4, 1, 2]);
}

#[test]
fn mask_in_pieces_equals_mask_at_once() {
    let plain: Vec<u8> = (0..998u32).map(|i| (i * 7 % 256) as u8).collect();
    let mut whole = plain.clone();
    let mut key = [9, 8, 7, 6];
    mask::frame(&mut key, &mut whole, true);
    let mut first = plain[..333].to_vec();
    let mut second = plain[333..].to_vec();
    let mut key = [9, 8, 7, 6];
    mask::frame(&mut key, &mut first, false);
    mask::frame(&mut key, &mut second, true);
    first.extend_from_slice(&second);
    assert_eq!(first, whole);
}

#[test]
fn message_close_payload() {
    let message = Message::close(Some(CloseCode::going_away()), "bye");
    assert!(message.is_close());
    let (code, reason) = message.as_close().unwrap();
    assert_eq!(code.as_u16(), 1001);
    assert_eq!(reason, "bye");
    let empty = Message::close(None, "");
    assert_eq!(empty.as_close().unwrap().0.as_u16(), 1005);
}

#[test]
fn message_as_text() {
    let message = Message::text(Payload::from_str("héllo"));
    assert_eq!(message.as_text(), Some("héllo"));
    assert_eq!(Message::binary(Payload::from_slice(b"x")).as_text(), None);
}

#[test]
fn limits_and_config() {
    assert_eq!(Limits::unlimited().max_len(), usize::MAX);
    assert_eq!(Limits::default().max_len(), 64 * 1024 * 1024);
    assert_eq!(Limits::default().max_payload_len(None).max_len(), usize::MAX);
    let config = Config::default().frame_size(10).flush_threshold(20);
    assert_eq!(config.frame_size_value(), 10);
    assert_eq!(config.flush_threshold_value(), 20);
}

#[test]
fn decimal_digits() {
    assert_eq!(tokio_websockets::proto::stream::decimal_bytes(0), b"0".to_vec());
    assert_eq!(tokio_websockets::proto::stream::decimal_bytes(65535), b"65535".to_vec());
}

#[test]
fn vectored_chunks_cover_queue() {
    let mut conn = Connection::new(Role::Server, Config::default());
    conn.start_send(Message::binary(Payload::from_slice(b"abc"))).unwrap();
    conn.start_send(Message::text(Payload::from_str(""))).unwrap();
    conn.advance(1);
    let all: Vec<u8> = conn.frame_queue().chunks_vectored(64).concat();
    assert_eq!(all, vec![3, b'a', b'b', b'c', 0x81, 0]);
    let first = conn.frame_queue().chunks_vectored(1);
    assert_eq!(first, vec![&[3u8][..]]);
    assert!(conn.frame_queue().chunks_vectored(0).is_empty());
}

#[test]
fn decoding_in_two_deliveries_equals_decoding_at_once() {
    let mut client = Connection::new(Role::Client, Config::default());
    client.start_send(Message::text(Payload::from_str("a€b"))).unwrap();
    let wire = drain(&mut client);
    for cut in 0..wire.len() {
        let mut decoder = WebSocketProtocol::new(Role::Server, Limits::default());
        let mut partial = wire[..cut].to_vec();
        assert!(decoder.decode(&mut partial[..]).unwrap().is_none());
        let header = cut.min(6);
        assert_eq!(partial.len(), cut);
        assert_eq!(partial[..header], wire[..header]);
        let mut bytes = partial;
        bytes.extend_from_slice(&wire[cut..]);
        let (frame, n) = decoder.decode(&mut bytes[..]).unwrap().unwrap();
        assert_eq!(n, wire.len());
        assert_eq!(frame.payload.as_slice(), "a€b".as_bytes());
    }
}

#[test]
fn send_after_close_is_refused() {
    let mut conn = Connection::new(Role::Client, Config::default());
    conn.begin_close();
    match conn.start_send(Message::binary(Payload::from_slice(b"x"))) {
        Err(Error::AlreadyClosed) => {}
        other => panic!("unexpected: {other:?}"),
    }
}

#[test]
fn frames_that_can_be_assembled() {
    let conn = Connection::new(Role::Client, Config::default());
    let text = Frame { opcode: OpCode::Text, is_final: false, payload: Payload::from_str("a") };
    assert!(conn.can_assemble(&text));
    let lone_continuation = Frame { opcode: OpCode::Continuation, is_final: true, payload: Payload::from_str("a") };
    assert!(!conn.can_assemble(&lone_continuation));
    let long_ping = Frame { opcode: OpCode::Ping, is_final: true, payload: Payload::from_slice(&[0u8; 126]) };
    assert!(!conn.can_assemble(&long_ping));
    let bad_close = Frame { opcode: OpCode::Close, is_final: true, payload: Payload::from_slice(&[0x03, 0xED]) };
    assert!(!conn.can_assemble(&bad_close));
    let close = Frame { opcode: OpCode::Close, is_final: true, payload: Payload::from_slice(&[0x03, 0xE8, b'o', b'k']) };
    assert!(conn.can_assemble(&close));
}

#[test]
fn limits_change_in_place() {
    let mut decoder = WebSocketProtocol::new(Role::Client, Limits::default());
    *decoder.limits_mut() = Limits::default().max_payload_len(Some(1));
    let mut bytes = vec![0x82, 2, 1, 2];
    assert!(matches!(decoder.decode(&mut bytes[..]), Err(Error::PayloadTooLong { len: 2, max_len: 1 })));
}

#[test]
fn message_is_cut_into_rounded_up_frames() {
    let frames = Message::binary(Payload::from_vec(vec![7u8; 10])).into_frames(4);
    assert_eq!(frames.len(), 3);
    let sizes: Vec<usize> = frames.iter().map(|f| f.payload.as_slice().len()).collect();
    assert_eq!(sizes, vec![4, 4, 2]);
    assert!(frames[2].is_final && !frames[0].is_final && !frames[1].is_final);
    assert_eq!(Message::binary(Payload::from_vec(vec![1u8; 8])).into_frames(4).len(), 2);
    assert_eq!(Message::binary(Payload::from_vec(Vec::new())).into_frames(4).len(), 1);
}
