use tokio_websockets::proto::ProtocolError;
use tokio_websockets::utf8::{parse_str, Validator};

#[test]
fn parse_valid_and_invalid() {
    assert_eq!(parse_str("grüße".as_bytes()), Ok("grüße"));
    assert_eq!(parse_str(&[0xC3, 0x28]), Err(ProtocolError::InvalidUtf8));
}

#[test]
fn validator_accepts_scalar_split_across_pieces() {
    let mut validator = Validator::new();
    assert!(validator.feed(&[b'a', 0xE2, 0x82], false).is_ok());
    assert!(validator.feed(&[0xAC], true).is_ok());
}

#[test]
fn validator_refuses_incomplete_end() {
    let mut validator = Validator::new();
    assert!(validator.feed(&[0xF0, 0x9F], false).is_ok());
    assert_eq!(validator.feed(&[0x98], true), Err(ProtocolError::InvalidUtf8));
}

#[test]
fn validator_fails_fast_on_invalid_byte() {
    let mut validator = Validator::new();
    assert_eq!(validator.feed(&[0xFF], false), Err(ProtocolError::InvalidUtf8));
}

#[test]
fn validator_reset_forgets_partial_scalar() {
    let mut validator = Validator::new();
    assert!(validator.feed(&[0xE2, 0x82], false).is_ok());
    validator.reset();
    assert!(validator.feed(b"ok", true).is_ok());
}

#[test]
fn feeding_in_pieces_equals_feeding_at_once() {
    let text = "a€b😀c".as_bytes();
    for cut in 0..=text.len() {
        let mut validator = Validator::new();
        assert!(validator.feed(&text[..cut], false).is_ok());
        assert!(validator.feed(&text[cut..], true).is_ok());
    }
}

use tokio_websockets::proto::{Limits, Role, WebSocketProtocol};
use tokio_websockets::Error;

/// A masked frame (with an all-zero key) announcing `payload_size` bytes.
fn encode_frame(opcode: u8, payload: &[u8], payload_size: usize, is_final: bool) -> Vec<u8> {
    let mut dst = vec![(u8::from(is_final) << 7) + opcode];
    if u16::try_from(payload_size).is_err() {
        dst.push(255);
        dst.extend_from_slice(&(payload_size as u64).to_be_bytes());
    } else if payload_size > 125 {
        dst.push(254);
        dst.extend_from_slice(&(payload_size as u16).to_be_bytes());
    } else {
        dst.push(payload_size as u8 + 128);
    }
    dst.extend_from_slice(&[0, 0, 0, 0]);
    dst.extend_from_slice(payload);
    dst
}

#[test]
fn test_utf8_fail_fast_incomplete_continuation() {
    let mut decoder = WebSocketProtocol::new(Role::Server, Limits::default());

    // [240, 159, 152, 132] is a UTF-8 emoji (grinning face)
    let mut frame1_payload: Vec<u8> = std::iter::repeat_with(|| fastrand::alphanumeric() as u8)
        .take(4096)
        .collect();
    // The last byte of the emoji is left out, since it is already invalid at
    // the 0.
    let frame3_payload = [159, 0];

    let frame1 = encode_frame(1, &frame1_payload, 4096, false);
    frame1_payload[4095] = 240; // Second frame has a trailing partial UTF-8 codepoint
    let frame2 = encode_frame(0, &frame1_payload, 4096, false);
    // The rest of the third frame's payload is never sent.
    let frame3 = encode_frame(0, &frame3_payload, 4096, false);

    let mut buf = frame1;
    buf.extend_from_slice(&frame2);
    buf.extend_from_slice(&frame3);

    let (_, n) = decoder.decode(&mut buf[..]).unwrap().unwrap();
    buf.drain(..n);
    let (_, n) = decoder.decode(&mut buf[..]).unwrap().unwrap();
    buf.drain(..n);
    assert!(matches!(
        decoder.decode(&mut buf[..]),
        Err(Error::Protocol(ProtocolError::InvalidUtf8))
    ));
}

#[test]
fn feeding_many_chunks_stops_at_first_hopeless_prefix() {
    let chunks: [&[u8]; 4] = [b"ab", &[0xE2], &[0x28], b"cd"];
    let mut validator = Validator::new();
    let mut ok_calls = 0;
    for (i, chunk) in chunks.iter().enumerate() {
        match validator.feed(chunk, i + 1 == chunks.len()) {
            Ok(()) => ok_calls += 1,
            Err(e) => {
                assert_eq!(e, ProtocolError::InvalidUtf8);
                break;
            }
        }
    }
    assert_eq!(ok_calls, 2);
}
