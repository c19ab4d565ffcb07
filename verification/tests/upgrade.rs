use tokio_websockets::client::{build_request, default_port, make_key};
use tokio_websockets::sha::digest;
use tokio_websockets::upgrade::client_request::{
    contains_ignore_ascii_case, ClientRequest, ClientRequestCodec,
};
use tokio_websockets::upgrade::server_response::Codec;
use tokio_websockets::upgrade::Error as UpgradeError;
use tokio_websockets::Error;

const RFC_KEY: &str = "dGhlIHNhbXBsZSBub25jZQ==";
const RFC_ACCEPT: &str = "s3pPLMBiTxaQ9kYGzzhZRbK+xOo=";

fn header(name: &str, value: &str) -> (Vec<u8>, Vec<u8>) {
    (name.as_bytes().to_vec(), value.as_bytes().to_vec())
}

fn valid_headers() -> Vec<(Vec<u8>, Vec<u8>)> {
    vec![
        header("Host", "example.com"),
        header("upgrade", "WebSocket"),
        header("Connection", "keep-alive, Upgrade"),
        header("Sec-WebSocket-Version", "13"),
        header("Sec-WebSocket-Key", RFC_KEY),
    ]
}

#[test]
fn accept_value_of_rfc_example() {
    let request = ClientRequest::parse(&valid_headers()).unwrap();
    assert_eq!(request.ws_accept(), RFC_ACCEPT);
}

#[test]
fn digest_of_rfc_example() {
    let d = digest(RFC_KEY.as_bytes());
    assert_eq!(
        d,
        [
            0xb3, 0x7a, 0x4f, 0x2c, 0xc0, 0x62, 0x4f, 0x16, 0x90, 0xf6, 0x46, 0x06, 0xcf, 0x38,
            0x59, 0x45, 0xb2, 0xbe, 0xc4, 0xea
        ]
    );
}

#[test]
fn missing_upgrade_header() {
    let headers: Vec<_> = valid_headers().into_iter().filter(|h| h.0 != b"upgrade").collect();
    assert!(matches!(ClientRequest::parse(&headers), Err(UpgradeError::MissingHeader("Upgrade"))));
}

#[test]
fn upgrade_not_websocket() {
    let mut headers = valid_headers();
    headers[1] = header("Upgrade", "h2c");
    assert!(matches!(ClientRequest::parse(&headers), Err(UpgradeError::UpgradeNotWebSocket)));
}

#[test]
fn connection_not_upgrade() {
    let mut headers = valid_headers();
    headers[2] = header("Connection", "keep-alive");
    assert!(matches!(ClientRequest::parse(&headers), Err(UpgradeError::ConnectionNotUpgrade)));
}

#[test]
fn unsupported_version() {
    let mut headers = valid_headers();
    headers[3] = header("Sec-WebSocket-Version", "8");
    assert!(matches!(
        ClientRequest::parse(&headers),
        Err(UpgradeError::UnsupportedWebSocketVersion)
    ));
}

#[test]
fn missing_key() {
    let headers: Vec<_> = valid_headers().into_iter().take(4).collect();
    assert!(matches!(
        ClientRequest::parse(&headers),
        Err(UpgradeError::MissingHeader("Sec-WebSocket-Key"))
    ));
}

#[test]
fn contains_ignoring_case() {
    assert!(contains_ignore_ascii_case(b"keep-alive, UPGRADE", b"upgrade"));
    assert!(contains_ignore_ascii_case(b"abc", b""));
    assert!(!contains_ignore_ascii_case(b"upgrad", b"upgrade"));
}

#[test]
fn server_answers_opening_handshake() {
    let request = format!(
        "GET /chat HTTP/1.1\r\nHost: server.example.com\r\nUpgrade: websocket\r\nConnection: Upgrade\r\nSec-WebSocket-Key: {RFC_KEY}\r\nSec-WebSocket-Version: 13\r\n\r\nrest"
    );
    let codec = ClientRequestCodec { response_headers: vec![header("x-served-by", "test")] };
    let (n, head, response) = codec.decode(request.as_bytes()).unwrap().unwrap();
    assert_eq!(n, request.len() - 4);
    assert_eq!(head.path.as_deref(), Some("/chat"));
    let expected = format!(
        "HTTP/1.1 101 Switching Protocols\r\nUpgrade: websocket\r\nConnection: Upgrade\r\nSec-WebSocket-Accept: {RFC_ACCEPT}\r\nx-served-by: test\r\n\r\n"
    );
    assert_eq!(response, expected.into_bytes());
}

#[test]
fn server_waits_for_whole_request() {
    let codec = ClientRequestCodec { response_headers: Vec::new() };
    assert!(codec.decode(b"GET / HTTP/1.1\r\nHost: a\r\n").unwrap().is_none());
}

#[test]
fn server_refuses_garbage_request() {
    let codec = ClientRequestCodec { response_headers: Vec::new() };
    assert!(matches!(
        codec.decode(b"\x01\x02\x03 / HTTP/1.1\r\n\r\n"),
        Err(Error::Upgrade(UpgradeError::Parsing(_)))
    ));
}

#[test]
fn client_accepts_matching_response() {
    let codec = Codec::new(RFC_KEY.as_bytes());
    let response = format!(
        "HTTP/1.1 101 Switching Protocols\r\nUpgrade: websocket\r\nConnection: Upgrade\r\nSec-WebSocket-Accept: {RFC_ACCEPT}\r\n\r\n"
    );
    let head = codec.decode(response.as_bytes()).unwrap().unwrap();
    assert_eq!(head.code, Some(101));
    assert_eq!(head.len, response.len());
}

#[test]
fn client_refuses_wrong_accept() {
    let codec = Codec::new(b"another key");
    let response = format!("HTTP/1.1 101 Switching Protocols\r\nSec-WebSocket-Accept: {RFC_ACCEPT}\r\n\r\n");
    assert!(matches!(
        codec.decode(response.as_bytes()),
        Err(Error::Upgrade(UpgradeError::WrongWebSocketAccept))
    ));
}

#[test]
fn client_refuses_other_status() {
    let codec = Codec::new(RFC_KEY.as_bytes());
    assert!(matches!(
        codec.decode(b"HTTP/1.1 200 OK\r\n\r\n"),
        Err(Error::Upgrade(UpgradeError::DidNotSwitchProtocols(200)))
    ));
}

#[test]
fn client_refuses_response_without_accept() {
    let codec = Codec::new(RFC_KEY.as_bytes());
    assert!(matches!(
        codec.decode(b"HTTP/1.1 101 Switching Protocols\r\n\r\n"),
        Err(Error::Upgrade(UpgradeError::MissingHeader("Sec-WebSocket-Accept")))
    ));
}

#[test]
fn client_waits_for_whole_response() {
    let codec = Codec::new(RFC_KEY.as_bytes());
    assert!(codec.decode(b"HTTP/1.1 101 Switching").unwrap().is_none());
}

#[test]
fn key_is_base64_of_sixteen_bytes() {
    let key = make_key(Some([0u8; 16]));
    assert_eq!(key, "AAAAAAAAAAAAAAAAAAAAAA==");
    assert_eq!(make_key(None).len(), 24);
}

#[test]
fn default_ports() {
    assert_eq!(default_port(Some(8080), Some("ws")), Some(8080));
    assert_eq!(default_port(None, Some("wss")), Some(443));
    assert_eq!(default_port(None, Some("http")), Some(80));
    assert_eq!(default_port(None, Some("ftp")), None);
    assert_eq!(default_port(None, None), None);
}

#[test]
fn request_bytes() {
    let request = build_request(
        "/chat",
        Some("a=1"),
        Some("example.com"),
        Some(9001),
        RFC_KEY.as_bytes(),
        &[header("Origin", "http://example.com")],
    );
    let expected = format!(
        "GET /chat?a=1 HTTP/1.1\r\nHost: example.com:9001\r\nUpgrade: websocket\r\nConnection: Upgrade\r\nSec-WebSocket-Key: {RFC_KEY}\r\nSec-WebSocket-Version: 13\r\nOrigin: http://example.com\r\n\r\n"
    );
    assert_eq!(String::from_utf8(request).unwrap(), expected);
    let plain = build_request("/", None, Some("example.com"), None, b"k", &[]);
    assert!(String::from_utf8(plain).unwrap().starts_with("GET / HTTP/1.1\r\nHost: example.com\r\n"));
}

#[test]
fn client_and_server_agree_on_handshake() {
    let key = make_key(None);
    let request = build_request("/", None, Some("localhost"), Some(3000), key.as_bytes(), &[]);
    let server = ClientRequestCodec { response_headers: Vec::new() };
    let (n, _, response) = server.decode(&request).unwrap().unwrap();
    assert_eq!(n, request.len());
    let client = Codec::new(key.as_bytes());
    let head = client.decode(&response).unwrap().unwrap();
    assert_eq!(head.len, response.len());
}

#[test]
fn disallowed_headers() {
    assert!(matches!(
        tokio_websockets::server::check_header("sec-websocket-accept"),
        Err(Error::DisallowedHeader)
    ));
    assert!(tokio_websockets::server::check_header("x-custom").is_ok());
    assert!(matches!(
        tokio_websockets::client::check_header("sec-websocket-key"),
        Err(Error::DisallowedHeader)
    ));
    assert!(tokio_websockets::client::check_header("origin").is_ok());
}

#[test]
fn upgrade_request_header_list() {
    let headers = tokio_websockets::client::upgrade_request_headers();
    assert_eq!(headers.len(), 4);
    assert_eq!(headers[0], header("connection", "Upgrade"));
    assert_eq!(headers[1], header("upgrade", "websocket"));
    assert_eq!(headers[2], header("sec-websocket-version", "13"));
    assert_eq!(headers[3].0, b"sec-websocket-key".to_vec());
    assert_eq!(headers[3].1.len(), 24);
}
