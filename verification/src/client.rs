//! The client's side of the opening handshake: the key, the port to
//! connect to, the headers that may be added and the upgrade request.
use vstd::prelude::*;
use vstd::string::StringSliceAdditionalSpecFns;

use crate::encoding::{base64_encode, encode_base64};
use crate::proto::stream::{decimal, decimal_bytes};
use crate::upgrade::client_request::{header_lines, push_header_lines};
use crate::upgrade::head::headers_view;
use crate::utf8::str_eq;
use crate::Error;

verus! {

broadcast use vstd::seq_lib::group_seq_properties;

/// Headers that the client sets itself in the upgrade request, which may not
/// be added to it.
pub const DISALLOWED_HEADERS: [&'static str; 5] = [
    "host",
    "upgrade",
    "connection",
    "sec-websocket-key",
    "sec-websocket-version",
];

/// Whether `name` is one of the disallowed headers, in the lower case that
/// header names are kept in.
pub open spec fn disallowed_header(name: Seq<char>) -> bool {
    exists|i: int| 0 <= i < 5 && name == (#[trigger] DISALLOWED_HEADERS[i])@
}

/// Checks a header name before it is added to the upgrade request.
///
/// # Errors
///
/// Returns [`Error::DisallowedHeader`] if the header is one of
/// [`DISALLOWED_HEADERS`].
pub fn check_header(name: &str) -> (r: Result<(), Error>)
    ensures
        r is Err <==> disallowed_header(name@),
        r matches Err(e) ==> e is DisallowedHeader,
{
    let mut i: usize = 0;
    while i < 5
        invariant
            i <= 5,
            forall|j: int| 0 <= j < i ==> name@ != (#[trigger] DISALLOWED_HEADERS[j])@,
        decreases 5 - i,
    {
        if str_eq(name, DISALLOWED_HEADERS[i]) {
            return Err(Error::DisallowedHeader);
        }
        i = i + 1;
    }
    Ok(())
}

/// The `Sec-WebSocket-Key` of the upgrade request: `key`, or 16 random bytes
/// if there is none, in base64.
pub fn make_key(key: Option<[u8; 16]>) -> (r: String)
    ensures
        key matches Some(k) ==> r@ == base64_encode(k@),
        exists|k: Seq<u8>| k.len() == 16 && r@ == base64_encode(k),
{
    let key_bytes = match key {
        Some(k) => k,
        None => crate::rand::get_key(),
    };
    encode_base64(&key_bytes)
}

/// The headers that ask for an upgrade with the key `key`, in the order they
/// are sent: names in lower case, then values.
pub open spec fn upgrade_header_list(key: Seq<u8>) -> Seq<(Seq<u8>, Seq<u8>)> {
    seq![
        ("connection".spec_bytes(), "Upgrade".spec_bytes()),
        ("upgrade".spec_bytes(), "websocket".spec_bytes()),
        ("sec-websocket-version".spec_bytes(), "13".spec_bytes()),
        ("sec-websocket-key".spec_bytes(), key),
    ]
}

/// A header from two strings.
fn header_pair(name: &str, value: &[u8]) -> (r: (Vec<u8>, Vec<u8>))
    ensures
        r.0@ == name.spec_bytes(),
        r.1@ == value@,
{
    (vstd::slice::slice_to_vec(name.as_bytes()), vstd::slice::slice_to_vec(value))
}

/// The headers of an upgrade request, for use with HTTP libraries: the
/// upgrade to the WebSocket protocol, its version, and a fresh key of 16
/// random bytes in base64.
pub fn upgrade_request_headers() -> (r: Vec<(Vec<u8>, Vec<u8>)>)
    ensures
        exists|k: Seq<u8>|
            k.len() == 16 && headers_view(r@) == upgrade_header_list(
                vstd::utf8::encode_utf8(#[trigger] base64_encode(k)),
            ),
{
    let key = make_key(None);
    let mut r: Vec<(Vec<u8>, Vec<u8>)> = Vec::new();
    r.push(header_pair("connection", "Upgrade".as_bytes()));
    r.push(header_pair("upgrade", "websocket".as_bytes()));
    r.push(header_pair("sec-websocket-version", "13".as_bytes()));
    r.push(header_pair("sec-websocket-key", key.as_str().as_bytes()));
    proof {
        let k = choose|k: Seq<u8>| k.len() == 16 && key@ == base64_encode(k);
        assert(headers_view(r@) =~= upgrade_header_list(vstd::utf8::encode_utf8(base64_encode(k))));
    }
    r
}

/// The port to connect to: the one the URI gives, or the default port of its
/// scheme (443 for `https` and `wss`, 80 for `http` and `ws`).
pub open spec fn port_for(port: Option<u16>, scheme: Option<Seq<char>>) -> Option<u16> {
    match port {
        Some(p) => Some(p),
        None => match scheme {
            Some(s) => if s == "https"@ || s == "wss"@ {
                Some(443)
            } else if s == "http"@ || s == "ws"@ {
                Some(80)
            } else {
                None
            },
            None => None,
        },
    }
}

/// The ports of the schemes: a port given in the URI wins; otherwise the
/// plain schemes `ws` and `http` use port 80, the TLS schemes `wss` and
/// `https` port 443, and a URI without a scheme has no port.
pub proof fn lemma_scheme_ports(p: u16, scheme: Option<Seq<char>>)
    ensures
        port_for(Some(p), scheme) == Some(p),
        port_for(None, Some(seq!['w', 's'])) == Some(80u16),
        port_for(None, Some(seq!['h', 't', 't', 'p'])) == Some(80u16),
        port_for(None, Some(seq!['w', 's', 's'])) == Some(443u16),
        port_for(None, Some(seq!['h', 't', 't', 'p', 's'])) == Some(443u16),
        port_for(None, None) is None,
{
    reveal_strlit("https");
    reveal_strlit("wss");
    reveal_strlit("http");
    reveal_strlit("ws");
    assert("ws"@ =~= seq!['w', 's']);
    assert("http"@ =~= seq!['h', 't', 't', 'p']);
    assert("wss"@ =~= seq!['w', 's', 's']);
    assert("https"@ =~= seq!['h', 't', 't', 'p', 's']);
}

/// The port to connect to for a URI with the explicit `port` and the
/// `scheme`.
pub fn default_port(port: Option<u16>, scheme: Option<&str>) -> (r: Option<u16>)
    ensures
        r == port_for(
            port,
            match scheme {
                Some(s) => Some(s@),
                None => None,
            },
        ),
{
    if let Some(port) = port {
        return Some(port);
    }
    match scheme {
        Some(s) => if str_eq(s, "https") || str_eq(s, "wss") {
            Some(443)
        } else if str_eq(s, "http") || str_eq(s, "ws") {
            Some(80)
        } else {
            None
        },
        None => None,
    }
}

/// The view of an optional string, as bytes.
pub open spec fn opt_bytes(s: Option<&str>) -> Option<Seq<u8>> {
    match s {
        Some(s) => Some(s.spec_bytes()),
        None => None,
    }
}

/// The request line for the path `path` and the optional `query`.
pub open spec fn request_line(path: Seq<u8>, query: Option<Seq<u8>>) -> Seq<u8> {
    "GET ".spec_bytes() + path + match query {
        Some(q) => "?".spec_bytes() + q,
        None => Seq::empty(),
    } + " HTTP/1.1\r\n".spec_bytes()
}

/// The `Host` header line for the optional `host`, with the port the URI
/// gives explicitly.
pub open spec fn host_line(host: Option<Seq<u8>>, port: Option<u16>) -> Seq<u8> {
    match host {
        Some(h) => "Host: ".spec_bytes() + h + match port {
            Some(p) => ":".spec_bytes() + decimal(p as nat),
            None => Seq::empty(),
        } + "\r\n".spec_bytes(),
        None => Seq::empty(),
    }
}

/// The header lines that ask for the upgrade with the key `key`.
pub open spec fn upgrade_lines(key: Seq<u8>) -> Seq<u8> {
    "Upgrade: websocket\r\nConnection: Upgrade\r\nSec-WebSocket-Key: ".spec_bytes() + key
        + "\r\nSec-WebSocket-Version: 13\r\n".spec_bytes()
}

/// The upgrade request for the path `path`, the optional `query`, the
/// optional `host` with the port the URI gives explicitly, the key `key` and
/// the extra headers `headers`.
pub open spec fn upgrade_request(
    path: Seq<u8>,
    query: Option<Seq<u8>>,
    host: Option<Seq<u8>>,
    port: Option<u16>,
    key: Seq<u8>,
    headers: Seq<(Seq<u8>, Seq<u8>)>,
) -> Seq<u8> {
    request_line(path, query) + host_line(host, port) + upgrade_lines(key) + header_lines(headers)
        + "\r\n".spec_bytes()
}

/// Appends the request line to `buf`.
fn push_request_line(buf: &mut Vec<u8>, path: &str, query: Option<&str>)
    ensures
        final(buf)@ == old(buf)@ + request_line(path.spec_bytes(), opt_bytes(query)),
{
    crate::proto::extend_bytes(buf, "GET ".as_bytes());
    crate::proto::extend_bytes(buf, path.as_bytes());
    if let Some(query) = query {
        crate::proto::extend_bytes(buf, "?".as_bytes());
        crate::proto::extend_bytes(buf, query.as_bytes());
    }
    crate::proto::extend_bytes(buf, " HTTP/1.1\r\n".as_bytes());
}

/// Appends the `Host` header line to `buf`.
fn push_host_line(buf: &mut Vec<u8>, host: Option<&str>, port: Option<u16>)
    ensures
        final(buf)@ == old(buf)@ + host_line(opt_bytes(host), port),
{
    if let Some(host) = host {
        crate::proto::extend_bytes(buf, "Host: ".as_bytes());
        crate::proto::extend_bytes(buf, host.as_bytes());
        if let Some(port) = port {
            crate::proto::extend_bytes(buf, ":".as_bytes());
            let digits = decimal_bytes(port as usize);
            crate::proto::extend_bytes(buf, digits.as_slice());
        }
        crate::proto::extend_bytes(buf, "\r\n".as_bytes());
    }
}

/// Builds the upgrade request for the path `path`, the optional `query`, the
/// optional `host` with the port the URI gives explicitly, the key `key` and
/// the extra headers `headers`.
pub fn build_request(
    path: &str,
    query: Option<&str>,
    host: Option<&str>,
    port: Option<u16>,
    key: &[u8],
    headers: &[(Vec<u8>, Vec<u8>)],
) -> (r: Vec<u8>)
    ensures
        r@ == upgrade_request(
            path.spec_bytes(),
            opt_bytes(query),
            opt_bytes(host),
            port,
            key@,
            headers_view(headers@),
        ),
{
    let mut buf: Vec<u8> = Vec::new();
    push_request_line(&mut buf, path, query);
    push_host_line(&mut buf, host, port);
    crate::proto::extend_bytes(
        &mut buf,
        "Upgrade: websocket\r\nConnection: Upgrade\r\nSec-WebSocket-Key: ".as_bytes(),
    );
    crate::proto::extend_bytes(&mut buf, key);
    crate::proto::extend_bytes(&mut buf, "\r\nSec-WebSocket-Version: 13\r\n".as_bytes());
    push_header_lines(&mut buf, headers);
    crate::proto::extend_bytes(&mut buf, "\r\n".as_bytes());
    proof {
        assert(buf@ =~= upgrade_request(
            path.spec_bytes(),
            opt_bytes(query),
            opt_bytes(host),
            port,
            key@,
            headers_view(headers@),
        ));
    }
    buf
}

} // verus!
