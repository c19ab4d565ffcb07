//! The server's side of the opening handshake: checking the client's
//! upgrade request and answering it.
use vstd::prelude::*;
use vstd::string::StringSliceAdditionalSpecFns;
use vstd::utf8::valid_utf8;

use super::head::{headers_view, httparse_request, parse_request, RequestHead, RequestHeadView};
use super::head::MAX_HEADERS;
use super::{eq_ignore_ascii_case, find_header, header_value, Error};
use crate::encoding::{base64_encode, encode_base64};
use crate::sha::{digest, guid, sha1};

verus! {

broadcast use vstd::seq_lib::group_seq_properties;

/// `haystack` holds `needle`, ignoring ASCII case.
pub open spec fn contains_ignoring_case(haystack: Seq<u8>, needle: Seq<u8>) -> bool {
    exists|i: int|
        0 <= i <= haystack.len() - needle.len() && eq_ignore_ascii_case(
            #[trigger] haystack.subrange(i, i + needle.len()),
            needle,
        )
}

/// Whether `haystack` at `start` holds `needle`, ignoring ASCII case.
fn eq_ignore_ascii_case_at(haystack: &[u8], start: usize, needle: &[u8]) -> (r: bool)
    requires
        start + needle@.len() <= haystack@.len(),
    ensures
        r == eq_ignore_ascii_case(haystack@.subrange(start as int, start + needle@.len()), needle@),
{
    let ghost window = haystack@.subrange(start as int, start + needle@.len());
    let hl = haystack.len();
    let mut i: usize = 0;
    while i < needle.len()
        invariant
            start + needle@.len() <= haystack@.len(),
            hl == haystack@.len(),
            window == haystack@.subrange(start as int, start + needle@.len()),
            i <= needle@.len(),
            forall|j: int|
                0 <= j < i ==> super::ascii_lower(#[trigger] window[j]) == super::ascii_lower(
                    needle@[j],
                ),
        decreases needle@.len() - i,
    {
        if super::to_ascii_lowercase(haystack[start + i]) != super::to_ascii_lowercase(needle[i]) {
            assert(window[i as int] == haystack@[start + i]);
            return false;
        }
        assert(window[i as int] == haystack@[start + i]);
        i = i + 1;
    }
    true
}

/// Returns whether an ASCII byte slice is contained in another one, ignoring
/// captalization.
pub fn contains_ignore_ascii_case(haystack: &[u8], needle: &[u8]) -> (r: bool)
    ensures
        r == contains_ignoring_case(haystack@, needle@),
{
    if needle.len() == 0 {
        assert(eq_ignore_ascii_case(haystack@.subrange(0, 0 + needle@.len() as int), needle@));
        return true;
    }
    let mut start: usize = 0;
    while start < haystack.len() && needle.len() <= haystack.len() - start
        invariant
            start <= haystack@.len(),
            forall|i: int|
                0 <= i < start ==> !eq_ignore_ascii_case(
                    #[trigger] haystack@.subrange(i, i + needle@.len()),
                    needle@,
                ),
        decreases haystack@.len() - start,
    {
        if eq_ignore_ascii_case_at(haystack, start, needle) {
            return true;
        }
        start = start + 1;
    }
    false
}

/// The value of the request header `name` as the handshake reads it: the
/// first header of that name, ignoring ASCII case, if its value is UTF-8.
pub open spec fn request_header(headers: Seq<(Seq<u8>, Seq<u8>)>, name: Seq<u8>) -> Option<Seq<u8>> {
    match header_value(headers, name) {
        Some(v) => if valid_utf8(v) {
            Some(v)
        } else {
            None
        },
        None => None,
    }
}

/// The `Sec-WebSocket-Key` of a client's opening handshake, or why it is
/// refused: the `Upgrade` header must be `websocket`, the `Connection`
/// header must contain `Upgrade` and the `Sec-WebSocket-Version` header must
/// be `13`, ignoring ASCII case, and the key must be there.
pub open spec fn handshake_key(headers: Seq<(Seq<u8>, Seq<u8>)>) -> Result<Seq<u8>, Error> {
    match request_header(headers, "Upgrade".spec_bytes()) {
        None => Err(Error::MissingHeader("Upgrade")),
        Some(upgrade) => if !eq_ignore_ascii_case(upgrade, "websocket".spec_bytes()) {
            Err(Error::UpgradeNotWebSocket)
        } else {
            match request_header(headers, "Connection".spec_bytes()) {
                None => Err(Error::MissingHeader("Connection")),
                Some(connection) => if !contains_ignoring_case(connection, "Upgrade".spec_bytes()) {
                    Err(Error::ConnectionNotUpgrade)
                } else {
                    match request_header(headers, "Sec-WebSocket-Version".spec_bytes()) {
                        None => Err(Error::MissingHeader("Sec-WebSocket-Version")),
                        Some(version) => if !eq_ignore_ascii_case(version, "13".spec_bytes()) {
                            Err(Error::UnsupportedWebSocketVersion)
                        } else {
                            match request_header(headers, "Sec-WebSocket-Key".spec_bytes()) {
                                None => Err(Error::MissingHeader("Sec-WebSocket-Key")),
                                Some(key) => Ok(key),
                            }
                        },
                    }
                },
            }
        },
    }
}

/// Looks up the request header `name` as the handshake reads it.
fn lookup<'a>(headers: &'a [(Vec<u8>, Vec<u8>)], name: &str) -> (r: Option<&'a [u8]>)
    ensures
        match request_header(headers_view(headers@), name.spec_bytes()) {
            Some(v) => r matches Some(s) && s@ == v,
            None => r is None,
        },
{
    match find_header(headers, name.as_bytes()) {
        Some(i) => {
            let value = headers[i].1.as_slice();
            match crate::utf8::parse_str(value) {
                Ok(_) => Some(value),
                Err(_) => None,
            }
        },
        None => None,
    }
}

/// A client's opening handshake.
pub struct ClientRequest {
    /// The SHA-1 digest of the `Sec-WebSocket-Key` header.
    ws_accept: [u8; 20],
}

impl View for ClientRequest {
    type V = Seq<u8>;

    /// The digest of the client's key.
    closed spec fn view(&self) -> Seq<u8> {
        self.ws_accept@
    }
}

impl ClientRequest {
    /// Parses the client's opening handshake from its headers.
    ///
    /// # Errors
    ///
    /// This method fails when a header required for the websocket protocol is
    /// missing in the handshake or holds an unexpected value.
    pub fn parse(headers: &[(Vec<u8>, Vec<u8>)]) -> (r: Result<Self, Error>)
        ensures
            match handshake_key(headers_view(headers@)) {
                Ok(key) => r matches Ok(req) && req@ == sha1(key + guid()),
                Err(e) => r matches Err(e2) && e2 == e,
            },
    {
        let upgrade = match lookup(headers, "Upgrade") {
            Some(v) => v,
            None => return Err(Error::MissingHeader("Upgrade")),
        };
        if !super::bytes_eq_ignore_ascii_case(upgrade, "websocket".as_bytes()) {
            return Err(Error::UpgradeNotWebSocket);
        }
        let connection = match lookup(headers, "Connection") {
            Some(v) => v,
            None => return Err(Error::MissingHeader("Connection")),
        };
        if !contains_ignore_ascii_case(connection, "Upgrade".as_bytes()) {
            return Err(Error::ConnectionNotUpgrade);
        }
        let version = match lookup(headers, "Sec-WebSocket-Version") {
            Some(v) => v,
            None => return Err(Error::MissingHeader("Sec-WebSocket-Version")),
        };
        if !super::bytes_eq_ignore_ascii_case(version, "13".as_bytes()) {
            return Err(Error::UnsupportedWebSocketVersion);
        }
        let key = match lookup(headers, "Sec-WebSocket-Key") {
            Some(v) => v,
            None => return Err(Error::MissingHeader("Sec-WebSocket-Key")),
        };
        Ok(Self { ws_accept: digest(key) })
    }

    /// Returns the value that the client expects to see in the server's
    /// `Sec-WebSocket-Accept` header.
    pub fn ws_accept(&self) -> (r: String)
        ensures
            r@ == base64_encode(self@),
    {
        encode_base64(&self.ws_accept)
    }
}

/// The beginning of the response accepting a client's opening handshake, up
/// until the `Sec-WebSocket-Accept` header value.
pub const SWITCHING_PROTOCOLS_BODY: &'static str =
    "HTTP/1.1 101 Switching Protocols\r\nUpgrade: websocket\r\nConnection: Upgrade\r\nSec-WebSocket-Accept: ";

/// The lines of extra headers: each name, `": "`, the value and `"\r\n"`.
pub open spec fn header_lines(headers: Seq<(Seq<u8>, Seq<u8>)>) -> Seq<u8>
    decreases headers.len(),
{
    if headers.len() == 0 {
        Seq::empty()
    } else {
        header_lines(headers.drop_last()) + headers.last().0 + ": ".spec_bytes() + headers.last().1
            + "\r\n".spec_bytes()
    }
}

/// Every extra header gets its own line, in order: the lines of a single
/// header are its name, `": "`, its value and `"\r\n"`, and the lines of
/// two lists of headers one after the other are the lines of the first list
/// followed by those of the second.
pub proof fn lemma_header_lines(
    a: Seq<(Seq<u8>, Seq<u8>)>,
    b: Seq<(Seq<u8>, Seq<u8>)>,
    h: (Seq<u8>, Seq<u8>),
)
    ensures
        header_lines(Seq::empty()) == Seq::<u8>::empty(),
        header_lines(seq![h]) == h.0 + seq![58u8, 32u8] + h.1 + seq![13u8, 10u8],
        header_lines(a + b) == header_lines(a) + header_lines(b),
        header_lines(a).len() == a.fold_left(0int, |n: int, e: (Seq<u8>, Seq<u8>)| n + e.0.len() + e.1.len() + 4),
    decreases b.len(),
{
    lemma_separator_bytes();
    let e: Seq<(Seq<u8>, Seq<u8>)> = Seq::empty();
    assert(seq![h].drop_last() =~= e);
    assert(seq![h].last() == h);
    assert(header_lines(e) == Seq::<u8>::empty());
    assert(header_lines(seq![h]) == Seq::<u8>::empty() + h.0 + ": ".spec_bytes() + h.1
        + "\r\n".spec_bytes());
    assert(header_lines(seq![h]) =~= h.0 + seq![58u8, 32u8] + h.1 + seq![13u8, 10u8]);
    if b.len() == 0 {
        assert(a + b =~= a);
        assert(header_lines(a) + header_lines(b) =~= header_lines(a));
    } else {
        lemma_header_lines(a, b.drop_last(), h);
        assert((a + b).drop_last() =~= a + b.drop_last());
        assert((a + b).last() == b.last());
        assert(header_lines(a + b) =~= header_lines(a) + header_lines(b));
    }
    lemma_header_lines_len(a);
}

/// The bytes of the separators of a header line.
proof fn lemma_separator_bytes()
    ensures
        ": ".spec_bytes() == seq![58u8, 32u8],
        "\r\n".spec_bytes() == seq![13u8, 10u8],
{
    reveal_strlit(": ");
    reveal_strlit("\r\n");
    vstd::utf8::is_ascii_chars_encode_utf8(": "@);
    vstd::utf8::is_ascii_chars_encode_utf8("\r\n"@);
    assert(": ".spec_bytes() =~= seq![58u8, 32u8]);
    assert("\r\n".spec_bytes() =~= seq![13u8, 10u8]);
}

/// The length of the lines of `a`: each header adds its name, its value
/// and four bytes.
proof fn lemma_header_lines_len(a: Seq<(Seq<u8>, Seq<u8>)>)
    ensures
        header_lines(a).len() == a.fold_left(0int, |n: int, e: (Seq<u8>, Seq<u8>)| n + e.0.len() + e.1.len() + 4),
    decreases a.len(),
{
    lemma_separator_bytes();
    if a.len() > 0 {
        lemma_header_lines_len(a.drop_last());
    }
}

/// Appends the lines of the extra headers `headers` to `out`.
pub fn push_header_lines(out: &mut Vec<u8>, headers: &[(Vec<u8>, Vec<u8>)])
    ensures
        final(out)@ == old(out)@ + header_lines(headers_view(headers@)),
{
    let ghost hv = headers_view(headers@);
    let mut i: usize = 0;
    while i < headers.len()
        invariant
            i <= headers@.len(),
            hv == headers_view(headers@),
            out@ == old(out)@ + header_lines(hv.take(i as int)),
        decreases headers@.len() - i,
    {
        crate::proto::extend_bytes(out, headers[i].0.as_slice());
        crate::proto::extend_bytes(out, ": ".as_bytes());
        crate::proto::extend_bytes(out, headers[i].1.as_slice());
        crate::proto::extend_bytes(out, "\r\n".as_bytes());
        proof {
            assert(hv.take(i + 1).drop_last() =~= hv.take(i as int));
            assert(hv.take(i + 1).last() == hv[i as int]);
        }
        i = i + 1;
    }
    proof {
        assert(hv.take(headers@.len() as int) =~= hv);
    }
}

/// The response accepting a client's opening handshake with the accept
/// value `accept` and the extra headers `headers`.
pub open spec fn switching_protocols(accept: Seq<char>, headers: Seq<(Seq<u8>, Seq<u8>)>) -> Seq<u8> {
    SWITCHING_PROTOCOLS_BODY.spec_bytes() + vstd::utf8::encode_utf8(accept) + "\r\n".spec_bytes()
        + header_lines(headers) + "\r\n".spec_bytes()
}

/// Builds the response accepting a client's opening handshake.
pub fn switching_protocols_response(accept: &str, headers: &[(Vec<u8>, Vec<u8>)]) -> (r: Vec<u8>)
    ensures
        r@ == switching_protocols(accept@, headers_view(headers@)),
{
    let mut out: Vec<u8> = Vec::new();
    crate::proto::extend_bytes(&mut out, SWITCHING_PROTOCOLS_BODY.as_bytes());
    crate::proto::extend_bytes(&mut out, accept.as_bytes());
    crate::proto::extend_bytes(&mut out, "\r\n".as_bytes());
    push_header_lines(&mut out, headers);
    crate::proto::extend_bytes(&mut out, "\r\n".as_bytes());
    out
}

/// A codec for HTTP/1.1 upgrade requests that yields the response to reply
/// with.
pub struct ClientRequestCodec {
    /// Extra headers to send with the switching protocols response.
    pub response_headers: Vec<(Vec<u8>, Vec<u8>)>,
}

impl ClientRequestCodec {
    /// Decodes a client's opening handshake from the start of `src`.
    ///
    /// Returns `None` while the request head is incomplete; otherwise the
    /// length of the head, the head and the response to send.
    ///
    /// # Errors
    ///
    /// Fails with [`Error::Parsing`] if the request cannot be parsed and with
    /// the error of [`ClientRequest::parse`] if it is no valid opening
    /// handshake.
    pub fn decode(&self, src: &[u8]) -> (r: Result<Option<(usize, RequestHead, Vec<u8>)>, crate::Error>)
        ensures
            match httparse_request(src@, MAX_HEADERS) {
                Err(e) => r matches Err(crate::Error::Upgrade(Error::Parsing(e2))) && e2 == e,
                Ok(None) => r matches Ok(None),
                Ok(Some(h)) => match handshake_key(h.headers) {
                    Err(e) => r matches Err(crate::Error::Upgrade(e2)) && e2 == e,
                    Ok(key) => r matches Ok(Some((n, head, resp))) && n == h.len && n <= src@.len()
                        && head@ == h && resp@ == switching_protocols(
                        base64_encode(sha1(key + guid())),
                        headers_view(self.response_headers@),
                    ),
                },
            },
    {
        let head = match parse_request(src, MAX_HEADERS) {
            Err(e) => return Err(crate::Error::Upgrade(Error::Parsing(e))),
            Ok(None) => return Ok(None),
            Ok(Some(head)) => head,
        };
        let request = match ClientRequest::parse(head.headers.as_slice()) {
            Ok(request) => request,
            Err(e) => return Err(crate::Error::Upgrade(e)),
        };
        let accept = request.ws_accept();
        let response = switching_protocols_response(accept.as_str(), self.response_headers.as_slice());
        Ok(Some((head.len, head, response)))
    }
}

} // verus!
