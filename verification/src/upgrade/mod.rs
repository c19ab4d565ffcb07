//! HTTP upgrade request and response generation and validation helpers.
use vstd::prelude::*;

use self::head::headers_view;

pub use self::client_request::{ClientRequest, ClientRequestCodec};
pub use self::server_response::Codec as ServerResponseCodec;

pub mod client_request;
pub mod head;
pub mod server_response;

verus! {

/// Errors that occur during the HTTP upgrade handshake between client and
/// server.
#[derive(Debug)]
#[non_exhaustive]
pub enum Error {
    /// Header required in the request or response is not present.
    MissingHeader(&'static str),
    /// `Upgrade` header sent by the client does not match "websocket".
    UpgradeNotWebSocket,
    /// `Connection` header sent by the client does not contain "Upgrade".
    ConnectionNotUpgrade,
    /// `Sec-WebSocket-Version` header sent by the client is not supported by
    /// the server.
    UnsupportedWebSocketVersion,
    /// Failed to parse client request or server response.
    Parsing(httparse::Error),
    /// Server did not return a HTTP Switching Protocols response.
    DidNotSwitchProtocols(u16),
    /// Server returned a `Sec-WebSocket-Accept` that is not compatible with the
    /// `Sec-WebSocket-Key` sent by the client.
    WrongWebSocketAccept,
}

/// The ASCII lower case of a byte.
pub open spec fn ascii_lower(b: u8) -> u8 {
    if 65 <= b <= 90 {
        (b + 32) as u8
    } else {
        b
    }
}

/// `a` and `b` are equal, ignoring ASCII case.
pub open spec fn eq_ignore_ascii_case(a: Seq<u8>, b: Seq<u8>) -> bool {
    &&& a.len() == b.len()
    &&& forall|i: int| 0 <= i < a.len() ==> ascii_lower(#[trigger] a[i]) == ascii_lower(b[i])
}

/// The ASCII lower case of a byte.
pub fn to_ascii_lowercase(b: u8) -> (r: u8)
    ensures
        r == ascii_lower(b),
{
    if 65 <= b && b <= 90 {
        b + 32
    } else {
        b
    }
}

/// Whether `a` and `b` are equal, ignoring ASCII case.
pub fn bytes_eq_ignore_ascii_case(a: &[u8], b: &[u8]) -> (r: bool)
    ensures
        r == eq_ignore_ascii_case(a@, b@),
{
    if a.len() != b.len() {
        return false;
    }
    let mut i: usize = 0;
    while i < a.len()
        invariant
            a@.len() == b@.len(),
            i <= a@.len(),
            forall|j: int| 0 <= j < i ==> ascii_lower(#[trigger] a@[j]) == ascii_lower(b@[j]),
        decreases a@.len() - i,
    {
        if to_ascii_lowercase(a[i]) != to_ascii_lowercase(b[i]) {
            return false;
        }
        i = i + 1;
    }
    true
}

/// The index of the first header named `name`, ignoring ASCII case, if any.
pub open spec fn first_header(headers: Seq<(Seq<u8>, Seq<u8>)>, name: Seq<u8>) -> Option<int>
    decreases headers.len(),
{
    if headers.len() == 0 {
        None
    } else if eq_ignore_ascii_case(headers[0].0, name) {
        Some(0)
    } else {
        match first_header(headers.drop_first(), name) {
            Some(i) => Some(i + 1),
            None => None,
        }
    }
}

/// The value of the first header named `name`, ignoring ASCII case.
pub open spec fn header_value(headers: Seq<(Seq<u8>, Seq<u8>)>, name: Seq<u8>) -> Option<Seq<u8>> {
    match first_header(headers, name) {
        Some(i) => Some(headers[i].1),
        None => None,
    }
}

/// The first header is found where its name matches and no earlier one does.
proof fn lemma_first_header(headers: Seq<(Seq<u8>, Seq<u8>)>, name: Seq<u8>)
    ensures
        match first_header(headers, name) {
            Some(i) => 0 <= i < headers.len() && eq_ignore_ascii_case(headers[i].0, name) && forall|j: int|
                0 <= j < i ==> !eq_ignore_ascii_case(#[trigger] headers[j].0, name),
            None => forall|j: int|
                0 <= j < headers.len() ==> !eq_ignore_ascii_case(#[trigger] headers[j].0, name),
        },
    decreases headers.len(),
{
    if headers.len() > 0 {
        lemma_first_header(headers.drop_first(), name);
        if !eq_ignore_ascii_case(headers[0].0, name) {
            match first_header(headers.drop_first(), name) {
                Some(i) => {
                    assert forall|j: int| 0 <= j < i + 1 implies !eq_ignore_ascii_case(
                        #[trigger] headers[j].0,
                        name,
                    ) by {
                        if j > 0 {
                            assert(headers[j] == headers.drop_first()[j - 1]);
                        }
                    }
                },
                None => {
                    assert forall|j: int| 0 <= j < headers.len() implies !eq_ignore_ascii_case(
                        #[trigger] headers[j].0,
                        name,
                    ) by {
                        if j > 0 {
                            assert(headers[j] == headers.drop_first()[j - 1]);
                        }
                    }
                },
            }
        }
    }
}

/// Finds the first header named `name`, ignoring ASCII case, and returns its
/// index.
pub fn find_header(headers: &[(Vec<u8>, Vec<u8>)], name: &[u8]) -> (r: Option<usize>)
    ensures
        match first_header(headers_view(headers@), name@) {
            Some(i) => r == Some(i as usize),
            None => r is None,
        },
        match r {
            Some(i) => i < headers@.len() && header_value(headers_view(headers@), name@) == Some(
                headers@[i as int].1@,
            ),
            None => header_value(headers_view(headers@), name@) is None,
        },
{
    let ghost hv = headers_view(headers@);
    proof {
        lemma_first_header(hv, name@);
    }
    let mut i: usize = 0;
    while i < headers.len()
        invariant
            hv == headers_view(headers@),
            i <= headers@.len(),
            forall|j: int| 0 <= j < i ==> !eq_ignore_ascii_case(#[trigger] hv[j].0, name@),
            match first_header(hv, name@) {
                Some(k) => 0 <= k < hv.len() && eq_ignore_ascii_case(hv[k].0, name@) && forall|j: int|
                    0 <= j < k ==> !eq_ignore_ascii_case(#[trigger] hv[j].0, name@),
                None => forall|j: int|
                    0 <= j < hv.len() ==> !eq_ignore_ascii_case(#[trigger] hv[j].0, name@),
            },
        decreases headers@.len() - i,
    {
        if bytes_eq_ignore_ascii_case(headers[i].0.as_slice(), name) {
            assert(hv[i as int].0 == headers@[i as int].0@);
            return Some(i);
        }
        assert(hv[i as int].0 == headers@[i as int].0@);
        i = i + 1;
    }
    None
}

/// Whether two byte slices are equal.
pub fn bytes_equal(a: &[u8], b: &[u8]) -> (r: bool)
    ensures
        r == (a@ == b@),
{
    if a.len() != b.len() {
        return false;
    }
    let mut i: usize = 0;
    while i < a.len()
        invariant
            a@.len() == b@.len(),
            i <= a@.len(),
            forall|j: int| 0 <= j < i ==> a@[j] == b@[j],
        decreases a@.len() - i,
    {
        if a[i] != b[i] {
            return false;
        }
        i = i + 1;
    }
    assert(a@ =~= b@);
    true
}

} // verus!
