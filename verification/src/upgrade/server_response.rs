//! The client's side of the opening handshake: checking the server's
//! response.
use vstd::prelude::*;
use vstd::string::StringSliceAdditionalSpecFns;

use super::head::{httparse_response, parse_response, ResponseHead, MAX_HEADERS};
use super::{bytes_equal, find_header, header_value, Error};
use crate::encoding::{base64_decode_slice, decode_base64_slice};
use crate::sha::{digest, guid, sha1};

verus! {

broadcast use vstd::seq_lib::group_seq_properties;

/// HTTP status code for Switching Protocols.
pub const SWITCHING_PROTOCOLS: u16 = 101;

/// The 20 bytes a `Sec-WebSocket-Accept` value is read into: what it decodes
/// to, followed by zeros; `None` when it does not decode into 20 bytes.
pub open spec fn decoded_accept(value: Seq<u8>) -> Option<Seq<u8>> {
    match base64_decode_slice(value, 20) {
        Some(d) => Some(d + Seq::new((20 - d.len()) as nat, |i: int| 0u8)),
        None => None,
    }
}

/// A codec that checks the server's response to the client's HTTP
/// `Connection: Upgrade` request.
pub struct Codec {
    /// The SHA-1 digest of the `Sec-WebSocket-Key` header.
    ws_accept: [u8; 20],
}

impl View for Codec {
    type V = Seq<u8>;

    /// The digest of the key the client sent.
    closed spec fn view(&self) -> Seq<u8> {
        self.ws_accept@
    }
}

impl Codec {
    /// Returns a new [`Codec`].
    ///
    /// The `key` parameter provides the string passed to the server via the
    /// HTTP `Sec-WebSocket-Key` header.
    pub fn new(key: &[u8]) -> (r: Self)
        ensures
            r@ == sha1(key@ + guid()),
    {
        Self { ws_accept: digest(key) }
    }

    /// Decodes the server's response from the start of `src`.
    ///
    /// Returns `None` while the response head is incomplete, otherwise the
    /// head, whose length says how much of `src` it took.
    ///
    /// # Errors
    ///
    /// Fails with [`Error::Parsing`] if the response cannot be parsed, with
    /// [`Error::DidNotSwitchProtocols`] if its status is not 101, with
    /// [`Error::MissingHeader`] without a `Sec-WebSocket-Accept` header and
    /// with [`Error::WrongWebSocketAccept`] if that header does not hold the
    /// digest of the key.
    pub fn decode(&self, src: &[u8]) -> (r: Result<Option<ResponseHead>, crate::Error>)
        ensures
            match httparse_response(src@, MAX_HEADERS) {
                Err(e) => r matches Err(crate::Error::Upgrade(Error::Parsing(e2))) && e2 == e,
                Ok(None) => r matches Ok(None),
                Ok(Some(h)) => if h.code != Some(SWITCHING_PROTOCOLS) {
                    r matches Err(crate::Error::Upgrade(Error::DidNotSwitchProtocols(c))) && h.code
                        == Some(c)
                } else {
                    match header_value(h.headers, "Sec-WebSocket-Accept".spec_bytes()) {
                        None => r matches Err(crate::Error::Upgrade(Error::MissingHeader(name)))
                            && name == "Sec-WebSocket-Accept",
                        Some(v) => if decoded_accept(v) == Some(self@) {
                            r matches Ok(Some(head)) && head@ == h && head.len <= src@.len()
                        } else {
                            r matches Err(crate::Error::Upgrade(Error::WrongWebSocketAccept))
                        },
                    }
                },
            },
    {
        let head = match parse_response(src, MAX_HEADERS) {
            Err(e) => return Err(crate::Error::Upgrade(Error::Parsing(e))),
            Ok(None) => return Ok(None),
            Ok(Some(head)) => head,
        };
        // A complete head always carries its status code, so the second arm
        // is never taken.
        let code = match head.code {
            Some(code) => code,
            None => return Err(crate::Error::Upgrade(Error::DidNotSwitchProtocols(0))),
        };
        if code != SWITCHING_PROTOCOLS {
            return Err(crate::Error::Upgrade(Error::DidNotSwitchProtocols(code)));
        }
        let value = match find_header(head.headers.as_slice(), "Sec-WebSocket-Accept".as_bytes()) {
            Some(i) => head.headers[i].1.as_slice(),
            None => return Err(crate::Error::Upgrade(Error::MissingHeader("Sec-WebSocket-Accept"))),
        };
        let mut ws_accept = [0u8; 20];
        let ghost zeros = ws_accept@;
        match decode_base64_slice(value, &mut ws_accept) {
            Some(_) => {},
            None => return Err(crate::Error::Upgrade(Error::WrongWebSocketAccept)),
        }
        proof {
            let d = base64_decode_slice(value@, 20).unwrap();
            assert(zeros.skip(d.len() as int) =~= Seq::new((20 - d.len()) as nat, |i: int| 0u8));
        }
        if !bytes_equal(&self.ws_accept, &ws_accept) {
            return Err(crate::Error::Upgrade(Error::WrongWebSocketAccept));
        }
        Ok(Some(head))
    }
}

} // verus!
