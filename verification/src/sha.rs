//! The SHA-1 digest of a WebSocket key, as the opening handshake uses it.
use vstd::prelude::*;
use vstd::string::StringSliceAdditionalSpecFns;

verus! {

/// The SHA-1 digest of `data`, as `sha1_smol` computes it.
pub uninterp spec fn sha1(data: Seq<u8>) -> Seq<u8>;

/// The Globally Unique Identifier (GUID) used in the WebSocket protocol, in
/// ASCII.
pub open spec fn guid() -> Seq<u8> {
    seq![
        50u8, 53, 56, 69, 65, 70, 65, 53, 45, 69, 57, 49, 52, 45, 52, 55, 68, 65, 45, 57, 53, 67,
        65, 45, 67, 53, 65, 66, 48, 68, 67, 56, 53, 66, 49, 49,
    ]
}

/// The Globally Unique Identifier (GUID) used in the WebSocket protocol (see
/// Section 1.3 of RFC 6455).
const GUID: &'static str = "258EAFA5-E914-47DA-95CA-C5AB0DC85B11";

/// Computes the SHA-1 digest of `data` with `sha1_smol::Sha1`.
///
/// The contract names the digest `sha1(data)` and says that it is 20 bytes
/// long, as `sha1_smol::Digest::bytes` returns a `[u8; 20]`.
#[verifier::external_body]
fn sha1_digest(data: &[u8]) -> (r: [u8; 20])
    ensures
        r@ == sha1(data@),
        r@.len() == 20,
{
    sha1_smol::Sha1::from(data).digest().bytes()
}

/// Calculate the SHA-1 digest of a WebSocket key and the GUID.
pub fn digest(key: &[u8]) -> (r: [u8; 20])
    ensures
        r@ == sha1(key@ + guid()),
{
    let mut data: Vec<u8> = Vec::new();
    crate::proto::extend_bytes(&mut data, key);
    crate::proto::extend_bytes(&mut data, GUID.as_bytes());
    proof {
        reveal_strlit("258EAFA5-E914-47DA-95CA-C5AB0DC85B11");
        vstd::utf8::is_ascii_chars_encode_utf8(GUID@);
        assert(GUID.spec_bytes() =~= guid());
    }
    sha1_digest(data.as_slice())
}

} // verus!
