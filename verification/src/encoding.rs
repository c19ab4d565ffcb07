//! Standard (padded) base64, as the opening handshake carries keys and
//! digests in it.
use base64::Engine;
use vstd::prelude::*;

verus! {

/// The standard, padded base64 encoding of `bytes`, as the `base64` crate's
/// `general_purpose::STANDARD` engine writes it.
pub uninterp spec fn base64_encode(bytes: Seq<u8>) -> Seq<char>;

/// What the `base64` crate's `general_purpose::STANDARD` engine decodes
/// `input` to with `decode_slice` into an output slice of `out_len` bytes:
/// `None` when it fails, because `input` is not valid base64 or the output
/// slice is too small.
pub uninterp spec fn base64_decode_slice(input: Seq<u8>, out_len: nat) -> Option<Seq<u8>>;

/// Encodes `bytes` with `base64::engine::general_purpose::STANDARD.encode`.
///
/// The contract names the encoding `base64_encode(bytes)`.
#[verifier::external_body]
pub(crate) fn encode_base64(bytes: &[u8]) -> (r: String)
    ensures
        r@ == base64_encode(bytes@),
{
    base64::engine::general_purpose::STANDARD.encode(bytes)
}

/// Decodes `input` into `output` with
/// `base64::engine::general_purpose::STANDARD.decode_slice`.
///
/// On success the crate writes the decoded bytes at the start of `output`
/// and nothing past them, and returns their number. On failure the contract
/// says nothing of what `output` then holds, nor which error the crate
/// reported.
#[verifier::external_body]
pub(crate) fn decode_base64_slice(input: &[u8], output: &mut [u8]) -> (r: Option<usize>)
    ensures
        final(output)@.len() == old(output)@.len(),
        match base64_decode_slice(input@, old(output)@.len() as nat) {
            Some(d) => {
                &&& d.len() <= old(output)@.len()
                &&& r == Some(d.len() as usize)
                &&& final(output)@ == d + old(output)@.skip(d.len() as int)
            },
            None => r is None,
        },
{
    base64::engine::general_purpose::STANDARD.decode_slice(input, output).ok()
}

} // verus!
