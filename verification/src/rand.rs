//! Random numbers generation utilities required in WebSocket clients.
use vstd::prelude::*;

verus! {

/// Fills `dst` with random bytes with `fastrand::fill`.
///
/// The contract claims only that the length of `dst` stays: the bytes are
/// random.
#[verifier::external_body]
fn fill_random(dst: &mut [u8])
    ensures
        final(dst)@.len() == old(dst)@.len(),
{
    fastrand::fill(dst);
}

/// Generate a random 16-byte WebSocket key.
pub fn get_key() -> (r: [u8; 16])
    ensures
        r@.len() == 16,
{
    let mut bytes = [0u8; 16];
    fill_random(&mut bytes);
    bytes
}

/// Generate a random 4-byte WebSocket mask.
pub fn get_mask(dst: &mut [u8; 4])
    ensures
        final(dst)@.len() == 4,
{
    fill_random(dst);
}

} // verus!
