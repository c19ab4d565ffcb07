//! WebSocket frame (un)masking.
use vstd::prelude::*;

verus! {

/// The masking key rotated left by `n` bytes, as it stands after `n` bytes
/// of payload have been masked with it.
pub open spec fn rotate_key(key: Seq<u8>, n: int) -> Seq<u8> {
    Seq::new(4, |i: int| key[(i + n) % 4])
}

/// `data` (un)masked with `key`, the first byte of `data` being masked with
/// `key[0]`.
pub open spec fn apply_mask(key: Seq<u8>, data: Seq<u8>) -> Seq<u8> {
    Seq::new(data.len(), |i: int| data[i] ^ key[i % 4])
}

/// XORs `input[start..]` with `key`, byte `start` with `key[0]`.
fn xor_from(key: &[u8; 4], input: &mut [u8], start: usize)
    requires
        start <= old(input)@.len(),
    ensures
        final(input)@.len() == old(input)@.len(),
        final(input)@.subrange(0, start as int) == old(input)@.subrange(0, start as int),
        final(input)@.subrange(start as int, old(input)@.len() as int) == apply_mask(
            key@,
            old(input)@.subrange(start as int, old(input)@.len() as int),
        ),
{
    let len = input.len();
    let mut i = start;
    while i < len
        invariant
            start <= i <= len,
            len == old(input)@.len(),
            input@.len() == len,
            forall|j: int| 0 <= j < start ==> input@[j] == old(input)@[j],
            forall|j: int| i <= j < len ==> input@[j] == old(input)@[j],
            forall|j: int|
                start <= j < i ==> input@[j] == old(input)@[j] ^ key@[(j - start) % 4],
        decreases len - i,
    {
        let k = key[(i - start) % 4];
        input[i] = input[i] ^ k;
        i = i + 1;
    }
    assert(input@.subrange(0, start as int) =~= old(input)@.subrange(0, start as int));
    assert(input@.subrange(start as int, len as int) =~= apply_mask(
        key@,
        old(input)@.subrange(start as int, len as int),
    ));
}

/// (Un)masks `input[start..end]` in place with `key`, continuing a mask of
/// which `key_offset` bytes have been used already: byte `i` of the range is
/// XORed with `key[((i - start) % 4 + key_offset) % 4]`.
pub fn frame_range(key: &[u8; 4], input: &mut [u8], start: usize, end: usize, key_offset: usize)
    requires
        start <= end <= old(input)@.len(),
        key_offset < 4,
    ensures
        final(input)@.len() == old(input)@.len(),
        forall|j: int|
            0 <= j < old(input)@.len() ==> #[trigger] final(input)@[j] == if start <= j < end {
                old(input)@[j] ^ key@[((j - start) % 4 + key_offset) % 4]
            } else {
                old(input)@[j]
            },
{
    let mut i = start;
    while i < end
        invariant
            start <= i <= end,
            end <= old(input)@.len(),
            key_offset < 4,
            input@.len() == old(input)@.len(),
            forall|j: int|
                0 <= j < old(input)@.len() ==> #[trigger] input@[j] == if start <= j < i {
                    old(input)@[j] ^ key@[((j - start) % 4 + key_offset) % 4]
                } else {
                    old(input)@[j]
                },
        decreases end - i,
    {
        let k = key[((i - start) % 4 + key_offset) % 4];
        input[i] = input[i] ^ k;
        i = i + 1;
    }
}

/// The key rotated left by `n` bytes (`n < 4`), as the big-endian rotation
/// of the key read as a `u32`.
fn rotated(key: &[u8; 4], n: usize) -> (r: [u8; 4])
    requires
        n < 4,
    ensures
        r@ == rotate_key(key@, n as int),
{
    let r = [key[n % 4], key[(n + 1) % 4], key[(n + 2) % 4], key[(n + 3) % 4]];
    assert(r@ =~= rotate_key(key@, n as int));
    r
}

/// (Un)masks input bytes with the framing key, one byte at once.
///
/// Unless `is_complete`, the key is rotated afterwards so that a following
/// call continues the mask where this one stopped.
pub fn one_byte_at_once(key: &mut [u8; 4], input: &mut [u8], is_complete: bool)
    ensures
        final(input)@ == apply_mask(old(key)@, old(input)@),
        final(key)@ == (if is_complete {
            old(key)@
        } else {
            rotate_key(old(key)@, (old(input)@.len() % 4) as int)
        }),
{
    xor_from(key, input, 0);
    assert(old(input)@.subrange(0, old(input)@.len() as int) =~= old(input)@);
    assert(input@.subrange(0, input@.len() as int) =~= input@);
    if !is_complete {
        *key = rotated(key, input.len() % 4);
    }
}

/// (Un)masks input bytes with the framing key.
///
/// The payload is processed in whole four-byte blocks, each XORed with the
/// full key, followed by the remaining bytes one at a time. Unless
/// `is_complete`, the key is rotated by the length of the input modulo four,
/// so that masking a payload in several pieces gives the same bytes as
/// masking it at once (see [`lemma_mask_split`]).
pub fn frame(key: &mut [u8; 4], input: &mut [u8], is_complete: bool)
    ensures
        final(input)@ == apply_mask(old(key)@, old(input)@),
        final(key)@ == (if is_complete {
            old(key)@
        } else {
            rotate_key(old(key)@, (old(input)@.len() % 4) as int)
        }),
{
    // The one byte at once method is as good as any for small inputs
    if input.len() < 4 {
        one_byte_at_once(key, input, is_complete);
        return;
    }
    let len = input.len();
    let body = len - len % 4;
    let k0 = key[0];
    let k1 = key[1];
    let k2 = key[2];
    let k3 = key[3];
    let mut i: usize = 0;
    while i < body
        invariant
            i <= body,
            body == len - len % 4,
            i % 4 == 0,
            len == old(input)@.len(),
            input@.len() == len,
            key@ == old(key)@,
            k0 == key@[0],
            k1 == key@[1],
            k2 == key@[2],
            k3 == key@[3],
            forall|j: int| i <= j < len ==> input@[j] == old(input)@[j],
            forall|j: int| 0 <= j < i ==> input@[j] == old(input)@[j] ^ key@[j % 4],
        decreases body - i,
    {
        input[i] = input[i] ^ k0;
        input[i + 1] = input[i + 1] ^ k1;
        input[i + 2] = input[i + 2] ^ k2;
        input[i + 3] = input[i + 3] ^ k3;
        i = i + 4;
    }
    xor_from(key, input, body);
    assert forall|j: int| 0 <= j < len implies input@[j] == old(input)@[j] ^ old(key)@[j % 4] by {
        if j >= body {
            assert(input@[j] == input@.subrange(body as int, len as int)[j - body]);
            assert((j - body) % 4 == j % 4);
        } else {
            assert(input@[j] == input@.subrange(0, body as int)[j]);
        }
    }
    assert(input@ =~= apply_mask(old(key)@, old(input)@));
    if !is_complete {
        *key = rotated(key, len % 4);
    }
}

/// Masking is an involution: (un)masking twice with the same key gives back
/// the payload it started from.
pub proof fn lemma_mask_involution(key: Seq<u8>, data: Seq<u8>)
    requires
        key.len() == 4,
    ensures
        apply_mask(key, apply_mask(key, data)) == data,
{
    assert forall|i: int| 0 <= i < data.len() implies apply_mask(key, apply_mask(key, data))[i]
        == data[i] by {
        let b = data[i];
        let k = key[i % 4];
        assert((b ^ k) ^ k == b) by (bit_vector);
    }
    assert(apply_mask(key, apply_mask(key, data)) =~= data);
}

/// Masking a payload piece by piece, with the key rotated by each piece's
/// length in between, gives the same bytes as masking it at once.
pub proof fn lemma_mask_split(key: Seq<u8>, a: Seq<u8>, b: Seq<u8>)
    requires
        key.len() == 4,
    ensures
        apply_mask(key, a) + apply_mask(rotate_key(key, (a.len() % 4) as int), b) == apply_mask(
            key,
            a + b,
        ),
{
    let lhs = apply_mask(key, a) + apply_mask(rotate_key(key, (a.len() % 4) as int), b);
    let rhs = apply_mask(key, a + b);
    assert forall|i: int| 0 <= i < lhs.len() implies lhs[i] == rhs[i] by {
        if i >= a.len() {
            let k = i - a.len();
            assert(((k % 4) + (a.len() as int % 4)) % 4 == i % 4) by (nonlinear_arith)
                requires
                    k >= 0,
                    i == k + a.len(),
            ;
        }
    }
    assert(lhs =~= rhs);
}

} // verus!
