//! UTF-8 validation: whole-slice parsing and a streaming validator that
//! checks text payloads as they arrive, byte range by byte range.
use vstd::prelude::*;
use vstd::utf8::*;
use vstd::string::*;

use crate::proto::ProtocolError;

verus! {

broadcast use vstd::seq_lib::group_seq_properties;

/// `s` can still be completed to valid UTF-8 by bytes yet to come.
pub open spec fn utf8_prefix(s: Seq<u8>) -> bool {
    exists|t: Seq<u8>| valid_utf8(#[trigger] (s + t))
}

/// The length of the longest prefix of `s` that is valid UTF-8, as found by
/// decoding scalar after scalar from the start.
pub open spec fn valid_up_to(s: Seq<u8>) -> nat
    decreases s.len(),
{
    if s.len() > 0 && valid_first_scalar(s) {
        let n = length_of_first_scalar(s);
        proof {
            assert(1 <= n <= s.len());
        }
        (n + valid_up_to(pop_first_scalar(s))) as nat
    } else {
        0
    }
}

/// The number of bytes of the UTF-8 encoding that starts with `b` (0 when
/// `b` cannot start one).
pub open spec fn scalar_width(b: u8) -> int {
    if is_leading_byte_width_1(b) {
        1
    } else if is_leading_byte_width_2(b) {
        2
    } else if is_leading_byte_width_3(b) {
        3
    } else if is_leading_byte_width_4(b) {
        4
    } else {
        0
    }
}

/// `t` is the beginning of the encoding of a single scalar, cut short.
pub open spec fn partial_scalar(t: Seq<u8>) -> bool {
    &&& 1 <= t.len() < scalar_width(t[0])
    &&& utf8_prefix(t)
}

/// Whether feeding `input` to a validator that holds the partial scalar
/// `pending` succeeds.
pub open spec fn feed_accepts(pending: Seq<u8>, input: Seq<u8>, is_complete: bool) -> bool {
    if is_complete {
        valid_utf8(pending + input)
    } else {
        utf8_prefix(pending + input)
    }
}

/// The partial scalar a validator holds after successfully being fed
/// `input` while it held `pending`.
pub open spec fn feed_pending(pending: Seq<u8>, input: Seq<u8>, is_complete: bool) -> Seq<u8> {
    if is_complete {
        Seq::empty()
    } else {
        (pending + input).skip(valid_up_to(pending + input) as int)
    }
}


/// A well-formed first scalar stays the first scalar, with the same length,
/// whatever follows it.
proof fn lemma_first_scalar_extend(s: Seq<u8>, t: Seq<u8>)
    requires
        valid_first_scalar(s),
    ensures
        valid_first_scalar(s + t),
        length_of_first_scalar(s + t) == length_of_first_scalar(s),
        pop_first_scalar(s + t) == pop_first_scalar(s) + t,
{
    let st = s + t;
    assert(st[0] == s[0]);
    if s.len() >= 2 {
        assert(st[1] == s[1]);
    }
    if s.len() >= 3 {
        assert(st[2] == s[2]);
    }
    if s.len() >= 4 {
        assert(st[3] == s[3]);
    }
    assert(pop_first_scalar(st) =~= pop_first_scalar(s) + t);
}

/// Whether the first scalar is well-formed depends on its own bytes only.
proof fn lemma_first_scalar_cut(x: Seq<u8>)
    requires
        valid_first_scalar(x),
    ensures
        valid_first_scalar(x.take(length_of_first_scalar(x))),
        valid_utf8(x.take(length_of_first_scalar(x))),
        length_of_first_scalar(x) == scalar_width(x[0]),
        1 <= length_of_first_scalar(x) <= x.len(),
{
    let n = length_of_first_scalar(x);
    let c = x.take(n);
    assert(c[0] == x[0]);
    if n >= 2 {
        assert(c[1] == x[1]);
    }
    if n >= 3 {
        assert(c[2] == x[2]);
    }
    if n >= 4 {
        assert(c[3] == x[3]);
    }
    assert(valid_first_scalar(c));
    assert(pop_first_scalar(c) =~= Seq::<u8>::empty());
    assert(valid_utf8(pop_first_scalar(c)));
}

/// Valid UTF-8 followed by `x` is valid UTF-8 exactly when `x` is.
pub proof fn lemma_valid_concat_iff(v: Seq<u8>, x: Seq<u8>)
    requires
        valid_utf8(v),
    ensures
        valid_utf8(v + x) == valid_utf8(x),
    decreases v.len(),
{
    if v.len() == 0 {
        assert(v + x =~= x);
    } else {
        lemma_first_scalar_extend(v, x);
        lemma_first_scalar_cut(v);
        lemma_valid_concat_iff(pop_first_scalar(v), x);
    }
}

/// Valid UTF-8 followed by `x` can still be completed exactly when `x` can.
pub proof fn lemma_prefix_concat_iff(v: Seq<u8>, x: Seq<u8>)
    requires
        valid_utf8(v),
    ensures
        utf8_prefix(v + x) == utf8_prefix(x),
{
    if utf8_prefix(v + x) {
        let t = choose|t: Seq<u8>| valid_utf8(#[trigger] ((v + x) + t));
        assert((v + x) + t =~= v + (x + t));
        lemma_valid_concat_iff(v, x + t);
        assert(valid_utf8(x + t));
    }
    if utf8_prefix(x) {
        let t = choose|t: Seq<u8>| valid_utf8(#[trigger] (x + t));
        assert((v + x) + t =~= v + (x + t));
        lemma_valid_concat_iff(v, x + t);
        assert(valid_utf8((v + x) + t));
    }
}

/// A sequence that can be completed has a prefix that can be completed.
proof fn lemma_prefix_shrink(x: Seq<u8>, y: Seq<u8>)
    requires
        utf8_prefix(x + y),
    ensures
        utf8_prefix(x),
{
    let t = choose|t: Seq<u8>| valid_utf8(#[trigger] ((x + y) + t));
    assert((x + y) + t =~= x + (y + t));
    assert(valid_utf8(x + (y + t)));
}

/// Valid UTF-8 can be completed (by nothing).
proof fn lemma_valid_is_prefix(x: Seq<u8>)
    requires
        valid_utf8(x),
    ensures
        utf8_prefix(x),
{
    assert(x + Seq::<u8>::empty() =~= x);
    assert(valid_utf8(x + Seq::<u8>::empty()));
}

/// The longest valid prefix is valid, and it is all of `s` exactly when `s`
/// is valid.
pub proof fn lemma_valid_up_to(s: Seq<u8>)
    ensures
        valid_up_to(s) <= s.len(),
        valid_utf8(s.take(valid_up_to(s) as int)),
        valid_utf8(s) <==> valid_up_to(s) == s.len(),
    decreases s.len(),
{
    if s.len() > 0 && valid_first_scalar(s) {
        lemma_first_scalar_cut(s);
        let n = length_of_first_scalar(s);
        let rest = pop_first_scalar(s);
        lemma_valid_up_to(rest);
        let u = valid_up_to(rest) as int;
        assert(s.take(n + u) =~= s.take(n) + rest.take(u));
        valid_utf8_concat(s.take(n), rest.take(u));
    } else {
        assert(s.take(0) =~= Seq::<u8>::empty());
        if s.len() == 0 {
            assert(s.take(0) =~= s);
        }
    }
}

/// Decoding past a valid prefix `c` continues where `c` ends.
pub proof fn lemma_valid_up_to_concat(c: Seq<u8>, r: Seq<u8>)
    requires
        valid_utf8(c),
    ensures
        valid_up_to(c + r) == c.len() + valid_up_to(r),
    decreases c.len(),
{
    if c.len() == 0 {
        assert(c + r =~= r);
    } else {
        lemma_first_scalar_extend(c, r);
        lemma_first_scalar_cut(c);
        lemma_valid_up_to_concat(pop_first_scalar(c), r);
    }
}

/// What is left after the longest valid prefix of a sequence that is not
/// valid but can still be completed is a scalar cut short, of one to three
/// bytes.
pub proof fn lemma_incomplete_tail(s: Seq<u8>)
    requires
        utf8_prefix(s),
        !valid_utf8(s),
    ensures
        partial_scalar(s.skip(valid_up_to(s) as int)),
        1 <= s.len() - valid_up_to(s) <= 3,
{
    lemma_valid_up_to(s);
    let u = valid_up_to(s) as int;
    let v = s.take(u);
    let r = s.skip(u);
    assert(s =~= v + r);
    lemma_prefix_concat_iff(v, r);
    lemma_valid_up_to_concat(v, r);
    if r.len() == 0 {
        assert(s =~= v);
    }
    let t = choose|t: Seq<u8>| valid_utf8(#[trigger] (r + t));
    let rt = r + t;
    assert(rt[0] == r[0]);
    lemma_first_scalar_cut(rt);
    let n = length_of_first_scalar(rt);
    if r.len() >= n {
        assert(rt.take(n) =~= r.take(n));
        lemma_first_scalar_extend(r.take(n), r.skip(n));
        assert(r.take(n) + r.skip(n) =~= r);
        assert(valid_up_to(r) > 0);
    }
}

/// A complete-length scalar encoding that is not valid cannot be completed.
proof fn lemma_bad_scalar_dead_end(c: Seq<u8>)
    requires
        c.len() >= 1,
        c.len() == scalar_width(c[0]),
        !valid_utf8(c),
    ensures
        !utf8_prefix(c),
{
    if utf8_prefix(c) {
        let t = choose|t: Seq<u8>| valid_utf8(#[trigger] (c + t));
        let ct = c + t;
        assert(ct[0] == c[0]);
        lemma_first_scalar_cut(ct);
        assert(ct.take(c.len() as int) =~= c);
    }
}

/// Feeding a validator `a` and then `b` has the same outcome as feeding it
/// `a + b` at once: streaming validation agrees with validating the whole.
pub proof fn lemma_feed_compose(pending: Seq<u8>, a: Seq<u8>, b: Seq<u8>, is_complete: bool)
    ensures
        feed_accepts(pending, a, false) ==> (feed_accepts(feed_pending(pending, a, false), b, is_complete)
            == feed_accepts(pending, a + b, is_complete)),
        feed_accepts(pending, a, false) && feed_accepts(pending, a + b, is_complete) ==> feed_pending(
            feed_pending(pending, a, false),
            b,
            is_complete,
        ) == feed_pending(pending, a + b, is_complete),
        !feed_accepts(pending, a, false) ==> !feed_accepts(pending, a + b, is_complete),
{
    let acc1 = pending + a;
    let acc = pending + (a + b);
    assert(acc =~= acc1 + b);
    lemma_valid_up_to(acc1);
    let u = valid_up_to(acc1) as int;
    let v = acc1.take(u);
    let p1 = acc1.skip(u);
    assert(acc1 =~= v + p1);
    assert(acc =~= v + (p1 + b));
    lemma_valid_concat_iff(v, p1 + b);
    lemma_prefix_concat_iff(v, p1 + b);
    lemma_valid_up_to_concat(v, p1 + b);
    if !feed_accepts(pending, a, false) {
        if utf8_prefix(acc) {
            lemma_prefix_shrink(acc1, b);
        }
        if valid_utf8(acc) {
            lemma_valid_is_prefix(acc);
            lemma_prefix_shrink(acc1, b);
        }
    }
    assert(feed_pending(pending, a, false) == p1);
    let w = p1 + b;
    lemma_valid_up_to(w);
    let k = valid_up_to(w) as int;
    assert((v + w).skip(v.len() + k) =~= w.skip(k));
}

/// Feeding `chunks` one after the other to a validator that holds
/// `pending`, the last chunk ending the text: the number of calls that
/// succeed before the first that fails (all of them when none fails).
pub open spec fn feed_run(pending: Seq<u8>, chunks: Seq<Seq<u8>>) -> nat
    decreases chunks.len(),
{
    if chunks.len() == 0 {
        0
    } else {
        let last = chunks.len() == 1;
        if feed_accepts(pending, chunks[0], last) {
            1 + feed_run(feed_pending(pending, chunks[0], last), chunks.drop_first())
        } else {
            0
        }
    }
}

/// Feeding chunks after `pending` gets past the `i`-th call exactly when
/// the first `i + 1` chunks together are accepted at once.
proof fn lemma_feed_run(pending: Seq<u8>, chunks: Seq<Seq<u8>>, i: int)
    requires
        0 <= i < chunks.len(),
    ensures
        feed_run(pending, chunks) > i <==> feed_accepts(
            pending,
            chunks.take(i + 1).flatten(),
            i + 1 == chunks.len(),
        ),
    decreases i,
{
    let c0 = chunks[0];
    let rest = chunks.drop_first();
    assert(chunks.take(1).drop_first() =~= Seq::<Seq<u8>>::empty());
    assert(chunks.take(i + 1).drop_first() =~= rest.take(i));
    assert(chunks.take(i + 1).flatten() == c0 + rest.take(i).flatten());
    if i == 0 {
        assert(rest.take(0).flatten() =~= Seq::<u8>::empty());
        assert(c0 + Seq::<u8>::empty() =~= c0);
    } else {
        let p1 = feed_pending(pending, c0, false);
        lemma_feed_run(p1, rest, i - 1);
        lemma_feed_compose(pending, c0, rest.take(i).flatten(), i + 1 == chunks.len());
    }
}

/// Streaming validation over any number of calls agrees with validating the
/// whole text at once: feeding a fresh validator the chunks of a text, the
/// last one ending it, every call succeeds exactly when the text is valid
/// UTF-8, and the calls succeed up to the first chunk after which the text
/// so far can no longer be completed to valid UTF-8 (or, for the last one,
/// is not valid UTF-8).
pub proof fn lemma_feed_chunks(chunks: Seq<Seq<u8>>)
    requires
        chunks.len() >= 1,
    ensures
        feed_run(Seq::empty(), chunks) == chunks.len() <==> valid_utf8(chunks.flatten()),
        forall|i: int|
            0 <= i < chunks.len() ==> (feed_run(Seq::empty(), chunks) > i <==> (if i + 1
                < chunks.len() {
                utf8_prefix(#[trigger] chunks.take(i + 1).flatten())
            } else {
                valid_utf8(chunks.take(i + 1).flatten())
            })),
{
    assert forall|i: int|
        0 <= i < chunks.len() implies (feed_run(Seq::empty(), chunks) > i <==> (if i + 1
        < chunks.len() {
        utf8_prefix(#[trigger] chunks.take(i + 1).flatten())
    } else {
        valid_utf8(chunks.take(i + 1).flatten())
    })) by {
        lemma_feed_run(Seq::empty(), chunks, i);
        assert(Seq::<u8>::empty() + chunks.take(i + 1).flatten() =~= chunks.take(i + 1).flatten());
    }
    lemma_feed_run_le(Seq::empty(), chunks);
    let n = chunks.len() as int;
    assert(chunks.take(n) =~= chunks);
    lemma_feed_run(Seq::empty(), chunks, n - 1);
    assert(Seq::<u8>::empty() + chunks.flatten() =~= chunks.flatten());
}

/// No more calls succeed than there are chunks.
proof fn lemma_feed_run_le(pending: Seq<u8>, chunks: Seq<Seq<u8>>)
    ensures
        feed_run(pending, chunks) <= chunks.len(),
    decreases chunks.len(),
{
    if chunks.len() > 0 {
        let last = chunks.len() == 1;
        lemma_feed_run_le(feed_pending(pending, chunks[0], last), chunks.drop_first());
    }
}

/// Checks `input` with `simdutf8::basic::from_utf8`.
///
/// The contract claims that the check succeeds exactly on valid UTF-8, and
/// then gives back the same bytes as a string slice.
#[verifier::external_body]
fn from_utf8_basic(input: &[u8]) -> (r: Result<&str, ()>)
    ensures
        r is Ok <==> valid_utf8(input@),
        r matches Ok(s) ==> s.spec_bytes() == input@,
{
    match simdutf8::basic::from_utf8(input) {
        Ok(s) => Ok(s),
        Err(_) => Err(()),
    }
}

/// Checks `input` with `simdutf8::compat::from_utf8`.
///
/// The contract claims that the check succeeds exactly on valid UTF-8, and
/// that on failure the error's `valid_up_to` is the length of the longest
/// valid prefix and its `error_len` is `None` (given back as `true`) exactly
/// when the input is cut short in a sequence that could still be completed.
#[verifier::external_body]
fn from_utf8_compat(input: &[u8]) -> (r: Result<(), (usize, bool)>)
    ensures
        r is Ok <==> valid_utf8(input@),
        r matches Err((up, incomplete)) ==> up == valid_up_to(input@) && incomplete == utf8_prefix(
            input@,
        ),
{
    match simdutf8::compat::from_utf8(input) {
        Ok(_) => Ok(()),
        Err(e) => Err((e.valid_up_to(), e.error_len().is_none())),
    }
}

/// Whether two strings are equal.
pub fn str_eq(a: &str, b: &str) -> (r: bool)
    ensures
        r == (a@ == b@),
{
    let x = a.as_bytes();
    let y = b.as_bytes();
    if x.len() != y.len() {
        proof {
            if a@ == b@ {
                assert(x@ == y@);
            }
        }
        return false;
    }
    let mut i: usize = 0;
    while i < x.len()
        invariant
            x@.len() == y@.len(),
            x@ == a.spec_bytes(),
            y@ == b.spec_bytes(),
            i <= x@.len(),
            forall|j: int| 0 <= j < i ==> x@[j] == y@[j],
        decreases x@.len() - i,
    {
        if x[i] != y[i] {
            proof {
                if a@ == b@ {
                    assert(x@ == y@);
                }
            }
            return false;
        }
        i = i + 1;
    }
    proof {
        assert(x@ =~= y@);
        vstd::utf8::encode_utf8_decode_utf8(a@);
        vstd::utf8::encode_utf8_decode_utf8(b@);
    }
    true
}

/// Converts a slice of bytes to a string slice.
///
/// # Errors
///
/// Returns [`ProtocolError::InvalidUtf8`] if the input is invalid UTF-8.
pub fn parse_str(input: &[u8]) -> (r: Result<&str, ProtocolError>)
    ensures
        r is Ok <==> valid_utf8(input@),
        r matches Ok(s) ==> s.spec_bytes() == input@ && s@ == decode_utf8(input@),
        r matches Err(e) ==> e == ProtocolError::InvalidUtf8,
{
    match from_utf8_basic(input) {
        Ok(s) => {
            proof {
                encode_utf8_decode_utf8(s@);
            }
            Ok(s)
        },
        Err(_) => Err(ProtocolError::InvalidUtf8),
    }
}

} // verus!

verus! {

/// A streaming UTF-8 validator.
///
/// It holds the bytes of a scalar whose encoding was cut short at the end of
/// the input fed so far, to be completed by the next input.
#[derive(Debug)]
pub struct Validator {
    /// Buffer for a partial codepoint. This is four bytes large to copy the
    /// missing bytes into the buffer and reuse the allocation.
    partial_codepoint: [u8; 4],
    /// Length of the partial codepoint currently stored.
    partial_codepoint_len: usize,
}

impl View for Validator {
    type V = Seq<u8>;

    /// The bytes of the partial scalar held.
    closed spec fn view(&self) -> Seq<u8> {
        self.partial_codepoint@.take(self.partial_codepoint_len as int)
    }
}

impl Validator {
    /// The validator holds no bytes, or the start of a scalar cut short.
    pub closed spec fn wf(&self) -> bool {
        &&& self.partial_codepoint_len <= 3
        &&& (self.partial_codepoint_len > 0 ==> partial_scalar(self@))
    }

    /// Creates a new validator.
    pub fn new() -> (r: Self)
        ensures
            r.wf(),
            r@ == Seq::<u8>::empty(),
    {
        Self { partial_codepoint: [0;4], partial_codepoint_len: 0 }
    }

    /// The length of the partial codepoint, once complete.
    fn complete_codepoint_len(&self) -> (r: usize)
        requires
            self.wf(),
            self.partial_codepoint_len > 0,
        ensures
            r == scalar_width(self@[0]),
            self.partial_codepoint_len < r <= 4,
    {
        let b = self.partial_codepoint[0];
        assert(b == self@[0]);
        if b <= 0x7f {
            1
        } else if 0xc0 <= b && b <= 0xdf {
            2
        } else if 0xe0 <= b && b <= 0xef {
            3
        } else {
            4
        }
    }

    /// Resets the validator state.
    pub fn reset(&mut self)
        ensures
            final(self).wf(),
            final(self)@ == Seq::<u8>::empty(),
    {
        self.partial_codepoint_len = 0;
    }

    /// Feeds bytes into the streaming validator. Returns `Ok` if the input is
    /// valid UTF-8, if `is_complete` is true, even if the input has incomplete
    /// codepoints. Subsequent calls will validate incomplete codepoints
    /// unless [`Self::reset`] is called in between.
    ///
    /// # Errors
    ///
    /// Returns [`ProtocolError::InvalidUtf8`] when the bytes held together
    /// with `input` are not valid UTF-8 (`is_complete`), or cannot become
    /// valid UTF-8 whatever follows (otherwise).
    pub fn feed(&mut self, input: &[u8], is_complete: bool) -> (r: Result<(), ProtocolError>)
        requires
            old(self).wf(),
        ensures
            final(self).wf(),
            r is Ok <==> feed_accepts(old(self)@, input@, is_complete),
            r matches Err(e) ==> e == ProtocolError::InvalidUtf8,
            r is Ok ==> final(self)@ == feed_pending(old(self)@, input@, is_complete),
    {
        let ghost pending = self@;
        let ghost acc = pending + input@;
        // Index in `input` from which on the bytes are validated as a whole.
        let mut start: usize = 0;
        // The completed codepoint, if one was held.
        let ghost mut head: Seq<u8> = Seq::empty();
        if self.partial_codepoint_len != 0 {
            let available_bytes = input.len();

            if available_bytes == 0 && !is_complete {
                proof {
                    assert(acc =~= pending);
                    assert(pending.take(pending.len() as int) =~= pending);
                    lemma_valid_up_to(pending);
                    assert(!valid_first_scalar(pending));
                    assert(acc.skip(0) =~= acc);
                }
                return Ok(());
            }

            let plen = self.partial_codepoint_len;
            let complete_codepoint_len = self.complete_codepoint_len();
            let missing_bytes = complete_codepoint_len - plen;
            let bytes_to_copy = if available_bytes < missing_bytes {
                available_bytes
            } else {
                missing_bytes
            };
            let codepoint_len_after_copy = plen + bytes_to_copy;

            // Copy the missing codepoint bytes to the partial codepoint
            let mut i: usize = 0;
            while i < bytes_to_copy
                invariant
                    i <= bytes_to_copy,
                    bytes_to_copy <= input@.len(),
                    plen + bytes_to_copy <= 4,
                    self.partial_codepoint_len == plen,
                    forall|j: int| 0 <= j < plen ==> self.partial_codepoint@[j] == pending[j],
                    forall|j: int| 0 <= j < i ==> self.partial_codepoint@[plen + j] == input@[j],
                    pending.len() == plen,
                decreases bytes_to_copy - i,
            {
                self.partial_codepoint[plen + i] = input[i];
                i = i + 1;
            }
            let ghost cp = pending + input@.take(bytes_to_copy as int);
            let codepoint = vstd::slice::slice_subrange(
                self.partial_codepoint.as_slice(),
                0,
                codepoint_len_after_copy,
            );
            assert(codepoint@ =~= cp);
            assert(self@ =~= pending);
            assert(cp[0] == pending[0]);
            assert(acc =~= cp + input@.skip(bytes_to_copy as int));

            if available_bytes >= missing_bytes {
                // The codepoint is complete: its length follows from its first byte.
                if from_utf8_basic(codepoint).is_err() {
                    proof {
                        lemma_bad_scalar_dead_end(cp);
                        if utf8_prefix(acc) {
                            lemma_prefix_shrink(cp, input@.skip(bytes_to_copy as int));
                        }
                        if valid_utf8(acc) {
                            lemma_valid_is_prefix(acc);
                            lemma_prefix_shrink(cp, input@.skip(bytes_to_copy as int));
                        }
                    }
                    return Err(ProtocolError::InvalidUtf8);
                }
            } else {
                match from_utf8_compat(codepoint) {
                    Ok(_) => {},
                    Err((_, incomplete)) => {
                        if !incomplete {
                            proof {
                                assert(acc =~= cp);
                                if valid_utf8(acc) {
                                    lemma_valid_is_prefix(acc);
                                }
                            }
                            return Err(ProtocolError::InvalidUtf8);
                        }
                        self.partial_codepoint_len = codepoint_len_after_copy;
                        proof {
                            assert(acc =~= cp);
                            assert(self@ =~= cp);
                            lemma_valid_up_to(cp);
                            assert(cp.len() < scalar_width(cp[0]));
                            assert(!valid_first_scalar(cp));
                            assert(valid_up_to(cp) == 0);
                            assert(acc.skip(0) =~= acc);
                        }
                        if is_complete {
                            return Err(ProtocolError::InvalidUtf8);
                        }
                        return Ok(());
                    },
                }
            }
            self.reset();
            start = bytes_to_copy;
            proof {
                head = cp;
            }
        }
        let remaining_bytes = vstd::slice::slice_subrange(input, start, input.len());
        let ghost rest = remaining_bytes@;
        assert(acc =~= head + rest) by {
            if pending.len() == 0 {
                assert(head =~= Seq::<u8>::empty());
                assert(rest =~= input@);
            }
        }
        proof {
            lemma_valid_concat_iff(head, rest);
            lemma_prefix_concat_iff(head, rest);
            lemma_valid_up_to_concat(head, rest);
            lemma_valid_up_to(rest);
            assert((head + rest).skip(head.len() + valid_up_to(rest) as int) =~= rest.skip(
                valid_up_to(rest) as int,
            ));
            assert(Seq::<u8>::empty() + rest =~= rest);
        }
        self.feed_whole(remaining_bytes, is_complete)
    }

    /// Validates `input` when no partial scalar is held.
    fn feed_whole(&mut self, input: &[u8], is_complete: bool) -> (r: Result<(), ProtocolError>)
        requires
            old(self).wf(),
            old(self)@ == Seq::<u8>::empty(),
        ensures
            final(self).wf(),
            r is Ok <==> feed_accepts(Seq::empty(), input@, is_complete),
            r matches Err(e) ==> e == ProtocolError::InvalidUtf8,
            r is Ok ==> final(self)@ == feed_pending(Seq::empty(), input@, is_complete),
    {
        let ghost rest = input@;
        assert(Seq::<u8>::empty() + rest =~= rest);
        if is_complete {
            self.reset();
            match from_utf8_basic(input) {
                Ok(_) => Ok(()),
                Err(_) => Err(ProtocolError::InvalidUtf8),
            }
        } else {
            match from_utf8_compat(input) {
                Ok(_) => {
                    proof {
                        lemma_valid_is_prefix(rest);
                        lemma_valid_up_to(rest);
                        assert(rest.skip(rest.len() as int) =~= Seq::<u8>::empty());
                    }
                    Ok(())
                },
                Err((up, incomplete)) => {
                    if !incomplete {
                        return Err(ProtocolError::InvalidUtf8);
                    }
                    // Incomplete input, copy the partial codepoints to the validator
                    proof {
                        lemma_incomplete_tail(rest);
                    }
                    let n = input.len() - up;
                    let mut i: usize = 0;
                    while i < n
                        invariant
                            i <= n,
                            n <= 3,
                            up + n == rest.len(),
                            input@ == rest,
                            input.len() == rest.len(),
                            forall|j: int|
                                0 <= j < i ==> self.partial_codepoint@[j] == rest[up + j],
                        decreases n - i,
                    {
                        self.partial_codepoint[i] = input[up + i];
                        i = i + 1;
                    }
                    self.partial_codepoint_len = n;
                    assert(self@ =~= rest.skip(up as int));
                    Ok(())
                },
            }
        }
    }
}

} // verus!
