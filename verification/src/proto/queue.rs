//! The queue of encoded frames waiting to be written to the I/O, read out
//! as one stream of bytes.
use std::collections::VecDeque;

use vstd::prelude::*;

verus! {

broadcast use vstd::seq_lib::group_seq_properties;

/// The length of the header (with masking key) that `h` starts with, as its
/// second byte announces it.
pub open spec fn header_len_of(h: Seq<u8>) -> nat {
    (if h[1] >= 128 {
        4nat
    } else {
        0nat
    }) + (if h[1] % 128 == 127 {
        10nat
    } else if h[1] % 128 == 126 {
        4nat
    } else {
        2nat
    })
}

/// Helper struct for storing a frame header, the header size and payload.
#[derive(Debug)]
pub struct EncodedFrame {
    /// Encoded frame header and mask.
    header: [u8; 14],
    /// Potentially masked message payload, ready for writing to the I/O.
    payload: Vec<u8>,
}

/// The bytes an encoded frame puts on the wire.
pub closed spec fn encoded_bytes(e: EncodedFrame) -> Seq<u8> {
    e.header@.take(header_len_of(e.header@) as int) + e.payload@
}

impl EncodedFrame {
    /// Whether or not this frame is masked.
    fn is_masked(&self) -> (r: bool)
        ensures
            r == (self.header@[1] >= 128),
    {
        self.header[1] >= 128
    }

    /// Returns the length of the combined header and mask in bytes.
    fn header_len(&self) -> (r: usize)
        ensures
            r == header_len_of(self.header@),
            2 <= r <= 14,
    {
        let mask_bytes: usize = if self.is_masked() {
            4
        } else {
            0
        };
        let l7 = self.header[1] % 128;
        if l7 == 127 {
            10 + mask_bytes
        } else if l7 == 126 {
            4 + mask_bytes
        } else {
            2 + mask_bytes
        }
    }
}

/// The bytes that a sequence of encoded frames puts on the wire.
pub closed spec fn queue_stream(q: Seq<EncodedFrame>) -> Seq<u8> {
    q.map_values(|e: EncodedFrame| encoded_bytes(e)).flatten()
}

/// The bytes of the first frame come first.
proof fn lemma_queue_stream_first(q: Seq<EncodedFrame>)
    requires
        q.len() > 0,
    ensures
        queue_stream(q) == encoded_bytes(q[0]) + queue_stream(q.drop_first()),
{
    let m = q.map_values(|e: EncodedFrame| encoded_bytes(e));
    assert(m.drop_first() =~= q.drop_first().map_values(|e: EncodedFrame| encoded_bytes(e)));
}

/// The bytes of a frame pushed last come last.
proof fn lemma_queue_stream_push(q: Seq<EncodedFrame>, e: EncodedFrame)
    ensures
        queue_stream(q.push(e)) == queue_stream(q) + encoded_bytes(e),
{
    let m = q.map_values(|e: EncodedFrame| encoded_bytes(e));
    assert(q.push(e).map_values(|e: EncodedFrame| encoded_bytes(e)) =~= m.push(encoded_bytes(e)));
    m.lemma_flatten_push(encoded_bytes(e));
}

/// The bytes of the first `i` frames come before those of the others.
proof fn lemma_queue_stream_take(q: Seq<EncodedFrame>, i: int)
    requires
        0 <= i <= q.len(),
    ensures
        queue_stream(q) == queue_stream(q.take(i)) + queue_stream(q.skip(i)),
    decreases q.len(),
{
    if i == q.len() {
        assert(q.take(i) =~= q);
        assert(q.skip(i).map_values(|e: EncodedFrame| encoded_bytes(e)) =~= Seq::<Seq<u8>>::empty());
        assert(queue_stream(q.skip(i)) =~= Seq::<u8>::empty());
    } else {
        let dl = q.drop_last();
        lemma_queue_stream_take(dl, i);
        lemma_queue_stream_push(dl, q.last());
        assert(dl.push(q.last()) =~= q);
        lemma_queue_stream_push(dl.skip(i), q.last());
        assert(dl.skip(i).push(q.last()) =~= q.skip(i));
        assert(dl.take(i) =~= q.take(i));
    }
}

/// The bytes of the frames up to frame `i`, from the `bw`-th on: those up to
/// the previous frame, then frame `i` (from `bw` on if it is the first),
/// which altogether start the bytes of the whole queue from the `bw`-th on.
proof fn lemma_queue_stream_upto(q: Seq<EncodedFrame>, bw: int, i: int)
    requires
        0 <= i < q.len(),
        0 <= bw < encoded_bytes(q[0]).len(),
    ensures
        i == 0 ==> queue_stream(q.take(1)).skip(bw) == encoded_bytes(q[0]).skip(bw),
        i > 0 ==> queue_stream(q.take(i)).skip(bw) + encoded_bytes(q[i]) == queue_stream(
            q.take(i + 1),
        ).skip(bw),
        queue_stream(q.take(i + 1)).skip(bw) == queue_stream(q).skip(bw).take(
            queue_stream(q.take(i + 1)).skip(bw).len() as int,
        ),
        queue_stream(q.take(i + 1)).skip(bw).len() <= queue_stream(q).skip(bw).len(),
{
    lemma_queue_stream_push(q.take(i), q[i]);
    assert(q.take(i).push(q[i]) =~= q.take(i + 1));
    lemma_queue_stream_take(q, i + 1);
    lemma_queue_stream_first(q.take(i + 1));
    assert(q.take(i + 1)[0] == q[0]);
    if i == 0 {
        assert(q.take(0).map_values(|e: EncodedFrame| encoded_bytes(e)) =~= Seq::<Seq<u8>>::empty());
        assert(queue_stream(q.take(0)) =~= Seq::<u8>::empty());
    } else {
        lemma_queue_stream_first(q.take(i));
        assert(q.take(i)[0] == q[0]);
    }
    let a = queue_stream(q.take(i + 1));
    let b = queue_stream(q.skip(i + 1));
    assert((a + b).skip(bw).take(a.skip(bw).len() as int) =~= a.skip(bw));
    if i > 0 {
        assert(queue_stream(q.take(i)).skip(bw) + encoded_bytes(q[i]) =~= a.skip(bw));
    }
}

/// A prefix of a prefix is a prefix.
proof fn lemma_prefix_trans(a: Seq<u8>, b: Seq<u8>, c: Seq<u8>)
    requires
        a == b.take(a.len() as int),
        b == c.take(b.len() as int),
        a.len() <= b.len() <= c.len(),
    ensures
        a == c.take(a.len() as int),
{
    assert forall|k: int| 0 <= k < a.len() implies a[k] == c.take(a.len() as int)[k] by {
        assert(a[k] == b.take(a.len() as int)[k]);
        assert(b[k] == c.take(b.len() as int)[k]);
    }
    assert(a =~= c.take(a.len() as int));
}

/// The bytes that a sequence of slices holds, one after the other.
pub open spec fn slices_bytes(s: Seq<&[u8]>) -> Seq<u8> {
    s.map_values(|x: &[u8]| x@).flatten()
}

/// A slice added last adds its bytes last.
proof fn lemma_slices_bytes_push(s: Seq<&[u8]>, x: &[u8])
    ensures
        slices_bytes(s.push(x)) == slices_bytes(s) + x@,
{
    assert(s.push(x).map_values(|y: &[u8]| y@) =~= s.map_values(|y: &[u8]| y@).push(x@));
    s.map_values(|y: &[u8]| y@).lemma_flatten_push(x@);
}

/// Queued up frames that are being sent.
#[derive(Debug)]
pub struct FrameQueue {
    /// Queue of outgoing frames to send. Some parts of the first item may have
    /// been sent already.
    queue: VecDeque<EncodedFrame>,
    /// Amount of partial bytes written of the first frame in the queue.
    bytes_written: usize,
    /// Total amount of bytes remaining to be sent in the frame queue.
    pending_bytes: usize,
}

impl View for FrameQueue {
    type V = Seq<u8>;

    /// The bytes still to be written, in order.
    closed spec fn view(&self) -> Seq<u8> {
        queue_stream(self.queue@).skip(self.bytes_written as int)
    }
}

impl FrameQueue {
    /// The count of pending bytes is right, and the bytes written of the
    /// first frame are fewer than it has.
    pub closed spec fn wf(&self) -> bool {
        &&& (self.queue@.len() == 0 ==> self.bytes_written == 0)
        &&& (self.queue@.len() > 0 ==> self.bytes_written < encoded_bytes(self.queue@[0]).len())
        &&& self.bytes_written <= queue_stream(self.queue@).len()
        &&& self.pending_bytes == self@.len()
        &&& forall|i: int|
            0 <= i < self.queue@.len() ==> #[trigger] encoded_bytes(self.queue@[i]).len() <= usize::MAX
    }

    /// Creates a new, empty [`FrameQueue`].
    pub fn new() -> (r: Self)
        ensures
            r.wf(),
            r@ == Seq::<u8>::empty(),
    {
        let r = Self { queue: VecDeque::new(), bytes_written: 0, pending_bytes: 0 };
        assert(queue_stream(r.queue@) =~= Seq::<u8>::empty()) by {
            assert(r.queue@.map_values(|e: EncodedFrame| encoded_bytes(e)) =~= Seq::<Seq<u8>>::empty());
        }
        r
    }

    /// Queue a frame to be sent.
    pub fn push(&mut self, header: [u8; 14], payload: Vec<u8>)
        requires
            old(self).wf(),
            old(self)@.len() + 14 + payload@.len() <= usize::MAX,
        ensures
            final(self).wf(),
            final(self)@ == old(self)@ + header@.take(header_len_of(header@) as int) + payload@,
    {
        let item = EncodedFrame { header, payload };
        let hl = item.header_len();
        let n = hl + item.payload.len();
        proof {
            lemma_queue_stream_push(self.queue@, item);
            if self.queue@.len() > 0 {
                lemma_queue_stream_first(self.queue@);
                lemma_queue_stream_first(self.queue@.push(item));
                assert(self.queue@.push(item)[0] == self.queue@[0]);
            }
        }
        let ghost old_q = self.queue@;
        self.pending_bytes = self.pending_bytes + n;
        self.queue.push_back(item);
        proof {
            assert(self.queue@ == old_q.push(item));
            if old_q.len() == 0 {
                assert(self.queue@[0] == item);
                assert(old_q.map_values(|e: EncodedFrame| encoded_bytes(e)) =~= Seq::<Seq<u8>>::empty());
            }
            assert(queue_stream(self.queue@).skip(self.bytes_written as int) =~= queue_stream(
                old_q,
            ).skip(self.bytes_written as int) + encoded_bytes(item));
        }
    }

    /// Total amount of bytes remaining to be sent.
    pub fn remaining(&self) -> (r: usize)
        requires
            self.wf(),
        ensures
            r == self@.len(),
    {
        self.pending_bytes
    }

    /// Whether any bytes remain to be sent.
    pub fn has_remaining(&self) -> (r: bool)
        requires
            self.wf(),
        ensures
            r == (self@.len() > 0),
    {
        self.pending_bytes > 0
    }

    /// The next bytes to be sent: a non-empty start of the remaining bytes
    /// when any remain.
    pub fn chunk(&self) -> (r: &[u8])
        requires
            self.wf(),
        ensures
            r@.len() <= self@.len(),
            r@ == self@.take(r@.len() as int),
            self@.len() > 0 ==> r@.len() > 0,
    {
        if self.queue.len() == 0 {
            proof {
                assert(self.queue@.map_values(|e: EncodedFrame| encoded_bytes(e)) =~= Seq::<Seq<u8>>::empty());
            }
            let empty: &[u8] = vstd::slice::slice_subrange(self.queue_empty_slice(), 0, 0);
            return empty;
        }
        let frame = &self.queue[0];
        let hl = frame.header_len();
        proof {
            lemma_queue_stream_first(self.queue@);
        }
        let ghost e = encoded_bytes(*frame);
        let ghost rest = queue_stream(self.queue@.drop_first());
        assert(self@ =~= e.skip(self.bytes_written as int) + rest);
        if self.bytes_written >= hl {
            let r = vstd::slice::slice_subrange(
                frame.payload.as_slice(),
                self.bytes_written - hl,
                frame.payload.len(),
            );
            assert(r@ =~= e.skip(self.bytes_written as int));
            assert(self@.take(r@.len() as int) =~= r@);
            r
        } else {
            let r = vstd::slice::slice_subrange(frame.header.as_slice(), self.bytes_written, hl);
            assert(r@ =~= e.skip(self.bytes_written as int).take(r@.len() as int));
            assert(self@.take(r@.len() as int) =~= r@);
            r
        }
    }

    /// The bytes still to be written as slices, in order and at most `max`
    /// of them: the rest of the first frame's header and payload, then the
    /// header and the payload of each following frame, leaving out empty
    /// payloads. Fewer than `max` slices hold all the remaining bytes.
    #[verifier::rlimit(60)]
    pub fn chunks_vectored(&self, max: usize) -> (r: Vec<&[u8]>)
        requires
            self.wf(),
        ensures
            r@.len() <= max,
            forall|i: int| 0 <= i < r@.len() ==> (#[trigger] r@[i])@.len() > 0,
            slices_bytes(r@) == self@.take(slices_bytes(r@).len() as int),
            r@.len() < max ==> slices_bytes(r@) == self@,
    {
        let mut out: Vec<&[u8]> = Vec::new();
        assert(out@.map_values(|x: &[u8]| x@) =~= Seq::<Seq<u8>>::empty());
        if max == 0 {
            return out;
        }
        let n = self.queue.len();
        let ghost q = self.queue@;
        let ghost bw = self.bytes_written as int;
        proof {
            if n == 0 {
                assert(q.map_values(|e: EncodedFrame| encoded_bytes(e)) =~= Seq::<Seq<u8>>::empty());
            }
        }
        let mut i: usize = 0;
        while i < n
            invariant
                self.wf(),
                q == self.queue@,
                bw == self.bytes_written,
                n == q.len(),
                i <= n,
                0 < max,
                out@.len() < max,
                forall|k: int| 0 <= k < out@.len() ==> (#[trigger] out@[k])@.len() > 0,
                i == 0 ==> slices_bytes(out@) == Seq::<u8>::empty(),
                i > 0 ==> slices_bytes(out@) == queue_stream(q.take(i as int)).skip(bw),
                n > 0 ==> bw < encoded_bytes(q[0]).len(),
                self@ == queue_stream(q).skip(bw),
            decreases n - i,
        {
            let frame = &self.queue[i];
            let hl = frame.header_len();
            let start: usize = if i == 0 { self.bytes_written } else { 0 };
            let ghost e = encoded_bytes(q[i as int]);
            let ghost before = slices_bytes(out@);
            let ghost upto = queue_stream(q.take(i + 1)).skip(bw);
            proof {
                lemma_queue_stream_upto(q, bw, i as int);
                assert(e.skip(0) =~= e);
                assert(before + e.skip(start as int) == upto);
            }
            if start < hl {
                let h = vstd::slice::slice_subrange(frame.header.as_slice(), start, hl);
                proof {
                    lemma_slices_bytes_push(out@, h);
                    assert(before + h@ =~= upto.take((before + h@).len() as int));
                    lemma_prefix_trans(before + h@, upto, self@);
                }
                out.push(h);
                if out.len() == max {
                    return out;
                }
            }
            let from = if start > hl { start - hl } else { 0 };
            if from < frame.payload.len() {
                let p = vstd::slice::slice_subrange(frame.payload.as_slice(), from, frame.payload.len());
                proof {
                    lemma_slices_bytes_push(out@, p);
                    assert(slices_bytes(out@) + p@ =~= upto);
                    lemma_prefix_trans(slices_bytes(out@) + p@, upto, self@);
                }
                out.push(p);
                if out.len() == max {
                    return out;
                }
            }
            assert(slices_bytes(out@) =~= before + e.skip(start as int));
            i = i + 1;
        }
        proof {
            if n > 0 {
                assert(q.take(n as int) =~= q);
            }
        }
        out
    }

    /// An empty byte slice.
    fn queue_empty_slice(&self) -> (r: &[u8])
        ensures
            r@.len() == 0,
    {
        let empty: &[u8] = &[];
        empty
    }

    /// Marks `cnt` more bytes as sent.
    pub fn advance(&mut self, cnt: usize)
        requires
            old(self).wf(),
            cnt <= old(self)@.len(),
        ensures
            final(self).wf(),
            final(self)@ == old(self)@.skip(cnt as int),
    {
        let ghost start = self@;
        let ghost total = cnt;
        let mut cnt = cnt;
        while cnt > 0
            invariant
                self.wf(),
                cnt <= total,
                cnt <= self@.len(),
                total <= start.len(),
                self@ == start.skip(total - cnt),
            decreases cnt,
        {
            proof {
                if self.queue@.len() == 0 {
                    assert(self.queue@.map_values(|e: EncodedFrame| encoded_bytes(e)) =~= Seq::<Seq<u8>>::empty());
                }
                lemma_queue_stream_first(self.queue@);
            }
            let ghost e = encoded_bytes(self.queue@[0]);
            let ghost rest = queue_stream(self.queue@.drop_first());
            let ghost v = self@;
            assert(v =~= e.skip(self.bytes_written as int) + rest);
            let hl = self.queue[0].header_len();
            let front_remaining = if self.bytes_written < hl {
                (hl - self.bytes_written) + self.queue[0].payload.len()
            } else {
                self.queue[0].payload.len() - (self.bytes_written - hl)
            };
            assert(front_remaining == e.len() - self.bytes_written);
            if cnt >= front_remaining {
                let ghost q = self.queue@;
                let _ = self.queue.pop_front();
                self.bytes_written = 0;
                self.pending_bytes = self.pending_bytes - front_remaining;
                cnt = cnt - front_remaining;
                proof {
                    assert(self.queue@ == q.drop_first());
                    assert(rest =~= v.skip(front_remaining as int));
                    assert(self@ =~= rest);
                    if self.queue@.len() > 0 {
                        lemma_queue_stream_first(self.queue@);
                    }
                }
            } else {
                self.bytes_written = self.bytes_written + cnt;
                self.pending_bytes = self.pending_bytes - cnt;
                proof {
                    assert(self@ =~= v.skip(cnt as int));
                }
                cnt = 0;
            }
        }
    }
}

} // verus!
