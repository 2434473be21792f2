//! The stream-framing state machine: turns the raw serial byte stream into
//! discrete frames, resynchronising on a fixed four-byte magic pattern.
//!
//! The decoder is driven one byte at a time through [`FrameDecoder::feed`],
//! independent of buffer boundaries. Its whole behaviour is pinned by the
//! mathematical transition function [`step`]; completed frames wait in a
//! bounded queue until [`FrameDecoder::pop_frame`] hands them out, and a
//! frame completing against a full queue is dropped, never evicting an
//! older one.

use vstd::prelude::*;

use crate::command::spec_le16;
use crate::frame::Frame;
use crate::frame::FrameView;
use crate::frame::FRAME_QUEUE_CAPACITY;
use crate::frame::MAX_DECLARED_LEN;

verus! {

/// First byte of the frame-delimiting magic pattern.
pub const MAGIC0: u8 = 0xAC;

/// Second byte of the frame-delimiting magic pattern.
pub const MAGIC1: u8 = 0xDC;

/// Third byte of the frame-delimiting magic pattern.
pub const MAGIC2: u8 = 0xAB;

/// Fourth byte of the frame-delimiting magic pattern.
pub const MAGIC3: u8 = 0xBA;

/// The fixed four-byte pattern that delimits the start of a frame.
pub open spec fn magic() -> Seq<u8> {
    seq![MAGIC0, MAGIC1, MAGIC2, MAGIC3]
}

/// Where the decoder stands between two bytes of the stream.
#[derive(Clone, Copy, PartialEq, Eq, Structural, Debug)]
pub enum DecoderState {
    /// Seeking the magic pattern; the argument counts the magic bytes
    /// already matched at consecutive offsets (at most three).
    Seek(u8),
    /// Expecting the low byte of the declared length.
    ReadLenLow,
    /// Expecting the high byte of the declared length; the argument holds
    /// the low byte.
    ReadLenHigh(u8),
    /// Expecting the frame id byte; the argument holds the validated
    /// declared length (id byte plus payload bytes).
    ReadId(u16),
    /// Accumulating payload bytes: the frame id, and how many bytes are
    /// still missing (at least one).
    ReadPayload(u8, u16),
}

/// Mathematical state of the whole decoder: position in the stream grammar,
/// payload bytes accumulated for the frame in progress, the bounded queue of
/// completed frames, and how many completed frames were dropped against a
/// full queue.
pub ghost struct DecoderView {
    pub state: DecoderState,
    pub partial: Seq<u8>,
    pub queue: Seq<FrameView>,
    pub dropped: u64,
}

/// The state a fresh decoder starts in: seeking the magic, nothing buffered.
pub open spec fn init() -> DecoderView {
    DecoderView {
        state: DecoderState::Seek(0),
        partial: Seq::empty(),
        queue: Seq::empty(),
        dropped: 0,
    }
}

/// One more dropped frame, saturating at the counter's maximum.
pub open spec fn sat_inc(d: u64) -> u64 {
    if d == u64::MAX {
        d
    } else {
        (d + 1) as u64
    }
}

/// The seek transition: a byte extends the matched magic run, restarts it
/// (the mismatching byte itself may open a new match), or resets it.
pub open spec fn seek_step(k: u8, b: u8) -> DecoderState {
    if k <= 3 && b == magic()[k as int] {
        if k == 3 {
            DecoderState::ReadLenLow
        } else {
            DecoderState::Seek((k + 1) as u8)
        }
    } else if b == MAGIC0 {
        DecoderState::Seek(1)
    } else {
        DecoderState::Seek(0)
    }
}

/// A frame has completed: it joins the queue unless the queue is at
/// capacity, in which case the new frame is dropped and counted; the
/// decoder returns to seeking the magic either way.
pub open spec fn complete(v: DecoderView, f: FrameView) -> DecoderView {
    if v.queue.len() < FRAME_QUEUE_CAPACITY {
        DecoderView {
            state: DecoderState::Seek(0),
            partial: Seq::empty(),
            queue: v.queue.push(f),
            dropped: v.dropped,
        }
    } else {
        DecoderView {
            state: DecoderState::Seek(0),
            partial: Seq::empty(),
            queue: v.queue,
            dropped: sat_inc(v.dropped),
        }
    }
}

/// The decoder's transition on one stream byte.
pub open spec fn step(v: DecoderView, b: u8) -> DecoderView {
    match v.state {
        DecoderState::Seek(k) => DecoderView {
            state: seek_step(k, b),
            partial: v.partial,
            queue: v.queue,
            dropped: v.dropped,
        },
        DecoderState::ReadLenLow => DecoderView {
            state: DecoderState::ReadLenHigh(b),
            partial: v.partial,
            queue: v.queue,
            dropped: v.dropped,
        },
        DecoderState::ReadLenHigh(lo) => {
            let d = spec_le16(lo, b);
            if d == 0 || d > MAX_DECLARED_LEN {
                DecoderView {
                    state: DecoderState::Seek(0),
                    partial: v.partial,
                    queue: v.queue,
                    dropped: v.dropped,
                }
            } else {
                DecoderView {
                    state: DecoderState::ReadId(d),
                    partial: v.partial,
                    queue: v.queue,
                    dropped: v.dropped,
                }
            }
        },
        DecoderState::ReadId(d) => {
            if d == 1 {
                complete(v, FrameView { id: b, payload: Seq::empty() })
            } else {
                DecoderView {
                    state: DecoderState::ReadPayload(b, (d - 1) as u16),
                    partial: Seq::empty(),
                    queue: v.queue,
                    dropped: v.dropped,
                }
            }
        },
        DecoderState::ReadPayload(id, rem) => {
            if rem == 1 {
                complete(v, FrameView { id, payload: v.partial.push(b) })
            } else {
                DecoderView {
                    state: DecoderState::ReadPayload(id, (rem - 1) as u16),
                    partial: v.partial.push(b),
                    queue: v.queue,
                    dropped: v.dropped,
                }
            }
        },
    }
}

/// The decoder's transition on a whole byte sequence, front to back.
pub open spec fn steps(v: DecoderView, s: Seq<u8>) -> DecoderView
    decreases s.len(),
{
    if s.len() == 0 {
        v
    } else {
        steps(step(v, s[0]), s.skip(1))
    }
}

/// Well-formedness tying the pieces together: the seek counter stays within
/// the magic, a declared length is validated, payload accumulation never
/// outgrows the declared length, and the queue respects its capacity with
/// every queued frame length-valid.
pub open spec fn wf(v: DecoderView) -> bool {
    &&& match v.state {
        DecoderState::Seek(k) => k <= 3 && v.partial.len() == 0,
        DecoderState::ReadLenLow => v.partial.len() == 0,
        DecoderState::ReadLenHigh(_) => v.partial.len() == 0,
        DecoderState::ReadId(d) => 1 <= d <= MAX_DECLARED_LEN && v.partial.len() == 0,
        DecoderState::ReadPayload(_, rem) => 1 <= rem && v.partial.len() + rem
            <= MAX_DECLARED_LEN - 1,
    }
    &&& v.queue.len() <= FRAME_QUEUE_CAPACITY
    &&& forall|i: int| 0 <= i < v.queue.len() ==> v.queue[i].wf()
}

/// Every transition preserves well-formedness.
pub proof fn lemma_step_preserves_wf(v: DecoderView, b: u8)
    requires
        wf(v),
    ensures
        wf(step(v, b)),
{
}

/// The byte encoding of one frame on the wire: magic, declared length
/// little-endian, id, payload.
pub open spec fn frame_bytes(id: u8, payload: Seq<u8>) -> Seq<u8> {
    magic() + seq![
        ((payload.len() + 1) % 256) as u8,
        ((payload.len() + 1) / 256) as u8,
        id,
    ] + payload
}

/// The serial-stream framing state machine with its bounded frame queue.
pub struct FrameDecoder {
    state: DecoderState,
    partial: Vec<u8>,
    queue: Vec<Frame>,
    dropped: u64,
}

impl View for FrameDecoder {
    type V = DecoderView;

    closed spec fn view(&self) -> DecoderView {
        DecoderView {
            state: self.state,
            partial: self.partial@,
            queue: self.queue@.map_values(|f: Frame| f@),
            dropped: self.dropped,
        }
    }
}

/// The magic byte expected after `k` bytes of the pattern have matched.
fn magic_byte(k: u8) -> (r: u8)
    requires
        k <= 3,
    ensures
        r == magic()[k as int],
{
    if k == 0 {
        MAGIC0
    } else if k == 1 {
        MAGIC1
    } else if k == 2 {
        MAGIC2
    } else {
        MAGIC3
    }
}

impl FrameDecoder {
    /// A fresh decoder, seeking the magic with nothing buffered.
    pub fn new() -> (d: FrameDecoder)
        ensures
            d@ == init(),
            wf(d@),
    {
        let d = FrameDecoder {
            state: DecoderState::Seek(0),
            partial: Vec::new(),
            queue: Vec::new(),
            dropped: 0,
        };
        proof {
            assert(d@.partial =~= init().partial);
            assert(d@.queue =~= init().queue);
        }
        d
    }

    /// Consumes one stream byte, advancing exactly as [`step`] says.
    pub fn feed(&mut self, b: u8)
        requires
            wf(old(self)@),
        ensures
            wf(final(self)@),
            final(self)@ == step(old(self)@, b),
    {
        proof {
            lemma_step_preserves_wf(old(self)@, b);
        }
        match self.state {
            DecoderState::Seek(k) => {
                let m = magic_byte(k);
                if b == m {
                    if k == 3 {
                        self.state = DecoderState::ReadLenLow;
                    } else {
                        self.state = DecoderState::Seek(k + 1);
                    }
                } else if b == MAGIC0 {
                    self.state = DecoderState::Seek(1);
                } else {
                    self.state = DecoderState::Seek(0);
                }
            },
            DecoderState::ReadLenLow => {
                self.state = DecoderState::ReadLenHigh(b);
            },
            DecoderState::ReadLenHigh(lo) => {
                let d = crate::command::le16(lo, b);
                if d == 0 || d > MAX_DECLARED_LEN {
                    self.state = DecoderState::Seek(0);
                } else {
                    self.state = DecoderState::ReadId(d);
                }
            },
            DecoderState::ReadId(d) => {
                proof {
                    assert(self.partial@ =~= Seq::<u8>::empty());
                }
                if d == 1 {
                    let f = Frame { id: b, payload: Vec::new() };
                    proof {
                        assert(f@.payload =~= Seq::<u8>::empty());
                    }
                    self.state = DecoderState::Seek(0);
                    self.enqueue(f);
                } else {
                    self.state = DecoderState::ReadPayload(b, d - 1);
                }
            },
            DecoderState::ReadPayload(id, rem) => {
                self.partial.push(b);
                if rem == 1 {
                    let mut pay: Vec<u8> = Vec::new();
                    core::mem::swap(&mut pay, &mut self.partial);
                    proof {
                        assert(self.partial@ =~= Seq::<u8>::empty());
                    }
                    let f = Frame { id, payload: pay };
                    self.state = DecoderState::Seek(0);
                    self.enqueue(f);
                } else {
                    self.state = DecoderState::ReadPayload(id, rem - 1);
                }
            },
        }
    }

    /// Places a completed frame in the queue, or drops and counts it when
    /// the queue is at capacity; the oldest queued frame is never evicted.
    fn enqueue(&mut self, f: Frame)
        ensures
            final(self)@ == (if old(self)@.queue.len() < FRAME_QUEUE_CAPACITY {
                DecoderView {
                    queue: old(self)@.queue.push(f@),
                    ..old(self)@
                }
            } else {
                DecoderView { dropped: sat_inc(old(self)@.dropped), ..old(self)@ }
            }),
    {
        if self.queue.len() < FRAME_QUEUE_CAPACITY {
            let ghost pre = self.queue@;
            self.queue.push(f);
            proof {
                assert(self.queue@.map_values(|fr: Frame| fr@) =~= pre.map_values(
                    |fr: Frame| fr@,
                ).push(f@));
            }
        } else {
            if self.dropped < u64::MAX {
                self.dropped = self.dropped + 1;
            }
        }
    }

    /// Consumes a whole captured buffer, byte by byte, front to back.
    pub fn feed_buffer(&mut self, buf: &[u8])
        requires
            wf(old(self)@),
        ensures
            wf(final(self)@),
            final(self)@ == steps(old(self)@, buf@),
    {
        let n = buf.len();
        let mut i: usize = 0;
        proof {
            assert(buf@.take(0) =~= Seq::<u8>::empty());
        }
        while i < n
            invariant
                i <= n,
                n == buf@.len(),
                wf(self@),
                self@ == steps(old(self)@, buf@.take(i as int)),
            decreases n - i,
        {
            proof {
                lemma_steps_snoc(old(self)@, buf@.take(i as int), buf@[i as int]);
                assert(buf@.take(i as int).push(buf@[i as int]) =~= buf@.take(i as int + 1));
            }
            self.feed(buf[i]);
            i = i + 1;
        }
        proof {
            assert(buf@.take(n as int) =~= buf@);
        }
    }

    /// Removes and returns the oldest queued frame, if any; the rest of the
    /// decoder is untouched.
    pub fn pop_frame(&mut self) -> (r: Option<Frame>)
        requires
            wf(old(self)@),
        ensures
            wf(final(self)@),
            match r {
                Some(f) => old(self)@.queue.len() > 0 && f@ == old(self)@.queue[0] && final(self)@
                    == (DecoderView { queue: old(self)@.queue.skip(1), ..old(self)@ }),
                None => old(self)@.queue.len() == 0 && final(self)@ == old(self)@,
            },
    {
        if self.queue.len() == 0 {
            None
        } else {
            let ghost pre = self.queue@;
            let f = self.queue.remove(0);
            proof {
                assert(self.queue@.map_values(|fr: Frame| fr@) =~= pre.map_values(
                    |fr: Frame| fr@,
                ).skip(1));
            }
            Some(f)
        }
    }

    /// How many frames wait in the queue right now.
    pub fn queue_len(&self) -> (n: usize)
        ensures
            n == self@.queue.len(),
    {
        self.queue.len()
    }

    /// How many completed frames were dropped against a full queue.
    pub fn dropped_frames(&self) -> (r: u64)
        ensures
            r == self@.dropped,
    {
        self.dropped
    }
}

/// Feeding one more byte after a sequence is one more transition.
pub proof fn lemma_steps_snoc(v: DecoderView, s: Seq<u8>, b: u8)
    ensures
        steps(v, s.push(b)) == step(steps(v, s), b),
    decreases s.len(),
{
    if s.len() == 0 {
        assert(s.push(b)[0] == b);
        assert(s.push(b).skip(1) =~= Seq::<u8>::empty());
        assert(steps(v, s.push(b)) == steps(step(v, b), Seq::<u8>::empty()));
        assert(steps(step(v, b), Seq::<u8>::empty()) == step(v, b));
        assert(steps(v, s) == v);
    } else {
        assert(s.push(b)[0] == s[0]);
        assert(s.push(b).skip(1) =~= s.skip(1).push(b));
        assert(steps(v, s.push(b)) == steps(step(v, s[0]), s.skip(1).push(b)));
        lemma_steps_snoc(step(v, s[0]), s.skip(1), b);
        assert(steps(v, s) == steps(step(v, s[0]), s.skip(1)));
    }
}

/// Feeding a concatenation is feeding the parts in order: the decoder's
/// outcome cannot depend on where the stream is cut into buffers.
pub proof fn lemma_steps_append(v: DecoderView, a: Seq<u8>, b: Seq<u8>)
    ensures
        steps(v, a + b) == steps(steps(v, a), b),
    decreases a.len(),
{
    if a.len() == 0 {
        assert(a + b =~= b);
    } else {
        assert((a + b)[0] == a[0]);
        assert((a + b).skip(1) =~= a.skip(1) + b);
        lemma_steps_append(step(v, a[0]), a.skip(1), b);
    }
}

/// Folding the decoder over a list of buffers, one buffer after the other.
pub open spec fn steps_chunked(v: DecoderView, chunks: Seq<Seq<u8>>) -> DecoderView
    decreases chunks.len(),
{
    if chunks.len() == 0 {
        v
    } else {
        steps_chunked(steps(v, chunks[0]), chunks.skip(1))
    }
}

/// Chunk invariance: however a stream is partitioned into `feed` buffers,
/// the decoder ends exactly where feeding the undivided stream ends.
pub proof fn lemma_chunk_invariance(v: DecoderView, chunks: Seq<Seq<u8>>)
    ensures
        steps_chunked(v, chunks) == steps(v, chunks.flatten()),
    decreases chunks.len(),
{
    if chunks.len() == 0 {
        assert(chunks.flatten() =~= Seq::<u8>::empty());
    } else {
        lemma_steps_append(v, chunks[0], chunks.skip(1).flatten());
        lemma_chunk_invariance(steps(v, chunks[0]), chunks.skip(1));
        assert(chunks.flatten() == chunks[0] + chunks.skip(1).flatten());
    }
}

/// One unfolding of [`steps`] on a non-empty sequence.
proof fn lemma_steps_cons(v: DecoderView, s: Seq<u8>)
    requires
        s.len() > 0,
    ensures
        steps(v, s) == steps(step(v, s[0]), s.skip(1)),
{
}

/// Feeding the missing payload bytes completes exactly the frame whose
/// payload is what was accumulated plus those bytes.
proof fn lemma_payload_feeds(v: DecoderView, id: u8, rest: Seq<u8>)
    requires
        1 <= rest.len(),
        v.state == DecoderState::ReadPayload(id, rest.len() as u16),
        v.partial.len() + rest.len() <= MAX_DECLARED_LEN - 1,
    ensures
        steps(v, rest) == complete(v, FrameView { id, payload: v.partial + rest }),
    decreases rest.len(),
{
    let b = rest[0];
    lemma_steps_cons(v, rest);
    if rest.len() == 1 {
        assert(v.partial.push(b) =~= v.partial + rest);
        assert(rest.skip(1) =~= Seq::<u8>::empty());
        assert(steps(step(v, b), Seq::<u8>::empty()) == step(v, b));
    } else {
        let v1 = step(v, b);
        assert(v1.state == DecoderState::ReadPayload(id, (rest.len() - 1) as u16));
        lemma_payload_feeds(v1, id, rest.skip(1));
        assert(v.partial.push(b) + rest.skip(1) =~= v.partial + rest);
    }
}

/// Feeding one well-formed frame encoding from a seeking state completes
/// exactly that frame: it is queued, or dropped against a full queue, and
/// the decoder seeks the magic again.
pub proof fn lemma_stream_decodes(v: DecoderView, id: u8, payload: Seq<u8>)
    requires
        v.state == DecoderState::Seek(0),
        v.partial.len() == 0,
        payload.len() + 1 <= MAX_DECLARED_LEN,
    ensures
        steps(v, frame_bytes(id, payload)) == complete(v, FrameView { id, payload }),
{
    let s = frame_bytes(id, payload);
    let d = (payload.len() + 1) as u16;
    let lo = ((payload.len() + 1) % 256) as u8;
    let hi = ((payload.len() + 1) / 256) as u8;
    assert(spec_le16(lo, hi) == d);
    let head = seq![MAGIC0, MAGIC1, MAGIC2, MAGIC3, lo, hi, id];
    assert(s =~= head + payload);
    lemma_steps_append(v, head, payload);
    let v1 = step(v, MAGIC0);
    let v2 = step(v1, MAGIC1);
    let v3 = step(v2, MAGIC2);
    let v4 = step(v3, MAGIC3);
    let v5 = step(v4, lo);
    let v6 = step(v5, hi);
    let v7 = step(v6, id);
    assert(magic()[0] == MAGIC0 && magic()[1] == MAGIC1 && magic()[2] == MAGIC2 && magic()[3]
        == MAGIC3);
    lemma_steps_cons(v, head);
    assert(head.skip(1) =~= seq![MAGIC1, MAGIC2, MAGIC3, lo, hi, id]);
    lemma_steps_cons(v1, seq![MAGIC1, MAGIC2, MAGIC3, lo, hi, id]);
    assert(seq![MAGIC1, MAGIC2, MAGIC3, lo, hi, id].skip(1) =~= seq![MAGIC2, MAGIC3, lo, hi, id]);
    lemma_steps_cons(v2, seq![MAGIC2, MAGIC3, lo, hi, id]);
    assert(seq![MAGIC2, MAGIC3, lo, hi, id].skip(1) =~= seq![MAGIC3, lo, hi, id]);
    lemma_steps_cons(v3, seq![MAGIC3, lo, hi, id]);
    assert(seq![MAGIC3, lo, hi, id].skip(1) =~= seq![lo, hi, id]);
    lemma_steps_cons(v4, seq![lo, hi, id]);
    assert(seq![lo, hi, id].skip(1) =~= seq![hi, id]);
    lemma_steps_cons(v5, seq![hi, id]);
    assert(seq![hi, id].skip(1) =~= seq![id]);
    lemma_steps_cons(v6, seq![id]);
    assert(seq![id].skip(1) =~= Seq::<u8>::empty());
    assert(steps(v7, Seq::<u8>::empty()) == v7);
    assert(steps(v, head) == v7);
    assert(v4.state == DecoderState::ReadLenLow);
    assert(v6.state == DecoderState::ReadId(d));
    if d == 1 {
        assert(payload =~= Seq::<u8>::empty());
        assert(v7 == complete(v6, FrameView { id, payload: Seq::empty() }));
        assert(steps(v7, payload) == v7);
        assert(complete(v6, FrameView { id, payload }) == complete(v, FrameView { id, payload }));
    } else {
        assert(v7.state == DecoderState::ReadPayload(id, (d - 1) as u16));
        assert(v7.partial == Seq::<u8>::empty());
        lemma_payload_feeds(v7, id, payload);
        assert(v7.partial + payload =~= payload);
        assert(complete(v7, FrameView { id, payload }) == complete(v, FrameView { id, payload }));
    }
}

/// A valid stream fed to a fresh decoder yields exactly one frame, holding
/// the original id and payload, and leaves the decoder seeking the magic.
pub proof fn lemma_valid_stream_yields_one_frame(id: u8, payload: Seq<u8>)
    requires
        payload.len() + 1 <= MAX_DECLARED_LEN,
    ensures
        steps(init(), frame_bytes(id, payload)) == (DecoderView {
            state: DecoderState::Seek(0),
            partial: Seq::empty(),
            queue: seq![FrameView { id, payload }],
            dropped: 0,
        }),
{
    lemma_stream_decodes(init(), id, payload);
    assert(Seq::<FrameView>::empty().push(FrameView { id, payload }) =~= seq![
        FrameView { id, payload },
    ]);
}

/// Some window of `s` spells the whole magic pattern.
pub open spec fn contains_magic(s: Seq<u8>) -> bool {
    exists|i: int| 0 <= i && i + 4 <= s.len() && #[trigger] s.subrange(i, i + 4) == magic()
}

/// The last `k` bytes of `s` spell the first `k` bytes of the magic.
pub open spec fn magic_run(s: Seq<u8>, k: int) -> bool {
    0 <= k <= 3 && k <= s.len() && forall|j: int| 0 <= j < k ==> s[s.len() - k + j] == magic()[j]
}

/// No false frames: a stream in which the magic pattern never occurs
/// produces no frame and leaves nothing buffered; the decoder is still
/// seeking, remembering just the trailing partial match of the magic.
pub proof fn lemma_no_magic_no_frames(s: Seq<u8>) -> (k: int)
    requires
        !contains_magic(s),
    ensures
        0 <= k <= 3,
        magic_run(s, k),
        steps(init(), s) == (DecoderView {
            state: DecoderState::Seek(k as u8),
            partial: Seq::empty(),
            queue: Seq::empty(),
            dropped: 0,
        }),
    decreases s.len(),
{
    if s.len() == 0 {
        0
    } else {
        let t = s.drop_last();
        let b = s.last();
        assert(!contains_magic(t)) by {
            if contains_magic(t) {
                let i = choose|i: int|
                    0 <= i && i + 4 <= t.len() && #[trigger] t.subrange(i, i + 4) == magic();
                assert(s.subrange(i, i + 4) =~= t.subrange(i, i + 4));
            }
        }
        let k0 = lemma_no_magic_no_frames(t);
        assert(t.push(b) =~= s);
        lemma_steps_snoc(init(), t, b);
        let k: int;
        if b == magic()[k0] {
            if k0 == 3 {
                let w = s.len() - 4;
                assert(s.subrange(w, w + 4) =~= magic()) by {
                    assert(forall|j: int| 0 <= j < 3 ==> #[trigger] s[s.len() - 4 + j] == t[t.len() - 3 + j]);
                }
                assert(contains_magic(s));
                assert(false);
                k = 0;
            } else {
                k = k0 + 1;
                assert(forall|j: int| 0 <= j < k - 1 ==> #[trigger] s[s.len() - k + j] == t[t.len() - k0 + j]);
                assert(magic_run(s, k));
            }
        } else if b == MAGIC0 {
            k = 1;
            assert(s[s.len() - 1] == MAGIC0 && magic()[0] == MAGIC0);
            assert(magic_run(s, 1));
        } else {
            k = 0;
            assert(magic_run(s, 0));
        }
        k
    }
}

/// No false frames, exactly: when additionally no trailing bytes of the
/// stream begin the magic, the decoder ends in its initial state.
pub proof fn lemma_no_magic_initial_state(s: Seq<u8>)
    requires
        !contains_magic(s),
        forall|k: int| 1 <= k <= 3 ==> !magic_run(s, k),
    ensures
        steps(init(), s) == init(),
{
    let k = lemma_no_magic_no_frames(s);
    assert(k == 0);
}

/// Length guard: a declared length of zero, or one beyond the supported
/// maximum, abandons the frame and returns the decoder to its initial
/// state, yielding no frame.
pub proof fn lemma_length_guard(lo: u8, hi: u8)
    requires
        spec_le16(lo, hi) == 0 || spec_le16(lo, hi) > MAX_DECLARED_LEN,
    ensures
        steps(init(), magic() + seq![lo, hi]) == init(),
{
    let s = magic() + seq![lo, hi];
    let head = seq![MAGIC0, MAGIC1, MAGIC2, MAGIC3, lo, hi];
    assert(s =~= head);
    let v0 = init();
    let v1 = step(v0, MAGIC0);
    let v2 = step(v1, MAGIC1);
    let v3 = step(v2, MAGIC2);
    let v4 = step(v3, MAGIC3);
    let v5 = step(v4, lo);
    let v6 = step(v5, hi);
    assert(magic()[0] == MAGIC0 && magic()[1] == MAGIC1 && magic()[2] == MAGIC2 && magic()[3]
        == MAGIC3);
    lemma_steps_cons(v0, head);
    assert(head.skip(1) =~= seq![MAGIC1, MAGIC2, MAGIC3, lo, hi]);
    lemma_steps_cons(v1, seq![MAGIC1, MAGIC2, MAGIC3, lo, hi]);
    assert(seq![MAGIC1, MAGIC2, MAGIC3, lo, hi].skip(1) =~= seq![MAGIC2, MAGIC3, lo, hi]);
    lemma_steps_cons(v2, seq![MAGIC2, MAGIC3, lo, hi]);
    assert(seq![MAGIC2, MAGIC3, lo, hi].skip(1) =~= seq![MAGIC3, lo, hi]);
    lemma_steps_cons(v3, seq![MAGIC3, lo, hi]);
    assert(seq![MAGIC3, lo, hi].skip(1) =~= seq![lo, hi]);
    lemma_steps_cons(v4, seq![lo, hi]);
    assert(seq![lo, hi].skip(1) =~= seq![hi]);
    lemma_steps_cons(v5, seq![hi]);
    assert(seq![hi].skip(1) =~= Seq::<u8>::empty());
    assert(steps(v6, Seq::<u8>::empty()) == v6);
    assert(v6 == init());
}

/// Backpressure: when the frame queue is at capacity, no transition changes
/// the queue — a newly completed frame is dropped, and the oldest queued
/// frame stays first in line.
pub proof fn lemma_backpressure(v: DecoderView, b: u8)
    requires
        wf(v),
        v.queue.len() == FRAME_QUEUE_CAPACITY,
    ensures
        step(v, b).queue == v.queue,
{
}

} // verus!
