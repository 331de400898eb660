//! Framing codec: frame bytes + COBS.
//!
//! - [`encode`] writes one COBS-delimited frame into a caller-supplied buffer.
//! - [`Decoder`] takes raw stream bytes in chunks and hands back frames, skipping and
//!   resyncing past corruption or a mid-stream connect.
//! - [`decode_all`] decodes every complete frame of a byte run into a `Vec`.
use vstd::prelude::*;
use crate::frames::Frame;
use crate::framing::{cobs_decoded, cobs_frame, cobs_unstuff, cobs_write};
use crate::wire::{frame_bytes, lemma_frame_roundtrip, parse_frame, read_frame, write_frame, written};
use vstd::slice::slice_subrange;

verus! {

/// Upper bound on one COBS-framed frame, bytes. The largest frame is a `Status`
/// (48 text bytes + level + message index + timestamp varint = at most 55 bytes), which
/// COBS grows by one code byte plus the delimiter: at most 57 bytes.
pub const MAX_FRAME: usize = 64;

/// Why [`encode`] failed.
#[derive(Clone, Copy, Debug, PartialEq, Eq)]
pub enum EncodeError {
    /// The buffer cannot hold the framed bytes.
    BufferFull,
}

/// The bytes [`encode`] writes for `f`: its wire bytes, COBS-stuffed, then `0x00`.
pub open spec fn encoded(f: Frame) -> Seq<u8> {
    cobs_frame(frame_bytes(f))
}

/// The frame that a complete COBS segment (delimiter included) carries, if any.
pub open spec fn decode_segment(seg: Seq<u8>) -> Option<Frame> {
    match cobs_decoded(seg) {
        Some(p) => parse_frame(p),
        None => None,
    }
}

/// Encode `frame` as a COBS-delimited packet at the front of `buf` (`MAX_FRAME` bytes
/// always suffice). Returns the used prefix of `buf`, the trailing `0x00` delimiter
/// included. `Err` only if `buf` is too small. What the packet unstuffs to is the frame's
/// wire bytes, laid out as the laws of [`crate::layout`] state byte for byte.
pub fn encode<'a>(frame: &Frame, buf: &'a mut [u8]) -> (res: Result<&'a mut [u8], EncodeError>)
    ensures
        res matches Ok(w) ==> final(buf)@ == final(w)@ + old(buf)@.skip(w@.len() as int),
        res is Ok <==> frame_bytes(*frame).len() + 2 <= old(buf)@.len(),
        old(buf)@.len() >= MAX_FRAME ==> res is Ok,
        res matches Err(e) ==> e == EncodeError::BufferFull,
        res matches Ok(w) ==> {
            &&& w@.len() == frame_bytes(*frame).len() + 2
            &&& w@.len() <= MAX_FRAME
            &&& w@ == encoded(*frame)
            &&& cobs_decoded(w@) == Some(frame_bytes(*frame))
            &&& w@.last() == 0
            &&& forall|i: int| 0 <= i < w@.len() - 1 ==> w@[i] != 0
            &&& carries(w@, *frame)
            &&& push_result(fresh(), w@) == (fresh(), seq![*frame], 0nat)
        },
{
    let mut body = [0u8; MAX_FRAME];
    let len = write_frame(frame, &mut body);
    let payload = slice_subrange(body.as_slice(), 0, len);
    proof {
        lemma_frame_roundtrip(*frame, Seq::empty());
        assert(payload@ =~= frame_bytes(*frame));
    }
    match cobs_write(payload, buf) {
        Ok(n) => {
            let (head, _rest) = buf.split_at_mut(n);
            proof {
                let framed = cobs_frame(frame_bytes(*frame));
                assert(head@ =~= framed);
                lemma_segment_then(head@, *frame, Seq::empty());
                assert(head@ + Seq::<u8>::empty() =~= head@);
            }
            Ok(head)
        },
        Err(_) => Err(EncodeError::BufferFull),
    }
}


// ---------------------------------------------------------------------------------------
// The streaming decoder, as a function of what it holds and the input
// ---------------------------------------------------------------------------------------

/// Index of the first `0x00` in `s`, if any.
pub open spec fn first_zero(s: Seq<u8>) -> Option<nat>
    decreases s.len(),
{
    if s.len() == 0 {
        None
    } else if s[0] == 0 {
        Some(0)
    } else {
        match first_zero(s.drop_first()) {
            Some(n) => Some(n + 1),
            None => None,
        }
    }
}

/// What a decoder holds between chunks: the bytes of the frame being received, and whether
/// it is skipping the rest of an oversized frame up to its delimiter.
pub struct DecoderState {
    pub pending: Seq<u8>,
    pub discarding: bool,
}

/// A decoder at a frame boundary.
pub open spec fn fresh() -> DecoderState {
    DecoderState { pending: Seq::empty(), discarding: false }
}

/// A decoder skipping an oversized frame.
pub open spec fn skipping() -> DecoderState {
    DecoderState { pending: Seq::empty(), discarding: true }
}

/// One step of the decoder in state `st` on a non-empty `input`: the new state, the frame
/// handed out (if any), whether a frame was dropped, and the input left for the next step.
///
/// - Up to and including the first delimiter, the input closes the current frame. A frame
///   that was being skipped ends there with no further report. Otherwise, if the frame fits
///   in `MAX_FRAME` bytes it is unstuffed and read (a frame, or a drop when either fails);
///   if not it is dropped as oversized. Either way decoding starts afresh after the
///   delimiter.
/// - A delimiter-free input that fits is kept pending. One that overfills the decoder drops
///   the frame at once and skips everything up to the next delimiter; while skipping,
///   delimiter-free input is consumed with no report.
pub open spec fn feed_step(st: DecoderState, input: Seq<u8>) -> (DecoderState, Option<Frame>, bool, Seq<u8>) {
    match first_zero(input) {
        Some(n) => if st.discarding {
            (fresh(), None, false, input.skip(n + 1int))
        } else if st.pending.len() + n + 1 <= MAX_FRAME {
            let f = decode_segment(st.pending + input.take(n + 1int));
            (fresh(), f, f is None, input.skip(n + 1int))
        } else {
            (fresh(), None, true, input.skip(n + 1int))
        },
        None => if st.discarding {
            (skipping(), None, false, Seq::empty())
        } else if st.pending.len() + input.len() > MAX_FRAME {
            (skipping(), None, true, Seq::empty())
        } else {
            (DecoderState { pending: st.pending + input, discarding: false }, None, false, Seq::empty())
        },
    }
}

pub open spec fn opt_seq(f: Option<Frame>) -> Seq<Frame> {
    match f {
        Some(x) => seq![x],
        None => Seq::empty(),
    }
}

/// Feeding `bytes` to a decoder in state `st`: its state after, the frames handed out in
/// order, and the number of frames dropped.
pub open spec fn push_result(st: DecoderState, bytes: Seq<u8>) -> (DecoderState, Seq<Frame>, nat)
    decreases bytes.len(),
{
    if bytes.len() == 0 {
        (st, Seq::empty(), 0)
    } else {
        let (st1, emitted, dropped, rest) = feed_step(st, bytes);
        proof {
            lemma_feed_step_progress(st, bytes);
        }
        let (st2, frames, drops) = push_result(st1, rest);
        (st2, opt_seq(emitted) + frames, drops + if dropped {
            1nat
        } else {
            0nat
        })
    }
}

pub proof fn lemma_first_zero(s: Seq<u8>)
    ensures
        first_zero(s) matches Some(n) ==> n < s.len() && s[n as int] == 0 && forall|j: int|
            0 <= j < n ==> s[j] != 0,
        first_zero(s) is None ==> forall|j: int| 0 <= j < s.len() ==> s[j] != 0,
    decreases s.len(),
{
    if s.len() > 0 && s[0] != 0 {
        lemma_first_zero(s.drop_first());
        assert forall|j: int| 1 <= j < s.len() implies s[j] == s.drop_first()[j - 1] by {}
    }
}

/// `first_zero` is the position of the first zero wherever one is known.
pub proof fn lemma_first_zero_at(s: Seq<u8>, n: int)
    requires
        0 <= n < s.len(),
        s[n] == 0,
        forall|j: int| 0 <= j < n ==> s[j] != 0,
    ensures
        first_zero(s) == Some(n as nat),
{
    lemma_first_zero(s);
}

/// A zero-free sequence has no first zero.
pub proof fn lemma_first_zero_none(s: Seq<u8>)
    requires
        forall|j: int| 0 <= j < s.len() ==> s[j] != 0,
    ensures
        first_zero(s) is None,
{
    lemma_first_zero(s);
    if let Some(n) = first_zero(s) {
        assert(s[n as int] == 0);
    }
}

/// Every step consumes input.
pub proof fn lemma_feed_step_progress(st: DecoderState, input: Seq<u8>)
    requires
        input.len() > 0,
    ensures
        feed_step(st, input).3.len() < input.len(),
{
    lemma_first_zero(input);
}

// ---------------------------------------------------------------------------------------
// The streaming decoder
// ---------------------------------------------------------------------------------------

/// Streaming decoder. Holds the bytes of the frame still being received (at most
/// [`MAX_FRAME`], in a fixed buffer). An oversized or malformed frame is dropped and
/// decoding resyncs at the next `0x00` delimiter rather than tearing down the stream, so a
/// frame an old build can't read degrades to "skip that frame", not "lose the connection".
pub struct Decoder {
    buf: [u8; MAX_FRAME],
    len: usize,
    discarding: bool,
}

impl View for Decoder {
    type V = DecoderState;

    closed spec fn view(&self) -> DecoderState {
        DecoderState { pending: self.buf@.take(self.len as int), discarding: self.discarding }
    }
}

impl Decoder {
    #[verifier::type_invariant]
    spec fn well_formed(self) -> bool {
        &&& self.len <= MAX_FRAME
        &&& self.discarding ==> self.len == 0
    }

    pub fn new() -> (d: Self)
        ensures
            d@ == fresh(),
    {
        let d = Decoder { buf: [0u8; MAX_FRAME], len: 0, discarding: false };
        assert(d@.pending =~= Seq::<u8>::empty());
        d
    }

    /// One decoder step on `bytes[start..]` (see [`feed_step`]); returns the frame handed
    /// out, whether one was dropped, and where the rest of the input starts.
    fn feed(&mut self, bytes: &[u8], start: usize) -> (r: (Option<Frame>, bool, usize))
        requires
            start < bytes.len(),
        ensures
            start < r.2 <= bytes.len(),
            feed_step(old(self)@, bytes@.skip(start as int)) == (
                final(self)@,
                r.0,
                r.1,
                bytes@.skip(r.2 as int),
            ),
    {
        proof {
            use_type_invariant(&*self);
        }
        let ghost input = bytes@.skip(start as int);
        let ghost st = self@;
        let mut i: usize = start;
        while i < bytes.len() && bytes[i] != 0
            invariant
                start <= i <= bytes.len(),
                forall|j: int| start <= j < i ==> bytes@[j] != 0,
            decreases bytes.len() - i,
        {
            i = i + 1;
        }
        proof {
            assert forall|j: int| 0 <= j < i - start implies input[j] != 0 by {
                assert(input[j] == bytes@[start + j]);
            }
        }
        if i < bytes.len() {
            proof {
                assert(input[i - start] == bytes@[i as int]);
                lemma_first_zero_at(input, i - start);
                assert(input.skip(i - start + 1) =~= bytes@.skip(i + 1));
                assert(fresh().pending =~= self.buf@.take(0));
            }
            if self.discarding {
                self.discarding = false;
                return (None, false, i + 1);
            }
            let idx = self.len;
            if i - start < MAX_FRAME - idx {
                let mut work = self.buf;
                let mut k: usize = start;
                while k <= i
                    invariant
                        start <= k <= i + 1,
                        i < bytes.len(),
                        idx + (i - start) < MAX_FRAME,
                        work@.take(idx + (k - start)) =~= st.pending + bytes@.subrange(
                            start as int,
                            k as int,
                        ),
                        st.pending == self.buf@.take(idx as int),
                        idx == self.len,
                        work@.len() == MAX_FRAME,
                    decreases i + 1 - k,
                {
                    let ghost w0 = work@;
                    work[idx + (k - start)] = bytes[k];
                    proof {
                        let j = idx + (k - start);
                        assert(work@.take(j + 1) =~= w0.take(j).push(bytes@[k as int]));
                        assert(bytes@.subrange(start as int, k + 1) =~= bytes@.subrange(
                            start as int,
                            k as int,
                        ).push(bytes@[k as int]));
                    }
                    k = k + 1;
                }
                let seg_len = idx + (i - start) + 1;
                assert(input.take(i - start + 1) =~= bytes@.subrange(start as int, i + 1));
                let (seg, _tail) = work.split_at_mut(seg_len);
                assert(seg@ =~= st.pending + input.take(i - start + 1));
                let frame = match cobs_unstuff(seg) {
                    Some(n) => read_frame(slice_subrange(seg, 0, n)),
                    None => None,
                };
                self.len = 0;
                let dropped = frame.is_none();
                (frame, dropped, i + 1)
            } else {
                self.len = 0;
                (None, true, i + 1)
            }
        } else {
            proof {
                lemma_first_zero_none(input);
                assert(bytes@.skip(bytes.len() as int) =~= Seq::<u8>::empty());
                assert(skipping().pending =~= self.buf@.take(0));
            }
            if self.discarding {
                return (None, false, bytes.len());
            }
            let idx = self.len;
            let count = bytes.len() - start;
            if count > MAX_FRAME - idx {
                self.len = 0;
                self.discarding = true;
                (None, true, bytes.len())
            } else {
                let mut k: usize = start;
                while k < bytes.len()
                    invariant
                        start <= k <= bytes.len(),
                        idx + (bytes.len() - start) <= MAX_FRAME,
                        self.buf@.take(idx + (k - start)) =~= st.pending + bytes@.subrange(
                            start as int,
                            k as int,
                        ),
                        idx == self.len,
                        !self.discarding,
                    decreases bytes.len() - k,
                {
                    let ghost w0 = self.buf@;
                    self.buf[idx + (k - start)] = bytes[k];
                    proof {
                        let j = idx + (k - start);
                        assert(self.buf@.take(j + 1) =~= w0.take(j).push(bytes@[k as int]));
                        assert(bytes@.subrange(start as int, k + 1) =~= bytes@.subrange(
                            start as int,
                            k as int,
                        ).push(bytes@[k as int]));
                    }
                    k = k + 1;
                }
                self.len = idx + count;
                assert(input =~= bytes@.subrange(start as int, bytes.len() as int));
                (None, false, bytes.len())
            }
        }
    }

    /// Feed a chunk of stream bytes; append each complete, valid frame to `out`, in order.
    /// Returns the count of frames dropped (oversized, or undecodable bytes) in this chunk.
    /// A partial frame stays pending across calls.
    pub fn push_into(&mut self, bytes: &[u8], out: &mut Vec<Frame>) -> (dropped: usize)
        ensures
            final(self)@ == push_result(old(self)@, bytes@).0,
            final(out)@ == old(out)@ + push_result(old(self)@, bytes@).1,
            dropped == push_result(old(self)@, bytes@).2,
    {
        let ghost st0 = self@;
        let ghost out0 = out@;
        let ghost mut emitted: Seq<Frame> = Seq::empty();
        let mut pos: usize = 0;
        let mut dropped: usize = 0;
        proof {
            assert(bytes@.skip(0) =~= bytes@);
            lemma_report_count(st0, bytes@);
        }
        while pos < bytes.len()
            invariant
                pos <= bytes.len(),
                out@ == out0 + emitted,
                ({
                    let (st, fs, d) = push_result(self@, bytes@.skip(pos as int));
                    push_result(st0, bytes@) == (st, emitted + fs, (dropped + d) as nat)
                }),
                push_result(st0, bytes@).2 <= bytes.len(),
            decreases bytes.len() - pos,
        {
            let ghost before = self@;
            let ghost emitted_before = emitted;
            let (frame, drop, next) = self.feed(bytes, pos);
            proof {
                lemma_push_result_unfold(before, bytes@.skip(pos as int));
            }
            match frame {
                Some(f) => {
                    out.push(f);
                    proof {
                        emitted = emitted.push(f);
                    }
                },
                None => {},
            }
            if drop {
                dropped = dropped + 1;
            }
            pos = next;
            proof {
                let (st, fs, d) = push_result(self@, bytes@.skip(pos as int));
                assert(emitted + fs =~= emitted_before + (opt_seq(frame) + fs));
            }
        }
        assert(bytes@.skip(pos as int) =~= Seq::<u8>::empty());
        dropped
    }

    /// Feed a chunk of stream bytes; call `on_frame` once per complete, valid frame, in
    /// stream order. Returns the count of dropped frames (oversized, or undecodable bytes)
    /// seen in this chunk: non-zero means corruption or a version-skew frame was skipped.
    pub fn push(&mut self, bytes: &[u8], mut on_frame: impl FnMut(Frame)) -> (dropped: usize)
        requires
            forall|f: Frame| call_requires(on_frame, (f,)),
        ensures
            final(self)@ == push_result(old(self)@, bytes@).0,
            dropped == push_result(old(self)@, bytes@).2,
            forall|i: int|
                0 <= i < push_result(old(self)@, bytes@).1.len() ==> call_ensures(
                    on_frame,
                    (#[trigger] push_result(old(self)@, bytes@).1[i],),
                    (),
                ),
    {
        let ghost st0 = self@;
        let ghost callback = on_frame;
        let ghost mut emitted: Seq<Frame> = Seq::empty();
        let mut pos: usize = 0;
        let mut dropped: usize = 0;
        proof {
            assert(bytes@.skip(0) =~= bytes@);
            lemma_report_count(st0, bytes@);
        }
        while pos < bytes.len()
            invariant
                pos <= bytes.len(),
                on_frame == callback,
                forall|f: Frame| call_requires(on_frame, (f,)),
                forall|i: int| 0 <= i < emitted.len() ==> call_ensures(on_frame, (#[trigger] emitted[i],), ()),
                ({
                    let (st, fs, d) = push_result(self@, bytes@.skip(pos as int));
                    push_result(st0, bytes@) == (st, emitted + fs, (dropped + d) as nat)
                }),
                push_result(st0, bytes@).2 <= bytes.len(),
            decreases bytes.len() - pos,
        {
            let ghost before = self@;
            let ghost emitted_before = emitted;
            let (frame, drop, next) = self.feed(bytes, pos);
            proof {
                lemma_push_result_unfold(before, bytes@.skip(pos as int));
            }
            match frame {
                Some(f) => {
                    on_frame(f);
                    proof {
                        emitted = emitted.push(f);
                        assert(emitted[emitted.len() - 1] == f);
                    }
                },
                None => {},
            }
            if drop {
                dropped = dropped + 1;
            }
            pos = next;
            proof {
                let (st, fs, d) = push_result(self@, bytes@.skip(pos as int));
                assert(emitted + fs =~= emitted_before + (opt_seq(frame) + fs));
            }
        }
        proof {
            assert(bytes@.skip(pos as int) =~= Seq::<u8>::empty());
            assert(push_result(st0, bytes@).1 =~= emitted);
        }
        dropped
    }
}


impl Default for Decoder {
    fn default() -> (d: Self)
        ensures
            d@ == fresh(),
    {
        Self::new()
    }
}

/// Decode every complete frame in `bytes` into a `Vec`. Convenience for batch use and
/// tests; the streaming [`Decoder`] is the real-time path.
pub fn decode_all(bytes: &[u8]) -> (frames: Vec<Frame>)
    ensures
        frames@ == push_result(fresh(), bytes@).1,
{
    let mut out: Vec<Frame> = Vec::new();
    let mut dec = Decoder::new();
    dec.push_into(bytes, &mut out);
    assert(out@ =~= push_result(fresh(), bytes@).1);
    out
}

/// One step of `push_result`, spelled out.
pub proof fn lemma_push_result_unfold(st: DecoderState, bytes: Seq<u8>)
    requires
        bytes.len() > 0,
    ensures
        ({
            let (st1, e, d, rest) = feed_step(st, bytes);
            let (st2, fs, ds) = push_result(st1, rest);
            push_result(st, bytes) == (st2, opt_seq(e) + fs, ds + if d {
                1nat
            } else {
                0nat
            })
        }),
{
}

/// A decoder reports at most one frame or drop per byte fed to it.
pub proof fn lemma_report_count(st: DecoderState, bytes: Seq<u8>)
    ensures
        push_result(st, bytes).1.len() + push_result(st, bytes).2 <= bytes.len(),
    decreases bytes.len(),
{
    if bytes.len() > 0 {
        lemma_push_result_unfold(st, bytes);
        lemma_feed_step_progress(st, bytes);
        let (st1, e, d, rest) = feed_step(st, bytes);
        lemma_report_count(st1, rest);
    }
}

// ---------------------------------------------------------------------------------------
// Laws of the decoder
// ---------------------------------------------------------------------------------------

/// `seg` is one complete COBS frame that carries `f`: it fits the decoder, ends with its
/// only `0x00`, and unstuffs to the wire bytes of `f`. What [`encode`] writes is one.
pub open spec fn carries(seg: Seq<u8>, f: Frame) -> bool {
    &&& 0 < seg.len() <= MAX_FRAME
    &&& seg.last() == 0
    &&& forall|i: int| 0 <= i < seg.len() - 1 ==> seg[i] != 0
    &&& decode_segment(seg) == Some(f)
}

/// A fresh decoder fed a frame's segment then anything else hands out that frame, then
/// whatever a fresh decoder makes of the rest.
pub proof fn lemma_segment_then(seg: Seq<u8>, f: Frame, rest: Seq<u8>)
    requires
        carries(seg, f),
    ensures
        ({
            let (st, fs, d) = push_result(fresh(), rest);
            push_result(fresh(), seg + rest) == (st, seq![f] + fs, d)
        }),
{
    let s = seg + rest;
    let n = seg.len() - 1;
    assert(s[n] == 0);
    assert forall|j: int| 0 <= j < n implies s[j] != 0 by {
        assert(s[j] == seg[j]);
    }
    lemma_first_zero_at(s, n);
    assert(Seq::<u8>::empty() + s.take(n + 1) =~= seg);
    assert(s.skip(n + 1) =~= rest);
    assert(opt_seq(Some(f)) =~= seq![f]);
}


/// Decoding a stream made of frame segments (such as [`encode`] writes), back to back,
/// from a fresh decoder hands out exactly those frames, in order, drops nothing, and
/// ends at a frame boundary.
pub proof fn lemma_stream_roundtrip(segs: Seq<Seq<u8>>, frames: Seq<Frame>)
    requires
        segs.len() == frames.len(),
        forall|i: int| 0 <= i < segs.len() ==> carries(#[trigger] segs[i], frames[i]),
    ensures
        push_result(fresh(), segs.flatten()) == (fresh(), frames, 0nat),
    decreases segs.len(),
{
    if segs.len() == 0 {
        assert(frames =~= Seq::<Frame>::empty());
    } else {
        let tail = segs.drop_first();
        assert forall|i: int| 0 <= i < tail.len() implies carries(
            #[trigger] tail[i],
            frames.drop_first()[i],
        ) by {
            assert(tail[i] == segs[i + 1]);
        }
        lemma_stream_roundtrip(tail, frames.drop_first());
        assert(carries(segs[0], frames[0]));
        lemma_segment_then(segs.first(), frames.first(), tail.flatten());
        assert(seq![frames.first()] + frames.drop_first() =~= frames);
    }
}

/// Feeding `a` then `b` gives the frames and drops of feeding `a + b` at once, and the same
/// state.
pub open spec fn split_holds(st: DecoderState, a: Seq<u8>, b: Seq<u8>) -> bool {
    let (st1, f1, d1) = push_result(st, a);
    let (st2, f2, d2) = push_result(st1, b);
    push_result(st, a + b) == (st2, f1 + f2, d1 + d2)
}

/// `lemma_push_split` when the first chunk holds a delimiter.
proof fn lemma_push_split_delimited(st: DecoderState, a: Seq<u8>, b: Seq<u8>, n: nat)
    requires
        first_zero(a) == Some(n),
        split_holds(fresh(), a.skip(n + 1int), b),
    ensures
        split_holds(st, a, b),
{
    let s = a + b;
    lemma_first_zero(a);
    assert(s[n as int] == a[n as int]);
    assert forall|j: int| 0 <= j < n implies s[j] != 0 by {
        assert(s[j] == a[j]);
    }
    lemma_first_zero_at(s, n as int);
    let a2 = a.skip(n + 1int);
    assert(s.take(n + 1int) =~= a.take(n + 1int));
    assert(s.skip(n + 1int) =~= a2 + b);
    lemma_push_result_unfold(st, a);
    lemma_push_result_unfold(st, s);
    let (st1, e, d, r) = feed_step(st, a);
    let (q1, g1, c1) = push_result(fresh(), a2);
    let (q2, g2, c2) = push_result(q1, b);
    assert(opt_seq(e) + (g1 + g2) =~= (opt_seq(e) + g1) + g2);
}

/// `lemma_push_split` when the first chunk holds no delimiter.
#[verifier::spinoff_prover]
#[verifier::rlimit(40)]
proof fn lemma_push_split_undelimited(st: DecoderState, a: Seq<u8>, b: Seq<u8>)
    requires
        a.len() > 0,
        first_zero(a) is None,
    ensures
        split_holds(st, a, b),
{
    let s = a + b;
    lemma_first_zero(a);
    lemma_first_zero(b);
    lemma_push_result_unfold(st, a);
    let (st1, e1, d1, r1) = feed_step(st, a);
    assert(r1.len() == 0);
    assert(push_result(st, a) == (st1, Seq::<Frame>::empty(), if d1 {
        1nat
    } else {
        0nat
    }));
    if b.len() == 0 {
        assert(s =~= a);
        return;
    }
    lemma_push_result_unfold(st1, b);
    lemma_push_result_unfold(st, s);
    match first_zero(b) {
        Some(m) => {
            let k = a.len() + m;
            assert(s[k as int] == b[m as int]);
            assert forall|j: int| 0 <= j < k implies s[j] != 0 by {
                if j < a.len() {
                    assert(s[j] == a[j]);
                } else {
                    assert(s[j] == b[j - a.len()]);
                }
            }
            lemma_first_zero_at(s, k as int);
            assert(st.pending + s.take(k + 1int) =~= (st.pending + a) + b.take(m + 1int));
            assert(s.skip(k + 1int) =~= b.skip(m + 1int));
            let (st2, e2, d2, r2) = feed_step(st1, b);
            let (st3, fs, ds) = push_result(st2, r2);
            assert(Seq::<Frame>::empty() + (opt_seq(e2) + fs) =~= opt_seq(e2) + fs);
        },
        None => {
            assert forall|j: int| 0 <= j < s.len() implies s[j] != 0 by {
                if j < a.len() {
                    assert(s[j] == a[j]);
                } else {
                    assert(s[j] == b[j - a.len()]);
                }
            }
            lemma_first_zero_none(s);
            assert((st.pending + a) + b =~= st.pending + s);
            let (st2, e2, d2, r2) = feed_step(st1, b);
            assert(r2.len() == 0);
            assert(Seq::<Frame>::empty() + Seq::<Frame>::empty() =~= Seq::<Frame>::empty());
        },
    }
}

/// Splitting the input into chunks never changes what the decoder does: feeding `a` then
/// `b` gives the frames and drops of feeding `a + b` at once, and leaves the same state.
pub proof fn lemma_push_split(st: DecoderState, a: Seq<u8>, b: Seq<u8>)
    ensures
        split_holds(st, a, b),
    decreases a.len(),
{
    if a.len() == 0 {
        assert(a + b =~= b);
        let (st2, f2, d2) = push_result(st, b);
        assert(Seq::<Frame>::empty() + f2 =~= f2);
        return;
    }
    lemma_first_zero(a);
    match first_zero(a) {
        Some(n) => {
            lemma_push_split(fresh(), a.skip(n + 1int), b);
            lemma_push_split_delimited(st, a, b, n);
        },
        None => lemma_push_split_undelimited(st, a, b),
    }
}

/// However a stream of frame segments (such as [`encode`] writes) is cut into two chunks,
/// a fresh decoder fed the chunks one after the other hands out exactly those frames, in
/// order, drops nothing, and ends at a frame boundary.
pub proof fn lemma_stream_split(segs: Seq<Seq<u8>>, frames: Seq<Frame>, cut: int)
    requires
        segs.len() == frames.len(),
        forall|i: int| 0 <= i < segs.len() ==> carries(#[trigger] segs[i], frames[i]),
        0 <= cut <= segs.flatten().len(),
    ensures
        ({
            let s = segs.flatten();
            let (st1, f1, d1) = push_result(fresh(), s.take(cut));
            let (st2, f2, d2) = push_result(st1, s.skip(cut));
            st2 == fresh() && f1 + f2 == frames && d1 + d2 == 0
        }),
{
    let s = segs.flatten();
    lemma_stream_roundtrip(segs, frames);
    assert(s.take(cut) + s.skip(cut) =~= s);
    lemma_push_split(fresh(), s.take(cut), s.skip(cut));
}

/// After input that ends with a delimiter, the decoder is at a frame boundary, whatever
/// state it started in.
pub proof fn lemma_ends_fresh(st: DecoderState, x: Seq<u8>)
    requires
        x.len() > 0,
        x.last() == 0,
    ensures
        push_result(st, x).0 == fresh(),
    decreases x.len(),
{
    lemma_first_zero(x);
    if first_zero(x) is None {
        assert(x[x.len() - 1] == 0);
    }
    lemma_push_result_unfold(st, x);
    let (st1, e, d, rest) = feed_step(st, x);
    if rest.len() > 0 {
        assert(rest.last() == x.last());
        lemma_ends_fresh(st1, rest);
    }
}

/// Resync: a delimiter cuts the stream. Whatever came before input ending in `0x00`
/// (garbage from connecting mid-stream, half, oversized or unreadable frames, in any number),
/// what follows it is decoded exactly as by a fresh decoder, and the two parts' frames and
/// drops simply add up.
pub proof fn lemma_resync(st: DecoderState, x: Seq<u8>, y: Seq<u8>)
    requires
        x.len() > 0,
        x.last() == 0,
    ensures
        ({
            let (st1, f1, d1) = push_result(st, x);
            let (st2, f2, d2) = push_result(fresh(), y);
            push_result(st, x + y) == (st2, f1 + f2, d1 + d2)
        }),
{
    lemma_ends_fresh(st, x);
    lemma_push_split(st, x, y);
}

/// An oversized frame costs exactly one drop and hands nothing out: when the bytes of the
/// current frame overfill the decoder before its delimiter, everything up to that delimiter
/// is skipped, and what follows is decoded as by a fresh decoder.
pub proof fn lemma_oversized_dropped(st: DecoderState, run: Seq<u8>, rest: Seq<u8>)
    requires
        !st.discarding,
        st.pending.len() + run.len() + 1 > MAX_FRAME,
        forall|j: int| 0 <= j < run.len() ==> run[j] != 0,
    ensures
        ({
            let (st2, fs, ds) = push_result(fresh(), rest);
            push_result(st, run.push(0) + rest) == (st2, fs, ds + 1)
        }),
{
    let s = run.push(0) + rest;
    let n = run.len();
    assert(s[n as int] == 0);
    assert forall|j: int| 0 <= j < n implies s[j] != 0 by {
        assert(s[j] == run[j]);
    }
    lemma_first_zero_at(s, n as int);
    assert(s.skip(n + 1int) =~= rest);
    lemma_push_result_unfold(st, s);
    let (st2, fs, ds) = push_result(fresh(), rest);
    assert(Seq::<Frame>::empty() + fs =~= fs);
}

// ---------------------------------------------------------------------------------------
// Delimiters and reports
// ---------------------------------------------------------------------------------------

/// The frame delimiter.
pub open spec fn is_delimiter() -> spec_fn(u8) -> bool {
    |b: u8| b == 0
}

/// The number of `0x00` delimiters in `s`.
pub open spec fn zero_count(s: Seq<u8>) -> nat {
    s.filter(is_delimiter()).len()
}

/// Delimiters add up over concatenation.
pub proof fn lemma_zero_count_add(a: Seq<u8>, b: Seq<u8>)
    ensures
        zero_count(a + b) == zero_count(a) + zero_count(b),
{
    Seq::filter_distributes_over_add(a, b, is_delimiter());
}

/// A delimiter-free sequence holds no delimiter.
pub proof fn lemma_zero_count_free(s: Seq<u8>)
    requires
        forall|j: int| 0 <= j < s.len() ==> s[j] != 0,
    ensures
        zero_count(s) == 0,
    decreases s.len(),
{
    reveal(Seq::filter);
    if s.len() > 0 {
        lemma_zero_count_free(s.drop_last());
    }
}

/// Cut at its first delimiter, `s` holds one delimiter up to and including it.
pub proof fn lemma_zero_count_first(s: Seq<u8>, n: nat)
    requires
        first_zero(s) == Some(n),
    ensures
        zero_count(s) == 1 + zero_count(s.skip(n + 1int)),
{
    lemma_first_zero(s);
    let head = s.take(n as int);
    lemma_zero_count_free(head);
    reveal_with_fuel(Seq::filter, 2);
    assert(seq![0u8].drop_last() =~= Seq::<u8>::empty());
    assert(zero_count(seq![0u8]) == 1);
    assert(s =~= head + seq![0u8] + s.skip(n + 1int));
    lemma_zero_count_add(head, seq![0u8]);
    lemma_zero_count_add(head + seq![0u8], s.skip(n + 1int));
}

/// A frame is handed out only at a delimiter: the frames handed out for `bytes` are at most
/// its `0x00` bytes, and frames and drops together at most one more (the one oversized
/// frame whose delimiter has not come yet), whatever state the decoder was in.
pub proof fn lemma_reports_bounded_by_delimiters(st: DecoderState, bytes: Seq<u8>)
    ensures
        push_result(st, bytes).1.len() <= zero_count(bytes),
        push_result(st, bytes).1.len() + push_result(st, bytes).2 <= zero_count(bytes) + 1,
    decreases bytes.len(),
{
    if bytes.len() == 0 {
        return;
    }
    lemma_push_result_unfold(st, bytes);
    lemma_feed_step_progress(st, bytes);
    lemma_first_zero(bytes);
    let (st1, e, d, rest) = feed_step(st, bytes);
    lemma_reports_bounded_by_delimiters(st1, rest);
    match first_zero(bytes) {
        Some(n) => lemma_zero_count_first(bytes, n),
        None => lemma_zero_count_free(bytes),
    }
}

/// Every frame in `s` fits the decoder, given `pending` bytes already held: each delimited
/// frame (the first one counting `pending`) is at most [`MAX_FRAME`] bytes with its `0x00`,
/// and so is the unfinished one after the last delimiter.
pub open spec fn fits(pending: nat, s: Seq<u8>) -> bool
    decreases s.len(),
{
    match first_zero(s) {
        Some(n) => {
            proof {
                lemma_first_zero(s);
            }
            pending + n + 1 <= MAX_FRAME && fits(0, s.skip(n + 1int))
        },
        None => pending + s.len() <= MAX_FRAME,
    }
}

/// Where every frame fits, each delimiter closes exactly one frame, which is either handed
/// out or counted as dropped: frames and drops together equal the `0x00` bytes fed.
pub proof fn lemma_reports_match_delimiters(st: DecoderState, bytes: Seq<u8>)
    requires
        !st.discarding,
        fits(st.pending.len(), bytes),
    ensures
        push_result(st, bytes).1.len() + push_result(st, bytes).2 == zero_count(bytes),
        !push_result(st, bytes).0.discarding,
    decreases bytes.len(),
{
    if bytes.len() == 0 {
        reveal(Seq::filter);
        return;
    }
    lemma_push_result_unfold(st, bytes);
    lemma_feed_step_progress(st, bytes);
    lemma_first_zero(bytes);
    let (st1, e, d, rest) = feed_step(st, bytes);
    match first_zero(bytes) {
        Some(n) => {
            lemma_zero_count_first(bytes, n);
            lemma_reports_match_delimiters(st1, rest);
        },
        None => {
            lemma_zero_count_free(bytes);
            reveal(Seq::filter);
        },
    }
}

/// A stream cut after a delimiter decodes as its two parts decoded apart: the frames of
/// `x + y` are those of `x` followed by those of `y`.
pub proof fn lemma_decode_concat(x: Seq<u8>, y: Seq<u8>)
    requires
        x.len() > 0,
        x.last() == 0,
    ensures
        push_result(fresh(), x + y).1 == push_result(fresh(), x).1 + push_result(fresh(), y).1,
{
    lemma_resync(fresh(), x, y);
}

} // verus!
