//! Byte-stuffing frame codec.
//!
//! A frame on the wire is a delimiter byte, the stuffed payload, and a
//! closing delimiter.  Inside the payload, a byte equal to the delimiter or
//! to the escape byte travels as the escape byte followed by the literal
//! with one bit flipped.  The decoder consumes the raw stream in whatever
//! chunks the link hands over: a chunk may start mid-frame, end mid-escape,
//! or hold several delimiters, so the decoder carries its position in the
//! stream from one read to the next.

use vstd::prelude::*;

verus! {

/// Byte that opens and closes every frame.
pub const FRAME_BOUNDARY: u8 = 0x7e;

/// Byte announcing that the following byte is a masked literal.
pub const ESCAPE_BYTE: u8 = 0x7d;

/// Mask flipped on a literal that travels behind an escape byte.
pub const FLIP_MASK: u8 = 0x20;

/// Wire form of one payload byte: the delimiter and the escape byte travel
/// as a two-byte escape sequence, every other byte travels as itself.
pub open spec fn escaped(b: u8) -> Seq<u8> {
    if b == FRAME_BOUNDARY || b == ESCAPE_BYTE {
        seq![ESCAPE_BYTE, b ^ FLIP_MASK]
    } else {
        seq![b]
    }
}

/// Wire form of a whole payload, without the surrounding delimiters.
pub open spec fn stuffed(payload: Seq<u8>) -> Seq<u8>
    decreases payload.len(),
{
    if payload.len() == 0 {
        Seq::empty()
    } else {
        escaped(payload[0]) + stuffed(payload.skip(1))
    }
}

/// A complete frame: delimiter, stuffed payload, closing delimiter.
pub open spec fn framed(payload: Seq<u8>) -> Seq<u8> {
    seq![FRAME_BOUNDARY] + stuffed(payload) + seq![FRAME_BOUNDARY]
}

/// Decoder position in the raw byte stream, carried across reads.
#[derive(Clone, Copy, PartialEq, Eq, Structural, Debug)]
pub enum DecodeState {
    /// No opening delimiter seen yet; incoming bytes are noise.
    Idle,
    /// Inside a frame; incoming bytes are payload.
    InFrame,
    /// Inside a frame, directly behind an unconsumed escape byte.
    Escaping,
}

/// One byte of decoding: the state after the byte, the payload bytes the
/// byte yields, and whether it closed a frame.
pub open spec fn decode_step(st: DecodeState, b: u8) -> (DecodeState, Seq<u8>, bool) {
    match st {
        DecodeState::Idle => {
            if b == FRAME_BOUNDARY {
                (DecodeState::InFrame, Seq::empty(), false)
            } else {
                (DecodeState::Idle, Seq::empty(), false)
            }
        }
        DecodeState::InFrame => {
            if b == FRAME_BOUNDARY {
                (DecodeState::Idle, Seq::empty(), true)
            } else if b == ESCAPE_BYTE {
                (DecodeState::Escaping, Seq::empty(), false)
            } else {
                (DecodeState::InFrame, seq![b], false)
            }
        }
        DecodeState::Escaping => (DecodeState::InFrame, seq![b ^ FLIP_MASK], false),
    }
}

/// Decoding of one chunk: `decode_step` over its bytes, stopping at the
/// first closing delimiter.  Bytes behind a closing delimiter are dropped
/// with the rest of the chunk, matching the behaviour of the link this codec
/// speaks to; a frame is expected to end where the chunk does.
pub open spec fn decode_run(st: DecodeState, chunk: Seq<u8>) -> (DecodeState, Seq<u8>, bool)
    decreases chunk.len(),
{
    if chunk.len() == 0 {
        (st, Seq::empty(), false)
    } else {
        let first = decode_step(st, chunk[0]);
        if first.2 {
            (first.0, first.1, true)
        } else {
            let rest = decode_run(first.0, chunk.skip(1));
            (rest.0, first.1 + rest.1, rest.2)
        }
    }
}

/// Frame codec for one connection.  Stuffs outgoing payloads into frames and
/// de-stuffs the arbitrarily chunked incoming stream, keeping the decoder
/// state between independent reads.
#[derive(Clone, Copy)]
pub struct Hdlc {
    state: DecodeState,
}

impl View for Hdlc {
    type V = DecodeState;

    closed spec fn view(&self) -> DecodeState {
        self.state
    }
}

impl Hdlc {
    /// A fresh codec, idle until an opening delimiter arrives.
    pub fn new() -> (codec: Hdlc)
        ensures
            codec@ == DecodeState::Idle,
    {
        Hdlc { state: DecodeState::Idle }
    }

    /// Stuffs `payload` into one complete frame.  The empty payload still
    /// yields the two delimiter bytes.
    pub fn encode(&self, payload: &[u8]) -> (frame: Vec<u8>)
        ensures
            frame@ == framed(payload@),
    {
        let mut frame: Vec<u8> = Vec::new();
        frame.push(FRAME_BOUNDARY);
        let mut i: usize = 0;
        while i < payload.len()
            invariant
                i <= payload@.len(),
                frame@ == seq![FRAME_BOUNDARY] + stuffed(payload@.take(i as int)),
            decreases payload@.len() - i,
        {
            let b = payload[i];
            if b == FRAME_BOUNDARY || b == ESCAPE_BYTE {
                frame.push(ESCAPE_BYTE);
                frame.push(b ^ FLIP_MASK);
            } else {
                frame.push(b);
            }
            proof {
                lemma_stuffed_snoc(payload@.take(i as int), payload@[i as int]);
                assert(payload@.take(i + 1 as int) =~= payload@.take(i as int).push(
                    payload@[i as int],
                ));
            }
            i = i + 1;
        }
        proof {
            assert(payload@.take(payload@.len() as int) =~= payload@);
        }
        frame.push(FRAME_BOUNDARY);
        frame
    }

    /// De-stuffs one raw chunk, the first `chunk_len` bytes of `buf`, in
    /// place: on return the payload bytes stand at the front of `buf` and
    /// their count is returned.  A closing delimiter ends decoding for this
    /// call, dropping the rest of the chunk; every other byte only moves the
    /// carried state, so a frame may arrive split over many calls.
    pub fn decode(&mut self, buf: &mut Vec<u8>, chunk_len: usize) -> (count: usize)
        requires
            chunk_len <= old(buf).len(),
        ensures
            ({
                let r = decode_run(old(self)@, old(buf)@.take(chunk_len as int));
                &&& final(self)@ == r.0
                &&& count == r.1.len()
                &&& count <= chunk_len
                &&& final(buf)@.len() == old(buf)@.len()
                &&& final(buf)@.take(count as int) == r.1
            }),
    {
        let ghost st0 = self.state;
        let ghost buf0 = buf@;
        let ghost chunk = buf@.take(chunk_len as int);
        let mut st = self.state;
        let mut i: usize = 0;
        let mut w: usize = 0;
        let mut finished = false;
        while i < chunk_len && !finished
            invariant
                w <= i && i <= chunk_len && chunk_len <= buf0.len(),
                buf@.len() == buf0.len(),
                forall|j: int| i <= j < buf0.len() ==> buf@[j] == buf0[j],
                chunk == buf0.take(chunk_len as int),
                !finished ==> ({
                    let r = decode_run(st0, chunk.take(i as int));
                    &&& !r.2
                    &&& st == r.0
                    &&& w == r.1.len()
                    &&& buf@.take(w as int) == r.1
                }),
                finished ==> ({
                    let r = decode_run(st0, chunk);
                    &&& r.2
                    &&& st == r.0
                    &&& w == r.1.len()
                    &&& buf@.take(w as int) == r.1
                }),
            decreases chunk_len - i,
        {
            let b = buf[i];
            assert(b == chunk[i as int]);
            match st {
                DecodeState::Idle => {
                    if b == FRAME_BOUNDARY {
                        st = DecodeState::InFrame;
                    }
                }
                DecodeState::InFrame => {
                    if b == FRAME_BOUNDARY {
                        st = DecodeState::Idle;
                        finished = true;
                    } else if b == ESCAPE_BYTE {
                        st = DecodeState::Escaping;
                    } else {
                        buf.set(w, b);
                        w = w + 1;
                    }
                }
                DecodeState::Escaping => {
                    buf.set(w, b ^ FLIP_MASK);
                    st = DecodeState::InFrame;
                    w = w + 1;
                }
            }
            proof {
                lemma_decode_run_snoc(st0, chunk.take(i as int), chunk[i as int]);
                assert(chunk.take((i + 1) as int) =~= chunk.take(i as int).push(
                    chunk[i as int],
                ));
                let r_next = decode_run(st0, chunk.take((i + 1) as int));
                assert(buf@.take(w as int) =~= r_next.1);
                if finished {
                    assert(chunk =~= chunk.take((i + 1) as int) + chunk.skip((i + 1) as int));
                    lemma_decode_run_finished(
                        st0,
                        chunk.take((i + 1) as int),
                        chunk.skip((i + 1) as int),
                    );
                }
            }
            i = i + 1;
        }
        proof {
            if !finished {
                assert(chunk.take(i as int) =~= chunk);
            }
        }
        self.state = st;
        w
    }
}

/// Stuffing one more byte appends its wire form.
pub proof fn lemma_stuffed_snoc(s: Seq<u8>, b: u8)
    ensures
        stuffed(s.push(b)) == stuffed(s) + escaped(b),
    decreases s.len(),
{
    if s.len() == 0 {
        assert(s.push(b)[0] == b);
        assert(s.push(b).skip(1) =~= Seq::<u8>::empty());
        assert(stuffed(s.push(b)) == escaped(b) + stuffed(Seq::<u8>::empty()));
        assert(stuffed(s.push(b)) =~= stuffed(s) + escaped(b));
    } else {
        assert(s.push(b).skip(1) =~= s.skip(1).push(b));
        lemma_stuffed_snoc(s.skip(1), b);
        assert(stuffed(s.push(b)) =~= stuffed(s) + escaped(b));
    }
}

/// Decoding one more byte after an unfinished run appends that byte's step;
/// after a finished run the byte is dropped with the rest of the chunk.
pub proof fn lemma_decode_run_snoc(st: DecodeState, s: Seq<u8>, b: u8)
    ensures
        decode_run(st, s).2 ==> decode_run(st, s.push(b)) == decode_run(st, s),
        !decode_run(st, s).2 ==> decode_run(st, s.push(b)).0 == decode_step(
            decode_run(st, s).0,
            b,
        ).0,
        !decode_run(st, s).2 ==> decode_run(st, s.push(b)).1 == decode_run(st, s).1
            + decode_step(decode_run(st, s).0, b).1,
        !decode_run(st, s).2 ==> decode_run(st, s.push(b)).2 == decode_step(
            decode_run(st, s).0,
            b,
        ).2,
    decreases s.len(),
{
    reveal_with_fuel(decode_run, 3);
    if s.len() == 0 {
        assert(s.push(b)[0] == b);
        assert(s.push(b).skip(1) =~= Seq::<u8>::empty());
        let stp = decode_step(st, b);
        assert(Seq::<u8>::empty() + stp.1 =~= stp.1);
        assert(stp.1 + Seq::<u8>::empty() =~= stp.1);
    } else {
        let first = decode_step(st, s[0]);
        assert(s.push(b)[0] == s[0]);
        assert(s.push(b).skip(1) =~= s.skip(1).push(b));
        if !first.2 {
            lemma_decode_run_snoc(first.0, s.skip(1), b);
            if !decode_run(st, s).2 {
                let rr = decode_run(first.0, s.skip(1));
                let stp = decode_step(rr.0, b);
                assert(first.1 + (rr.1 + stp.1) =~= (first.1 + rr.1) + stp.1);
            }
        }
    }
}

/// An unfinished run continues seamlessly into the next bytes: decoding a
/// concatenation equals decoding the parts in succession.
pub proof fn lemma_decode_run_append(st: DecodeState, a: Seq<u8>, b: Seq<u8>)
    requires
        !decode_run(st, a).2,
    ensures
        decode_run(st, a + b).0 == decode_run(decode_run(st, a).0, b).0,
        decode_run(st, a + b).1 == decode_run(st, a).1 + decode_run(decode_run(st, a).0, b).1,
        decode_run(st, a + b).2 == decode_run(decode_run(st, a).0, b).2,
    decreases a.len(),
{
    if a.len() == 0 {
        assert(a + b =~= b);
        assert(decode_run(st, a).1 + decode_run(st, b).1 =~= decode_run(st, b).1);
    } else {
        let first = decode_step(st, a[0]);
        assert((a + b)[0] == a[0]);
        assert((a + b).skip(1) =~= a.skip(1) + b);
        lemma_decode_run_append(first.0, a.skip(1), b);
        let rr = decode_run(first.0, a.skip(1));
        let rb = decode_run(rr.0, b);
        assert(first.1 + (rr.1 + rb.1) =~= (first.1 + rr.1) + rb.1);
    }
}

/// A finished run drops whatever follows in the same chunk.
pub proof fn lemma_decode_run_finished(st: DecodeState, a: Seq<u8>, b: Seq<u8>)
    requires
        decode_run(st, a).2,
    ensures
        decode_run(st, a + b) == decode_run(st, a),
    decreases a.len(),
{
    let first = decode_step(st, a[0]);
    assert((a + b)[0] == a[0]);
    if !first.2 {
        assert((a + b).skip(1) =~= a.skip(1) + b);
        lemma_decode_run_finished(first.0, a.skip(1), b);
    }
}

/// Inside a frame, a stuffed payload decodes back to the payload, and
/// decoding carries on into whatever follows it.
pub proof fn lemma_decode_stuffed(p: Seq<u8>, rest: Seq<u8>)
    ensures
        decode_run(DecodeState::InFrame, stuffed(p) + rest).0 == decode_run(
            DecodeState::InFrame,
            rest,
        ).0,
        decode_run(DecodeState::InFrame, stuffed(p) + rest).1 == p + decode_run(
            DecodeState::InFrame,
            rest,
        ).1,
        decode_run(DecodeState::InFrame, stuffed(p) + rest).2 == decode_run(
            DecodeState::InFrame,
            rest,
        ).2,
    decreases p.len(),
{
    let r = decode_run(DecodeState::InFrame, rest);
    if p.len() == 0 {
        assert(stuffed(p) + rest =~= rest);
        assert(p + r.1 =~= r.1);
    } else {
        let b = p[0];
        let tail = p.skip(1);
        let s = stuffed(p) + rest;
        lemma_decode_stuffed(tail, rest);
        let rt = decode_run(DecodeState::InFrame, stuffed(tail) + rest);
        if b == FRAME_BOUNDARY || b == ESCAPE_BYTE {
            let m = b ^ FLIP_MASK;
            assert((m ^ FLIP_MASK) == b) by (bit_vector)
                requires
                    m == b ^ 0x20u8,
            ;
            assert(s[0] == ESCAPE_BYTE);
            let s1 = seq![m] + (stuffed(tail) + rest);
            assert(s.skip(1) =~= s1);
            assert(s1[0] == m);
            assert(s1.skip(1) =~= stuffed(tail) + rest);
            assert(decode_run(DecodeState::Escaping, s1) == (rt.0, seq![b] + rt.1, rt.2));
            assert(decode_run(DecodeState::InFrame, s).1 =~= p + r.1);
        } else {
            assert(s[0] == b);
            assert(s.skip(1) =~= stuffed(tail) + rest);
            assert(decode_run(DecodeState::InFrame, s) == (rt.0, seq![b] + rt.1, rt.2));
            assert(decode_run(DecodeState::InFrame, s).1 =~= p + r.1);
        }
    }
}

/// Round trip: a whole frame, decoded from idle as one chunk, yields exactly
/// the payload it was built from, closes, and leaves the decoder idle.
pub proof fn lemma_frame_round_trip(p: Seq<u8>)
    ensures
        decode_run(DecodeState::Idle, framed(p)).0 == DecodeState::Idle,
        decode_run(DecodeState::Idle, framed(p)).1 == p,
        decode_run(DecodeState::Idle, framed(p)).2,
{
    let f = framed(p);
    let closing = seq![FRAME_BOUNDARY];
    assert(f[0] == FRAME_BOUNDARY);
    assert(f.skip(1) =~= stuffed(p) + closing);
    lemma_decode_stuffed(p, closing);
    assert(closing[0] == FRAME_BOUNDARY);
    assert(decode_run(DecodeState::InFrame, closing).2);
    assert(decode_run(DecodeState::Idle, f).1 =~= p);
}

/// No prefix of a stuffed payload contains a closing delimiter.
proof fn lemma_stuffed_prefix_no_finish(p: Seq<u8>, s: Seq<u8>)
    requires
        s.is_prefix_of(stuffed(p)),
    ensures
        !decode_run(DecodeState::InFrame, s).2,
    decreases p.len(),
{
    reveal_with_fuel(decode_run, 3);
    if s.len() > 0 {
        let b = p[0];
        let tail = p.skip(1);
        if b == FRAME_BOUNDARY || b == ESCAPE_BYTE {
            let m = b ^ FLIP_MASK;
            assert(s[0] == ESCAPE_BYTE);
            if s.len() == 1 {
                assert(s.skip(1) =~= Seq::<u8>::empty());
            } else {
                assert(s[1] == m);
                assert(s.skip(1)[0] == m);
                assert(s.skip(1).skip(1) =~= s.skip(2));
                assert(s.skip(2).is_prefix_of(stuffed(tail))) by {
                    assert(s.skip(2) =~= stuffed(tail).subrange(0, s.len() - 2));
                }
                lemma_stuffed_prefix_no_finish(tail, s.skip(2));
            }
        } else {
            assert(s[0] == b);
            assert(s.skip(1).is_prefix_of(stuffed(tail))) by {
                assert(s.skip(1) =~= stuffed(tail).subrange(0, s.len() - 1));
            }
            lemma_stuffed_prefix_no_finish(tail, s.skip(1));
        }
    }
}

/// Chunking invariance: splitting one encoded frame anywhere and decoding
/// the two chunks in successive calls yields the same payload as one call on
/// the unsplit frame.
pub proof fn lemma_chunked_frame_round_trip(p: Seq<u8>, a: Seq<u8>, b: Seq<u8>)
    requires
        a + b == framed(p),
    ensures
        decode_run(DecodeState::Idle, a).1 + decode_run(
            decode_run(DecodeState::Idle, a).0,
            b,
        ).1 == p,
{
    lemma_frame_round_trip(p);
    if b.len() == 0 {
        assert(a =~= framed(p));
        assert(decode_run(DecodeState::Idle, a).1 + decode_run(
            decode_run(DecodeState::Idle, a).0,
            b,
        ).1 =~= p);
    } else {
        assert(!decode_run(DecodeState::Idle, a).2) by {
            if a.len() > 0 {
                assert(a[0] == framed(p)[0]);
                assert(a.skip(1).is_prefix_of(stuffed(p))) by {
                    assert forall|j: int| 0 <= j < a.len() - 1 implies a.skip(1)[j] == stuffed(
                        p,
                    )[j] by {
                        assert(a[j + 1] == (a + b)[j + 1]);
                        assert(framed(p)[j + 1] == stuffed(p)[j]);
                    }
                    assert(a.skip(1) =~= stuffed(p).subrange(0, a.len() - 1));
                }
                lemma_stuffed_prefix_no_finish(p, a.skip(1));
            }
        }
        lemma_decode_run_append(DecodeState::Idle, a, b);
    }
}

} // verus!
