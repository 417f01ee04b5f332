//! Length-prefixed binary framing.
//!
//! Wire format: a 4-byte big-endian unsigned length prefix, followed by
//! exactly that many payload bytes.
//!
//! ```text
//! +---------------------+-------------------------+
//! | length (4 bytes BE) | payload (length bytes)  |
//! +---------------------+-------------------------+
//! ```
//!
//! The streaming decoder is specified byte by byte by [`step`] and [`feed`]:
//! whatever way the input is cut into chunks, the frames that come out are
//! those that [`feed`] gives for the whole input.
use vstd::prelude::*;
use vstd::string::StringExecFns;

use crate::text::{decimal_text, push_decimal};
use crate::wire::{append_range, be32, bytes32, get_u32_be, lemma_be32_of_bytes32, put_len32_be};

verus! {

/// Maximum allowed payload length: 16 MiB.
pub const MAX_FRAME_LEN: u32 = 0x0100_0000;

#[derive(Debug, PartialEq, Eq, Structural)]
pub enum FrameError {
    /// Declared length prefix exceeded the decoder's limit.
    TooLarge(u32),
    /// The stream ended before a full frame could be read.
    UnexpectedEof,
}

/// The message that describes a framing error.
pub open spec fn frame_error_text(e: FrameError) -> Seq<char> {
    match e {
        FrameError::TooLarge(len) => "frame length "@ + decimal_text(len as nat) + " exceeds max "@
            + decimal_text(MAX_FRAME_LEN as nat),
        FrameError::UnexpectedEof => "stream ended before frame completed"@,
    }
}

impl FrameError {
    /// The message that describes this error.
    pub fn to_string(&self) -> (text: String)
        ensures
            text@ == frame_error_text(*self),
    {
        match self {
            FrameError::TooLarge(len) => {
                let mut out = String::from_str("frame length ");
                push_decimal(&mut out, *len);
                out.append(" exceeds max ");
                push_decimal(&mut out, MAX_FRAME_LEN);
                out
            },
            FrameError::UnexpectedEof => String::from_str("stream ended before frame completed"),
        }
    }
}

/// A single length-prefixed frame.
#[derive(Debug, Clone, PartialEq, Eq)]
pub struct Frame {
    pub payload: Vec<u8>,
}

impl View for Frame {
    type V = Seq<u8>;

    open spec fn view(&self) -> Seq<u8> {
        self.payload@
    }
}

/// The bytes of a frame on the wire: the low 32 bits of the payload's length,
/// big-endian, then the payload.
pub open spec fn frame_bytes(payload: Seq<u8>) -> Seq<u8> {
    bytes32(payload.len()) + payload
}

/// The payloads of a sequence of frames.
pub open spec fn payloads(frames: Seq<Frame>) -> Seq<Seq<u8>> {
    frames.map_values(|f: Frame| f.payload@)
}

impl Frame {
    pub fn new(payload: Vec<u8>) -> (frame: Frame)
        ensures
            frame.payload@ == payload@,
    {
        Frame { payload }
    }

    /// Encode this frame as `[len:4][payload]`.
    pub fn encode(&self) -> (out: Vec<u8>)
        ensures
            out@ == frame_bytes(self.payload@),
    {
        let mut out: Vec<u8> = Vec::new();
        put_len32_be(&mut out, self.payload.len());
        append_range(&mut out, self.payload.as_slice(), 0, self.payload.len());
        assert(self.payload@.subrange(0, self.payload@.len() as int) =~= self.payload@);
        out
    }
}

/// Where the decoder stands between two bytes.
pub enum Phase {
    /// Waiting for the 4-byte length prefix; holds the prefix bytes seen so far.
    Header(Seq<u8>),
    /// Length known; holds the payload bytes seen so far and how many are still due.
    Body(Seq<u8>, nat),
}

/// What a decoder is: its phase and the largest payload length it accepts.
pub struct DecoderModel {
    pub phase: Phase,
    pub max_len: nat,
}

/// The phase of a decoder that stands at a frame boundary.
pub open spec fn boundary() -> Phase {
    Phase::Header(Seq::empty())
}

/// One byte of input: the frames it completes (none or one) and the next phase,
/// or the error that a length prefix above `max_len` raises.
pub open spec fn step(max_len: nat, phase: Phase, byte: u8) -> Result<
    (Seq<Seq<u8>>, Phase),
    FrameError,
> {
    match phase {
        Phase::Header(seen) => {
            let seen = seen.push(byte);
            if seen.len() < 4 {
                Ok((seq![], Phase::Header(seen)))
            } else if be32(seen) > max_len {
                Err(FrameError::TooLarge(be32(seen) as u32))
            } else if be32(seen) == 0 {
                Ok((seq![Seq::empty()], boundary()))
            } else {
                Ok((seq![], Phase::Body(Seq::empty(), be32(seen))))
            }
        },
        Phase::Body(got, due) => {
            let got = got.push(byte);
            if due <= 1 {
                Ok((seq![got], boundary()))
            } else {
                Ok((seq![], Phase::Body(got, (due - 1) as nat)))
            }
        },
    }
}

/// The input fed byte after byte: every frame completed, in order, and the
/// final phase; or the first error.
pub open spec fn feed(max_len: nat, phase: Phase, input: Seq<u8>) -> Result<
    (Seq<Seq<u8>>, Phase),
    FrameError,
>
    decreases input.len(),
{
    if input.len() == 0 {
        Ok((seq![], phase))
    } else {
        match feed(max_len, phase, input.drop_last()) {
            Err(e) => Err(e),
            Ok((frames, mid)) => match step(max_len, mid, input.last()) {
                Err(e) => Err(e),
                Ok((more, next)) => Ok((frames + more, next)),
            },
        }
    }
}

/// Feeding `more` after an outcome `first`: frames add up; an error stays.
pub open spec fn feed_after(
    max_len: nat,
    first: Result<(Seq<Seq<u8>>, Phase), FrameError>,
    more: Seq<u8>,
) -> Result<(Seq<Seq<u8>>, Phase), FrameError> {
    match first {
        Err(e) => Err(e),
        Ok((frames, mid)) => match feed(max_len, mid, more) {
            Err(e) => Err(e),
            Ok((later, next)) => Ok((frames + later, next)),
        },
    }
}

/// The wire image of a sequence of frames, one after another.
pub open spec fn stream_bytes(payloads: Seq<Seq<u8>>) -> Seq<u8>
    decreases payloads.len(),
{
    if payloads.len() == 0 {
        Seq::empty()
    } else {
        stream_bytes(payloads.drop_last()) + frame_bytes(payloads.last())
    }
}

/// Feeding input in two pieces gives what feeding it at once gives: the
/// frames of the first piece, then those of the second, or the first error.
/// So bytes fed one at a time give exactly the frames that the whole chunk gives.
pub proof fn lemma_feed_split(max_len: nat, phase: Phase, a: Seq<u8>, b: Seq<u8>)
    ensures
        feed(max_len, phase, a + b) == feed_after(max_len, feed(max_len, phase, a), b),
    decreases b.len(),
{
    if b.len() == 0 {
        assert(a + b =~= a);
        match feed(max_len, phase, a) {
            Err(e) => {},
            Ok((frames, mid)) => {
                assert(frames + seq![] =~= frames);
            },
        }
    } else {
        lemma_feed_split(max_len, phase, a, b.drop_last());
        assert((a + b).drop_last() =~= a + b.drop_last());
        assert((a + b).last() == b.last());
        match feed(max_len, phase, a) {
            Err(e) => {},
            Ok((frames, mid)) => {
                match feed(max_len, mid, b.drop_last()) {
                    Err(e) => {},
                    Ok((later, next)) => {
                        match step(max_len, next, b.last()) {
                            Err(e) => {},
                            Ok((more, last)) => {
                                assert(frames + later + more =~= frames + (later + more));
                            },
                        }
                    },
                }
            },
        }
    }
}

/// An error stops the decoder: nothing fed after it changes the outcome.
pub proof fn lemma_feed_error_sticks(max_len: nat, phase: Phase, a: Seq<u8>, b: Seq<u8>)
    requires
        feed(max_len, phase, a) is Err,
    ensures
        feed(max_len, phase, a + b) == feed(max_len, phase, a),
{
    lemma_feed_split(max_len, phase, a, b);
}

/// Header bytes that do not complete the prefix are only collected.
proof fn lemma_feed_header_partial(max_len: nat, seen: Seq<u8>, c: Seq<u8>)
    requires
        seen.len() + c.len() < 4,
    ensures
        feed(max_len, Phase::Header(seen), c) == Ok::<(Seq<Seq<u8>>, Phase), FrameError>(
            (seq![], Phase::Header(seen + c)),
        ),
    decreases c.len(),
{
    if c.len() == 0 {
        assert(seen + c =~= seen);
    } else {
        lemma_feed_header_partial(max_len, seen, c.drop_last());
        assert((seen + c.drop_last()).push(c.last()) =~= seen + c);
        let e: Seq<Seq<u8>> = seq![];
        assert(e + e =~= e);
    }
}

/// Payload bytes that do not complete the frame are only collected.
proof fn lemma_feed_body_partial(max_len: nat, got: Seq<u8>, due: nat, c: Seq<u8>)
    requires
        c.len() < due,
    ensures
        feed(max_len, Phase::Body(got, due), c) == Ok::<(Seq<Seq<u8>>, Phase), FrameError>(
            (seq![], Phase::Body(got + c, (due - c.len()) as nat)),
        ),
    decreases c.len(),
{
    if c.len() == 0 {
        assert(got + c =~= got);
    } else {
        lemma_feed_body_partial(max_len, got, due, c.drop_last());
        assert((got + c.drop_last()).push(c.last()) =~= got + c);
        let e: Seq<Seq<u8>> = seq![];
        assert(e + e =~= e);
    }
}

/// The whole header, fed from a frame boundary.
proof fn lemma_feed_header_full(max_len: nat, seen: Seq<u8>, c: Seq<u8>)
    requires
        seen.len() < 4,
        seen.len() + c.len() == 4,
    ensures
        feed(max_len, Phase::Header(seen), c) == step(
            max_len,
            Phase::Header(seen + c.drop_last()),
            c.last(),
        ),
{
    lemma_feed_header_partial(max_len, seen, c.drop_last());
    let e: Seq<Seq<u8>> = seq![];
    match step(max_len, Phase::Header(seen + c.drop_last()), c.last()) {
        Err(_) => {},
        Ok((more, next)) => {
            assert(e + more =~= more);
        },
    }
}

/// The rest of a payload, fed in the body phase.
proof fn lemma_feed_body_full(max_len: nat, got: Seq<u8>, due: nat, c: Seq<u8>)
    requires
        due > 0,
        c.len() == due,
    ensures
        feed(max_len, Phase::Body(got, due), c) == Ok::<(Seq<Seq<u8>>, Phase), FrameError>(
            (seq![got + c], boundary()),
        ),
{
    lemma_feed_body_partial(max_len, got, due, c.drop_last());
    assert((got + c.drop_last()).push(c.last()) =~= got + c);
    let e: Seq<Seq<u8>> = seq![];
    assert(e + seq![got + c] =~= seq![got + c]);
}

/// A frame whose payload fits the limit, fed at a frame boundary, comes out
/// whole, and the decoder is back at a boundary.
pub proof fn lemma_frame_roundtrip(max_len: nat, payload: Seq<u8>)
    requires
        payload.len() <= max_len,
        payload.len() <= u32::MAX,
    ensures
        feed(max_len, boundary(), frame_bytes(payload)) == Ok::<(Seq<Seq<u8>>, Phase), FrameError>(
            (seq![payload], boundary()),
        ),
{
    let header = bytes32(payload.len());
    lemma_be32_of_bytes32(payload.len());
    let empty: Seq<u8> = Seq::empty();
    lemma_feed_header_full(max_len, empty, header);
    assert(empty + header.drop_last() =~= header.drop_last());
    assert(header.drop_last().push(header.last()) =~= header);
    lemma_feed_split(max_len, boundary(), header, payload);
    if payload.len() == 0 {
        assert(payload =~= empty);
        assert(header + payload =~= header);
    } else {
        lemma_feed_body_full(max_len, empty, payload.len(), payload);
        assert(empty + payload =~= payload);
        let e: Seq<Seq<u8>> = seq![];
        assert(e + seq![payload] =~= seq![payload]);
    }
}

/// Any proper prefix of a frame that fits the limit, fed at a frame boundary,
/// completes no frame and raises no error.
pub proof fn lemma_frame_prefix_incomplete(max_len: nat, payload: Seq<u8>, k: int)
    requires
        payload.len() <= max_len,
        payload.len() <= u32::MAX,
        0 <= k < frame_bytes(payload).len(),
    ensures
        feed(max_len, boundary(), frame_bytes(payload).take(k)) is Ok,
        feed(max_len, boundary(), frame_bytes(payload).take(k))->Ok_0.0.len() == 0,
{
    let header = bytes32(payload.len());
    let wire = frame_bytes(payload);
    let empty: Seq<u8> = Seq::empty();
    if k < 4 {
        lemma_feed_header_partial(max_len, empty, wire.take(k));
        assert(empty + wire.take(k) =~= wire.take(k));
    } else {
        lemma_be32_of_bytes32(payload.len());
        lemma_feed_header_full(max_len, empty, header);
        assert(empty + header.drop_last() =~= header.drop_last());
        assert(header.drop_last().push(header.last()) =~= header);
        let part = payload.take(k - 4);
        assert(wire.take(k) =~= header + part);
        lemma_feed_split(max_len, boundary(), header, part);
        lemma_feed_body_partial(max_len, empty, payload.len(), part);
        let e: Seq<Seq<u8>> = seq![];
        assert(e + e =~= e);
    }
}

/// Frames whose payloads fit the limit, sent back to back, come out in order,
/// however many there are.
pub proof fn lemma_stream_roundtrip(max_len: nat, frames: Seq<Seq<u8>>)
    requires
        forall|i: int|
            0 <= i < frames.len() ==> #[trigger] frames[i].len() <= max_len && frames[i].len()
                <= u32::MAX,
    ensures
        feed(max_len, boundary(), stream_bytes(frames)) == Ok::<
            (Seq<Seq<u8>>, Phase),
            FrameError,
        >((frames, boundary())),
    decreases frames.len(),
{
    if frames.len() == 0 {
        assert(frames =~= Seq::<Seq<u8>>::empty());
    } else {
        let init = frames.drop_last();
        assert forall|i: int| 0 <= i < init.len() implies #[trigger] init[i].len() <= max_len
            && init[i].len() <= u32::MAX by {
            assert(init[i] == frames[i]);
        }
        lemma_stream_roundtrip(max_len, init);
        lemma_feed_split(max_len, boundary(), stream_bytes(init), frame_bytes(frames.last()));
        assert(frames[frames.len() - 1].len() <= max_len);
        lemma_frame_roundtrip(max_len, frames.last());
        assert(init + seq![frames.last()] =~= frames);

    }
}

/// A length prefix above the limit, fed at a frame boundary, is an error
/// whatever follows it.
pub proof fn lemma_oversize_rejected(max_len: nat, len: nat, rest: Seq<u8>)
    requires
        max_len < len <= u32::MAX,
    ensures
        feed(max_len, boundary(), bytes32(len) + rest) == Err::<(Seq<Seq<u8>>, Phase), FrameError>(
            FrameError::TooLarge(len as u32),
        ),
{
    let header = bytes32(len);
    lemma_be32_of_bytes32(len);
    let empty: Seq<u8> = Seq::empty();
    lemma_feed_header_full(max_len, empty, header);
    assert(empty + header.drop_last() =~= header.drop_last());
    assert(header.drop_last().push(header.last()) =~= header);
    lemma_feed_error_sticks(max_len, boundary(), header, rest);
}

#[derive(Debug)]
enum State {
    /// Waiting for the 4-byte length prefix; holds bytes seen so far.
    ReadingLen(Vec<u8>),
    /// Length known, waiting for `remaining` more payload bytes.
    ReadingPayload { buf: Vec<u8>, remaining: u32 },
}

impl State {
    spec fn phase(&self) -> Phase {
        match self {
            State::ReadingLen(buf) => Phase::Header(buf@),
            State::ReadingPayload { buf, remaining } => Phase::Body(buf@, *remaining as nat),
        }
    }

    spec fn wf(&self) -> bool {
        match self {
            State::ReadingLen(buf) => buf@.len() < 4,
            State::ReadingPayload { buf, remaining } => *remaining > 0,
        }
    }
}

/// Feed bytes in one at a time or in arbitrary chunks; `push` yields a
/// complete `Frame` whenever one finishes reassembling, regardless of how
/// the input bytes were split across calls.
#[derive(Debug)]
pub struct Decoder {
    state: State,
    max_len: u32,
}

impl View for Decoder {
    type V = DecoderModel;

    closed spec fn view(&self) -> DecoderModel {
        DecoderModel { phase: self.state.phase(), max_len: self.max_len as nat }
    }
}

impl Default for Decoder {
    fn default() -> (d: Self)
        ensures
            d@.phase == boundary(),
            d@.max_len == MAX_FRAME_LEN,
    {
        Self::new()
    }
}

impl Decoder {
    #[verifier::type_invariant]
    spec fn inv(self) -> bool {
        self.state.wf()
    }

    pub fn new() -> (d: Self)
        ensures
            d@.phase == boundary(),
            d@.max_len == MAX_FRAME_LEN,
    {
        Decoder { state: State::ReadingLen(Vec::new()), max_len: MAX_FRAME_LEN }
    }

    pub fn with_max_len(max_len: u32) -> (d: Self)
        ensures
            d@.phase == boundary(),
            d@.max_len == max_len,
    {
        Decoder { state: State::ReadingLen(Vec::new()), max_len }
    }

    /// Feed a chunk of bytes into the decoder. Returns every frame that
    /// completed as a result of this chunk, in order. On an oversize length
    /// prefix the decoder drops what it held and stands at a frame boundary,
    /// so it can be used again.
    #[verifier::rlimit(40)]
    pub fn push(&mut self, input: &[u8]) -> (res: Result<Vec<Frame>, FrameError>)
        ensures
            final(self)@.max_len == old(self)@.max_len,
            match feed(old(self)@.max_len, old(self)@.phase, input@) {
                Ok((frames, phase)) => {
                    &&& res is Ok
                    &&& payloads(res->Ok_0@) == frames
                    &&& final(self)@.phase == phase
                },
                Err(e) => {
                    &&& res == Err::<Vec<Frame>, FrameError>(e)
                    &&& final(self)@.phase == boundary()
                },
            },
    {
        proof {
            use_type_invariant(&*self);
        }
        let ghost max = self.max_len as nat;
        let ghost start = self.state.phase();
        let mut state = State::ReadingLen(Vec::new());
        std::mem::swap(&mut state, &mut self.state);
        let mut done: Vec<Frame> = Vec::new();
        let mut pos: usize = 0;
        assert(input@.take(0) =~= Seq::<u8>::empty());
        assert(payloads(done@) =~= Seq::<Seq<u8>>::empty());
        while pos < input.len()
            invariant
                pos <= input@.len(),
                state.wf(),
                self.max_len == max,
                max == old(self).max_len as nat,
                start == old(self).state.phase(),
                self.state.phase() == boundary(),
                feed(max, start, input@.take(pos as int)) == Ok::<
                    (Seq<Seq<u8>>, Phase),
                    FrameError,
                >((payloads(done@), state.phase())),
            decreases input@.len() - pos,
        {
            let ghost before = input@.take(pos as int);
            let ghost frames_before = payloads(done@);
            match state {
                State::ReadingLen(mut buf) => {
                    let need = 4 - buf.len();
                    let avail = input.len() - pos;
                    let take = if need < avail {
                        need
                    } else {
                        avail
                    };
                    let ghost seen = buf@;
                    let ghost chunk = input@.subrange(pos as int, (pos + take) as int);
                    append_range(&mut buf, input, pos, pos + take);
                    pos = pos + take;
                    assert(input@.take(pos as int) =~= before + chunk);
                    proof {
                        lemma_feed_split(max, start, before, chunk);
                    }
                    if buf.len() == 4 {
                        proof {
                            lemma_feed_header_full(max, seen, chunk);
                            assert((seen + chunk.drop_last()).push(chunk.last()) =~= buf@);
                            assert(buf@.subrange(0, 4) =~= buf@);
                        }
                        let len = get_u32_be(buf.as_slice(), 0);
                        if len > self.max_len {
                            proof {
                                lemma_feed_error_sticks(
                                    max,
                                    start,
                                    input@.take(pos as int),
                                    input@.skip(pos as int),
                                );
                                assert(input@.take(pos as int) + input@.skip(pos as int)
                                    =~= input@);
                            }
                            return Err(FrameError::TooLarge(len));
                        }
                        if len == 0 {
                            let ghost old_done = done@;
                            done.push(Frame::new(Vec::new()));
                            assert(payloads(done@) =~= payloads(old_done) + seq![Seq::<u8>::empty()]);
                            state = State::ReadingLen(Vec::new());
                        } else {
                            let ghost old_done = done@;
                            state = State::ReadingPayload { buf: Vec::new(), remaining: len };
                            assert(payloads(old_done) + seq![] =~= payloads(old_done));
                        }
                    } else {
                        proof {
                            lemma_feed_header_partial(max, seen, chunk);
                            assert(frames_before + seq![] =~= frames_before);
                        }
                        state = State::ReadingLen(buf);
                    }
                },
                State::ReadingPayload { mut buf, remaining } => {
                    let avail = input.len() - pos;
                    let take = if (remaining as usize) < avail {
                        remaining as usize
                    } else {
                        avail
                    };
                    let ghost got = buf@;
                    let ghost chunk = input@.subrange(pos as int, (pos + take) as int);
                    append_range(&mut buf, input, pos, pos + take);
                    pos = pos + take;
                    assert(input@.take(pos as int) =~= before + chunk);
                    proof {
                        lemma_feed_split(max, start, before, chunk);
                    }
                    let left = remaining - take as u32;
                    if left == 0 {
                        proof {
                            lemma_feed_body_full(max, got, remaining as nat, chunk);
                        }
                        let ghost old_done = done@;
                        done.push(Frame::new(buf));
                        assert(payloads(done@) =~= payloads(old_done) + seq![got + chunk]);
                        state = State::ReadingLen(Vec::new());
                    } else {
                        proof {
                            lemma_feed_body_partial(max, got, remaining as nat, chunk);
                            assert(frames_before + seq![] =~= frames_before);
                        }
                        state = State::ReadingPayload { buf, remaining: left };
                    }
                },
            }
        }
        assert(input@.take(pos as int) =~= input@);
        self.state = state;
        Ok(done)
    }
}

} // verus!
