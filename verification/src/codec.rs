//! The wire format: each message travels as a 4-byte big-endian length
//! prefix immediately followed by that many payload bytes.  A streaming
//! decoder consumes a byte stream that may arrive split across arbitrarily
//! many partial reads and yields the framed payloads in order.

use vstd::prelude::*;

verus! {

/// Largest payload accepted by the framing layer.
pub const MAX_MSG_SIZE: usize = 32768;

/// Size of the length prefix on the wire.
pub const MSG_HDR_SIZE: usize = 4;

/// Errors of the framing layer.
#[derive(Debug)]
pub enum NetError {
    /// An I/O failure, described by the reporting layer.
    Io(String),
    /// A frame declared a length larger than the configured maximum.
    FrameTooBig(usize),
}

/// The unsigned 32-bit value stored big-endian in the first four bytes.
pub open spec fn spec_u32_of_be(s: Seq<u8>) -> u32
    recommends
        s.len() >= 4,
{
    (((s[0] as u32) << 24) | ((s[1] as u32) << 16) | ((s[2] as u32) << 8) | (s[3] as u32)) as u32
}

/// The four big-endian bytes of an unsigned 32-bit value.
pub open spec fn spec_be_bytes(x: u32) -> Seq<u8> {
    seq![
        ((x >> 24) & 0xff) as u8,
        ((x >> 16) & 0xff) as u8,
        ((x >> 8) & 0xff) as u8,
        (x & 0xff) as u8,
    ]
}

/// A payload as it appears on the wire: length prefix, then the bytes.
pub open spec fn frame_of(payload: Seq<u8>) -> Seq<u8>
    recommends
        payload.len() <= u32::MAX,
{
    spec_be_bytes(payload.len() as u32) + payload
}

/// What one decoding step makes of the front of a byte stream.
pub enum ParseOutcome {
    /// Not enough bytes buffered for a header or for the declared body.
    Incomplete,
    /// The declared length exceeds the configured maximum.
    TooBig,
    /// A whole frame: its payload, and the stream that follows it.
    Parsed(Seq<u8>, Seq<u8>),
}

/// One decoding step: a 4-byte big-endian length, then that many bytes.
pub open spec fn parse_one(stream: Seq<u8>, max: nat) -> ParseOutcome {
    if stream.len() < 4 {
        ParseOutcome::Incomplete
    } else {
        let n = spec_u32_of_be(stream) as nat;
        if n > max {
            ParseOutcome::TooBig
        } else if stream.len() < 4 + n {
            ParseOutcome::Incomplete
        } else {
            ParseOutcome::Parsed(stream.subrange(4, 4 + n as int), stream.skip(4 + n as int))
        }
    }
}

/// All whole frames at the front of a byte stream, in stream order.
pub open spec fn frames_of(stream: Seq<u8>, max: nat) -> Seq<Seq<u8>>
    decreases stream.len(),
{
    match parse_one(stream, max) {
        ParseOutcome::Parsed(payload, rest) => seq![payload] + frames_of(rest, max),
        _ => Seq::empty(),
    }
}

pub proof fn lemma_be_round_trip(x: u32)
    ensures
        spec_be_bytes(x).len() == 4,
        spec_u32_of_be(spec_be_bytes(x)) == x,
{
    let b0 = ((x >> 24) & 0xff) as u8;
    let b1 = ((x >> 16) & 0xff) as u8;
    let b2 = ((x >> 8) & 0xff) as u8;
    let b3 = (x & 0xff) as u8;
    assert((((b0 as u32) << 24) | ((b1 as u32) << 16) | ((b2 as u32) << 8) | (b3 as u32)) == x)
        by (bit_vector)
        requires
            b0 == ((x >> 24) & 0xff) as u8,
            b1 == ((x >> 16) & 0xff) as u8,
            b2 == ((x >> 8) & 0xff) as u8,
            b3 == (x & 0xff) as u8,
    ;
}

/// Reading a 32-bit value out of four bytes and writing it back gives the
/// same four bytes.
pub proof fn lemma_be_inverse(s: Seq<u8>)
    requires
        s.len() >= 4,
    ensures
        spec_be_bytes(spec_u32_of_be(s)) == s.take(4),
{
    let b0 = s[0];
    let b1 = s[1];
    let b2 = s[2];
    let b3 = s[3];
    let x = spec_u32_of_be(s);
    assert(((x >> 24) & 0xff) as u8 == b0 && ((x >> 16) & 0xff) as u8 == b1 && ((x >> 8) & 0xff)
        as u8 == b2 && (x & 0xff) as u8 == b3) by (bit_vector)
        requires
            x == (((b0 as u32) << 24) | ((b1 as u32) << 16) | ((b2 as u32) << 8) | (b3 as u32))
                as u32,
    ;
    assert(spec_be_bytes(x) =~= s.take(4));
}

/// `spec_u32_of_be` only looks at the first four bytes.
pub proof fn lemma_be_prefix(s: Seq<u8>, t: Seq<u8>)
    requires
        s.len() >= 4,
    ensures
        spec_u32_of_be(s + t) == spec_u32_of_be(s),
{
    assert((s + t)[0] == s[0]);
    assert((s + t)[1] == s[1]);
    assert((s + t)[2] == s[2]);
    assert((s + t)[3] == s[3]);
}

/// Decoding one frame from the front of a stream that begins with a whole
/// encoded payload yields exactly that payload and the rest of the stream.
pub proof fn lemma_parse_frame(payload: Seq<u8>, rest: Seq<u8>, max: nat)
    requires
        payload.len() <= max,
        payload.len() <= u32::MAX,
    ensures
        parse_one(frame_of(payload) + rest, max) == ParseOutcome::Parsed(payload, rest),
{
    let stream = frame_of(payload) + rest;
    lemma_be_round_trip(payload.len() as u32);
    lemma_be_prefix(spec_be_bytes(payload.len() as u32), payload + rest);
    assert(spec_be_bytes(payload.len() as u32) + (payload + rest) =~= stream);
    assert(spec_u32_of_be(stream) == payload.len());
    let n = payload.len() as int;
    assert(stream.subrange(4, 4 + n) =~= payload);
    assert(stream.skip(4 + n) =~= rest);
}

/// Prepending one whole frame to a stream prepends exactly its payload to
/// the decoded message sequence.
pub proof fn lemma_frames_concat(payload: Seq<u8>, rest: Seq<u8>, max: nat)
    requires
        payload.len() <= max,
        payload.len() <= u32::MAX,
    ensures
        frames_of(frame_of(payload) + rest, max) == seq![payload] + frames_of(rest, max),
{
    lemma_parse_frame(payload, rest, max);
}

/// The framing round trip: decoding an encoded payload gives that payload
/// back, and nothing else.  Split reads cannot change this: the decoder's
/// outcome is a function of the concatenation of the bytes fed to it.
pub proof fn lemma_frame_round_trip(payload: Seq<u8>, max: nat)
    requires
        payload.len() <= max,
        payload.len() <= u32::MAX,
    ensures
        frames_of(frame_of(payload), max) == seq![payload],
{
    assert(frame_of(payload) + Seq::<u8>::empty() =~= frame_of(payload));
    lemma_frames_concat(payload, Seq::empty(), max);
    assert(parse_one(Seq::empty(), max) is Incomplete);
    assert(seq![payload] + frames_of(Seq::empty(), max) =~= seq![payload]);
}

/// A back-to-back encoding of several payloads, in order.
pub open spec fn concat_frames(msgs: Seq<Seq<u8>>) -> Seq<u8>
    decreases msgs.len(),
{
    if msgs.len() == 0 {
        Seq::empty()
    } else {
        frame_of(msgs[0]) + concat_frames(msgs.skip(1))
    }
}

/// Message ordering: however many payloads are encoded back to back, the
/// decoder recovers exactly those payloads, in the order they were sent.
#[verifier::spinoff_prover]
#[verifier::rlimit(100)]
pub proof fn lemma_stream_order(msgs: Seq<Seq<u8>>, max: nat)
    requires
        forall|i: int| 0 <= i < msgs.len() ==> #[trigger] msgs[i].len() <= max,
        max <= u32::MAX,
    ensures
        frames_of(concat_frames(msgs), max) == msgs,
    decreases msgs.len(),
{
    if msgs.len() == 0 {
        assert(parse_one(Seq::empty(), max) is Incomplete);
        assert(frames_of(concat_frames(msgs), max) =~= msgs);
    } else {
        let rest = msgs.skip(1);
        assert(msgs[0].len() <= max);
        assert forall|i: int| 0 <= i < rest.len() implies #[trigger] rest[i].len() <= max by {
            assert(rest[i] == msgs[i + 1]);
        }
        lemma_frames_concat(msgs[0], concat_frames(rest), max);
        lemma_stream_order(rest, max);
        assert(seq![msgs[0]] + rest =~= msgs);
    }
}

/// Reads a big-endian 32-bit length out of the first four bytes of a
/// buffer, as the wire format stores it.
pub fn network_to_u32(bytes: &[u8]) -> (r: u32)
    requires
        bytes@.len() >= 4,
    ensures
        r == spec_u32_of_be(bytes@),
{
    let b0 = bytes[0] as u32;
    let b1 = bytes[1] as u32;
    let b2 = bytes[2] as u32;
    let b3 = bytes[3] as u32;
    (b0 << 24) | (b1 << 16) | (b2 << 8) | b3
}

/// Writes an unsigned 32-bit value as its four big-endian bytes.
pub fn u32_to_network(x: u32) -> (r: [u8; 4])
    ensures
        r@ == spec_be_bytes(x),
{
    let r = [
        ((x >> 24) & 0xff) as u8,
        ((x >> 16) & 0xff) as u8,
        ((x >> 8) & 0xff) as u8,
        (x & 0xff) as u8,
    ];
    assert(r@ =~= spec_be_bytes(x));
    r
}

/// Frames a payload for the wire: its length, big-endian, then its bytes.
pub fn encode_frame(payload: &[u8]) -> (r: Vec<u8>)
    requires
        payload@.len() <= u32::MAX,
    ensures
        r@ == frame_of(payload@),
{
    let hdr = u32_to_network(payload.len() as u32);
    let mut r: Vec<u8> = Vec::new();
    r.extend_from_slice(hdr.as_slice());
    r.extend_from_slice(payload);
    assert(r@ =~= frame_of(payload@));
    r
}

/// The parser of the framing state machine: between messages it awaits a
/// length header, then the declared number of body bytes.
pub enum ParserState {
    AwaitingLength,
    AwaitingBody(usize),
}

/// A resumable decoder for a stream of length-prefixed frames.  Bytes are
/// fed in as they arrive; whole payloads come out one at a time.
pub struct FrameDecoder {
    max_msg: usize,
    state: ParserState,
    buf: Vec<u8>,
}

impl FrameDecoder {
    /// The bytes fed in and not yet decoded, with a consumed header put
    /// back in front, so that feeding bytes is exactly concatenation.
    pub closed spec fn stream(self) -> Seq<u8> {
        match self.state {
            ParserState::AwaitingLength => self.buf@,
            ParserState::AwaitingBody(n) => spec_be_bytes(n as u32) + self.buf@,
        }
    }

    /// The configured maximum payload size.
    pub closed spec fn max(self) -> nat {
        self.max_msg as nat
    }

    pub closed spec fn wf(self) -> bool {
        &&& self.max_msg + MSG_HDR_SIZE <= u32::MAX
        &&& self.stream().len() <= self.max_msg + MSG_HDR_SIZE
        &&& match self.state {
            ParserState::AwaitingLength => true,
            ParserState::AwaitingBody(n) => n <= self.max_msg,
        }
    }

    /// A well-formed decoder never buffers more than one maximal frame.
    pub proof fn lemma_stream_bound(self)
        requires
            self.wf(),
        ensures
            self.stream().len() <= self.max() + MSG_HDR_SIZE,
            self.max() + MSG_HDR_SIZE <= u32::MAX,
    {
    }

    pub fn new(max_msg: usize) -> (r: Self)
        requires
            max_msg + MSG_HDR_SIZE <= u32::MAX,
        ensures
            r.wf(),
            r.max() == max_msg,
            r.stream() == Seq::<u8>::empty(),
    {
        FrameDecoder { max_msg, state: ParserState::AwaitingLength, buf: Vec::new() }
    }

    /// How many more bytes the decoder can hold: its buffer is bounded by
    /// the size of one maximal frame, so a peer cannot grow it without end.
    pub fn read_capacity(&self) -> (r: usize)
        requires
            self.wf(),
        ensures
            r == self.max() + MSG_HDR_SIZE - self.stream().len(),
    {
        match self.state {
            ParserState::AwaitingLength => self.max_msg + MSG_HDR_SIZE - self.buf.len(),
            ParserState::AwaitingBody(_) => {
                proof {
                    assert(self.stream().len() == 4 + self.buf@.len());
                }
                self.max_msg - self.buf.len()
            },
        }
    }

    /// Feeds freshly received bytes to the decoder.
    pub fn push(&mut self, bytes: &[u8])
        requires
            old(self).wf(),
            bytes@.len() + old(self).stream().len() <= old(self).max() + MSG_HDR_SIZE,
        ensures
            final(self).wf(),
            final(self).max() == old(self).max(),
            final(self).stream() == old(self).stream() + bytes@,
    {
        self.buf.extend_from_slice(bytes);
        proof {
            match self.state {
                ParserState::AwaitingLength => {},
                ParserState::AwaitingBody(n) => {
                    assert(self.stream() =~= old(self).stream() + bytes@);
                },
            }
        }
    }

    /// Tries to decode the next whole frame.  Returns the payload when one
    /// is complete, nothing when more bytes are needed, and an error when
    /// the declared length exceeds the configured maximum — in which case
    /// the decoder is left untouched and the connection is to be dropped.
    pub fn next_frame(&mut self) -> (r: Result<Option<Vec<u8>>, NetError>)
        requires
            old(self).wf(),
        ensures
            final(self).wf(),
            final(self).max() == old(self).max(),
            match parse_one(old(self).stream(), old(self).max()) {
                ParseOutcome::Incomplete => {
                    &&& r is Ok
                    &&& r->Ok_0 is None
                    &&& final(self).stream() == old(self).stream()
                },
                ParseOutcome::TooBig => {
                    &&& r is Err
                    &&& r->Err_0 is FrameTooBig
                    &&& final(self).stream() == old(self).stream()
                },
                ParseOutcome::Parsed(payload, rest) => {
                    &&& r is Ok
                    &&& r->Ok_0 is Some
                    &&& r->Ok_0->0@ == payload
                    &&& final(self).stream() == rest
                },
            },
    {
        let body_len: usize;
        match self.state {
            ParserState::AwaitingLength => {
                if self.buf.len() < MSG_HDR_SIZE {
                    return Ok(None);
                }
                let n = network_to_u32(self.buf.as_slice()) as usize;
                if n > self.max_msg {
                    return Err(NetError::FrameTooBig(n));
                }
                let tail = self.buf.split_off(MSG_HDR_SIZE);
                proof {
                    lemma_be_inverse(old(self).buf@);
                    assert(spec_be_bytes(n as u32) == old(self).buf@.take(4));
                    assert(old(self).buf@.take(4) + old(self).buf@.skip(4) =~= old(self).buf@);
                }
                self.buf = tail;
                self.state = ParserState::AwaitingBody(n);
                body_len = n;
                proof {
                    assert(self.stream() =~= old(self).stream());
                }
            },
            ParserState::AwaitingBody(n) => {
                body_len = n;
                proof {
                    lemma_be_round_trip(n as u32);
                    lemma_be_prefix(spec_be_bytes(n as u32), self.buf@);
                    assert(spec_u32_of_be(old(self).stream()) == n as u32);
                }
            },
        }
        proof {
            assert(self.stream() == old(self).stream());
            assert(spec_u32_of_be(old(self).stream()) == body_len as u32) by {
                lemma_be_round_trip(body_len as u32);
                lemma_be_prefix(spec_be_bytes(body_len as u32), self.buf@);
            }
        }
        if self.buf.len() < body_len {
            proof {
                assert(parse_one(old(self).stream(), old(self).max()) is Incomplete);
            }
            return Ok(None);
        }
        let mut msg = self.buf.split_off(body_len);
        core::mem::swap(&mut self.buf, &mut msg);
        self.state = ParserState::AwaitingLength;
        proof {
            let stream0 = old(self).stream();
            let n = body_len as int;
            assert(stream0.subrange(4, 4 + n) =~= msg@);
            assert(stream0.skip(4 + n) =~= self.buf@);
        }
        Ok(Some(msg))
    }
}

} // verus!
