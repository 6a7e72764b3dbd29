//! One connection: its identity, its framing parser, its outbound byte
//! queue, and the readiness interest it needs next.  The socket itself
//! lives with the reactor; the core only sees the bytes.

use vstd::prelude::*;

use crate::codec::{FrameDecoder, NetError, ParseOutcome, frame_of, parse_one, MSG_HDR_SIZE};
use crate::types::{Addr, ConnectionUid, Interest};

verus! {

/// Relies on rand::random: draws a value from the thread-local generator.
/// Nothing is promised of the result; every caller's contract holds for
/// every outcome.
pub assume_specification<T>[ rand::random::<T> ]() -> (r: T)
    where
        rand::distributions::Standard: rand::distributions::Distribution<T>,
;

/// Where a connection stands in its lifecycle: an outbound connection
/// awaits the handshake first; after that (and from the start, for an
/// accepted one) the framing parser state lives in the decoder.
pub enum ConnState {
    /// Outbound connect issued, completion not yet confirmed.
    Connecting(Addr),
    /// Connected; exchanging frames.
    Ready,
}

/// The core's view of one live connection.
pub struct Connection {
    uid: ConnectionUid,
    state: ConnState,
    decoder: FrameDecoder,
    out_buf: Vec<u8>,
    interest: Interest,
}

impl Connection {
    /// The connection's identity.
    pub closed spec fn spec_uid(self) -> ConnectionUid {
        self.uid
    }

    /// Bytes received and not yet decoded.
    pub closed spec fn inbound(self) -> Seq<u8> {
        self.decoder.stream()
    }

    /// Bytes framed for sending and not yet written to the socket, in
    /// enqueue order.
    pub closed spec fn outbound(self) -> Seq<u8> {
        self.out_buf@
    }

    /// The configured maximum payload size.
    pub closed spec fn max_msg(self) -> nat {
        self.decoder.max()
    }

    pub closed spec fn spec_state(self) -> ConnState {
        self.state
    }

    pub closed spec fn spec_interest(self) -> Interest {
        self.interest
    }

    pub closed spec fn wf(self) -> bool {
        &&& self.decoder.wf()
        &&& (self.interest.readable <==> self.state is Ready)
        &&& (self.state is Ready ==> (self.interest.writable <==> self.out_buf@.len() > 0))
    }

    /// The interest set always reflects exactly what the connection needs
    /// next: readable while awaiting framing progress, and — once the
    /// handshake is done — writable exactly while the outbound queue is
    /// non-empty.
    pub proof fn lemma_interest_reflects_needs(self)
        requires
            self.wf(),
        ensures
            self.spec_interest().readable <==> self.spec_state() is Ready,
            self.spec_state() is Ready ==> (self.spec_interest().writable <==> self.outbound().len()
                > 0),
    {
    }

    /// A well-formed connection never buffers more received bytes than one
    /// maximal frame.
    pub proof fn lemma_wf_bound(self)
        requires
            self.wf(),
        ensures
            self.inbound().len() <= self.max_msg() + MSG_HDR_SIZE,
            self.max_msg() + MSG_HDR_SIZE <= u32::MAX,
    {
        self.decoder.lemma_stream_bound();
    }

    /// Builds the connection for a freshly assigned slot, drawing a random
    /// disambiguator so that a uid captured for an earlier occupant of the
    /// slot cannot match this one except by 32-bit collision.
    pub fn new(slot: usize, addr: Addr, connecting: bool, max_msg: usize) -> (r: Self)
        requires
            max_msg + MSG_HDR_SIZE <= u32::MAX,
        ensures
            r.wf(),
            r.spec_uid().slot == slot,
            r.spec_uid().addr == addr,
            r.inbound() == Seq::<u8>::empty(),
            r.outbound() == Seq::<u8>::empty(),
            r.max_msg() == max_msg,
            r.spec_state() == (if connecting {
                ConnState::Connecting(addr)
            } else {
                ConnState::Ready
            }),
            r.spec_interest() == (Interest { readable: !connecting, writable: connecting }),
    {
        let id = rand::random::<u32>();
        Connection {
            uid: ConnectionUid { id, slot, addr },
            state: if connecting {
                ConnState::Connecting(addr)
            } else {
                ConnState::Ready
            },
            decoder: FrameDecoder::new(max_msg),
            out_buf: Vec::new(),
            interest: Interest { readable: !connecting, writable: connecting },
        }
    }

    /// The connection's identity, for callbacks and captured handles.
    pub fn uid(&self) -> (r: ConnectionUid)
        ensures
            r == self.spec_uid(),
    {
        self.uid
    }

    /// The interest set the connection needs registered next.
    pub fn interest(&self) -> (r: Interest)
        ensures
            r == self.spec_interest(),
    {
        self.interest
    }

    /// True while an outbound connect awaits confirmation.
    pub fn is_connecting(&self) -> (r: bool)
        ensures
            r == (self.spec_state() is Connecting),
    {
        match self.state {
            ConnState::Connecting(_) => true,
            ConnState::Ready => false,
        }
    }

    /// How many more received bytes the connection can buffer: the read
    /// buffer is bounded by the size of one maximal frame.
    pub fn read_capacity(&self) -> (r: usize)
        requires
            self.wf(),
        ensures
            r == self.max_msg() + MSG_HDR_SIZE - self.inbound().len(),
    {
        self.decoder.read_capacity()
    }

    /// Buffers bytes read from the socket.
    pub fn on_bytes(&mut self, bytes: &[u8])
        requires
            old(self).wf(),
            bytes@.len() + old(self).inbound().len() <= old(self).max_msg() + MSG_HDR_SIZE,
        ensures
            final(self).wf(),
            final(self).inbound() == old(self).inbound() + bytes@,
            final(self).max_msg() == old(self).max_msg(),
            final(self).spec_uid() == old(self).spec_uid(),
            final(self).spec_state() == old(self).spec_state(),
            final(self).spec_interest() == old(self).spec_interest(),
            final(self).outbound() == old(self).outbound(),
    {
        self.decoder.push(bytes);
    }

    /// Tries to decode the next whole message from the buffered bytes.
    /// Yields at most one message so the caller fires exactly one handler
    /// callback per message even when several arrived in one read.
    pub fn next_message(&mut self) -> (r: Result<Option<Vec<u8>>, NetError>)
        requires
            old(self).wf(),
        ensures
            final(self).wf(),
            final(self).max_msg() == old(self).max_msg(),
            final(self).spec_uid() == old(self).spec_uid(),
            final(self).spec_state() == old(self).spec_state(),
            final(self).spec_interest() == old(self).spec_interest(),
            final(self).outbound() == old(self).outbound(),
            match parse_one(old(self).inbound(), old(self).max_msg()) {
                ParseOutcome::Incomplete => {
                    &&& r is Ok
                    &&& r->Ok_0 is None
                    &&& final(self).inbound() == old(self).inbound()
                },
                ParseOutcome::TooBig => {
                    &&& r is Err
                    &&& r->Err_0 is FrameTooBig
                    &&& final(self).inbound() == old(self).inbound()
                },
                ParseOutcome::Parsed(payload, rest) => {
                    &&& r is Ok
                    &&& r->Ok_0 is Some
                    &&& r->Ok_0->0@ == payload
                    &&& final(self).inbound() == rest
                },
            },
    {
        self.decoder.next_frame()
    }

    /// Frames a message and appends it to the outbound queue; the writable
    /// interest is raised until the queue drains.
    pub fn enqueue(&mut self, msg: &[u8])
        requires
            old(self).wf(),
            msg@.len() <= u32::MAX,
        ensures
            final(self).wf(),
            final(self).outbound() == old(self).outbound() + frame_of(msg@),
            final(self).spec_interest() == (Interest {
                writable: true,
                ..old(self).spec_interest()
            }),
            final(self).spec_uid() == old(self).spec_uid(),
            final(self).spec_state() == old(self).spec_state(),
            final(self).inbound() == old(self).inbound(),
            final(self).max_msg() == old(self).max_msg(),
    {
        let mut framed = crate::codec::encode_frame(msg);
        self.out_buf.append(&mut framed);
        self.interest = Interest { writable: true, ..self.interest };
    }

    /// The bytes awaiting a socket write, front first.
    pub fn pending(&self) -> (r: &Vec<u8>)
        ensures
            r@ == self.outbound(),
    {
        &self.out_buf
    }

    /// Records that the socket accepted `n` outbound bytes; the writable
    /// interest drops once nothing is left to write.
    pub fn on_wrote(&mut self, n: usize)
        requires
            old(self).wf(),
            n <= old(self).outbound().len(),
        ensures
            final(self).wf(),
            final(self).outbound() == old(self).outbound().skip(n as int),
            final(self).spec_interest() == (Interest {
                writable: final(self).outbound().len() > 0,
                ..old(self).spec_interest()
            }),
            final(self).spec_uid() == old(self).spec_uid(),
            final(self).spec_state() == old(self).spec_state(),
            final(self).inbound() == old(self).inbound(),
            final(self).max_msg() == old(self).max_msg(),
    {
        let mut rest = self.out_buf.split_off(n);
        core::mem::swap(&mut self.out_buf, &mut rest);
        self.interest = Interest { writable: self.out_buf.len() > 0, ..self.interest };
    }

    /// Completes an outbound handshake: the connection turns to reading
    /// frames, keeping the writable interest only while anything is queued.
    pub fn handshake_complete(&mut self)
        requires
            old(self).wf(),
        ensures
            final(self).wf(),
            final(self).spec_state() is Ready,
            final(self).spec_interest() == (Interest {
                readable: true,
                writable: old(self).outbound().len() > 0,
            }),
            final(self).spec_uid() == old(self).spec_uid(),
            final(self).inbound() == old(self).inbound(),
            final(self).outbound() == old(self).outbound(),
            final(self).max_msg() == old(self).max_msg(),
    {
        self.state = ConnState::Ready;
        self.interest = Interest { readable: true, writable: self.out_buf.len() > 0 };
    }
}

} // verus!
