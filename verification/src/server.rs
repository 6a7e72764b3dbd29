//! The server core: the connection table, the deferred-action queues, and
//! every decision of the dispatch loop.  The reactor that owns the sockets
//! drives this state machine with plain events (bytes arrived, peer hung
//! up, writable now) and performs the actions it hands back; all callback-
//! requested mutations are queued here and flushed once per tick, in a
//! fixed order: admit new connections, re-arm, remove closed, and — last —
//! shut down.

use vstd::prelude::*;

use crate::codec::{frame_of, parse_one, ParseOutcome, MSG_HDR_SIZE};
use crate::conn::Connection;
use crate::table::ConnTable;
use crate::types::{Addr, ConnectionUid, Error, Interest};

verus! {

/// What the reactor must do after a tick, in the order given.
pub enum TickAction {
    /// A queued connection was admitted: register its socket under this
    /// slot and fire the `connection` callback with this uid.
    Admitted(usize, ConnectionUid),
    /// A queued connection was not admitted: the table is at capacity, so
    /// its socket is dropped and no callback ever fires for it.
    DroppedNew,
    /// Re-arm the one-shot registration of this slot with this interest.
    Reregister(usize, Interest),
    /// The slot was removed: deregister its socket and fire the
    /// `connection_closed` callback with this uid.
    Closed(usize, ConnectionUid),
    /// Stop the reactor and fire `shutting_down` with the terminal error.
    ShuttingDown(Option<Error>),
}

/// What a hangup or error event leads to.
pub enum HupOutcome {
    /// The slot holds no connection; nothing to do.
    NotLive,
    /// An outbound connect failed: the connection is gone; deregister the
    /// socket and fire `connect_failed` with this uid.
    ConnectFailed(ConnectionUid),
    /// The slot is queued for close; `connection_closed` fires at tick end.
    QueuedClose,
}

/// What trying to decode the next buffered message leads to.
pub enum ReadOutcome {
    /// The slot holds no connection.
    NotLive,
    /// One whole message, for one `message` callback.
    Message(ConnectionUid, Vec<u8>),
    /// No whole message buffered: read more, or re-arm on would-block.
    NeedMore,
    /// The peer declared a frame longer than the maximum: the slot is
    /// queued for close and no message is delivered.
    Violation(ConnectionUid),
}

/// What a writable event leads to.
pub enum WriteReady {
    /// The slot holds no connection.
    NotLive,
    /// An outbound handshake completed: fire the `connection` callback.
    Connected(ConnectionUid),
    /// Already connected: just flush pending bytes.
    AlreadyReady,
}

/// Number of `Closed` actions in a tick's action list.
pub open spec fn count_closed(s: Seq<TickAction>) -> nat
    decreases s.len(),
{
    if s.len() == 0 {
        0nat
    } else {
        count_closed(s.drop_last()) + if s.last() is Closed {
            1nat
        } else {
            0nat
        }
    }
}

/// Number of `ShuttingDown` actions in a tick's action list.
pub open spec fn count_shutdown(s: Seq<TickAction>) -> nat
    decreases s.len(),
{
    if s.len() == 0 {
        0nat
    } else {
        count_shutdown(s.drop_last()) + if s.last() is ShuttingDown {
            1nat
        } else {
            0nat
        }
    }
}

/// How many connections are live after `more` admissions into a table
/// holding `live` of at most `cap`: admissions stop at capacity.
pub open spec fn fill_to_cap(live: nat, more: nat, cap: nat) -> nat {
    if live + more <= cap {
        (live + more) as nat
    } else {
        cap
    }
}

/// Where an action stands in a tick's fixed order: admissions first, then
/// re-arms, then removals of closed slots, then the shutdown notice; the
/// order is never rearranged.
pub open spec fn action_phase(a: TickAction) -> nat {
    match a {
        TickAction::Admitted(_, _) => 0nat,
        TickAction::DroppedNew => 0nat,
        TickAction::Reregister(_, _) => 1nat,
        TickAction::Closed(_, _) => 2nat,
        TickAction::ShuttingDown(_) => 3nat,
    }
}

/// The outbound bytes of one connection after a framed message is sent to
/// every uid of a list in order, as `send` does: each occurrence of the
/// connection's own uid appends one more copy of the frame; every other
/// uid leaves it alone.
pub open spec fn outbound_after(
    uids: Seq<ConnectionUid>,
    target: ConnectionUid,
    base: Seq<u8>,
    fr: Seq<u8>,
) -> Seq<u8>
    decreases uids.len(),
{
    if uids.len() == 0 {
        base
    } else {
        outbound_after(
            uids.skip(1),
            target,
            if uids[0] == target {
                base + fr
            } else {
                base
            },
            fr,
        )
    }
}

/// Handling one more uid at the end of the list appends one more frame
/// exactly when it matches the target.
proof fn lemma_outbound_after_push(
    uids: Seq<ConnectionUid>,
    x: ConnectionUid,
    target: ConnectionUid,
    base: Seq<u8>,
    fr: Seq<u8>,
)
    ensures
        outbound_after(uids.push(x), target, base, fr) == (if x == target {
            outbound_after(uids, target, base, fr) + fr
        } else {
            outbound_after(uids, target, base, fr)
        }),
    decreases uids.len(),
{
    if uids.len() == 0 {
        assert(uids.push(x).skip(1) =~= Seq::<ConnectionUid>::empty());
        assert(uids.push(x)[0] == x);
        assert(outbound_after(uids.push(x), target, base, fr) == outbound_after(
            Seq::<ConnectionUid>::empty(),
            target,
            if x == target {
                base + fr
            } else {
                base
            },
            fr,
        ));
        assert(outbound_after(
            Seq::<ConnectionUid>::empty(),
            target,
            if x == target {
                base + fr
            } else {
                base
            },
            fr,
        ) == (if x == target {
            base + fr
        } else {
            base
        }));
        assert(outbound_after(uids, target, base, fr) == base);
    } else {
        assert(uids.push(x).skip(1) =~= uids.skip(1).push(x));
        assert(uids.push(x)[0] == uids[0]);
        assert(outbound_after(uids.push(x), target, base, fr) == outbound_after(
            uids.skip(1).push(x),
            target,
            if uids[0] == target {
                base + fr
            } else {
                base
            },
            fr,
        ));
        assert(outbound_after(uids, target, base, fr) == outbound_after(
            uids.skip(1),
            target,
            if uids[0] == target {
                base + fr
            } else {
                base
            },
            fr,
        ));
        lemma_outbound_after_push(
            uids.skip(1),
            x,
            target,
            if uids[0] == target {
                base + fr
            } else {
                base
            },
            fr,
        );
    }
}

/// `count_closed` and `count_shutdown` sum over concatenation.
pub proof fn lemma_count_concat(a: Seq<TickAction>, b: Seq<TickAction>)
    ensures
        count_closed(a + b) == count_closed(a) + count_closed(b),
        count_shutdown(a + b) == count_shutdown(a) + count_shutdown(b),
    decreases b.len(),
{
    if b.len() == 0 {
        assert(a + b =~= a);
    } else {
        assert((a + b).drop_last() =~= a + b.drop_last());
        assert((a + b).last() == b.last());
        lemma_count_concat(a, b.drop_last());
    }
}

/// Slot reuse safety: a uid captured for an earlier occupant of a slot
/// carries a different disambiguator than the slot's live occupant, so the
/// two uids differ, and by `send`'s contract an operation through the
/// stale uid matches nothing and touches nothing.  (Two occupants of one
/// slot drawing the same random 32-bit disambiguator is the one case this
/// check cannot tell apart.)
pub proof fn lemma_slot_reuse_rejected(s: Server, stale: ConnectionUid)
    requires
        s.is_live(stale.slot as int),
        s.uid_at(stale.slot as int).id != stale.id,
    ensures
        s.uid_at(stale.slot as int) != stale,
{
}

/// Counting over an action list whose elements all have, or all lack, a
/// given shape.
pub proof fn lemma_count_uniform(s: Seq<TickAction>)
    ensures
        (forall|k: int| 0 <= k < s.len() ==> (#[trigger] s[k]) is Closed) ==> count_closed(s)
            == s.len(),
        (forall|k: int| 0 <= k < s.len() ==> !((#[trigger] s[k]) is Closed)) ==> count_closed(s)
            == 0,
        (forall|k: int| 0 <= k < s.len() ==> !((#[trigger] s[k]) is ShuttingDown))
            ==> count_shutdown(s) == 0,
    decreases s.len(),
{
    if s.len() > 0 {
        assert(forall|k: int| 0 <= k < s.drop_last().len() ==> s.drop_last()[k] == s[k]);
        lemma_count_uniform(s.drop_last());
    }
}

/// The event-driven server core.
pub struct Server {
    table: ConnTable,
    pending_new: Vec<Addr>,
    pending_close: Vec<usize>,
    pending_rereg: Vec<usize>,
    shutdown: bool,
    shutdown_error: Option<Error>,
}

/// The connection tables of two server states agree exactly.
pub open spec fn same_conns(a: Server, b: Server) -> bool {
    &&& a.capacity() == b.capacity()
    &&& a.live_count() == b.live_count()
    &&& forall|j: int| a.is_live(j) == b.is_live(j)
    &&& forall|j: int| #![trigger b.conn_at(j)] a.is_live(j) ==> a.conn_at(j) == b.conn_at(j)
}

impl Server {
    /// The configured maximum number of concurrent connections.
    pub closed spec fn capacity(self) -> nat {
        self.table.capacity()
    }

    /// How many connections are live.
    pub closed spec fn live_count(self) -> nat {
        self.table.live_count()
    }

    /// Whether a slot holds a live connection.
    pub closed spec fn is_live(self, slot: int) -> bool {
        self.table.is_live(slot)
    }

    /// The connection in a live slot.
    pub closed spec fn conn_at(self, slot: int) -> Connection {
        self.table.conn_at(slot)
    }

    /// The identity of the connection in a live slot.
    pub open spec fn uid_at(self, slot: int) -> ConnectionUid {
        self.conn_at(slot).spec_uid()
    }

    /// Accepted sockets awaiting slot assignment, in accept order.
    pub closed spec fn new_q(self) -> Seq<Addr> {
        self.pending_new@
    }

    /// Slots queued for close, in queue order, without duplicates.
    pub closed spec fn close_q(self) -> Seq<usize> {
        self.pending_close@
    }

    /// Slots queued for re-arming, in queue order, without duplicates.
    pub closed spec fn rereg_q(self) -> Seq<usize> {
        self.pending_rereg@
    }

    /// Whether shutdown was requested.
    pub closed spec fn is_shutdown(self) -> bool {
        self.shutdown
    }

    /// The terminal error to hand to `shutting_down`, if any.
    pub closed spec fn spec_shutdown_error(self) -> Option<Error> {
        self.shutdown_error
    }

    /// The configured maximum message payload size.
    pub closed spec fn spec_max_msg(self) -> nat {
        self.table.spec_max_msg()
    }

    /// How many bytes a live slot can still buffer for reading.
    pub open spec fn read_cap(self, slot: int) -> nat {
        if self.is_live(slot) {
            (self.spec_max_msg() + MSG_HDR_SIZE - self.conn_at(slot).inbound().len()) as nat
        } else {
            0nat
        }
    }

    pub closed spec fn wf(self) -> bool {
        &&& self.table.wf()
        &&& forall|k: int|
            0 <= k < self.pending_close@.len() ==> self.table.is_live(
                #[trigger] self.pending_close@[k] as int,
            )
        &&& forall|k1: int, k2: int|
            0 <= k1 < k2 < self.pending_close@.len() ==> self.pending_close@[k1]
                != self.pending_close@[k2]
        &&& forall|k: int|
            0 <= k < self.pending_rereg@.len() ==> self.table.is_live(
                #[trigger] self.pending_rereg@[k] as int,
            )
        &&& forall|k1: int, k2: int|
            0 <= k1 < k2 < self.pending_rereg@.len() ==> self.pending_rereg@[k1]
                != self.pending_rereg@[k2]
    }

    /// The table never exceeds its capacity, whatever was done to it.
    pub proof fn lemma_capacity_bound(self)
        ensures
            self.live_count() <= self.capacity(),
    {
        self.table.lemma_capacity_bound();
    }

    /// A server core with room for `max_connections` concurrent peers,
    /// each framed at most `max_msg` bytes per message.
    pub fn new(max_connections: usize, max_msg: usize) -> (r: Self)
        requires
            max_msg + MSG_HDR_SIZE <= u32::MAX,
        ensures
            r.wf(),
            r.capacity() == max_connections,
            r.live_count() == 0,
            r.new_q().len() == 0,
            r.close_q().len() == 0,
            r.rereg_q().len() == 0,
            !r.is_shutdown(),
            r.spec_shutdown_error() is None,
            r.spec_max_msg() == max_msg,
            forall|i: int| !r.is_live(i),
    {
        Server {
            table: ConnTable::new(max_connections, max_msg),
            pending_new: Vec::new(),
            pending_close: Vec::new(),
            pending_rereg: Vec::new(),
            shutdown: false,
            shutdown_error: None,
        }
    }

    /// An accepted socket joins the admission queue; it is not registered
    /// or given a slot until tick end, so the table is never mutated in
    /// the middle of event dispatch.
    pub fn socket_accepted(&mut self, addr: Addr)
        requires
            old(self).wf(),
        ensures
            final(self).wf(),
            final(self).new_q() == old(self).new_q().push(addr),
            same_conns(*old(self), *final(self)),
            final(self).close_q() == old(self).close_q(),
            final(self).rereg_q() == old(self).rereg_q(),
            final(self).is_shutdown() == old(self).is_shutdown(),
            final(self).spec_shutdown_error() == old(self).spec_shutdown_error(),
            final(self).spec_max_msg() == old(self).spec_max_msg(),
    {
        self.pending_new.push(addr);
    }

    /// Marks the server for shutdown with a terminal error attached, as a
    /// listener-level failure does; the loop stops at the next tick end,
    /// after every pending close notification is delivered.
    pub fn shutdown_with_err(&mut self, err: Error)
        requires
            old(self).wf(),
        ensures
            final(self).wf(),
            final(self).is_shutdown(),
            final(self).spec_shutdown_error() is Some,
            same_conns(*old(self), *final(self)),
            final(self).new_q() == old(self).new_q(),
            final(self).close_q() == old(self).close_q(),
            final(self).rereg_q() == old(self).rereg_q(),
            final(self).spec_max_msg() == old(self).spec_max_msg(),
    {
        self.shutdown = true;
        self.shutdown_error = Some(err);
    }

    /// Requests a cooperative shutdown: it takes effect at the next tick
    /// end, never synchronously, so a callback cannot observe its own
    /// request as already applied.
    pub fn shutdown(&mut self)
        requires
            old(self).wf(),
        ensures
            final(self).wf(),
            final(self).is_shutdown(),
            same_conns(*old(self), *final(self)),
            final(self).new_q() == old(self).new_q(),
            final(self).close_q() == old(self).close_q(),
            final(self).rereg_q() == old(self).rereg_q(),
            final(self).spec_shutdown_error() == old(self).spec_shutdown_error(),
            final(self).spec_max_msg() == old(self).spec_max_msg(),
    {
        self.shutdown = true;
    }

    /// Queues a live slot for close at tick end; queueing twice is the
    /// same as queueing once.
    pub fn queue_close(&mut self, slot: usize)
        requires
            old(self).wf(),
        ensures
            final(self).wf(),
            old(self).is_live(slot as int) ==> final(self).close_q().contains(slot),
            old(self).is_live(slot as int) && !old(self).close_q().contains(slot)
                ==> final(self).close_q() == old(self).close_q().push(slot),
            !old(self).is_live(slot as int) || old(self).close_q().contains(slot)
                ==> final(self).close_q() == old(self).close_q(),
            same_conns(*old(self), *final(self)),
            final(self).new_q() == old(self).new_q(),
            final(self).rereg_q() == old(self).rereg_q(),
            final(self).is_shutdown() == old(self).is_shutdown(),
            final(self).spec_shutdown_error() == old(self).spec_shutdown_error(),
            final(self).spec_max_msg() == old(self).spec_max_msg(),
    {
        if self.table.get(slot).is_none() {
            return ;
        }
        if !contains_slot(&self.pending_close, slot) {
            self.pending_close.push(slot);
            proof {
                assert(self.pending_close@.last() == slot);
                assert(self.pending_close@.contains(slot));
            }
        }
    }

    /// Queues a live slot to have its one-shot registration re-armed at
    /// tick end.
    pub fn queue_rereg(&mut self, slot: usize)
        requires
            old(self).wf(),
        ensures
            final(self).wf(),
            old(self).is_live(slot as int) ==> final(self).rereg_q().contains(slot),
            old(self).is_live(slot as int) && !old(self).rereg_q().contains(slot)
                ==> final(self).rereg_q() == old(self).rereg_q().push(slot),
            !old(self).is_live(slot as int) || old(self).rereg_q().contains(slot)
                ==> final(self).rereg_q() == old(self).rereg_q(),
            same_conns(*old(self), *final(self)),
            final(self).new_q() == old(self).new_q(),
            final(self).close_q() == old(self).close_q(),
            final(self).is_shutdown() == old(self).is_shutdown(),
            final(self).spec_shutdown_error() == old(self).spec_shutdown_error(),
            final(self).spec_max_msg() == old(self).spec_max_msg(),
    {
        if self.table.get(slot).is_none() {
            return ;
        }
        if !contains_slot(&self.pending_rereg, slot) {
            self.pending_rereg.push(slot);
            proof {
                assert(self.pending_rereg@.last() == slot);
                assert(self.pending_rereg@.contains(slot));
            }
        }
    }
    /// The identity of the connection in a slot, if the slot is live.
    pub fn uid_of(&self, slot: usize) -> (r: Option<ConnectionUid>)
        requires
            self.wf(),
        ensures
            r is Some <==> self.is_live(slot as int),
            r is Some ==> r->0 == self.uid_at(slot as int),
    {
        self.table.uid_of(slot)
    }

    /// How many more bytes this slot can buffer for reading; zero when the
    /// slot holds no connection.
    pub fn read_capacity_of(&self, slot: usize) -> (r: usize)
        requires
            self.wf(),
        ensures
            r == self.read_cap(slot as int),
    {
        match self.table.get(slot) {
            Some(c) => {
                proof {
                    self.table.lemma_wf_at(slot as int);
                }
                c.read_capacity()
            },
            None => 0,
        }
    }

    /// Buffers bytes the reactor read from this slot's socket.
    pub fn feed_bytes(&mut self, slot: usize, bytes: &[u8])
        requires
            old(self).wf(),
            bytes@.len() <= old(self).read_cap(slot as int),
        ensures
            final(self).wf(),
            final(self).capacity() == old(self).capacity(),
            final(self).spec_max_msg() == old(self).spec_max_msg(),
            final(self).live_count() == old(self).live_count(),
            forall|j: int| final(self).is_live(j) == old(self).is_live(j),
            old(self).is_live(slot as int) ==> {
                let c0 = old(self).conn_at(slot as int);
                let c1 = final(self).conn_at(slot as int);
                &&& c1.inbound() == c0.inbound() + bytes@
                &&& c1.outbound() == c0.outbound()
                &&& c1.spec_uid() == c0.spec_uid()
                &&& c1.spec_state() == c0.spec_state()
                &&& c1.spec_interest() == c0.spec_interest()
            },
            forall|j: int|
                #![trigger final(self).conn_at(j)]
                j != slot && old(self).is_live(j) ==> final(self).conn_at(j) == old(self).conn_at(
                    j,
                ),
            final(self).new_q() == old(self).new_q(),
            final(self).close_q() == old(self).close_q(),
            final(self).rereg_q() == old(self).rereg_q(),
            final(self).is_shutdown() == old(self).is_shutdown(),
            final(self).spec_shutdown_error() == old(self).spec_shutdown_error(),
    {
        proof {
            if self.table.is_live(slot as int) {
                self.table.lemma_wf_at(slot as int);
                self.table.lemma_live_in_range(slot as int);
            }
        }
        match self.table.take(slot) {
            Some(mut c) => {
                proof {
                    c.lemma_wf_bound();
                }
                c.on_bytes(bytes);
                self.table.put(slot, c);
                proof {
                    self.lemma_queues_still_live(*old(self));
                }
            },
            None => {},
        }
    }

    /// Re-establishes that every queued slot is still live, given that no
    /// live slot was removed.
    proof fn lemma_queues_still_live(self, prev: Server)
        requires
            prev.wf(),
            self.close_q() == prev.close_q(),
            self.rereg_q() == prev.rereg_q(),
            self.table.wf(),
            forall|j: int| prev.table.is_live(j) ==> self.table.is_live(j),
        ensures
            self.wf(),
    {
    }

    /// Tries to decode the next whole message buffered for a slot.  At most
    /// one message comes out per call, so exactly one `message` callback
    /// fires per message even when several arrived in one socket read.  A
    /// frame declared longer than the maximum queues the slot for close and
    /// delivers nothing.
    pub fn next_message_at(&mut self, slot: usize) -> (r: ReadOutcome)
        requires
            old(self).wf(),
        ensures
            final(self).wf(),
            final(self).capacity() == old(self).capacity(),
            final(self).spec_max_msg() == old(self).spec_max_msg(),
            final(self).live_count() == old(self).live_count(),
            forall|j: int| final(self).is_live(j) == old(self).is_live(j),
            forall|j: int|
                #![trigger final(self).conn_at(j)]
                j != slot && old(self).is_live(j) ==> final(self).conn_at(j) == old(self).conn_at(
                    j,
                ),
            final(self).new_q() == old(self).new_q(),
            final(self).rereg_q() == old(self).rereg_q(),
            final(self).is_shutdown() == old(self).is_shutdown(),
            final(self).spec_shutdown_error() == old(self).spec_shutdown_error(),
            !old(self).is_live(slot as int) ==> r is NotLive && final(self).close_q() == old(self).close_q(),
            old(self).is_live(slot as int) ==> {
                let c0 = old(self).conn_at(slot as int);
                let c1 = final(self).conn_at(slot as int);
                &&& c1.spec_uid() == c0.spec_uid()
                &&& c1.spec_state() == c0.spec_state()
                &&& c1.spec_interest() == c0.spec_interest()
                &&& c1.outbound() == c0.outbound()
                &&& match parse_one(c0.inbound(), old(self).spec_max_msg()) {
                    ParseOutcome::Incomplete => {
                        &&& r is NeedMore
                        &&& c1.inbound() == c0.inbound()
                        &&& final(self).close_q() == old(self).close_q()
                    },
                    ParseOutcome::TooBig => {
                        &&& r is Violation
                        &&& r->Violation_0 == c0.spec_uid()
                        &&& c1.inbound() == c0.inbound()
                        &&& final(self).close_q().contains(slot)
                        &&& (old(self).close_q().contains(slot) ==> final(self).close_q() == old(
                            self,
                        ).close_q())
                        &&& (!old(self).close_q().contains(slot) ==> final(self).close_q() == old(
                            self,
                        ).close_q().push(slot))
                    },
                    ParseOutcome::Parsed(payload, rest) => {
                        &&& r is Message
                        &&& r->Message_0 == c0.spec_uid()
                        &&& r->Message_1@ == payload
                        &&& c1.inbound() == rest
                        &&& final(self).close_q() == old(self).close_q()
                    },
                }
            },
    {
        proof {
            if self.table.is_live(slot as int) {
                self.table.lemma_wf_at(slot as int);
                self.table.lemma_live_in_range(slot as int);
            }
        }
        match self.table.take(slot) {
            Some(mut c) => {
                let uid = c.uid();
                let outcome = c.next_message();
                self.table.put(slot, c);
                proof {
                    self.lemma_queues_still_live(*old(self));
                }
                match outcome {
                    Ok(Some(msg)) => ReadOutcome::Message(uid, msg),
                    Ok(None) => ReadOutcome::NeedMore,
                    Err(_) => {
                        self.queue_close(slot);
                        ReadOutcome::Violation(uid)
                    },
                }
            },
            None => ReadOutcome::NotLive,
        }
    }

    /// A hangup or error event on a slot: a connection still completing an
    /// outbound handshake is removed at once (its `connect_failed` fires in
    /// place of `connection`); any other connection is queued for close.
    pub fn on_hup(&mut self, slot: usize) -> (r: HupOutcome)
        requires
            old(self).wf(),
        ensures
            final(self).wf(),
            final(self).capacity() == old(self).capacity(),
            final(self).spec_max_msg() == old(self).spec_max_msg(),
            final(self).new_q() == old(self).new_q(),
            final(self).is_shutdown() == old(self).is_shutdown(),
            final(self).spec_shutdown_error() == old(self).spec_shutdown_error(),
            forall|j: int| j != slot ==> final(self).is_live(j) == old(self).is_live(j),
            forall|j: int|
                #![trigger final(self).conn_at(j)]
                j != slot && old(self).is_live(j) ==> final(self).conn_at(j) == old(self).conn_at(
                    j,
                ),
            !old(self).is_live(slot as int) ==> {
                &&& r is NotLive
                &&& !final(self).is_live(slot as int)
                &&& final(self).live_count() == old(self).live_count()
                &&& final(self).close_q() == old(self).close_q()
                &&& final(self).rereg_q() == old(self).rereg_q()
            },
            old(self).is_live(slot as int) && old(self).conn_at(slot as int).spec_state()
                is Connecting ==> {
                &&& r is ConnectFailed
                &&& r->ConnectFailed_0 == old(self).uid_at(slot as int)
                &&& !final(self).is_live(slot as int)
                &&& final(self).live_count() == old(self).live_count() - 1
                &&& !final(self).close_q().contains(slot)
                &&& !final(self).rereg_q().contains(slot)
            },
            old(self).is_live(slot as int) && !(old(self).conn_at(slot as int).spec_state()
                is Connecting) ==> {
                &&& r is QueuedClose
                &&& final(self).is_live(slot as int)
                &&& final(self).live_count() == old(self).live_count()
                &&& final(self).close_q().contains(slot)
                &&& final(self).rereg_q() == old(self).rereg_q()
            },
    {
        let connecting = match self.table.get(slot) {
            Some(c) => {
                if c.is_connecting() {
                    true
                } else {
                    false
                }
            },
            None => {
                return HupOutcome::NotLive;
            },
        };
        if connecting {
            proof {
                self.table.lemma_wf_at(slot as int);
            }
            let uid = match self.table.remove(slot) {
                Some(uid) => uid,
                None => {
                    return HupOutcome::NotLive;  // unreachable: the slot was live
                },
            };
            purge_slot(&mut self.pending_close, slot);
            purge_slot(&mut self.pending_rereg, slot);
            proof {
                assert forall|k: int| 0 <= k < self.pending_close@.len() implies self.table.is_live(
                    #[trigger] self.pending_close@[k] as int,
                ) by {
                    assert(old(self).pending_close@.contains(self.pending_close@[k]));
                }
                assert forall|k: int| 0 <= k < self.pending_rereg@.len() implies self.table.is_live(
                    #[trigger] self.pending_rereg@[k] as int,
                ) by {
                    assert(old(self).pending_rereg@.contains(self.pending_rereg@[k]));
                }
            }
            HupOutcome::ConnectFailed(uid)
        } else {
            self.queue_close(slot);
            HupOutcome::QueuedClose
        }
    }

    /// A writable event on a slot still completing an outbound handshake
    /// confirms the connection: it turns to reading frames and the
    /// `connection` callback fires with its uid.
    pub fn on_writable(&mut self, slot: usize) -> (r: WriteReady)
        requires
            old(self).wf(),
        ensures
            final(self).wf(),
            final(self).capacity() == old(self).capacity(),
            final(self).spec_max_msg() == old(self).spec_max_msg(),
            final(self).live_count() == old(self).live_count(),
            forall|j: int| final(self).is_live(j) == old(self).is_live(j),
            forall|j: int|
                #![trigger final(self).conn_at(j)]
                j != slot && old(self).is_live(j) ==> final(self).conn_at(j) == old(self).conn_at(
                    j,
                ),
            final(self).new_q() == old(self).new_q(),
            final(self).close_q() == old(self).close_q(),
            final(self).rereg_q() == old(self).rereg_q(),
            final(self).is_shutdown() == old(self).is_shutdown(),
            final(self).spec_shutdown_error() == old(self).spec_shutdown_error(),
            !old(self).is_live(slot as int) ==> r is NotLive,
            old(self).is_live(slot as int) ==> {
                let c0 = old(self).conn_at(slot as int);
                let c1 = final(self).conn_at(slot as int);
                &&& c1.spec_uid() == c0.spec_uid()
                &&& c1.inbound() == c0.inbound()
                &&& c1.outbound() == c0.outbound()
                &&& c1.spec_state() is Ready
                &&& (if c0.spec_state() is Connecting {
                    &&& r is Connected
                    &&& r->Connected_0 == c0.spec_uid()
                    &&& c1.spec_interest() == (Interest {
                        readable: true,
                        writable: c0.outbound().len() > 0,
                    })
                } else {
                    &&& r is AlreadyReady
                    &&& c1 == c0
                })
            },
    {
        proof {
            if self.table.is_live(slot as int) {
                self.table.lemma_wf_at(slot as int);
                self.table.lemma_live_in_range(slot as int);
            }
        }
        match self.table.take(slot) {
            Some(mut c) => {
                let uid = c.uid();
                if c.is_connecting() {
                    c.handshake_complete();
                    self.table.put(slot, c);
                    proof {
                        self.lemma_queues_still_live(*old(self));
                    }
                    WriteReady::Connected(uid)
                } else {
                    self.table.put(slot, c);
                    proof {
                        self.lemma_queues_still_live(*old(self));
                    }
                    WriteReady::AlreadyReady
                }
            },
            None => WriteReady::NotLive,
        }
    }

    /// The bytes a slot has framed and not yet written, front first.
    pub fn pending_of(&self, slot: usize) -> (r: Option<&Vec<u8>>)
        requires
            self.wf(),
        ensures
            r is Some <==> self.is_live(slot as int),
            r is Some ==> r->0@ == self.conn_at(slot as int).outbound(),
    {
        match self.table.get(slot) {
            Some(c) => Some(c.pending()),
            None => None,
        }
    }

    /// Records that the socket accepted `n` outbound bytes of a slot, in
    /// queue order; the writable interest drops once nothing is pending.
    pub fn on_wrote_at(&mut self, slot: usize, n: usize)
        requires
            old(self).wf(),
            old(self).is_live(slot as int) ==> n <= old(self).conn_at(slot as int).outbound().len(),
            !old(self).is_live(slot as int) ==> n == 0,
        ensures
            final(self).wf(),
            final(self).capacity() == old(self).capacity(),
            final(self).spec_max_msg() == old(self).spec_max_msg(),
            final(self).live_count() == old(self).live_count(),
            forall|j: int| final(self).is_live(j) == old(self).is_live(j),
            forall|j: int|
                #![trigger final(self).conn_at(j)]
                j != slot && old(self).is_live(j) ==> final(self).conn_at(j) == old(self).conn_at(
                    j,
                ),
            final(self).new_q() == old(self).new_q(),
            final(self).close_q() == old(self).close_q(),
            final(self).rereg_q() == old(self).rereg_q(),
            final(self).is_shutdown() == old(self).is_shutdown(),
            final(self).spec_shutdown_error() == old(self).spec_shutdown_error(),
            old(self).is_live(slot as int) ==> {
                let c0 = old(self).conn_at(slot as int);
                let c1 = final(self).conn_at(slot as int);
                &&& c1.outbound() == c0.outbound().skip(n as int)
                &&& c1.inbound() == c0.inbound()
                &&& c1.spec_uid() == c0.spec_uid()
                &&& c1.spec_state() == c0.spec_state()
                &&& c1.spec_interest() == (Interest {
                    writable: c1.outbound().len() > 0,
                    ..c0.spec_interest()
                })
            },
    {
        proof {
            if self.table.is_live(slot as int) {
                self.table.lemma_wf_at(slot as int);
                self.table.lemma_live_in_range(slot as int);
            }
        }
        match self.table.take(slot) {
            Some(mut c) => {
                c.on_wrote(n);
                self.table.put(slot, c);
                proof {
                    self.lemma_queues_still_live(*old(self));
                }
            },
            None => {},
        }
    }

    /// Sends a message to the connection a uid was captured for.  The full
    /// uid — slot, disambiguator and address — must match the live
    /// connection in that slot; a stale uid left over from an earlier
    /// occupant of the slot touches nothing and is silently dropped, since
    /// the peer may simply have disconnected.  Returns the slot to flush
    /// when the message was queued.
    pub fn send(&mut self, uid: &ConnectionUid, msg: &[u8]) -> (r: Option<usize>)
        requires
            old(self).wf(),
            msg@.len() <= u32::MAX,
        ensures
            final(self).wf(),
            final(self).capacity() == old(self).capacity(),
            final(self).spec_max_msg() == old(self).spec_max_msg(),
            final(self).live_count() == old(self).live_count(),
            forall|j: int| final(self).is_live(j) == old(self).is_live(j),
            forall|j: int|
                #![trigger final(self).conn_at(j)]
                j != uid.slot && old(self).is_live(j) ==> final(self).conn_at(j) == old(self).conn_at(j),
            final(self).new_q() == old(self).new_q(),
            final(self).close_q() == old(self).close_q(),
            final(self).is_shutdown() == old(self).is_shutdown(),
            final(self).spec_shutdown_error() == old(self).spec_shutdown_error(),
            !(old(self).is_live(uid.slot as int) && old(self).uid_at(uid.slot as int) == *uid)
                ==> {
                &&& r is None
                &&& final(self).rereg_q() == old(self).rereg_q()
                &&& forall|j: int|
                    #![trigger final(self).conn_at(j)]
                    old(self).is_live(j) ==> final(self).conn_at(j) == old(self).conn_at(j)
            },
            old(self).is_live(uid.slot as int) && old(self).uid_at(uid.slot as int) == *uid ==> {
                let c0 = old(self).conn_at(uid.slot as int);
                let c1 = final(self).conn_at(uid.slot as int);
                &&& r == Some(uid.slot)
                &&& c1.outbound() == c0.outbound() + frame_of(msg@)
                &&& c1.inbound() == c0.inbound()
                &&& c1.spec_uid() == c0.spec_uid()
                &&& c1.spec_state() == c0.spec_state()
                &&& c1.spec_interest() == (Interest { writable: true, ..c0.spec_interest() })
                &&& final(self).rereg_q().contains(uid.slot)
                &&& (old(self).rereg_q().contains(uid.slot) ==> final(self).rereg_q() == old(
                    self,
                ).rereg_q())
                &&& (!old(self).rereg_q().contains(uid.slot) ==> final(self).rereg_q() == old(
                    self,
                ).rereg_q().push(uid.slot))
            },
    {
        proof {
            if self.table.is_live(uid.slot as int) {
                self.table.lemma_wf_at(uid.slot as int);
                self.table.lemma_live_in_range(uid.slot as int);
            }
        }
        match self.table.take(uid.slot) {
            Some(mut c) => {
                if c.uid() == *uid {
                    c.enqueue(msg);
                    self.table.put(uid.slot, c);
                    proof {
                        self.lemma_queues_still_live(*old(self));
                    }
                    self.queue_rereg(uid.slot);
                    Some(uid.slot)
                } else {
                    self.table.put(uid.slot, c);
                    proof {
                        self.lemma_queues_still_live(*old(self));
                    }
                    None
                }
            },
            None => None,
        }
    }

    /// Sends one message to every uid in the list, skipping — as `send`
    /// does — every uid that no longer matches a live connection.  Every
    /// matched slot ends up in the returned flush list; a connection no
    /// listed uid matches is untouched.
    pub fn multicast(&mut self, uids: &Vec<ConnectionUid>, msg: &[u8]) -> (r: Vec<usize>)
        requires
            old(self).wf(),
            msg@.len() <= u32::MAX,
        ensures
            final(self).wf(),
            final(self).capacity() == old(self).capacity(),
            final(self).spec_max_msg() == old(self).spec_max_msg(),
            final(self).live_count() == old(self).live_count(),
            forall|j: int| final(self).is_live(j) == old(self).is_live(j),
            final(self).new_q() == old(self).new_q(),
            final(self).close_q() == old(self).close_q(),
            final(self).is_shutdown() == old(self).is_shutdown(),
            final(self).spec_shutdown_error() == old(self).spec_shutdown_error(),
            forall|j: int|
                #![trigger final(self).uid_at(j)]
                old(self).is_live(j) ==> final(self).uid_at(j) == old(self).uid_at(j),
            forall|j: int|
                #![trigger final(self).conn_at(j)]
                old(self).is_live(j) && !uids@.contains(old(self).uid_at(j)) ==> final(self).conn_at(j) == old(self).conn_at(j),
            forall|j: int|
                #![trigger final(self).conn_at(j)]
                old(self).is_live(j) ==> final(self).conn_at(j).outbound() == outbound_after(
                    uids@,
                    old(self).uid_at(j),
                    old(self).conn_at(j).outbound(),
                    frame_of(msg@),
                ),
            forall|k: int|
                #![trigger uids@[k]]
                0 <= k < uids@.len() && old(self).is_live(uids@[k].slot as int) && old(self).uid_at(
                    uids@[k].slot as int,
                ) == uids@[k] ==> r@.contains(uids@[k].slot) && final(self).rereg_q().contains(
                    uids@[k].slot,
                ),
    {
        proof {
            assert(uids@.take(0) =~= Seq::<ConnectionUid>::empty());
        }
        let mut flush: Vec<usize> = Vec::new();
        let mut i: usize = 0;
        while i < uids.len()
            invariant
                self.wf(),
                self.capacity() == old(self).capacity(),
                self.spec_max_msg() == old(self).spec_max_msg(),
                self.live_count() == old(self).live_count(),
                forall|j: int| self.is_live(j) == old(self).is_live(j),
                self.new_q() == old(self).new_q(),
                self.close_q() == old(self).close_q(),
                self.is_shutdown() == old(self).is_shutdown(),
                self.spec_shutdown_error() == old(self).spec_shutdown_error(),
                msg@.len() <= u32::MAX,
                i <= uids@.len(),
                old(self).wf(),
                forall|j: int|
                    #![trigger self.uid_at(j)]
                    old(self).is_live(j) ==> self.uid_at(j) == old(self).uid_at(j),
                forall|j: int|
                    #![trigger self.conn_at(j)]
                    old(self).is_live(j) && !uids@.contains(old(self).uid_at(j)) ==> self.conn_at(
                        j,
                    ) == old(self).conn_at(j),
                forall|j: int|
                    #![trigger self.conn_at(j)]
                    old(self).is_live(j) ==> self.conn_at(j).outbound() == outbound_after(
                        uids@.take(i as int),
                        old(self).uid_at(j),
                        old(self).conn_at(j).outbound(),
                        frame_of(msg@),
                    ),
                forall|k: int|
                    #![trigger uids@[k]]
                    0 <= k < i && old(self).is_live(uids@[k].slot as int) && old(self).uid_at(
                        uids@[k].slot as int,
                    ) == uids@[k] ==> flush@.contains(uids@[k].slot) && self.rereg_q().contains(
                        uids@[k].slot,
                    ),
            decreases uids@.len() - i,
        {
            let ghost prev = *self;
            let ghost flush0 = flush@;
            match self.send(&uids[i], msg) {
                Some(slot) => {
                    flush.push(slot);
                    proof {
                        assert(flush@.last() == slot);
                        assert(flush@.contains(slot));
                        assert forall|k: int|
                            #![trigger flush0.contains(uids@[k].slot)]
                            0 <= k < i && flush0.contains(uids@[k].slot) implies flush@.contains(
                            uids@[k].slot,
                        ) by {
                            let m = choose|m: int| 0 <= m < flush0.len() && flush0[m] == uids@[k].slot;
                            assert(flush@[m] == uids@[k].slot);
                        }
                    }
                },
                None => {},
            }
            proof {
                assert forall|j: int|
                    #![trigger self.uid_at(j)]
                    old(self).is_live(j) implies self.uid_at(j) == old(self).uid_at(j) by {
                    assert(prev.uid_at(j) == old(self).uid_at(j));
                    if j != uids@[i as int].slot as int {
                        assert(self.conn_at(j) == prev.conn_at(j));
                    }
                }
                assert forall|j: int|
                    #![trigger self.conn_at(j)]
                    old(self).is_live(j) && !uids@.contains(old(self).uid_at(j))
                    implies self.conn_at(j) == old(self).conn_at(j) by {
                    if j == uids@[i as int].slot as int {
                        assert(prev.uid_at(j) == old(self).uid_at(j));
                        assert(uids@.contains(uids@[i as int]) ==> uids@[i as int]
                            == uids@[i as int]);
                        if prev.uid_at(j) == uids@[i as int] {
                            assert(uids@.contains(old(self).uid_at(j)));
                        }
                    }
                }
                assert(uids@.take(i as int + 1) =~= uids@.take(i as int).push(uids@[i as int]));
                assert forall|j: int|
                    #![trigger self.conn_at(j)]
                    old(self).is_live(j) implies self.conn_at(j).outbound() == outbound_after(
                    uids@.take(i as int + 1),
                    old(self).uid_at(j),
                    old(self).conn_at(j).outbound(),
                    frame_of(msg@),
                ) by {
                    lemma_outbound_after_push(
                        uids@.take(i as int),
                        uids@[i as int],
                        old(self).uid_at(j),
                        old(self).conn_at(j).outbound(),
                        frame_of(msg@),
                    );
                    assert(prev.is_live(j));
                    assert(prev.uid_at(j) == old(self).uid_at(j));
                    if j == uids@[i as int].slot as int {
                        if prev.uid_at(j) == uids@[i as int] {
                            assert(self.conn_at(j).outbound() == prev.conn_at(j).outbound()
                                + frame_of(msg@));
                        } else {
                            assert(self.conn_at(j).outbound() == prev.conn_at(j).outbound());
                            assert(old(self).uid_at(j) != uids@[i as int]);
                        }
                    } else {
                        assert(self.conn_at(j) == prev.conn_at(j));
                        assert(old(self).table.wf());
                        old(self).table.lemma_wf_at(j);
                        assert(old(self).uid_at(j).slot == j);
                        assert(old(self).uid_at(j) != uids@[i as int]);
                    }
                }
                assert forall|k: int|
                    #![trigger uids@[k]]
                    0 <= k < i + 1 && old(self).is_live(uids@[k].slot as int) && old(self).uid_at(
                        uids@[k].slot as int,
                    ) == uids@[k] implies flush@.contains(uids@[k].slot) && self.rereg_q().contains(
                    uids@[k].slot,
                ) by {
                    if k == i as int {
                        assert(prev.uid_at(uids@[k].slot as int) == old(self).uid_at(
                            uids@[k].slot as int,
                        ));
                    } else {
                        assert(flush0.contains(uids@[k].slot));
                        let m = choose|m: int| 0 <= m < flush0.len() && flush0[m] == uids@[k].slot;
                        assert(flush@[m] == uids@[k].slot);
                        assert(prev.rereg_q().contains(uids@[k].slot));
                        if self.rereg_q() != prev.rereg_q() {
                            let n = choose|n: int|
                                0 <= n < prev.rereg_q().len() && prev.rereg_q()[n] == uids@[k].slot;
                            assert(self.rereg_q()[n] == uids@[k].slot);
                        }
                    }
                }
            }
            i = i + 1;
        }
        proof {
            assert(uids@.take(uids@.len() as int) =~= uids@);
        }
        flush
    }

    /// Reserves a slot and an identity for an outbound connection.  An `Ok`
    /// does not mean the connection succeeded: the reactor now opens the
    /// socket, and either `connection` or `connect_failed` will fire later
    /// with this uid.  With the table at capacity, no slot is taken and the
    /// caller gets `ConnectionLimit` back.
    pub fn connect_requested(&mut self, addr: Addr) -> (r: Result<ConnectionUid, Error>)
        requires
            old(self).wf(),
        ensures
            final(self).wf(),
            final(self).capacity() == old(self).capacity(),
            final(self).spec_max_msg() == old(self).spec_max_msg(),
            final(self).new_q() == old(self).new_q(),
            final(self).close_q() == old(self).close_q(),
            final(self).rereg_q() == old(self).rereg_q(),
            final(self).is_shutdown() == old(self).is_shutdown(),
            final(self).spec_shutdown_error() == old(self).spec_shutdown_error(),
            r is Err <==> old(self).live_count() == old(self).capacity(),
            r is Err ==> r->Err_0 is ConnectionLimit && same_conns(*old(self), *final(self)),
            r is Ok ==> {
                let uid = r->Ok_0;
                &&& !old(self).is_live(uid.slot as int)
                &&& final(self).is_live(uid.slot as int)
                &&& final(self).live_count() == old(self).live_count() + 1
                &&& final(self).uid_at(uid.slot as int) == uid
                &&& uid.addr == addr
                &&& final(self).conn_at(uid.slot as int).spec_state() == crate::conn::ConnState::Connecting(addr)
                &&& final(self).conn_at(uid.slot as int).spec_interest() == (Interest {
                    readable: false,
                    writable: true,
                })
                &&& final(self).conn_at(uid.slot as int).inbound() == Seq::<u8>::empty()
                &&& final(self).conn_at(uid.slot as int).outbound() == Seq::<u8>::empty()
                &&& forall|j: int| j != uid.slot ==> final(self).is_live(j) == old(self).is_live(j)
                &&& forall|j: int|
                    #![trigger final(self).conn_at(j)]
                    j != uid.slot && old(self).is_live(j) ==> final(self).conn_at(j) == old(self).conn_at(j)
            },
    {
        match self.table.insert(addr, true) {
            Some(slot) => {
                proof {
                    self.lemma_queues_still_live(*old(self));
                    self.table.lemma_wf_at(slot as int);
                }
                match self.table.uid_of(slot) {
                    Some(uid) => Ok(uid),
                    None => Err(Error::ConnectionLimit),  // unreachable: just inserted
                }
            },
            None => Err(Error::ConnectionLimit),
        }
    }

    /// Queues the connection a uid was captured for to be closed at the
    /// next tick, where `connection_closed` fires; a callback never
    /// observes its own close request as already applied.  As with every
    /// operation through a captured uid, a stale uid touches nothing.
    pub fn close_connection(&mut self, uid: ConnectionUid)
        requires
            old(self).wf(),
        ensures
            final(self).wf(),
            same_conns(*old(self), *final(self)),
            final(self).new_q() == old(self).new_q(),
            final(self).rereg_q() == old(self).rereg_q(),
            final(self).is_shutdown() == old(self).is_shutdown(),
            final(self).spec_shutdown_error() == old(self).spec_shutdown_error(),
            final(self).spec_max_msg() == old(self).spec_max_msg(),
            old(self).is_live(uid.slot as int) && old(self).uid_at(uid.slot as int) == uid ==> {
                &&& final(self).close_q().contains(uid.slot)
                &&& (old(self).close_q().contains(uid.slot) ==> final(self).close_q() == old(
                    self,
                ).close_q())
                &&& (!old(self).close_q().contains(uid.slot) ==> final(self).close_q() == old(
                    self,
                ).close_q().push(uid.slot))
            },
            !(old(self).is_live(uid.slot as int) && old(self).uid_at(uid.slot as int) == uid)
                ==> final(self).close_q() == old(self).close_q(),
    {
        let live_uid = match self.table.uid_of(uid.slot) {
            Some(u) => u,
            None => {
                return ;
            },
        };
        if live_uid == uid {
            self.queue_close(uid.slot);
        }
    }

    /// Admits the queued new connections, in accept order, until the table
    /// is full; from then on each remaining queued socket is dropped and no
    /// callback ever fires for it.
    /// Admits the queued new connections, in accept order, until the table
    /// is full; from then on each remaining queued socket is dropped and no
    /// callback ever fires for it.  The k-th action is `Admitted` exactly
    /// when the k-th queued socket found a free slot; each admitted
    /// connection is fresh — ready, readable, empty buffers, the accepted
    /// peer's address — and no other slot becomes live.
    pub fn admit_new(&mut self) -> (r: Vec<TickAction>)
        requires
            old(self).wf(),
        ensures
            final(self).wf(),
            final(self).capacity() == old(self).capacity(),
            final(self).spec_max_msg() == old(self).spec_max_msg(),
            final(self).new_q().len() == 0,
            final(self).close_q() == old(self).close_q(),
            final(self).rereg_q() == old(self).rereg_q(),
            final(self).is_shutdown() == old(self).is_shutdown(),
            final(self).spec_shutdown_error() == old(self).spec_shutdown_error(),
            forall|j: int| old(self).is_live(j) ==> final(self).is_live(j),
            forall|j: int|
                #![trigger final(self).conn_at(j)]
                old(self).is_live(j) ==> final(self).conn_at(j) == old(self).conn_at(j),
            forall|j: int|
                #![trigger final(self).is_live(j)]
                final(self).is_live(j) ==> old(self).is_live(j) || (exists|k: int|
                    0 <= k < r@.len() && (#[trigger] r@[k]) is Admitted && r@[k]->Admitted_0 as int
                        == j),
            final(self).live_count() == fill_to_cap(
                old(self).live_count(),
                old(self).new_q().len(),
                old(self).capacity(),
            ),
            r@.len() == old(self).new_q().len(),
            forall|k: int|
                0 <= k < r@.len() ==> (#[trigger] r@[k]) is Admitted || r@[k] is DroppedNew,
            forall|k: int|
                0 <= k < r@.len() ==> ((#[trigger] r@[k]) is Admitted <==> old(self).live_count()
                    + k < old(self).capacity()),
            forall|k: int|
                #![trigger r@[k]]
                0 <= k < r@.len() && r@[k] is Admitted ==> {
                    let slot = r@[k]->Admitted_0 as int;
                    &&& !old(self).is_live(slot)
                    &&& final(self).is_live(slot)
                    &&& final(self).uid_at(slot) == r@[k]->Admitted_1
                    &&& r@[k]->Admitted_1.slot == r@[k]->Admitted_0
                    &&& r@[k]->Admitted_1.addr == old(self).new_q()[k]
                    &&& final(self).conn_at(slot).spec_state() is Ready
                    &&& final(self).conn_at(slot).spec_interest() == (Interest {
                        readable: true,
                        writable: false,
                    })
                    &&& final(self).conn_at(slot).inbound() == Seq::<u8>::empty()
                    &&& final(self).conn_at(slot).outbound() == Seq::<u8>::empty()
                },
            forall|k1: int, k2: int|
                #![trigger r@[k1], r@[k2]]
                0 <= k1 < k2 < r@.len() && r@[k1] is Admitted && r@[k2] is Admitted
                    ==> r@[k1]->Admitted_0 != r@[k2]->Admitted_0,
    {
        let mut acts: Vec<TickAction> = Vec::new();
        let ghost mut done: int = 0;
        proof {
            self.table.lemma_capacity_bound();
            assert(self.new_q() =~= old(self).new_q().skip(0));
        }
        while self.pending_new.len() > 0
            invariant
                self.wf(),
                self.capacity() == old(self).capacity(),
                self.spec_max_msg() == old(self).spec_max_msg(),
                self.close_q() == old(self).close_q(),
                self.rereg_q() == old(self).rereg_q(),
                self.is_shutdown() == old(self).is_shutdown(),
                self.spec_shutdown_error() == old(self).spec_shutdown_error(),
                0 <= done <= old(self).new_q().len(),
                self.new_q() == old(self).new_q().skip(done),
                acts@.len() == done,
                old(self).live_count() <= old(self).capacity(),
                self.live_count() == fill_to_cap(
                    old(self).live_count(),
                    done as nat,
                    old(self).capacity(),
                ),
                forall|j: int| old(self).is_live(j) ==> self.is_live(j),
                forall|j: int|
                    #![trigger self.conn_at(j)]
                    old(self).is_live(j) ==> self.conn_at(j) == old(self).conn_at(j),
                forall|j: int|
                    #![trigger self.is_live(j)]
                    self.is_live(j) ==> old(self).is_live(j) || (exists|k: int|
                        0 <= k < acts@.len() && (#[trigger] acts@[k]) is Admitted
                            && acts@[k]->Admitted_0 as int == j),
                forall|k: int|
                    0 <= k < acts@.len() ==> (#[trigger] acts@[k]) is Admitted
                        || acts@[k] is DroppedNew,
                forall|k: int|
                    0 <= k < acts@.len() ==> ((#[trigger] acts@[k]) is Admitted <==> old(
                        self,
                    ).live_count() + k < old(self).capacity()),
                forall|k: int|
                    #![trigger acts@[k]]
                    0 <= k < acts@.len() && acts@[k] is Admitted ==> {
                        let slot = acts@[k]->Admitted_0 as int;
                        &&& !old(self).is_live(slot)
                        &&& self.is_live(slot)
                        &&& self.uid_at(slot) == acts@[k]->Admitted_1
                        &&& acts@[k]->Admitted_1.slot == acts@[k]->Admitted_0
                        &&& acts@[k]->Admitted_1.addr == old(self).new_q()[k]
                        &&& self.conn_at(slot).spec_state() is Ready
                        &&& self.conn_at(slot).spec_interest() == (Interest {
                            readable: true,
                            writable: false,
                        })
                        &&& self.conn_at(slot).inbound() == Seq::<u8>::empty()
                        &&& self.conn_at(slot).outbound() == Seq::<u8>::empty()
                    },
                forall|k1: int, k2: int|
                    #![trigger acts@[k1], acts@[k2]]
                    0 <= k1 < k2 < acts@.len() && acts@[k1] is Admitted && acts@[k2] is Admitted
                        ==> acts@[k1]->Admitted_0 != acts@[k2]->Admitted_0,
            decreases self.pending_new@.len(),
        {
            let ghost prev = *self;
            let ghost acts0 = acts@;
            let addr = self.pending_new.remove(0);
            proof {
                assert(self.new_q() =~= old(self).new_q().skip(done + 1));
                assert(addr == old(self).new_q()[done]);
            }
            match self.table.insert(addr, false) {
                Some(slot) => {
                    proof {
                        self.lemma_queues_still_live(prev);
                        self.table.lemma_wf_at(slot as int);
                    }
                    let uid = match self.table.uid_of(slot) {
                        Some(u) => u,
                        None => ConnectionUid { id: 0, slot: 0, addr },  // unreachable
                    };
                    acts.push(TickAction::Admitted(slot, uid));
                    proof {
                        done = done + 1;
                        assert(acts@[done - 1] == TickAction::Admitted(slot, uid));
                        assert(prev.live_count() < old(self).capacity());
                        assert(!old(self).is_live(slot as int)) by {
                            assert(!prev.is_live(slot as int));
                        }
                        assert forall|j: int| old(self).is_live(j) implies self.is_live(j) by {
                            assert(old(self).is_live(j) == prev.is_live(j));
                        }
                        assert forall|j: int|
                            #![trigger self.conn_at(j)]
                            old(self).is_live(j) implies self.conn_at(j) == old(self).conn_at(
                            j,
                        ) by {
                            assert(old(self).is_live(j) == prev.is_live(j));
                            assert(old(self).conn_at(j) == prev.conn_at(j));
                            assert(prev.is_live(j));
                        }
                        assert forall|j: int|
                            #![trigger self.is_live(j)]
                            self.is_live(j) implies old(self).is_live(j) || (exists|k: int|
                                0 <= k < acts@.len() && (#[trigger] acts@[k]) is Admitted
                                    && acts@[k]->Admitted_0 as int == j) by {
                            if j == slot as int {
                                assert((#[trigger] acts@[done - 1]) is Admitted
                                    && acts@[done - 1]->Admitted_0 as int == j);
                            } else {
                                assert(prev.is_live(j));
                                if !old(self).is_live(j) {
                                    assert(exists|k: int|
                                        0 <= k < acts0.len() && (#[trigger] acts0[k]) is Admitted
                                            && acts0[k]->Admitted_0 as int == j);
                                    let k = choose|k: int|
                                        0 <= k < acts0.len() && (#[trigger] acts0[k]) is Admitted
                                            && acts0[k]->Admitted_0 as int == j;
                                    assert((#[trigger] acts@[k]) is Admitted
                                        && acts@[k]->Admitted_0 as int == j);
                                }
                            }
                        }
                        assert forall|k1: int, k2: int|
                            #![trigger acts@[k1], acts@[k2]]
                            0 <= k1 < k2 < acts@.len() && acts@[k1] is Admitted && acts@[k2]
                                is Admitted implies acts@[k1]->Admitted_0
                            != acts@[k2]->Admitted_0 by {
                            assert(acts@[k1] == acts0[k1]);
                            if k2 == done - 1 {
                                assert(prev.is_live(acts0[k1]->Admitted_0 as int));
                                assert(!prev.is_live(slot as int));
                            } else {
                                assert(acts@[k2] == acts0[k2]);
                            }
                        }
                        assert forall|k: int|
                            #![trigger acts@[k]]
                            0 <= k < acts@.len() && acts@[k] is Admitted implies {
                            let s2 = acts@[k]->Admitted_0 as int;
                            &&& !old(self).is_live(s2)
                            &&& self.is_live(s2)
                            &&& self.uid_at(s2) == acts@[k]->Admitted_1
                            &&& acts@[k]->Admitted_1.slot == acts@[k]->Admitted_0
                            &&& acts@[k]->Admitted_1.addr == old(self).new_q()[k]
                            &&& self.conn_at(s2).spec_state() is Ready
                            &&& self.conn_at(s2).spec_interest() == (Interest {
                                readable: true,
                                writable: false,
                            })
                            &&& self.conn_at(s2).inbound() == Seq::<u8>::empty()
                            &&& self.conn_at(s2).outbound() == Seq::<u8>::empty()
                        } by {
                            if k < done - 1 {
                                assert(acts@[k] == acts0[k]);
                                assert(prev.is_live(acts0[k]->Admitted_0 as int));
                                assert(acts0[k]->Admitted_0 as int != slot as int);
                                assert(self.conn_at(acts0[k]->Admitted_0 as int) == prev.conn_at(
                                    acts0[k]->Admitted_0 as int,
                                ));
                            } else {
                                assert(uid == self.conn_at(slot as int).spec_uid());
                            }
                        }
                    }
                },
                None => {
                    acts.push(TickAction::DroppedNew);
                    proof {
                        done = done + 1;
                        assert(prev.live_count() == old(self).capacity());
                        assert forall|j: int| old(self).is_live(j) implies self.is_live(j) by {
                            assert(old(self).is_live(j) == prev.is_live(j));
                        }
                        assert forall|j: int|
                            #![trigger self.conn_at(j)]
                            old(self).is_live(j) implies self.conn_at(j) == old(self).conn_at(
                            j,
                        ) by {
                            assert(old(self).is_live(j) == prev.is_live(j));
                            assert(old(self).conn_at(j) == prev.conn_at(j));
                            assert(self.conn_at(j) == prev.conn_at(j));
                        }
                        assert forall|k: int|
                            #![trigger acts@[k]]
                            0 <= k < acts@.len() && acts@[k] is Admitted implies {
                            let s2 = acts@[k]->Admitted_0 as int;
                            &&& !old(self).is_live(s2)
                            &&& self.is_live(s2)
                            &&& self.uid_at(s2) == acts@[k]->Admitted_1
                            &&& acts@[k]->Admitted_1.slot == acts@[k]->Admitted_0
                            &&& acts@[k]->Admitted_1.addr == old(self).new_q()[k]
                            &&& self.conn_at(s2).spec_state() is Ready
                            &&& self.conn_at(s2).spec_interest() == (Interest {
                                readable: true,
                                writable: false,
                            })
                            &&& self.conn_at(s2).inbound() == Seq::<u8>::empty()
                            &&& self.conn_at(s2).outbound() == Seq::<u8>::empty()
                        } by {
                            assert(k < done - 1);
                            assert(acts@[k] == acts0[k]);
                        }
                        assert forall|j: int|
                            #![trigger self.is_live(j)]
                            self.is_live(j) implies old(self).is_live(j) || (exists|k: int|
                                0 <= k < acts@.len() && (#[trigger] acts@[k]) is Admitted
                                    && acts@[k]->Admitted_0 as int == j) by {
                            assert(prev.is_live(j));
                            if !old(self).is_live(j) {
                                assert(exists|k: int|
                                    0 <= k < acts0.len() && (#[trigger] acts0[k]) is Admitted
                                        && acts0[k]->Admitted_0 as int == j);
                                let k = choose|k: int|
                                    0 <= k < acts0.len() && (#[trigger] acts0[k]) is Admitted
                                        && acts0[k]->Admitted_0 as int == j;
                                assert((#[trigger] acts@[k]) is Admitted
                                    && acts@[k]->Admitted_0 as int == j);
                            }
                        }
                        assert forall|k1: int, k2: int|
                            #![trigger acts@[k1], acts@[k2]]
                            0 <= k1 < k2 < acts@.len() && acts@[k1] is Admitted && acts@[k2]
                                is Admitted implies acts@[k1]->Admitted_0
                            != acts@[k2]->Admitted_0 by {
                            assert(acts@[k1] == acts0[k1]);
                            assert(acts@[k2] == acts0[k2]);
                        }
                    }
                },
            }
        }
        proof {
            assert(self.new_q().len() == 0);
            assert(done == old(self).new_q().len());
        }
        acts
    }

    /// Re-arms the one-shot registration of every slot queued for it, in
    /// queue order, with the interest the connection currently needs.
    pub fn apply_rereg(&mut self) -> (r: Vec<TickAction>)
        requires
            old(self).wf(),
        ensures
            final(self).wf(),
            final(self).capacity() == old(self).capacity(),
            final(self).spec_max_msg() == old(self).spec_max_msg(),
            same_conns(*old(self), *final(self)),
            final(self).new_q() == old(self).new_q(),
            final(self).close_q() == old(self).close_q(),
            final(self).rereg_q().len() == 0,
            final(self).is_shutdown() == old(self).is_shutdown(),
            final(self).spec_shutdown_error() == old(self).spec_shutdown_error(),
            r@.len() == old(self).rereg_q().len(),
            forall|k: int|
                #![trigger r@[k]]
                0 <= k < r@.len() ==> {
                    &&& r@[k] is Reregister
                    &&& r@[k]->Reregister_0 == old(self).rereg_q()[k]
                    &&& r@[k]->Reregister_1 == old(self).conn_at(
                        old(self).rereg_q()[k] as int,
                    ).spec_interest()
                },
    {
        let mut acts: Vec<TickAction> = Vec::new();
        let ghost mut done: int = 0;
        proof {
            assert(self.rereg_q() =~= old(self).rereg_q().skip(0));
        }
        while self.pending_rereg.len() > 0
            invariant
                self.wf(),
                self.capacity() == old(self).capacity(),
                self.spec_max_msg() == old(self).spec_max_msg(),
                same_conns(*old(self), *self),
                self.new_q() == old(self).new_q(),
                self.close_q() == old(self).close_q(),
                self.is_shutdown() == old(self).is_shutdown(),
                self.spec_shutdown_error() == old(self).spec_shutdown_error(),
                0 <= done <= old(self).rereg_q().len(),
                self.rereg_q() == old(self).rereg_q().skip(done),
                acts@.len() == done,
                old(self).wf(),
                forall|k: int|
                    #![trigger acts@[k]]
                    0 <= k < acts@.len() ==> {
                        &&& acts@[k] is Reregister
                        &&& acts@[k]->Reregister_0 == old(self).rereg_q()[k]
                        &&& acts@[k]->Reregister_1 == old(self).conn_at(
                            old(self).rereg_q()[k] as int,
                        ).spec_interest()
                    },
            decreases self.pending_rereg@.len(),
        {
            let ghost at_top = *self;
            let slot = self.pending_rereg.remove(0);
            proof {
                assert(self.rereg_q() =~= old(self).rereg_q().skip(done + 1));
                assert(slot == old(self).rereg_q()[done]);
                assert(at_top.is_live(slot as int));
                assert(self.is_live(slot as int));
            }
            let interest = match self.table.get(slot) {
                Some(c) => c.interest(),
                None => Interest { readable: false, writable: false },  // unreachable: queued slots are live
            };
            acts.push(TickAction::Reregister(slot, interest));
            proof {
                done = done + 1;
                assert(at_top.conn_at(slot as int) == self.conn_at(slot as int));
                assert(old(self).is_live(slot as int));
                assert(old(self).conn_at(slot as int) == at_top.conn_at(slot as int));
                assert forall|j: int| old(self).is_live(j) == self.is_live(j) by {
                    assert(old(self).is_live(j) == at_top.is_live(j));
                    assert(at_top.is_live(j) == self.is_live(j));
                }
                assert forall|j: int|
                    #![trigger self.conn_at(j)]
                    old(self).is_live(j) implies old(self).conn_at(j) == self.conn_at(j) by {
                    assert(old(self).conn_at(j) == at_top.conn_at(j));
                    assert(at_top.conn_at(j) == self.conn_at(j));
                }
            }
        }
        acts
    }

    /// Removes every slot queued for close, in queue order; for each, the
    /// reactor deregisters the socket and fires `connection_closed` with
    /// the uid the slot held.  Runs after re-arming, so no stale interest
    /// is re-armed for a removed slot.
    pub fn apply_close(&mut self) -> (r: Vec<TickAction>)
        requires
            old(self).wf(),
            old(self).rereg_q().len() == 0,
        ensures
            final(self).wf(),
            final(self).capacity() == old(self).capacity(),
            final(self).spec_max_msg() == old(self).spec_max_msg(),
            final(self).new_q() == old(self).new_q(),
            final(self).close_q().len() == 0,
            final(self).rereg_q().len() == 0,
            final(self).is_shutdown() == old(self).is_shutdown(),
            final(self).spec_shutdown_error() == old(self).spec_shutdown_error(),
            final(self).live_count() == old(self).live_count() - old(self).close_q().len(),
            forall|j: usize|
                old(self).close_q().contains(j) ==> !final(self).is_live(j as int),
            forall|j: usize|
                #![trigger final(self).is_live(j as int)]
                !old(self).close_q().contains(j) ==> final(self).is_live(j as int) == old(self).is_live(j as int),
            forall|j: usize|
                #![trigger final(self).conn_at(j as int)]
                !old(self).close_q().contains(j) && old(self).is_live(j as int) ==> final(self).conn_at(j as int) == old(self).conn_at(j as int),
            r@.len() == old(self).close_q().len(),
            forall|k: int|
                #![trigger r@[k]]
                0 <= k < r@.len() ==> {
                    &&& r@[k] is Closed
                    &&& r@[k]->Closed_0 == old(self).close_q()[k]
                    &&& r@[k]->Closed_1 == old(self).uid_at(old(self).close_q()[k] as int)
                },
    {
        let mut acts: Vec<TickAction> = Vec::new();
        let ghost mut done: int = 0;
        proof {
            assert(self.close_q() =~= old(self).close_q().skip(0));
        }
        while self.pending_close.len() > 0
            invariant
                self.table.wf(),
                self.capacity() == old(self).capacity(),
                self.spec_max_msg() == old(self).spec_max_msg(),
                self.new_q() == old(self).new_q(),
                self.rereg_q().len() == 0,
                self.is_shutdown() == old(self).is_shutdown(),
                self.spec_shutdown_error() == old(self).spec_shutdown_error(),
                0 <= done <= old(self).close_q().len(),
                self.close_q() == old(self).close_q().skip(done),
                acts@.len() == done,
                old(self).wf(),
                self.live_count() == old(self).live_count() - done,
                forall|k: int|
                    0 <= k < self.close_q().len() ==> self.is_live(
                        #[trigger] self.close_q()[k] as int,
                    ),
                forall|k1: int, k2: int|
                    0 <= k1 < k2 < self.close_q().len() ==> self.close_q()[k1]
                        != self.close_q()[k2],
                forall|j: usize|
                    old(self).close_q().take(done).contains(j) ==> !self.is_live(j as int),
                forall|j: usize|
                    #![trigger self.is_live(j as int)]
                    !old(self).close_q().take(done).contains(j) ==> self.is_live(j as int) == old(self).is_live(j as int),
                forall|j: usize|
                    #![trigger self.conn_at(j as int)]
                    !old(self).close_q().take(done).contains(j) && old(self).is_live(j as int)
                        ==> self.conn_at(j as int) == old(self).conn_at(j as int),
                forall|k: int|
                    #![trigger acts@[k]]
                    0 <= k < acts@.len() ==> {
                        &&& acts@[k] is Closed
                        &&& acts@[k]->Closed_0 == old(self).close_q()[k]
                        &&& acts@[k]->Closed_1 == old(self).uid_at(old(self).close_q()[k] as int)
                    },
            decreases self.pending_close@.len(),
        {
            let ghost at_top = *self;
            let slot = self.pending_close.remove(0);
            proof {
                assert(self.close_q() =~= old(self).close_q().skip(done + 1));
                assert(slot == old(self).close_q()[done]);
                assert(old(self).close_q().take(done + 1) =~= old(self).close_q().take(done).push(
                    slot,
                ));
                assert(at_top.is_live(slot as int));
                assert(self.is_live(slot as int));
            }
            let ghost prev = *self;
            let uid = match self.table.remove(slot) {
                Some(u) => u,
                None => ConnectionUid {
                    id: 0,
                    slot: 0,
                    addr: Addr { ip: 0, port: 0 },
                },  // unreachable: queued slots are live
            };
            acts.push(TickAction::Closed(slot, uid));
            proof {
                done = done + 1;
                assert(prev.conn_at(slot as int) == at_top.conn_at(slot as int));
                assert(!old(self).close_q().take(done - 1).contains(slot));
                assert(at_top.conn_at(slot as int) == old(self).conn_at(slot as int));
                assert(old(self).uid_at(slot as int) == prev.uid_at(slot as int));
                assert forall|j: usize|
                    old(self).close_q().take(done).contains(j) implies !self.is_live(j as int) by {
                    let t = old(self).close_q().take(done);
                    let i = choose|i: int| 0 <= i < t.len() && t[i] == j;
                    if i < done - 1 {
                        assert(old(self).close_q().take(done - 1)[i] == j);
                        assert(old(self).close_q().take(done - 1).contains(j));
                        assert(!at_top.is_live(j as int));
                        assert(!prev.is_live(j as int));
                        assert(j != slot);
                    } else {
                        assert(j == slot);
                    }
                }
                assert forall|j: usize|
                    !old(self).close_q().take(done).contains(j) implies self.is_live(j as int)
                    == old(self).is_live(j as int) by {
                    assert(old(self).close_q().take(done)[done - 1] == slot);
                    assert(old(self).close_q().take(done).contains(slot));
                    assert(j != slot);
                    assert(!old(self).close_q().take(done - 1).contains(j)) by {
                        if old(self).close_q().take(done - 1).contains(j) {
                            let i = choose|i: int|
                                0 <= i < done - 1 && (#[trigger] old(self).close_q().take(
                                    done - 1,
                                )[i]) == j;
                            assert(old(self).close_q().take(done)[i] == j);
                        }
                    }
                    assert(at_top.is_live(j as int) == old(self).is_live(j as int));
                    assert(prev.is_live(j as int) == at_top.is_live(j as int));
                }
                assert forall|j: usize|
                    !old(self).close_q().take(done).contains(j) && old(self).is_live(j as int)
                    implies self.conn_at(j as int) == old(self).conn_at(j as int) by {
                    assert(old(self).close_q().take(done).contains(slot));
                    assert(j != slot);
                    assert(!old(self).close_q().take(done - 1).contains(j)) by {
                        if old(self).close_q().take(done - 1).contains(j) {
                            let i = choose|i: int|
                                0 <= i < done - 1 && (#[trigger] old(self).close_q().take(
                                    done - 1,
                                )[i]) == j;
                            assert(old(self).close_q().take(done)[i] == j);
                        }
                    }
                    assert(at_top.conn_at(j as int) == old(self).conn_at(j as int));
                    assert(prev.conn_at(j as int) == at_top.conn_at(j as int));
                    assert(at_top.is_live(j as int));
                    assert(prev.is_live(j as int));
                }
            }
        }
        proof {
            assert(done == old(self).close_q().len());
            assert(old(self).close_q().take(done) =~= old(self).close_q());
            assert forall|k: int|
                0 <= k < self.pending_close@.len() implies self.table.is_live(
                #[trigger] self.pending_close@[k] as int,
            ) by {}
        }
        acts
    }

    /// Removes every remaining live connection, in slot order, so that
    /// every one of them gets its `connection_closed` callback before the
    /// server stops.
    fn close_all(&mut self) -> (r: Vec<TickAction>)
        requires
            old(self).wf(),
            old(self).close_q().len() == 0,
            old(self).rereg_q().len() == 0,
        ensures
            final(self).wf(),
            final(self).capacity() == old(self).capacity(),
            final(self).spec_max_msg() == old(self).spec_max_msg(),
            final(self).new_q() == old(self).new_q(),
            final(self).close_q().len() == 0,
            final(self).rereg_q().len() == 0,
            final(self).is_shutdown() == old(self).is_shutdown(),
            final(self).spec_shutdown_error() == old(self).spec_shutdown_error(),
            final(self).live_count() == 0,
            r@.len() == old(self).live_count(),
            forall|k: int| 0 <= k < r@.len() ==> (#[trigger] r@[k]) is Closed,
    {
        let mut acts: Vec<TickAction> = Vec::new();
        let capacity = self.table_capacity();
        let mut slot: usize = 0;
        while slot < capacity
            invariant
                self.wf(),
                capacity == self.capacity(),
                self.capacity() == old(self).capacity(),
                self.spec_max_msg() == old(self).spec_max_msg(),
                self.new_q() == old(self).new_q(),
                self.close_q().len() == 0,
                self.rereg_q().len() == 0,
                self.is_shutdown() == old(self).is_shutdown(),
                self.spec_shutdown_error() == old(self).spec_shutdown_error(),
                slot <= capacity,
                forall|j: int| 0 <= j < slot ==> !self.is_live(j),
                self.live_count() == old(self).live_count() - acts@.len(),
                forall|k: int| 0 <= k < acts@.len() ==> (#[trigger] acts@[k]) is Closed,
            decreases capacity - slot,
        {
            let ghost prev = *self;
            match self.table.remove(slot) {
                Some(uid) => {
                    acts.push(TickAction::Closed(slot, uid));
                },
                None => {},
            }
            proof {
                assert forall|j: int| 0 <= j < slot + 1 implies !self.is_live(j) by {
                    if j != slot as int {
                        assert(self.is_live(j) == prev.is_live(j));
                    }
                }
            }
            slot = slot + 1;
        }
        proof {
            assert forall|j: int| !self.table.is_live(j) by {
                self.table.lemma_live_in_range(j);
                assert(!self.is_live(j));
            }
            self.table.lemma_none_live_count_zero();
        }
        acts
    }

    /// The fixed capacity, as an executable value.
    fn table_capacity(&self) -> (r: usize)
        ensures
            r == self.capacity(),
    {
        self.table.capacity_exec()
    }

    /// One tick: drains the deferred queues exactly once, in the fixed
    /// order — admit queued connections, re-arm, remove closed — and, last,
    /// acts on a requested shutdown: every connection still open is then
    /// removed, its `connection_closed` fires, and exactly one
    /// `shutting_down` ends the list.  Processing shutdown before the
    /// cleanup would skip final close notifications; this order never does.
    pub fn tick(&mut self) -> (r: Vec<TickAction>)
        requires
            old(self).wf(),
        ensures
            final(self).wf(),
            final(self).capacity() == old(self).capacity(),
            final(self).spec_max_msg() == old(self).spec_max_msg(),
            final(self).new_q().len() == 0,
            final(self).close_q().len() == 0,
            final(self).rereg_q().len() == 0,
            forall|k1: int, k2: int|
                0 <= k1 < k2 < r@.len() ==> action_phase(#[trigger] r@[k1]) <= action_phase(
                    #[trigger] r@[k2],
                ),
            !old(self).is_shutdown() ==> {
                &&& count_shutdown(r@) == 0
                &&& !final(self).is_shutdown()
                &&& count_closed(r@) == old(self).close_q().len()
                &&& r@.len() == old(self).new_q().len() + old(self).rereg_q().len() + old(
                    self,
                ).close_q().len()
                &&& final(self).live_count() == fill_to_cap(
                    old(self).live_count(),
                    old(self).new_q().len(),
                    old(self).capacity(),
                ) - old(self).close_q().len()
            },
            old(self).is_shutdown() ==> {
                &&& final(self).live_count() == 0
                &&& r@.len() > 0
                &&& r@.last() is ShuttingDown
                &&& count_shutdown(r@) == 1
                &&& r@.last()->ShuttingDown_0 == old(self).spec_shutdown_error()
                &&& count_closed(r@) == fill_to_cap(
                    old(self).live_count(),
                    old(self).new_q().len(),
                    old(self).capacity(),
                )
            },
    {
        let mut acts = self.admit_new();
        let ghost sa = acts@;
        let mut rereg_acts = self.apply_rereg();
        let ghost sb = rereg_acts@;
        let mut close_acts = self.apply_close();
        let ghost sc = close_acts@;
        proof {
            lemma_count_uniform(acts@);
            lemma_count_uniform(rereg_acts@);
            lemma_count_uniform(close_acts@);
            lemma_count_concat(acts@, rereg_acts@);
        }
        let ghost after_admit = acts@ + rereg_acts@;
        acts.append(&mut rereg_acts);
        proof {
            lemma_count_concat(after_admit, close_acts@);
        }
        let ghost after_close = after_admit + close_acts@;
        acts.append(&mut close_acts);
        proof {
            assert forall|k: int| 0 <= k < after_close.len() implies action_phase(
                #[trigger] after_close[k],
            ) == (if k < sa.len() {
                0nat
            } else if k < sa.len() + sb.len() {
                1nat
            } else {
                2nat
            }) by {
                if k < sa.len() {
                    assert(after_close[k] == sa[k]);
                } else if k < sa.len() + sb.len() {
                    assert(after_close[k] == sb[k - sa.len()]);
                } else {
                    assert(after_close[k] == sc[k - sa.len() - sb.len()]);
                }
            }
        }
        if self.shutdown {
            let mut rest = self.close_all();
            let ghost sd = rest@;
            proof {
                lemma_count_uniform(rest@);
                lemma_count_concat(after_close, rest@);
            }
            let ghost after_rest = after_close + rest@;
            acts.append(&mut rest);
            let err = self.shutdown_error.take();
            acts.push(TickAction::ShuttingDown(err));
            proof {
                assert(acts@.drop_last() =~= after_rest);
                assert(acts@.last() == TickAction::ShuttingDown(old(self).spec_shutdown_error()));
                assert forall|k1: int, k2: int|
                    0 <= k1 < k2 < acts@.len() implies action_phase(#[trigger] acts@[k1])
                    <= action_phase(#[trigger] acts@[k2]) by {
                    if k2 < acts@.len() - 1 {
                        assert(acts@[k1] == after_rest[k1]);
                        assert(acts@[k2] == after_rest[k2]);
                        if k1 >= after_close.len() {
                            assert(after_rest[k1] == sd[k1 - after_close.len()]);
                            assert(after_rest[k2] == sd[k2 - after_close.len()]);
                        } else if k2 >= after_close.len() {
                            assert(after_rest[k2] == sd[k2 - after_close.len()]);
                            assert(after_rest[k1] == after_close[k1]);
                        } else {
                            assert(after_rest[k1] == after_close[k1]);
                            assert(after_rest[k2] == after_close[k2]);
                        }
                    } else {
                        assert(acts@[k2] is ShuttingDown);
                    }
                }
            }
        } else {
            proof {
                assert forall|k1: int, k2: int|
                    0 <= k1 < k2 < acts@.len() implies action_phase(#[trigger] acts@[k1])
                    <= action_phase(#[trigger] acts@[k2]) by {
                }
            }
        }
        acts
    }
}

/// Removes one occurrence of a slot from a duplicate-free queue.
fn purge_slot(v: &mut Vec<usize>, slot: usize)
    requires
        forall|k1: int, k2: int|
            #![trigger old(v)@[k1], old(v)@[k2]]
            0 <= k1 < k2 < old(v)@.len() ==> old(v)@[k1] != old(v)@[k2],
    ensures
        !final(v)@.contains(slot),
        forall|k1: int, k2: int| 0 <= k1 < k2 < final(v)@.len() ==> final(v)@[k1] != final(v)@[k2],
        forall|k: int| 0 <= k < final(v)@.len() ==> old(v)@.contains(#[trigger] final(v)@[k]),
        forall|x: usize| x != slot && old(v)@.contains(x) ==> final(v)@.contains(x),
{
    let mut i: usize = 0;
    while i < v.len()
        invariant
            i <= v@.len(),
            *v == *old(v),
            forall|k: int| 0 <= k < i ==> v@[k] != slot,
            forall|k1: int, k2: int|
                #![trigger old(v)@[k1], old(v)@[k2]]
                0 <= k1 < k2 < old(v)@.len() ==> old(v)@[k1] != old(v)@[k2],
        decreases v@.len() - i,
    {
        if v[i] == slot {
            v.remove(i);
            proof {
                let s0 = old(v)@;
                let s1 = v@;
                assert(s1 =~= s0.subrange(0, i as int) + s0.subrange(i as int + 1, s0.len() as int));
                assert forall|k: int| 0 <= k < s1.len() implies s0.contains(#[trigger] s1[k]) by {
                    if k < i as int {
                        assert(s1[k] == s0[k]);
                    } else {
                        assert(s1[k] == s0[k + 1]);
                    }
                }
                assert forall|k: int| 0 <= k < s1.len() implies s1[k] != slot by {
                    if k < i as int {
                        assert(s1[k] == s0[k]);
                    } else {
                        assert(s1[k] == s0[k + 1]);
                        assert((i as int) < k + 1 && k + 1 < s0.len());
                        assert(old(v)@[i as int] != old(v)@[k + 1]);
                    }
                }
                assert forall|k1: int, k2: int| 0 <= k1 < k2 < s1.len() implies s1[k1] != s1[k2] by {
                    let m1 = if k1 < i as int { k1 } else { k1 + 1 };
                    let m2 = if k2 < i as int { k2 } else { k2 + 1 };
                    assert(s1[k1] == s0[m1]);
                    assert(s1[k2] == s0[m2]);
                    assert(0 <= m1 < m2 < s0.len());
                    assert(old(v)@[m1] != old(v)@[m2]);
                }
                assert forall|x: usize| x != slot && s0.contains(x) implies s1.contains(x) by {
                    let m = choose|m: int| 0 <= m < s0.len() && s0[m] == x;
                    if m < i as int {
                        assert(s1[m] == x);
                    } else {
                        assert(m != i as int);
                        assert(s1[m - 1] == x);
                    }
                }
            }
            return ;
        }
        i = i + 1;
    }
    proof {
        assert(forall|k: int| 0 <= k < v@.len() ==> v@[k] != slot);
    }
}

/// Whether a queue of slots holds this slot.
fn contains_slot(v: &Vec<usize>, slot: usize) -> (r: bool)
    ensures
        r == v@.contains(slot),
{
    let mut i: usize = 0;
    while i < v.len()
        invariant
            i <= v@.len(),
            forall|k: int| 0 <= k < i ==> v@[k] != slot,
        decreases v@.len() - i,
    {
        if v[i] == slot {
            return true;
        }
        i = i + 1;
    }
    false
}

} // verus!
