//! The thread-per-connection server variant: connection identifiers,
//! delivered events, errors, and the registry bookkeeping that decides
//! what each raw event means.  The listener, the streams and the threads
//! live outside the library; they feed accepted uids and raw events in
//! and get the decided event or error back.

use vstd::prelude::*;

use crate::codec::NetError;

verus! {

/// Identifier of one accepted connection, handed out in accept order.
#[derive(PartialEq, Eq, Hash, Copy, Clone, Debug, Structural)]
pub struct Uid(pub u64);

impl Uid {
    /// The identifier for the next accepted connection.
    pub fn next(&self) -> (r: Uid)
        requires
            self.0 < u64::MAX,
        ensures
            r.0 == self.0 + 1,
    {
        Uid(self.0 + 1)
    }
}

/// What the multiplexing server reports to its consumer.
#[derive(Debug)]
pub enum Event {
    /// A whole frame arrived from this connection.
    Recv(Uid, Vec<u8>),
    /// A new connection was accepted and registered.
    Connected(Uid),
    /// A connection went away.
    Disconnected(Uid),
    /// Something went wrong outside any one event.
    UnexpectedError(ServerError),
}

/// Errors of the multiplexing server.
#[derive(Debug)]
pub enum ServerError {
    /// The destination is not a connected peer.
    NotConnected,
    /// A framing or socket failure.
    Net(NetError),
    /// An event arrived that the registry's state rules out.
    InvalidState(&'static str),
}

/// The registry: which uids were accepted and not yet announced, and
/// which are connected.  The streams themselves stay with the threads
/// that own them; the registry only decides.
pub struct Registry {
    pending: Vec<u64>,
    connected: Vec<u64>,
}

impl Registry {
    /// Whether this uid was accepted but not yet announced.
    pub closed spec fn is_pending(self, uid: Uid) -> bool {
        self.pending@.contains(uid.0)
    }

    /// Whether this uid is a connected peer.
    pub closed spec fn is_connected(self, uid: Uid) -> bool {
        self.connected@.contains(uid.0)
    }

    pub closed spec fn wf(self) -> bool {
        &&& forall|k1: int, k2: int|
            #![trigger self.pending@[k1], self.pending@[k2]]
            0 <= k1 < k2 < self.pending@.len() ==> self.pending@[k1] != self.pending@[k2]
        &&& forall|k1: int, k2: int|
            #![trigger self.connected@[k1], self.connected@[k2]]
            0 <= k1 < k2 < self.connected@.len() ==> self.connected@[k1] != self.connected@[k2]
        &&& forall|k: int|
            0 <= k < self.pending@.len() ==> !self.connected@.contains(
                #[trigger] self.pending@[k],
            )
    }

    /// An empty registry.
    pub fn new() -> (r: Self)
        ensures
            r.wf(),
            forall|u: Uid| !r.is_pending(u),
            forall|u: Uid| !r.is_connected(u),
    {
        Registry { pending: Vec::new(), connected: Vec::new() }
    }

    /// Records a freshly accepted connection, to be announced by a later
    /// `Connected` event.  A uid that is already a connected peer is not
    /// re-accepted.
    pub fn accepted(&mut self, uid: Uid)
        requires
            old(self).wf(),
            !old(self).is_connected(uid),
        ensures
            final(self).wf(),
            forall|u: Uid|
                #![trigger final(self).is_pending(u)]
                final(self).is_pending(u) == (old(self).is_pending(u) || u.0 == uid.0),
            forall|u: Uid|
                #![trigger final(self).is_connected(u)]
                final(self).is_connected(u) == old(self).is_connected(u),
    {
        if !contains_uid(&self.pending, uid.0) {
            self.pending.push(uid.0);
            proof {
                assert(self.pending@.last() == uid.0);
                assert forall|u: Uid|
                    #![trigger self.is_pending(u)]
                    self.is_pending(u) == (old(self).is_pending(u) || u.0 == uid.0) by {
                    if u.0 == uid.0 {
                        assert(self.pending@.contains(uid.0));
                    } else if self.pending@.contains(u.0) {
                        let i = choose|i: int|
                            0 <= i < self.pending@.len() && self.pending@[i] == u.0;
                        assert(old(self).pending@[i] == u.0);
                    } else if old(self).pending@.contains(u.0) {
                        let i = choose|i: int|
                            0 <= i < old(self).pending@.len() && old(self).pending@[i] == u.0;
                        assert(self.pending@[i] == u.0);
                    }
                }
            }
        }
    }

    /// Decides what a raw event means given the registry's state, exactly
    /// as the event loop applies it: a `Connected` event announces a
    /// pending connection, a `Disconnected` event retires a connected one,
    /// anything else passes through; an event that the state rules out is
    /// an `InvalidState` error.
    pub fn on_event(&mut self, evt: Event) -> (r: Result<Event, ServerError>)
        requires
            old(self).wf(),
        ensures
            final(self).wf(),
            match evt {
                Event::Connected(uid) => {
                    &&& (r is Ok <==> old(self).is_pending(uid))
                    &&& (r is Ok ==> r->Ok_0 == Event::Connected(uid))
                    &&& (r is Err ==> r->Err_0 is InvalidState && *final(self) == *old(self))
                    &&& forall|u: Uid|
                        #![trigger final(self).is_pending(u)]
                        final(self).is_pending(u) == (old(self).is_pending(u) && !(r is Ok
                            && u.0 == uid.0))
                    &&& forall|u: Uid|
                        #![trigger final(self).is_connected(u)]
                        final(self).is_connected(u) == (old(self).is_connected(u) || (r is Ok
                            && u.0 == uid.0))
                },
                Event::Disconnected(uid) => {
                    &&& (r is Ok <==> old(self).is_connected(uid))
                    &&& (r is Ok ==> r->Ok_0 == Event::Disconnected(uid))
                    &&& (r is Err ==> r->Err_0 is InvalidState && *final(self) == *old(self))
                    &&& forall|u: Uid|
                        #![trigger final(self).is_connected(u)]
                        final(self).is_connected(u) == (old(self).is_connected(u) && !(r is Ok
                            && u.0 == uid.0))
                    &&& forall|u: Uid|
                        #![trigger final(self).is_pending(u)]
                        final(self).is_pending(u) == old(self).is_pending(u)
                },
                _ => r == Result::<Event, ServerError>::Ok(evt) && *final(self) == *old(self),
            },
    {
        match evt {
            Event::Connected(uid) => {
                if remove_uid(&mut self.pending, uid.0) {
                    proof {
                        assert(old(self).pending@.contains(uid.0));
                        assert(!old(self).connected@.contains(uid.0)) by {
                            let k = choose|k: int|
                                0 <= k < old(self).pending@.len() && old(self).pending@[k] == uid.0;
                            assert(!old(self).connected@.contains(old(self).pending@[k]));
                        }
                    }
                    self.connected.push(uid.0);
                    proof {
                        assert(self.connected@.last() == uid.0);
                        assert forall|k: int|
                            0 <= k < self.pending@.len() implies !self.connected@.contains(
                            #[trigger] self.pending@[k],
                        ) by {
                            assert(self.pending@[k] != uid.0);
                            assert(old(self).pending@.contains(self.pending@[k]));
                            let p = self.pending@[k];
                            let m = choose|m: int|
                                0 <= m < old(self).pending@.len() && old(self).pending@[m] == p;
                            assert(!old(self).connected@.contains(p));
                            if self.connected@.contains(p) {
                                let c = choose|c: int|
                                    0 <= c < self.connected@.len() && self.connected@[c] == p;
                                assert(c < self.connected@.len() - 1 ==> old(
                                    self,
                                ).connected@[c] == p);
                            }
                        }
                        assert forall|u: Uid|
                            #![trigger self.is_connected(u)]
                            self.is_connected(u) == (old(self).is_connected(u) || u.0 == uid.0) by {
                            if u.0 == uid.0 {
                                assert(self.connected@.contains(uid.0));
                            } else if self.connected@.contains(u.0) {
                                let i = choose|i: int|
                                    0 <= i < self.connected@.len() && self.connected@[i] == u.0;
                                assert(old(self).connected@[i] == u.0);
                            } else if old(self).connected@.contains(u.0) {
                                let i = choose|i: int|
                                    0 <= i < old(self).connected@.len() && old(self).connected@[i]
                                        == u.0;
                                assert(self.connected@[i] == u.0);
                            }
                        }
                    }
                    Ok(Event::Connected(uid))
                } else {
                    Err(ServerError::InvalidState("Connected event with no connection"))
                }
            },
            Event::Disconnected(uid) => {
                if remove_uid(&mut self.connected, uid.0) {
                    Ok(Event::Disconnected(uid))
                } else {
                    Err(ServerError::InvalidState("Disconnected event with no connection"))
                }
            },
            other => Ok(other),
        }
    }

    /// Whether a frame may be sent to this uid: only connected peers can
    /// receive, anyone else is `NotConnected`.
    pub fn check_send(&self, uid: Uid) -> (r: Result<(), ServerError>)
        ensures
            r is Ok <==> self.is_connected(uid),
            r is Err ==> r->Err_0 is NotConnected,
    {
        if contains_uid(&self.connected, uid.0) {
            Ok(())
        } else {
            Err(ServerError::NotConnected)
        }
    }
}

/// Whether the list holds this identifier.
fn contains_uid(v: &Vec<u64>, x: u64) -> (r: bool)
    ensures
        r == v@.contains(x),
{
    let mut i: usize = 0;
    while i < v.len()
        invariant
            i <= v@.len(),
            forall|k: int| 0 <= k < i ==> v@[k] != x,
        decreases v@.len() - i,
    {
        if v[i] == x {
            return true;
        }
        i = i + 1;
    }
    false
}

/// Removes the identifier from a duplicate-free list; reports whether it
/// was there.
fn remove_uid(v: &mut Vec<u64>, x: u64) -> (r: bool)
    requires
        forall|k1: int, k2: int|
            #![trigger old(v)@[k1], old(v)@[k2]]
            0 <= k1 < k2 < old(v)@.len() ==> old(v)@[k1] != old(v)@[k2],
    ensures
        r == old(v)@.contains(x),
        !r ==> *final(v) == *old(v),
        !final(v)@.contains(x),
        forall|k1: int, k2: int|
            #![trigger final(v)@[k1], final(v)@[k2]]
            0 <= k1 < k2 < final(v)@.len() ==> final(v)@[k1] != final(v)@[k2],
        forall|y: u64|
            y != x ==> final(v)@.contains(y) == old(v)@.contains(y),
{
    let mut i: usize = 0;
    while i < v.len()
        invariant
            i <= v@.len(),
            *v == *old(v),
            forall|k: int| 0 <= k < i ==> v@[k] != x,
            forall|k1: int, k2: int|
                #![trigger old(v)@[k1], old(v)@[k2]]
                0 <= k1 < k2 < old(v)@.len() ==> old(v)@[k1] != old(v)@[k2],
        decreases v@.len() - i,
    {
        if v[i] == x {
            v.remove(i);
            proof {
                let s0 = old(v)@;
                let s1 = v@;
                assert(s1 =~= s0.subrange(0, i as int) + s0.subrange(i as int + 1, s0.len() as int));
                assert(s0.contains(x)) by {
                    assert(s0[i as int] == x);
                }
                assert forall|k: int| 0 <= k < s1.len() implies s1[k] != x by {
                    if k < i as int {
                        assert(s1[k] == s0[k]);
                    } else {
                        assert(s1[k] == s0[k + 1]);
                        assert(old(v)@[i as int] != old(v)@[k + 1]);
                    }
                }
                assert forall|k1: int, k2: int|
                    #![trigger s1[k1], s1[k2]]
                    0 <= k1 < k2 < s1.len() implies s1[k1] != s1[k2] by {
                    let m1 = if k1 < i as int {
                        k1
                    } else {
                        k1 + 1
                    };
                    let m2 = if k2 < i as int {
                        k2
                    } else {
                        k2 + 1
                    };
                    assert(s1[k1] == s0[m1]);
                    assert(s1[k2] == s0[m2]);
                    assert(0 <= m1 < m2 < s0.len());
                    assert(old(v)@[m1] != old(v)@[m2]);
                }
                assert forall|y: u64| y != x implies s1.contains(y) == s0.contains(y) by {
                    if s1.contains(y) {
                        let k = choose|k: int| 0 <= k < s1.len() && s1[k] == y;
                        if k < i as int {
                            assert(s0[k] == y);
                        } else {
                            assert(s0[k + 1] == y);
                        }
                        assert(s0.contains(y));
                    }
                    if s0.contains(y) {
                        let m = choose|m: int| 0 <= m < s0.len() && s0[m] == y;
                        if m < i as int {
                            assert(s1[m] == y);
                        } else {
                            assert(m != i as int);
                            assert(s1[m - 1] == y);
                        }
                        assert(s1.contains(y));
                    }
                }
            }
            return true;
        }
        i = i + 1;
    }
    proof {
        assert(forall|k: int| 0 <= k < v@.len() ==> v@[k] != x);
    }
    false
}

} // verus!
