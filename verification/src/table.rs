//! The connection table: a fixed-capacity, index-addressable arena with
//! slot recycling.  It is the sole owner of all connections; a slot number
//! is reused after removal, which is why a `ConnectionUid` carries a
//! disambiguator distinct from the slot number.

use vstd::prelude::*;

use crate::codec::MSG_HDR_SIZE;
use crate::conn::Connection;
use crate::types::{Addr, ConnectionUid};

verus! {

/// How many of these slots are occupied.
pub open spec fn count_live(s: Seq<Option<Connection>>) -> nat
    decreases s.len(),
{
    if s.len() == 0 {
        0nat
    } else {
        count_live(s.drop_last()) + if s.last() is Some {
            1nat
        } else {
            0nat
        }
    }
}

proof fn lemma_count_le(s: Seq<Option<Connection>>)
    ensures
        count_live(s) <= s.len(),
    decreases s.len(),
{
    if s.len() > 0 {
        lemma_count_le(s.drop_last());
    }
}

proof fn lemma_count_full(s: Seq<Option<Connection>>)
    requires
        forall|j: int| 0 <= j < s.len() ==> s[j] is Some,
    ensures
        count_live(s) == s.len(),
    decreases s.len(),
{
    if s.len() > 0 {
        assert(forall|j: int| 0 <= j < s.drop_last().len() ==> s.drop_last()[j] == s[j]);
        lemma_count_full(s.drop_last());
    }
}

proof fn lemma_count_lt_if_none(s: Seq<Option<Connection>>, i: int)
    requires
        0 <= i < s.len(),
        s[i] is None,
    ensures
        count_live(s) < s.len(),
    decreases s.len(),
{
    if i == s.len() - 1 {
        lemma_count_le(s.drop_last());
    } else {
        assert(s.drop_last()[i] == s[i]);
        lemma_count_lt_if_none(s.drop_last(), i);
    }
}

proof fn lemma_count_none(s: Seq<Option<Connection>>)
    requires
        forall|j: int| 0 <= j < s.len() ==> s[j] is None,
    ensures
        count_live(s) == 0,
    decreases s.len(),
{
    if s.len() > 0 {
        assert(forall|j: int| 0 <= j < s.drop_last().len() ==> s.drop_last()[j] == s[j]);
        lemma_count_none(s.drop_last());
    }
}

proof fn lemma_count_update(s: Seq<Option<Connection>>, i: int, v: Option<Connection>)
    requires
        0 <= i < s.len(),
    ensures
        count_live(s.update(i, v)) == count_live(s) + (if v is Some {
            1int
        } else {
            0int
        }) - (if s[i] is Some {
            1int
        } else {
            0int
        }),
    decreases s.len(),
{
    let t = s.update(i, v);
    if i == s.len() - 1 {
        assert(t.drop_last() =~= s.drop_last());
        assert(t.last() == v);
    } else {
        assert(t.drop_last() =~= s.drop_last().update(i, v));
        assert(t.last() == s.last());
        lemma_count_update(s.drop_last(), i, v);
    }
}

/// A capacity-bounded, slot-reusing container mapping a slot index to a
/// connection.
pub struct ConnTable {
    slots: Vec<Option<Connection>>,
    max_msg: usize,
}

impl ConnTable {
    /// The fixed number of slots.
    pub closed spec fn capacity(self) -> nat {
        self.slots@.len()
    }

    /// How many slots hold a live connection.
    pub closed spec fn live_count(self) -> nat {
        count_live(self.slots@)
    }

    /// Whether this slot holds a live connection.
    pub closed spec fn is_live(self, slot: int) -> bool {
        0 <= slot < self.slots@.len() && self.slots@[slot] is Some
    }

    /// The connection in a live slot.
    pub closed spec fn conn_at(self, slot: int) -> Connection {
        self.slots@[slot]->0
    }

    /// The maximum payload size every connection is configured with.
    pub closed spec fn spec_max_msg(self) -> nat {
        self.max_msg as nat
    }

    pub closed spec fn wf(self) -> bool {
        &&& self.max_msg + MSG_HDR_SIZE <= u32::MAX
        &&& forall|i: int|
            #![trigger self.slots@[i]]
            0 <= i < self.slots@.len() && self.slots@[i] is Some ==> {
                &&& self.slots@[i]->0.wf()
                &&& self.slots@[i]->0.spec_uid().slot == i
                &&& self.slots@[i]->0.max_msg() == self.max_msg as nat
            }
    }

    /// The table never holds more connections than its capacity.
    pub proof fn lemma_capacity_bound(self)
        ensures
            self.live_count() <= self.capacity(),
    {
        lemma_count_le(self.slots@);
    }

    /// A live slot's index is within the table's capacity.
    pub proof fn lemma_live_in_range(self, slot: int)
        ensures
            self.is_live(slot) ==> 0 <= slot < self.capacity(),
    {
    }

    /// A table with no live slot holds no connection at all.
    pub proof fn lemma_none_live_count_zero(self)
        requires
            forall|j: int| !self.is_live(j),
        ensures
            self.live_count() == 0,
    {
        assert forall|j: int| 0 <= j < self.slots@.len() implies self.slots@[j] is None by {
            assert(!self.is_live(j));
        }
        lemma_count_none(self.slots@);
    }

    /// What well-formedness gives of each live connection: it is itself
    /// well formed, its uid names its own slot, and it is configured with
    /// the table's maximum message size.
    pub proof fn lemma_wf_at(self, slot: int)
        requires
            self.wf(),
            self.is_live(slot),
        ensures
            self.conn_at(slot).wf(),
            self.conn_at(slot).spec_uid().slot == slot,
            self.conn_at(slot).max_msg() == self.spec_max_msg(),
    {
    }

    /// The fixed number of slots, as an executable value.
    pub fn capacity_exec(&self) -> (r: usize)
        ensures
            r == self.capacity(),
    {
        self.slots.len()
    }

    /// An empty table of the given capacity.
    pub fn new(capacity: usize, max_msg: usize) -> (r: Self)
        requires
            max_msg + MSG_HDR_SIZE <= u32::MAX,
        ensures
            r.wf(),
            r.capacity() == capacity,
            r.live_count() == 0,
            r.spec_max_msg() == max_msg,
            forall|i: int| !r.is_live(i),
    {
        let mut slots: Vec<Option<Connection>> = Vec::new();
        let mut n: usize = 0;
        while n < capacity
            invariant
                n == slots@.len(),
                n <= capacity,
                forall|i: int| 0 <= i < n ==> slots@[i] is None,
                count_live(slots@) == 0,
            decreases capacity - n,
        {
            proof {
                assert(slots@.push(None).drop_last() =~= slots@);
            }
            slots.push(None);
            n = n + 1;
        }
        ConnTable { slots, max_msg }
    }

    /// Inserts a fresh connection into the lowest free slot, or refuses
    /// when every slot is taken.  The new connection's uid carries the
    /// assigned slot and a fresh random disambiguator.
    pub fn insert(&mut self, addr: Addr, connecting: bool) -> (r: Option<usize>)
        requires
            old(self).wf(),
        ensures
            final(self).wf(),
            final(self).capacity() == old(self).capacity(),
            final(self).spec_max_msg() == old(self).spec_max_msg(),
            r is None <==> old(self).live_count() == old(self).capacity(),
            r is None ==> *final(self) == *old(self),
            r is Some ==> {
                let s = r->0 as int;
                &&& 0 <= s < old(self).capacity()
                &&& !old(self).is_live(s)
                &&& final(self).is_live(s)
                &&& final(self).live_count() == old(self).live_count() + 1
                &&& final(self).conn_at(s).spec_uid().slot == r->0
                &&& final(self).conn_at(s).spec_uid().addr == addr
                &&& final(self).conn_at(s).inbound() == Seq::<u8>::empty()
                &&& final(self).conn_at(s).outbound() == Seq::<u8>::empty()
                &&& final(self).conn_at(s).spec_state() == (if connecting {
                    crate::conn::ConnState::Connecting(addr)
                } else {
                    crate::conn::ConnState::Ready
                })
                &&& final(self).conn_at(s).spec_interest() == (crate::types::Interest {
                    readable: !connecting,
                    writable: connecting,
                })
                &&& forall|j: int| j != s ==> old(self).is_live(j) == final(self).is_live(j)
                &&& forall|j: int|
                    #![trigger final(self).conn_at(j)]
                    j != s && old(self).is_live(j) ==> final(self).conn_at(j) == old(
                        self,
                    ).conn_at(j)
            },
    {
        let n = self.slots.len();
        let mut i: usize = 0;
        while i < n
            invariant
                n == self.slots@.len(),
                i <= n,
                self.wf(),
                *self == *old(self),
                forall|j: int| 0 <= j < i ==> self.slots@[j] is Some,
            decreases n - i,
        {
            if self.slots[i].is_none() {
                proof {
                    lemma_count_lt_if_none(self.slots@, i as int);
                }
                let c = Connection::new(i, addr, connecting, self.max_msg);
                proof {
                    lemma_count_update(self.slots@, i as int, Some(c));
                }
                self.slots[i] = Some(c);
                proof {
                    assert(self.slots@ == old(self).slots@.update(i as int, Some(c)));
                    assert forall|j: int|
                        0 <= j < self.slots@.len() && self.slots@[j] is Some implies {
                        &&& self.slots@[j]->0.wf()
                        &&& self.slots@[j]->0.spec_uid().slot == j
                        &&& self.slots@[j]->0.max_msg() == self.max_msg as nat
                    } by {
                        if j != i as int {
                            assert(self.slots@[j] == old(self).slots@[j]);
                        }
                    }
                }
                return Some(i);
            }
            i = i + 1;
        }
        proof {
            lemma_count_full(self.slots@);
        }
        None
    }

    /// The uid of the connection in a slot, if the slot is live.
    pub fn uid_of(&self, slot: usize) -> (r: Option<ConnectionUid>)
        requires
            self.wf(),
        ensures
            r is Some <==> self.is_live(slot as int),
            r is Some ==> r->0 == self.conn_at(slot as int).spec_uid(),
    {
        if slot >= self.slots.len() {
            return None;
        }
        match self.slots[slot].as_ref() {
            Some(c) => Some(c.uid()),
            None => None,
        }
    }

    /// A shared view of the connection in a slot.
    pub fn get(&self, slot: usize) -> (r: Option<&Connection>)
        requires
            self.wf(),
        ensures
            r is Some <==> self.is_live(slot as int),
            r is Some ==> *r->0 == self.conn_at(slot as int),
    {
        if slot >= self.slots.len() {
            return None;
        }
        self.slots[slot].as_ref()
    }

    /// Takes the connection out of a slot, leaving the slot free for a
    /// later occupant; the caller puts it back with `put`.
    pub fn take(&mut self, slot: usize) -> (r: Option<Connection>)
        requires
            old(self).wf(),
        ensures
            final(self).wf(),
            final(self).capacity() == old(self).capacity(),
            final(self).spec_max_msg() == old(self).spec_max_msg(),
            r is Some <==> old(self).is_live(slot as int),
            r is None ==> {
                &&& final(self).live_count() == old(self).live_count()
                &&& forall|j: int| final(self).is_live(j) == old(self).is_live(j)
                &&& forall|j: int|
                    #![trigger final(self).conn_at(j)]
                    old(self).is_live(j) ==> final(self).conn_at(j) == old(self).conn_at(j)
            },
            r is Some ==> {
                &&& r->0 == old(self).conn_at(slot as int)
                &&& !final(self).is_live(slot as int)
                &&& final(self).live_count() == old(self).live_count() - 1
                &&& forall|j: int| j != slot ==> old(self).is_live(j) == final(self).is_live(j)
                &&& forall|j: int|
                    #![trigger final(self).conn_at(j)]
                    j != slot && old(self).is_live(j) ==> final(self).conn_at(j) == old(
                        self,
                    ).conn_at(j)
            },
    {
        if slot >= self.slots.len() {
            return None;
        }
        proof {
            lemma_count_update(self.slots@, slot as int, None);
        }
        let r = self.slots[slot].take();
        proof {
            assert(self.slots@ =~= old(self).slots@.update(slot as int, None));
        }
        if r.is_none() {
            proof {
                assert(self.slots@ =~= old(self).slots@);
            }
        }
        r
    }

    /// Puts a connection back into the free slot its uid names.
    pub fn put(&mut self, slot: usize, conn: Connection)
        requires
            old(self).wf(),
            !old(self).is_live(slot as int),
            slot < old(self).capacity(),
            conn.wf(),
            conn.spec_uid().slot == slot,
            conn.max_msg() == old(self).spec_max_msg(),
        ensures
            final(self).wf(),
            final(self).capacity() == old(self).capacity(),
            final(self).spec_max_msg() == old(self).spec_max_msg(),
            final(self).is_live(slot as int),
            final(self).conn_at(slot as int) == conn,
            final(self).live_count() == old(self).live_count() + 1,
            forall|j: int| j != slot ==> old(self).is_live(j) == final(self).is_live(j),
            forall|j: int|
                #![trigger final(self).conn_at(j)]
                j != slot && old(self).is_live(j) ==> final(self).conn_at(j) == old(self).conn_at(
                    j,
                ),
    {
        proof {
            lemma_count_update(self.slots@, slot as int, Some(conn));
        }
        self.slots[slot] = Some(conn);
    }

    /// Removes and returns the uid of the connection in a slot; the slot
    /// number becomes free for reuse.
    pub fn remove(&mut self, slot: usize) -> (r: Option<ConnectionUid>)
        requires
            old(self).wf(),
        ensures
            final(self).wf(),
            final(self).capacity() == old(self).capacity(),
            final(self).spec_max_msg() == old(self).spec_max_msg(),
            r is Some <==> old(self).is_live(slot as int),
            r is None ==> {
                &&& final(self).live_count() == old(self).live_count()
                &&& forall|j: int| final(self).is_live(j) == old(self).is_live(j)
                &&& forall|j: int|
                    #![trigger final(self).conn_at(j)]
                    old(self).is_live(j) ==> final(self).conn_at(j) == old(self).conn_at(j)
            },
            r is Some ==> {
                &&& r->0 == old(self).conn_at(slot as int).spec_uid()
                &&& !final(self).is_live(slot as int)
                &&& final(self).live_count() == old(self).live_count() - 1
                &&& forall|j: int| j != slot ==> old(self).is_live(j) == final(self).is_live(j)
                &&& forall|j: int|
                    #![trigger final(self).conn_at(j)]
                    j != slot && old(self).is_live(j) ==> final(self).conn_at(j) == old(
                        self,
                    ).conn_at(j)
            },
    {
        match self.take(slot) {
            Some(c) => Some(c.uid()),
            None => None,
        }
    }
}

} // verus!
