//! Plain value types shared by the event-driven server core: peer
//! addresses, connection identities, interest sets, and errors.

use vstd::prelude::*;

verus! {

/// A peer address as the core reads it: the numeric address (IPv4 mapped
/// into the low 32 bits) and the port.  The reactor layer converts between
/// this and the operating system's socket address type.
#[derive(Copy, Clone, Debug, Hash, PartialEq, Eq, Structural)]
pub struct Addr {
    pub ip: u128,
    pub port: u16,
}

/// Unique id identifying a given connection across its whole lifetime.
///
/// Slots are reused once a connection closes, so the slot number alone
/// would be ambiguous: the random `id` disambiguates successive occupants
/// of the same slot.  Every operation through a captured uid first compares
/// the full uid against the live connection's uid.
#[derive(Copy, Clone, Debug, Hash, PartialEq, Eq, Structural)]
pub struct ConnectionUid {
    /// Random disambiguator drawn when the connection is inserted.
    pub id: u32,
    /// Index of the connection's slot in the connection table.
    pub slot: usize,
    /// The peer's address.
    pub addr: Addr,
}

/// Errors of the server core.
#[derive(Debug)]
pub enum Error {
    /// A socket-level failure, described by the reporting layer.
    Io(String),
    /// A timer could not be armed.
    Timer(String),
    /// The connection table is at capacity.
    ConnectionLimit,
    /// A peer declared a frame length above the configured maximum.
    ProtocolViolation(usize),
}

/// The readiness interest a connection currently needs.  Hangup and error
/// events are always watched; readable and writable vary with the
/// connection's state.
#[derive(Copy, Clone, Debug, PartialEq, Eq, Structural)]
pub struct Interest {
    pub readable: bool,
    pub writable: bool,
}

} // verus!
