//! An embeddable, single-threaded, event-driven TCP server core for
//! exchanging length-prefixed binary messages with many concurrent peers,
//! together with two independent ordered-map containers.
//!
//! The networking core is split so that every decision — framing, parser
//! state, slot assignment and reuse, deferred mutation, shutdown ordering —
//! is verified here, while the reactor and the sockets live outside the
//! library and only feed it plain bytes and events.

pub mod btree;
pub mod codec;
pub mod conn;
pub mod mux;
pub mod rbtree;
pub mod server;
pub mod sync;
pub mod table;
pub mod types;

pub use btree::BTree;
pub use codec::network_to_u32;
pub use rbtree::RBTree;
