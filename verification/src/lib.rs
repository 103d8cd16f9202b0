//! A connection-management core for chat- and game-style servers.
//!
//! The library tracks many simultaneous clients under small, recyclable
//! integer identifiers. Each client first sends a handshake — a UTF-8 name
//! terminated by a single `0x00` byte — and afterwards an opaque byte
//! stream. The embedding application feeds accepted connections and inbound
//! bytes into a [`Lobby`], polls it with a non-blocking scan that reports
//! lifecycle, data and error events, and asks it which connections a
//! predicate-based broadcast should write to.
//!
//! The registry itself is a sequential state machine: the embedding
//! application supplies the sockets, threads and locking around it.

pub mod events;
pub mod ids;
pub mod conn;
pub mod utf8;
pub mod vmap;
pub mod model;
pub mod lobby;
pub mod laws;

pub use events::{NetError, ScanResult};
pub use lobby::Lobby;
