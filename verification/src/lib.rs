//! A non-blocking TCP connection layer that reassembles length-prefixed
//! message frames from a byte stream and multiplexes outbound frames onto a
//! socket.
//!
//! The layer is split in two directions, one object each:
//!
//! - [`connection::IncomingConnection`] owns one in-progress [`frame::Frame`]
//!   and fills it chunk by chunk as the socket delivers bytes, handing a
//!   complete frame to the caller the instant its last byte arrives.
//! - [`connection::OutgoingConnection`] owns a first-in-first-out queue of
//!   complete frames and drains it front to back, resuming a partially sent
//!   head frame at exactly the first unsent byte.
//!
//! The sockets themselves are driven by the embedding program: this crate
//! holds the state machines, which react to the outcome of each single
//! non-blocking read or write attempt.

pub mod connection;
pub mod frame;
pub mod laws;
