//! A tick-polled WebSocket multiplexer core.
//!
//! The library holds the verified heart of a message-oriented networking
//! layer: a codec that frames typed messages as binary WebSocket payloads, a
//! bounded outbound channel, a registry of live server-side connections, and
//! the client connection state machine.  Asynchronous socket I/O lives
//! outside; it hands frames and lifecycle events in, and takes frames and
//! connect decisions out, so that everything the host observes at a tick
//! boundary is governed by the contracts proved here.

pub mod channel;
pub mod client;
pub mod codec;
pub mod identity;
pub mod registry;
