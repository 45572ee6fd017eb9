//! A server-side WebSocket protocol engine.
//!
//! The crate decodes and encodes RFC 6455 frames (fragmentation, masking and
//! control frames included), negotiates the HTTP upgrade handshake, and runs
//! the per-connection protocol state machine as a pure transition function
//! from buffered bytes to state changes, queued frames and dispatch outputs.
//! Socket I/O, timers and callback registries live outside the crate; they
//! feed raw bytes in and perform the actions the engine hands back.

pub mod connection;
pub mod frame;
pub mod handshake;
pub mod http;
pub mod packet;

use vstd::prelude::*;

verus! {

/// The kind of a delivered message; text is the only kind delivered as a
/// decoded string.
#[derive(Debug)]
pub enum MessageKind {
    String,
}

/// A decoded text message handed to message callbacks.
#[derive(Debug)]
pub struct Message {
    pub kind: MessageKind,
    pub string: String,
}

} // verus!
