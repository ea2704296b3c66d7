//! Core logic of a TCP reverse-tunneling service: the framed wire codec,
//! the shared-secret challenge/response authenticator, the rendezvous table
//! for pending visitor connections, and the server- and client-side control
//! state machines. Socket handling lives outside this crate; everything here
//! works on plain values and is verified.

use vstd::prelude::*;

pub mod auth;
pub mod client;
pub mod codec;
pub mod frame;
pub mod hexstr;
pub mod id;
pub mod msg;
pub mod rendezvous;
pub mod server;
pub mod wire;

verus! {

/// TCP port on which the server accepts control connections.
pub const CONTROL_PORT: u16 = 7835;

/// Maximum byte length of a single frame, terminator excluded.
pub const MAX_FRAME_LENGTH: usize = 256;

/// Timeout in milliseconds for connects and initial protocol messages.
pub const NETWORK_TIMEOUT_MS: u64 = 3000;

} // verus!
