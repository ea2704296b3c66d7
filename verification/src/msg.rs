//! The control-protocol messages and their mathematical views.

use vstd::prelude::*;

use crate::id::ConnectionId;

verus! {

/// A message sent by the client on a control or data connection.
pub enum ClientMessage {
    /// Response to an authentication challenge from the server.
    Authenticate(String),
    /// Initial client message requesting a public port; 0 means any.
    Hello(u16),
    /// Claims a waiting visitor connection, turning this stream into a proxy.
    Accept(ConnectionId),
}

/// A message sent by the server on a control connection.
pub enum ServerMessage {
    /// Authentication challenge, sent first when a secret is configured.
    Challenge(ConnectionId),
    /// Reply to the client's `Hello`, carrying the assigned public port.
    Hello(u16),
    /// Liveness probe.
    Heartbeat,
    /// Asks the client to dial back and accept a waiting visitor.
    Connection(ConnectionId),
    /// Fatal protocol error; the connection closes afterwards.
    Error(String),
}

/// Mathematical view of a `ClientMessage`.
pub enum ClientMessageV {
    Authenticate(Seq<char>),
    Hello(u16),
    Accept(Seq<u8>),
}

/// Mathematical view of a `ServerMessage`.
pub enum ServerMessageV {
    Challenge(Seq<u8>),
    Hello(u16),
    Heartbeat,
    Connection(Seq<u8>),
    Error(Seq<char>),
}

impl View for ClientMessage {
    type V = ClientMessageV;

    open spec fn view(&self) -> ClientMessageV {
        match self {
            ClientMessage::Authenticate(s) => ClientMessageV::Authenticate(s@),
            ClientMessage::Hello(p) => ClientMessageV::Hello(*p),
            ClientMessage::Accept(id) => ClientMessageV::Accept(id@),
        }
    }
}

impl View for ServerMessage {
    type V = ServerMessageV;

    open spec fn view(&self) -> ServerMessageV {
        match self {
            ServerMessage::Challenge(id) => ServerMessageV::Challenge(id@),
            ServerMessage::Hello(p) => ServerMessageV::Hello(*p),
            ServerMessage::Heartbeat => ServerMessageV::Heartbeat,
            ServerMessage::Connection(id) => ServerMessageV::Connection(id@),
            ServerMessage::Error(s) => ServerMessageV::Error(s@),
        }
    }
}

/// A character that may ride inside a JSON string on this wire:
/// printable ASCII. Quote and backslash are allowed; the codec escapes them.
pub open spec fn char_clean(c: char) -> bool {
    ' ' <= c && c <= '~'
}

/// A string payload that the codec can carry.
pub open spec fn str_clean(s: Seq<char>) -> bool {
    forall|i: int| 0 <= i < s.len() ==> char_clean(#[trigger] s[i])
}

/// Client messages representable on the wire.
pub open spec fn client_wire_ok(v: ClientMessageV) -> bool {
    match v {
        ClientMessageV::Authenticate(s) => str_clean(s),
        ClientMessageV::Hello(_) => true,
        ClientMessageV::Accept(b) => b.len() == 16,
    }
}

/// Server messages representable on the wire.
pub open spec fn server_wire_ok(v: ServerMessageV) -> bool {
    match v {
        ServerMessageV::Challenge(b) => b.len() == 16,
        ServerMessageV::Hello(_) => true,
        ServerMessageV::Heartbeat => true,
        ServerMessageV::Connection(b) => b.len() == 16,
        ServerMessageV::Error(s) => str_clean(s),
    }
}

} // verus!
