//! Server-side control logic: port allocation within the configured range,
//! the dispatch of a connection's first message, and the hosting loop's
//! reaction to arriving visitors. All socket work stays with the caller,
//! which runs these decisions in its accept and heartbeat loops.

use vstd::prelude::*;

use vstd::string::StringExecFns;

use crate::auth::{sha256_of, Authenticator};
use crate::id::ConnectionId;
use crate::msg::{ClientMessage, ClientMessageV, ServerMessage, ServerMessageV};
use crate::rendezvous::RendezvousTable;

verus! {

/// How many random ports are tried for a `Hello(0)` request before giving
/// up: enough for a miss probability below 1e-5 at 85% port utilization.
pub const MAX_PORT_ATTEMPTS: usize = 150;

/// Relies on `fastrand::u16` over the full range: some `u16`, drawn from a
/// thread-local generator.
#[verifier::external_body]
fn random_u16() -> u16 {
    fastrand::u16(..)
}

/// Server configuration: the allowed public port range and the optional
/// authenticator derived from the shared secret.
pub struct Server {
    /// Smallest public port that may be assigned.
    pub min_port: u16,
    /// Largest public port that may be assigned.
    pub max_port: u16,
    /// Present exactly when a secret is configured.
    pub auth: Option<Authenticator>,
}

/// What the first client message on a control connection asks for.
pub enum FirstDecision {
    /// `Authenticate` outside a handshake: log and close.
    UnexpectedAuthenticate,
    /// `Hello(port)`: enter host mode with this requested port, 0 for any.
    Host(u16),
    /// `Accept(id)`: this stream is the data leg for a waiting visitor.
    Forward(ConnectionId),
    /// Clean end of stream before any message: close quietly.
    CloseQuiet,
}

/// How a bind attempt on a specific port failed.
#[derive(Debug)]
pub enum BindError {
    /// The port is taken.
    AddrInUse,
    /// The process may not bind it.
    PermissionDenied,
    /// Any other bind failure.
    Other,
}

impl BindError {
    pub open spec fn spec_message(&self) -> Seq<char> {
        match self {
            BindError::AddrInUse => "port already in use"@,
            BindError::PermissionDenied => "permission denied"@,
            BindError::Other => "failed to bind to port"@,
        }
    }

    /// The text sent to the client in an `Error` frame.
    pub fn message(&self) -> (r: String)
        ensures
            r@ == self.spec_message(),
    {
        match self {
            BindError::AddrInUse => String::from_str("port already in use"),
            BindError::PermissionDenied => String::from_str("permission denied"),
            BindError::Other => String::from_str("failed to bind to port"),
        }
    }
}

impl Server {
    /// A server for the closed port interval `[min_port, max_port]`, with a
    /// challenge/response authenticator exactly when a secret is given.
    /// Construction fails exactly when the interval is empty.
    pub fn new(min_port: u16, max_port: u16, secret: Option<&str>) -> (r: Option<Server>)
        ensures
            match r {
                Some(s) => min_port <= max_port && s.min_port == min_port && s.max_port == max_port
                    && (match secret {
                    Some(sec) => s.auth matches Some(a) && a@ == sha256_of(
                        vstd::utf8::encode_utf8(sec@),
                    ),
                    None => s.auth is None,
                }),
                None => min_port > max_port,
            },
    {
        if min_port > max_port {
            return None;
        }
        let auth = match secret {
            Some(sec) => Some(Authenticator::new(sec)),
            None => None,
        };
        Some(Server { min_port, max_port, auth })
    }

    /// Whether a port lies in the configured range.
    pub open spec fn port_ok(&self, p: u16) -> bool {
        self.min_port <= p <= self.max_port
    }

    /// Whether a client's `Hello(port)` request is acceptable: any port at
    /// all, or a specific port inside the range.
    pub fn check_requested(&self, port: u16) -> (r: bool)
        ensures
            r == (port == 0 || self.port_ok(port)),
    {
        port == 0 || (self.min_port <= port && port <= self.max_port)
    }

    /// The text sent to the client when its requested port is rejected.
    pub fn range_error_message(&self) -> (r: String)
        ensures
            r@ == "client port number not in allowed range"@,
    {
        String::from_str("client port number not in allowed range")
    }

    /// The text sent when no random port could be bound.
    pub fn exhausted_error_message(&self) -> (r: String)
        ensures
            r@ == "failed to find an available port"@,
    {
        String::from_str("failed to find an available port")
    }

    /// Maps a random draw onto the configured range; every assigned port
    /// for a `Hello(0)` request comes from here, so it always lies between
    /// `min_port` and `max_port`.
    pub fn draw_port(&self, rnd: u16) -> (p: u16)
        requires
            self.min_port <= self.max_port,
        ensures
            self.port_ok(p),
            p == self.min_port + (rnd as int) % (self.max_port - self.min_port + 1),
    {
        let span: u32 = (self.max_port - self.min_port) as u32 + 1;
        let off: u32 = (rnd as u32) % span;
        proof {
            assert(off < span);
            assert(self.min_port + off <= self.max_port);
        }
        self.min_port + (off as u16)
    }

    /// A random candidate port inside the configured range.
    pub fn random_port(&self) -> (p: u16)
        requires
            self.min_port <= self.max_port,
        ensures
            self.port_ok(p),
    {
        self.draw_port(random_u16())
    }

    /// Classifies the first message a control connection sends after the
    /// optional handshake.
    pub fn dispatch_first(msg: Option<ClientMessage>) -> (r: FirstDecision)
        ensures
            match r {
                FirstDecision::UnexpectedAuthenticate => msg matches Some(m) && m@ is Authenticate,
                FirstDecision::Host(p) => msg matches Some(m) && m@ == ClientMessageV::Hello(p),
                FirstDecision::Forward(id) => msg matches Some(m) && m@ == ClientMessageV::Accept(
                    id@,
                ),
                FirstDecision::CloseQuiet => msg is None,
            },
    {
        match msg {
            Some(ClientMessage::Authenticate(_)) => FirstDecision::UnexpectedAuthenticate,
            Some(ClientMessage::Hello(port)) => FirstDecision::Host(port),
            Some(ClientMessage::Accept(id)) => FirstDecision::Forward(id),
            None => FirstDecision::CloseQuiet,
        }
    }
}

/// A visitor arrived on the hosted port: mint a fresh identifier, file the
/// visitor's handle under it, and tell the client to dial back. The caller
/// must also start the stale evictor for the returned identifier.
pub fn visitor_event(table: &mut RendezvousTable, handle: u64) -> (r: (ConnectionId, ServerMessage))
    requires
        old(table).wf(),
    ensures
        final(table).wf(),
        r.0.wf(),
        final(table)@ == old(table)@.insert(r.0@, handle),
        r.1@ == ServerMessageV::Connection(r.0@),
{
    let id = ConnectionId::fresh();
    table.insert(&id, handle);
    let msg = ServerMessage::Connection(id.duplicate());
    (id, msg)
}

/// An `Accept(id)` arrived: atomically claim the waiting visitor, if the
/// entry is still pending. `Some` hands over the visitor's handle for
/// splicing; `None` means the entry was already claimed or evicted, and the
/// connection closes with only a log line.
pub fn forward_lookup(table: &mut RendezvousTable, id: &ConnectionId) -> (r: Option<u64>)
    requires
        old(table).wf(),
    ensures
        final(table).wf(),
        old(table)@.contains_key(id@) ==> r == Some(old(table)@[id@]) && final(table)@ == old(
            table,
        )@.remove(id@),
        !old(table)@.contains_key(id@) ==> r is None && final(table)@ == old(table)@,
        !final(table)@.contains_key(id@),
{
    table.remove(id)
}

} // verus!
