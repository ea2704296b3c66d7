//! Client-side control logic: interpreting the server's reply to `Hello`,
//! and reacting to messages on the long-lived control connection. The
//! caller owns the sockets and runs these decisions in its control loop
//! and in each data-leg task.

use vstd::prelude::*;

use vstd::string::StringExecFns;

use crate::auth::{sha256_of, Authenticator};
use crate::id::ConnectionId;
use crate::msg::{ServerMessage, ServerMessageV};

verus! {

/// Why the client's construction handshake failed.
#[derive(Debug)]
pub enum ClientError {
    /// The server answered the `Hello` with an `Error` frame.
    ServerError(String),
    /// The server demanded authentication but no secret was configured.
    NoClientSecret,
    /// The server sent something other than `Hello`, `Error` or
    /// `Challenge` as its first reply.
    UnexpectedMessage,
    /// The stream ended before any reply.
    UnexpectedEof,
}

impl ClientError {
    pub open spec fn spec_message(&self) -> Seq<char> {
        match self {
            ClientError::ServerError(m) => "server error: "@ + m@,
            ClientError::NoClientSecret => "server requires authentication, but no client secret was provided"@,
            ClientError::UnexpectedMessage => "unexpected initial non-hello message"@,
            ClientError::UnexpectedEof => "unexpected EOF"@,
        }
    }

    /// The text surfaced to the caller.
    pub fn message(&self) -> (r: String)
        ensures
            r@ == self.spec_message(),
    {
        match self {
            ClientError::ServerError(m) => String::from_str("server error: ").concat(m.as_str()),
            ClientError::NoClientSecret => String::from_str(
                "server requires authentication, but no client secret was provided",
            ),
            ClientError::UnexpectedMessage => String::from_str(
                "unexpected initial non-hello message",
            ),
            ClientError::UnexpectedEof => String::from_str("unexpected EOF"),
        }
    }
}

/// What the control loop does with one received message.
pub enum ControlAction {
    /// `Connection(id)`: open a fresh data connection for this visitor.
    OpenDataConnection(ConnectionId),
    /// `Heartbeat`: nothing to do.
    Ignore,
    /// A mid-session `Hello` or `Challenge`: log it and go on.
    LogUnexpected,
    /// `Error(msg)`: log the server's error and go on; EOF follows.
    LogError(String),
    /// End of stream: exit the loop cleanly.
    Shutdown,
}

/// Client configuration and session state: where to reach the server,
/// which local service is exposed, and the public port once assigned.
pub struct Client {
    /// Host of the local service being exposed.
    pub local_host: String,
    /// Port of the local service being exposed.
    pub local_port: u16,
    /// Address of the server.
    pub to: String,
    /// The requested public port until the server replies, then the
    /// assigned one.
    pub remote_port: u16,
    /// Present exactly when a secret is configured.
    pub auth: Option<Authenticator>,
}

impl Client {
    /// A client that will expose `local_host:local_port` through the server
    /// at `to`, asking for `port` (0 for any) on the public side.
    pub fn new(local_host: &str, local_port: u16, to: &str, port: u16, secret: Option<&str>) -> (r:
        Client)
        ensures
            r.local_host@ == local_host@,
            r.local_port == local_port,
            r.to@ == to@,
            r.remote_port == port,
            match secret {
                Some(sec) => r.auth matches Some(a) && a@ == sha256_of(
                    vstd::utf8::encode_utf8(sec@),
                ),
                None => r.auth is None,
            },
    {
        let auth = match secret {
            Some(sec) => Some(Authenticator::new(sec)),
            None => None,
        };
        Client {
            local_host: String::from_str(local_host),
            local_port,
            to: String::from_str(to),
            remote_port: port,
            auth,
        }
    }

    /// Interprets the server's first reply after `Hello(requested)`: on
    /// `Hello(assigned)` the session is up and `remote_port` becomes the
    /// assigned port; anything else fails construction with the exact
    /// reason, leaving the client unchanged.
    pub fn accept_hello(&mut self, reply: Option<ServerMessage>) -> (r: Result<(), ClientError>)
        ensures
            match r {
                Ok(_) => reply matches Some(m) && m@ == ServerMessageV::Hello(
                    final(self).remote_port,
                ) && final(self).local_host == old(self).local_host && final(self).local_port == old(
                    self,
                ).local_port && final(self).to == old(self).to && final(self).auth == old(
                    self,
                ).auth,
                Err(e) => *final(self) == *old(self) && (match e {
                    ClientError::ServerError(t) => reply matches Some(m) && m@
                        == ServerMessageV::Error(t@),
                    ClientError::NoClientSecret => reply matches Some(m) && m@ is Challenge,
                    ClientError::UnexpectedMessage => reply matches Some(m) && (m@ is Heartbeat
                        || m@ is Connection),
                    ClientError::UnexpectedEof => reply is None,
                }),
            },
    {
        match reply {
            Some(ServerMessage::Hello(assigned)) => {
                self.remote_port = assigned;
                Ok(())
            },
            Some(ServerMessage::Error(message)) => Err(ClientError::ServerError(message)),
            Some(ServerMessage::Challenge(_)) => Err(ClientError::NoClientSecret),
            Some(_) => Err(ClientError::UnexpectedMessage),
            None => Err(ClientError::UnexpectedEof),
        }
    }

    /// The port publicly reachable on the server.
    pub fn remote_port(&self) -> (r: u16)
        ensures
            r == self.remote_port,
    {
        self.remote_port
    }

    /// One step of the control loop: what to do with the next message.
    pub fn control_step(msg: Option<ServerMessage>) -> (r: ControlAction)
        ensures
            match r {
                ControlAction::OpenDataConnection(id) => msg matches Some(m) && m@
                    == ServerMessageV::Connection(id@),
                ControlAction::Ignore => msg matches Some(m) && m@ is Heartbeat,
                ControlAction::LogUnexpected => msg matches Some(m) && (m@ is Hello
                    || m@ is Challenge),
                ControlAction::LogError(t) => msg matches Some(m) && m@ == ServerMessageV::Error(
                    t@,
                ),
                ControlAction::Shutdown => msg is None,
            },
    {
        match msg {
            Some(ServerMessage::Hello(_)) => ControlAction::LogUnexpected,
            Some(ServerMessage::Challenge(_)) => ControlAction::LogUnexpected,
            Some(ServerMessage::Heartbeat) => ControlAction::Ignore,
            Some(ServerMessage::Connection(id)) => ControlAction::OpenDataConnection(id),
            Some(ServerMessage::Error(err)) => ControlAction::LogError(err),
            None => ControlAction::Shutdown,
        }
    }
}

} // verus!
