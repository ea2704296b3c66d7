//! Whole control sessions driven message by message: the server and client
//! state machines talk through the codec, with sockets replaced by plain
//! handles.

use bore_cli::auth::{AuthError, Authenticator};
use bore_cli::client::{Client, ClientError, ControlAction};
use bore_cli::codec::{decode_client, decode_server, encode_client, encode_server};
use bore_cli::frame::{FrameEvent, FrameReader};
use bore_cli::msg::{ClientMessage, ServerMessage};
use bore_cli::rendezvous::RendezvousTable;
use bore_cli::server::{forward_lookup, visitor_event, BindError, FirstDecision, Server};

/// Carries one message from the client to the server through the framing.
fn client_to_server(m: &ClientMessage) -> Option<ClientMessage> {
    let mut payload = encode_client(m).unwrap();
    payload.push(0);
    let mut reader = FrameReader::new();
    reader.push_chunk(&payload);
    match reader.next_event() {
        FrameEvent::Frame(f) => decode_client(&f),
        _ => None,
    }
}

/// Carries one message from the server to the client through the framing.
fn server_to_client(m: &ServerMessage) -> Option<ServerMessage> {
    let mut payload = encode_server(m).unwrap();
    payload.push(0);
    let mut reader = FrameReader::new();
    reader.push_chunk(&payload);
    match reader.next_event() {
        FrameEvent::Frame(f) => decode_server(&f),
        _ => None,
    }
}

#[test]
fn basic_proxy() {
    // No secret on either side.
    let server = Server::new(1024, 65535, None).unwrap();
    let mut client = Client::new("localhost", 4000, "localhost", 0, None);
    let mut table = RendezvousTable::new();

    // Client greets; the server dispatches it into host mode.
    let first = client_to_server(&ClientMessage::Hello(client.remote_port()));
    let requested = match Server::dispatch_first(first) {
        FirstDecision::Host(p) => p,
        _ => panic!("expected host mode"),
    };
    assert_eq!(requested, 0);
    assert!(server.check_requested(requested));

    // The server picks a public port and replies.
    let port = server.random_port();
    assert!(1024 <= port);
    let reply = server_to_client(&ServerMessage::Hello(port));
    client.accept_hello(reply).unwrap();
    assert_eq!(client.remote_port(), port);

    // A visitor arrives; handle 7 stands for its socket.
    let (id, conn_msg) = visitor_event(&mut table, 7);

    // Heartbeats are ignored; the dispatch spawns a data leg.
    assert!(matches!(
        Client::control_step(server_to_client(&ServerMessage::Heartbeat)),
        ControlAction::Ignore
    ));
    let leg_id = match Client::control_step(server_to_client(&conn_msg)) {
        ControlAction::OpenDataConnection(i) => i,
        _ => panic!("expected a data-leg dispatch"),
    };
    assert!(leg_id.same_as(&id));

    // The data leg dials back with Accept; the server splices handle 7.
    let accept = client_to_server(&ClientMessage::Accept(leg_id));
    let forward_id = match Server::dispatch_first(accept) {
        FirstDecision::Forward(i) => i,
        _ => panic!("expected forward mode"),
    };
    assert_eq!(forward_lookup(&mut table, &forward_id), Some(7));

    // The entry was handed off exactly once: a second taker gets nothing.
    assert_eq!(forward_lookup(&mut table, &forward_id), None);
}

#[test]
fn matching_secret() {
    let server = Server::new(1024, 65535, Some("abc")).unwrap();
    let client = Client::new("localhost", 4000, "localhost", 0, Some("abc"));
    let server_auth = server.auth.as_ref().unwrap();
    let client_auth = client.auth.as_ref().unwrap();

    let (nonce, challenge) = server_auth.challenge();
    let reply = client_auth.client_reply(&server_to_client(&challenge)).unwrap();
    assert!(server_auth.check_reply(&nonce, &client_to_server(&reply)).is_ok());
}

#[test]
fn mismatched_secret() {
    // Server with a secret, client without: the client's first reply is a
    // challenge it cannot interpret, and construction fails.
    let server = Server::new(1024, 65535, Some("a")).unwrap();
    let mut client = Client::new("localhost", 4000, "localhost", 0, None);
    let (_nonce, challenge) = server.auth.as_ref().unwrap().challenge();
    let r = client.accept_hello(server_to_client(&challenge));
    assert!(matches!(r, Err(ClientError::NoClientSecret)));

    // Server without a secret, client with one: no challenge ever comes,
    // so the client's handshake fails.
    let client = Client::new("localhost", 4000, "localhost", 0, Some("a"));
    let r = client.auth.as_ref().unwrap().client_reply(&None);
    assert!(r.is_err());

    // And the server refuses a secretless client's bare Hello during its
    // handshake.
    let server_auth = server.auth.as_ref().unwrap();
    let (nonce, _) = server_auth.challenge();
    let r = server_auth.check_reply(&nonce, &Some(ClientMessage::Hello(0)));
    assert!(r.is_err());
}

#[test]
fn very_long_frame() {
    // A peer that streams a megabyte without a terminator is cut off as
    // soon as the cap is passed, long before the megabyte completes.
    let mut reader = FrameReader::new();
    let chunk = vec![42u8; 100000];
    let mut rejected = false;
    for _ in 0..10 {
        reader.push_chunk(&chunk);
        if matches!(reader.next_event(), FrameEvent::TooLong) {
            rejected = true;
            break;
        }
    }
    assert!(rejected, "did not reject after a 1 MB frame");
}

#[test]
fn empty_port_range() {
    assert!(Server::new(5000, 3000, None).is_none());
    assert!(Server::new(5000, 3000, Some("s")).is_none());
    assert!(Server::new(5000, 5000, None).is_some());
}

#[test]
fn requested_port_range_checks() {
    let server = Server::new(2000, 3000, None).unwrap();
    assert!(server.check_requested(0));
    assert!(server.check_requested(2000));
    assert!(server.check_requested(3000));
    assert!(!server.check_requested(1999));
    assert!(!server.check_requested(3001));
    assert_eq!(
        server.range_error_message(),
        "client port number not in allowed range"
    );
}

#[test]
fn drawn_ports_stay_in_range() {
    let server = Server::new(4000, 4010, None).unwrap();
    for rnd in [0u16, 1, 10, 11, 12, 999, 65535] {
        let p = server.draw_port(rnd);
        assert!(4000 <= p && p <= 4010);
    }
    let full = Server::new(0, 65535, None).unwrap();
    assert_eq!(full.draw_port(123), 123);
    for _ in 0..100 {
        let p = full.random_port();
        let _ = p;
    }
}

#[test]
fn rendezvous_entries_claimed_once() {
    let mut table = RendezvousTable::new();
    let (id_a, _) = visitor_event(&mut table, 1);
    let (id_b, _) = visitor_event(&mut table, 2);
    assert!(table.contains(&id_a));
    assert!(table.contains(&id_b));
    assert!(!id_a.same_as(&id_b), "fresh identifiers must differ");

    // The evictor and the accepting connection race; only one wins.
    assert_eq!(table.remove(&id_a), Some(1));
    assert_eq!(table.remove(&id_a), None);
    assert!(!table.contains(&id_a));

    // The other entry is untouched.
    assert_eq!(table.remove(&id_b), Some(2));
    assert_eq!(table.remove(&id_b), None);
}

#[test]
fn control_step_actions() {
    assert!(matches!(
        Client::control_step(Some(ServerMessage::Hello(5))),
        ControlAction::LogUnexpected
    ));
    match Client::control_step(Some(ServerMessage::Error("boom".to_string()))) {
        ControlAction::LogError(m) => assert_eq!(m, "boom"),
        _ => panic!("expected a logged error"),
    }
    assert!(matches!(Client::control_step(None), ControlAction::Shutdown));
}

#[test]
fn first_message_dispatch() {
    assert!(matches!(
        Server::dispatch_first(Some(ClientMessage::Authenticate("00".to_string()))),
        FirstDecision::UnexpectedAuthenticate
    ));
    assert!(matches!(
        Server::dispatch_first(Some(ClientMessage::Hello(8080))),
        FirstDecision::Host(8080)
    ));
    assert!(matches!(
        Server::dispatch_first(None),
        FirstDecision::CloseQuiet
    ));
}

#[test]
fn client_error_texts() {
    let mut client = Client::new("localhost", 4000, "localhost", 0, None);
    match client.accept_hello(Some(ServerMessage::Error("port already in use".to_string()))) {
        Err(e) => assert_eq!(e.message(), "server error: port already in use"),
        Ok(_) => panic!("expected an error"),
    }
    match client.accept_hello(None) {
        Err(e) => assert_eq!(e.message(), "unexpected EOF"),
        Ok(_) => panic!("expected an error"),
    }
    match client.accept_hello(Some(ServerMessage::Heartbeat)) {
        Err(e) => assert_eq!(e.message(), "unexpected initial non-hello message"),
        Ok(_) => panic!("expected an error"),
    }
}

#[test]
fn bind_error_texts() {
    assert_eq!(BindError::AddrInUse.message(), "port already in use");
    assert_eq!(BindError::PermissionDenied.message(), "permission denied");
    assert_eq!(BindError::Other.message(), "failed to bind to port");
    let server = Server::new(1024, 65535, None).unwrap();
    assert_eq!(
        server.exhausted_error_message(),
        "failed to find an available port"
    );
}

#[test]
fn auth_error_texts() {
    assert_eq!(AuthError::InvalidSecret.message(), "invalid secret");
    assert_eq!(
        AuthError::MissingSecret.message(),
        "server requires secret, but no secret was provided"
    );
    assert_eq!(
        AuthError::MissingChallenge.message(),
        "expected authentication challenge, but no secret was required"
    );
    let auth = Authenticator::new("x");
    let (nonce, _) = auth.challenge();
    let wrong = Authenticator::new("y").answer(&nonce);
    match auth.check_reply(&nonce, &Some(ClientMessage::Authenticate(wrong))) {
        Err(AuthError::InvalidSecret) => (),
        _ => panic!("expected the invalid-secret error"),
    }
}
