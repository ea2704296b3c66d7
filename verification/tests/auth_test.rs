//! The challenge/response handshake, driven message by message through the
//! codec, with the real hash and MAC implementations linked in.

use bore_cli::auth::Authenticator;
use bore_cli::codec::{decode_client, decode_server, encode_client, encode_server};
use bore_cli::id::ConnectionId;
use bore_cli::msg::{ClientMessage, ServerMessage};

fn sample_nonce() -> ConnectionId {
    ConnectionId::from_bytes(vec![
        0x55, 0x0e, 0x84, 0x00, 0xe2, 0x9b, 0x41, 0xd4, 0xa7, 0x16, 0x44, 0x66, 0x55, 0x44, 0x00,
        0x00,
    ])
}

#[test]
fn auth_handshake() {
    let auth = Authenticator::new("some secret string");

    // Server opens the handshake; the frames cross a simulated wire.
    let (nonce, challenge) = auth.challenge();
    let wire = encode_server(&challenge).unwrap();
    let at_client = decode_server(&wire).unwrap();

    // Client answers; the reply crosses back.
    let reply = auth.client_reply(&Some(at_client)).unwrap();
    let wire = encode_client(&reply).unwrap();
    let at_server = decode_client(&wire).unwrap();

    assert!(auth.check_reply(&nonce, &Some(at_server)).is_ok());
}

#[test]
fn auth_handshake_fail() {
    let auth = Authenticator::new("client secret");
    let auth2 = Authenticator::new("different server secret");

    let (nonce, challenge) = auth2.challenge();
    let reply = auth.client_reply(&Some(challenge)).unwrap();
    let result = auth2.check_reply(&nonce, &Some(reply));
    assert!(result.is_err());
}

#[test]
fn answer_matches_known_vector() {
    // HMAC-SHA256 over the 16 nonce bytes, keyed by SHA-256 of the secret,
    // computed independently.
    let auth = Authenticator::new("some secret string");
    let nonce = sample_nonce();
    assert_eq!(
        auth.answer(&nonce),
        "0167f5ebe9c1c4a1f9a097edaddfb04722b3a19260ac6d03323c5f04e40c0975"
    );
}

#[test]
fn validate_accepts_only_the_answer() {
    let auth = Authenticator::new("secret");
    let nonce = sample_nonce();
    let tag = auth.answer(&nonce);
    assert!(auth.validate(&nonce, &tag));
    assert!(!auth.validate(&nonce, "wrong answer"));
    assert!(!auth.validate(&nonce, &tag.to_uppercase()));
    assert!(!auth.validate(&nonce, ""));

    // A different nonce must not validate under the old tag.
    let other = ConnectionId::from_bytes(vec![0u8; 16]);
    assert!(!auth.validate(&other, &tag));

    // A different secret must not validate under the same nonce.
    let other_auth = Authenticator::new("secre");
    assert!(!other_auth.validate(&nonce, &tag));
}

#[test]
fn server_refuses_wrong_or_missing_reply() {
    let auth = Authenticator::new("abc");
    let (nonce, _) = auth.challenge();
    assert!(auth
        .check_reply(&nonce, &Some(ClientMessage::Authenticate("00ff".to_string())))
        .is_err());
    assert!(auth.check_reply(&nonce, &Some(ClientMessage::Hello(0))).is_err());
    assert!(auth.check_reply(&nonce, &None).is_err());
}

#[test]
fn client_refuses_missing_challenge() {
    let auth = Authenticator::new("abc");
    assert!(auth.client_reply(&Some(ServerMessage::Hello(1024))).is_err());
    assert!(auth.client_reply(&None).is_err());
}
