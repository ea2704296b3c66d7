//! Exact wire forms and round trips for the message codec and the framing.

use bore_cli::codec::{decode_client, decode_server, encode_client, encode_server};
use bore_cli::frame::{FrameEvent, FrameReader};
use bore_cli::hexstr::{hex_decode, hex_encode};
use bore_cli::id::ConnectionId;
use bore_cli::msg::{ClientMessage, ServerMessage};

fn sample_id_bytes() -> Vec<u8> {
    vec![
        0x55, 0x0e, 0x84, 0x00, 0xe2, 0x9b, 0x41, 0xd4, 0xa7, 0x16, 0x44, 0x66, 0x55, 0x44, 0x00,
        0x00,
    ]
}

#[test]
fn hello_wire_forms() {
    let b = encode_client(&ClientMessage::Hello(0)).unwrap();
    assert_eq!(b, b"{\"Hello\":0}".to_vec());
    let b = encode_client(&ClientMessage::Hello(41234)).unwrap();
    assert_eq!(b, b"{\"Hello\":41234}".to_vec());
    let b = encode_server(&ServerMessage::Hello(7835)).unwrap();
    assert_eq!(b, b"{\"Hello\":7835}".to_vec());
}

#[test]
fn hello_round_trip() {
    for port in [0u16, 1, 9, 10, 99, 1024, 41234, 65535] {
        let b = encode_client(&ClientMessage::Hello(port)).unwrap();
        match decode_client(&b) {
            Some(ClientMessage::Hello(p)) => assert_eq!(p, port),
            _ => panic!("round trip failed for {port}"),
        }
        let b = encode_server(&ServerMessage::Hello(port)).unwrap();
        match decode_server(&b) {
            Some(ServerMessage::Hello(p)) => assert_eq!(p, port),
            _ => panic!("round trip failed for {port}"),
        }
    }
}

#[test]
fn hello_rejects_non_canonical() {
    assert!(decode_client(&b"{\"Hello\":007}".to_vec()).is_none());
    assert!(decode_client(&b"{\"Hello\":65536}".to_vec()).is_none());
    assert!(decode_client(&b"{\"Hello\":}".to_vec()).is_none());
    assert!(decode_client(&b"{\"Hello\":12".to_vec()).is_none());
    assert!(decode_client(&b"{\"Hello\":12} ".to_vec()).is_none());
    assert!(decode_client(&b"{\"Hello\":-1}".to_vec()).is_none());
    assert!(decode_client(&b"nonsense".to_vec()).is_none());
    assert!(decode_client(&Vec::new()).is_none());
}

#[test]
fn accept_wire_form() {
    let id = ConnectionId::from_bytes(sample_id_bytes());
    let b = encode_client(&ClientMessage::Accept(id)).unwrap();
    assert_eq!(
        b,
        b"{\"Accept\":\"550e8400-e29b-41d4-a716-446655440000\"}".to_vec()
    );
    match decode_client(&b) {
        Some(ClientMessage::Accept(back)) => {
            assert_eq!(back.to_bytes(), sample_id_bytes());
        }
        _ => panic!("identifier round trip failed"),
    }
}

#[test]
fn challenge_and_connection_wire_forms() {
    let id = ConnectionId::from_bytes(sample_id_bytes());
    let b = encode_server(&ServerMessage::Challenge(id.duplicate())).unwrap();
    assert_eq!(
        b,
        b"{\"Challenge\":\"550e8400-e29b-41d4-a716-446655440000\"}".to_vec()
    );
    match decode_server(&b) {
        Some(ServerMessage::Challenge(back)) => assert_eq!(back.to_bytes(), sample_id_bytes()),
        _ => panic!("challenge round trip failed"),
    }
    let b = encode_server(&ServerMessage::Connection(id)).unwrap();
    assert_eq!(
        b,
        b"{\"Connection\":\"550e8400-e29b-41d4-a716-446655440000\"}".to_vec()
    );
    match decode_server(&b) {
        Some(ServerMessage::Connection(back)) => assert_eq!(back.to_bytes(), sample_id_bytes()),
        _ => panic!("connection round trip failed"),
    }
}

#[test]
fn uuid_rejects_bad_forms() {
    assert!(decode_client(&b"{\"Accept\":\"550E8400-e29b-41d4-a716-446655440000\"}".to_vec())
        .is_none());
    assert!(decode_client(&b"{\"Accept\":\"550e8400e29b41d4a716446655440000\"}".to_vec())
        .is_none());
    assert!(decode_client(&b"{\"Accept\":\"550e8400-e29b-41d4-a716-44665544000\"}".to_vec())
        .is_none());
    assert!(decode_client(&b"{\"Accept\":\"550e8400-e29b-41d4-a716-446655440000\"}x".to_vec())
        .is_none());
}

#[test]
fn heartbeat_wire_form() {
    let b = encode_server(&ServerMessage::Heartbeat).unwrap();
    assert_eq!(b, b"\"Heartbeat\"".to_vec());
    assert!(matches!(
        decode_server(&b),
        Some(ServerMessage::Heartbeat)
    ));
    assert!(decode_server(&b"\"Heartbeat\" ".to_vec()).is_none());
    assert!(decode_server(&b"\"Heartbea\"".to_vec()).is_none());
}

#[test]
fn error_escaping_round_trip() {
    let msg = "a \"quoted\" \\ backslash".to_string();
    let b = encode_server(&ServerMessage::Error(msg.clone())).unwrap();
    assert_eq!(
        b,
        b"{\"Error\":\"a \\\"quoted\\\" \\\\ backslash\"}".to_vec()
    );
    match decode_server(&b) {
        Some(ServerMessage::Error(back)) => assert_eq!(back, msg),
        _ => panic!("error round trip failed"),
    }
}

#[test]
fn authenticate_round_trip() {
    let tag = "d41d8cd98f00b204e9800998ecf8427e".to_string();
    let b = encode_client(&ClientMessage::Authenticate(tag.clone())).unwrap();
    assert_eq!(
        b,
        b"{\"Authenticate\":\"d41d8cd98f00b204e9800998ecf8427e\"}".to_vec()
    );
    match decode_client(&b) {
        Some(ClientMessage::Authenticate(back)) => assert_eq!(back, tag),
        _ => panic!("authenticate round trip failed"),
    }
}

#[test]
fn encode_refuses_unclean_strings() {
    assert!(encode_server(&ServerMessage::Error("nul\u{0}byte".to_string())).is_none());
    assert!(encode_server(&ServerMessage::Error("tab\tseparated".to_string())).is_none());
    assert!(encode_client(&ClientMessage::Authenticate("caf\u{e9}".to_string())).is_none());
    assert!(encode_server(&ServerMessage::Error("plain text".to_string())).is_some());
}

#[test]
fn string_payload_rejects_bad_escapes() {
    assert!(decode_client(&b"{\"Authenticate\":\"a\\nb\"}".to_vec()).is_none());
    assert!(decode_client(&b"{\"Authenticate\":\"a\tb\"}".to_vec()).is_none());
    assert!(decode_client(&b"{\"Authenticate\":\"unterminated}".to_vec()).is_none());
    assert!(decode_client(&b"{\"Authenticate\":\"x\"} ".to_vec()).is_none());
}

#[test]
fn frame_reader_splits_frames() {
    let mut r = FrameReader::new();
    r.push_chunk(b"{\"Hello\":1}\x00{\"Hello\":2}\x00{\"He");
    match r.next_event() {
        FrameEvent::Frame(f) => assert_eq!(f, b"{\"Hello\":1}".to_vec()),
        _ => panic!("expected first frame"),
    }
    match r.next_event() {
        FrameEvent::Frame(f) => assert_eq!(f, b"{\"Hello\":2}".to_vec()),
        _ => panic!("expected second frame"),
    }
    assert!(matches!(r.next_event(), FrameEvent::NeedMore));
    r.push_chunk(b"llo\":3}\x00");
    match r.next_event() {
        FrameEvent::Frame(f) => assert_eq!(f, b"{\"Hello\":3}".to_vec()),
        _ => panic!("expected third frame"),
    }
}

#[test]
fn frame_reader_enforces_cap() {
    let mut r = FrameReader::new();
    let exact = vec![0x42u8; 256];
    r.push_chunk(&exact);
    assert!(matches!(r.next_event(), FrameEvent::NeedMore));
    r.push_chunk(&[0u8]);
    match r.next_event() {
        FrameEvent::Frame(f) => assert_eq!(f.len(), 256),
        _ => panic!("a 256-byte frame must be accepted"),
    }

    let mut r = FrameReader::new();
    r.push_chunk(&vec![0x42u8; 257]);
    assert!(matches!(r.next_event(), FrameEvent::TooLong));
}

#[test]
fn frame_reader_keeps_pipelined_rest() {
    let mut r = FrameReader::new();
    r.push_chunk(b"{\"Hello\":5}\x00GET / HTTP/1.1");
    match r.next_event() {
        FrameEvent::Frame(f) => assert_eq!(f, b"{\"Hello\":5}".to_vec()),
        _ => panic!("expected a frame"),
    }
    assert_eq!(r.take_rest(), b"GET / HTTP/1.1".to_vec());
}

#[test]
fn hex_round_trip() {
    let bytes = vec![0xbeu8, 0xef, 0x00, 0x1a];
    let s = hex_encode(&bytes);
    assert_eq!(s, "beef001a");
    assert_eq!(hex_decode(&s).unwrap(), bytes);
    assert!(hex_decode("BEEF").is_none());
    assert!(hex_decode("abc").is_none());
    assert!(hex_decode("zz").is_none());
    assert_eq!(hex_decode("").unwrap(), Vec::<u8>::new());
}
