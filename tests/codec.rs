use flo::codec::{
    parse_client_message, parse_server_message, serialize_client_message, serialize_event,
    serialize_server_message, ClientAuth, ErrorMessage, EventAck, EventHeader, ParseResult,
    ProtocolMessage, ServerMessage, PERSISTENCE_FAILURE,
};
use flo::{FloEventId, OwnedFloEvent};
use std::sync::Arc;

fn produce_frame(op_id: u32, namespace: &str, data: &[u8]) -> Vec<u8> {
    let mut b = Vec::new();
    b.extend_from_slice(b"FLO_PRO\n");
    b.extend_from_slice(&op_id.to_be_bytes());
    b.extend_from_slice(namespace.as_bytes());
    b.push(b'\n');
    b.extend_from_slice(&(data.len() as u32).to_be_bytes());
    b.extend_from_slice(data);
    b
}

#[test]
fn ack_frame_is_twenty_two_bytes() {
    let mut out = Vec::new();
    let ack = ServerMessage::EventAck(EventAck { op_id: 1, event_id: FloEventId::new(1, 1) });
    serialize_server_message(&ack, &mut out);
    assert_eq!(22, out.len());
    assert_eq!(b"FLO_ACK\n", &out[..8]);
    assert_eq!(&[0, 0, 0, 1], &out[8..12]);
    assert_eq!(&[0, 1, 0, 0, 0, 0, 0, 0, 0, 1], &out[12..22]);
}

#[test]
fn produce_header_is_parsed_before_its_body() {
    let bytes = produce_frame(1, "/foo/bar", b"ninechars");
    match parse_client_message(&bytes) {
        ParseResult::Done(n, ProtocolMessage::ProduceEvent(h)) => {
            assert_eq!(8 + 4 + 9 + 4, n);
            assert_eq!(1, h.op_id);
            assert_eq!("/foo/bar", h.namespace);
            assert_eq!(9, h.data_length);
        }
        _ => panic!("expected a produce header"),
    }
}

#[test]
fn consume_frame_is_parsed() {
    let mut bytes = b"FLO_CNS\n".to_vec();
    bytes.extend_from_slice(&[0, 0, 0, 0, 0, 0, 0, 2]);
    match parse_client_message(&bytes) {
        ParseResult::Done(16, ProtocolMessage::StartConsuming(2)) => {}
        _ => panic!("expected a consume frame"),
    }
}

#[test]
fn auth_frame_is_parsed() {
    let bytes = b"FLO_INI\nthe namespace\nthe username\nthe password\nrest".to_vec();
    match parse_client_message(&bytes) {
        ParseResult::Done(n, ProtocolMessage::ClientAuth(a)) => {
            assert_eq!(bytes.len() - 4, n);
            assert_eq!("the namespace", a.namespace);
            assert_eq!("the username", a.username);
            assert_eq!("the password", a.password);
        }
        _ => panic!("expected an auth frame"),
    }
}

#[test]
fn short_input_is_incomplete() {
    assert!(matches!(parse_client_message(b"FLO_P"), ParseResult::Incomplete));
    assert!(matches!(parse_client_message(b"FLO_PRO\n\0\0\0\x01/ns"), ParseResult::Incomplete));
    assert!(matches!(parse_client_message(b"FLO_CNS\n\0\0"), ParseResult::Incomplete));
    assert!(matches!(parse_client_message(b""), ParseResult::Incomplete));
}

#[test]
fn unknown_tag_is_an_error() {
    assert!(matches!(parse_client_message(b"FLO_XXX\nwhatever"), ParseResult::Error));
    assert!(matches!(parse_server_message(b"FLO_XXX\nwhatever"), ParseResult::Error));
}

#[test]
fn namespace_that_is_not_utf8_is_an_error() {
    let mut bytes = b"FLO_PRO\n\0\0\0\x01".to_vec();
    bytes.extend_from_slice(&[0xff, 0xfe, b'\n']);
    bytes.extend_from_slice(&[0, 0, 0, 0]);
    assert!(matches!(parse_client_message(&bytes), ParseResult::Error));
}

#[test]
fn serialized_client_frames_parse_back() {
    let frames = vec![
        ProtocolMessage::ClientAuth(ClientAuth {
            namespace: "ns".to_owned(),
            username: "user".to_owned(),
            password: "päss".to_owned(),
        }),
        ProtocolMessage::ProduceEvent(EventHeader {
            op_id: 77,
            namespace: "/a/b".to_owned(),
            data_length: 3,
        }),
        ProtocolMessage::StartConsuming(u64::MAX),
    ];
    for m in frames.iter() {
        let mut out = Vec::new();
        serialize_client_message(m, &mut out);
        let total = out.len();
        out.extend_from_slice(b"trailing");
        match (parse_client_message(&out), m) {
            (ParseResult::Done(n, ProtocolMessage::ClientAuth(a)), ProtocolMessage::ClientAuth(b)) => {
                assert_eq!(total, n);
                assert_eq!(a.namespace, b.namespace);
                assert_eq!(a.username, b.username);
                assert_eq!(a.password, b.password);
            }
            (ParseResult::Done(n, ProtocolMessage::ProduceEvent(a)), ProtocolMessage::ProduceEvent(b)) => {
                assert_eq!(total, n);
                assert_eq!(a.op_id, b.op_id);
                assert_eq!(a.namespace, b.namespace);
                assert_eq!(a.data_length, b.data_length);
            }
            (ParseResult::Done(n, ProtocolMessage::StartConsuming(a)), ProtocolMessage::StartConsuming(b)) => {
                assert_eq!(total, n);
                assert_eq!(a, *b);
            }
            _ => panic!("frame did not parse back"),
        }
    }
}

#[test]
fn serialized_event_parses_back_to_the_same_event() {
    let event = OwnedFloEvent::new(FloEventId::new(7, 123456789), "/first".to_owned(), b"first event data".to_vec());
    let mut out = Vec::new();
    serialize_event(&event, &mut out);
    let total = out.len();
    out.extend_from_slice(b"FLO_EVT");
    match parse_server_message(&out) {
        ParseResult::Done(n, ServerMessage::Event(e)) => {
            assert_eq!(total, n);
            assert_eq!(event, *e);
        }
        _ => panic!("expected an event"),
    }
    assert!(matches!(parse_server_message(&out[..total - 1]), ParseResult::Incomplete));
}

#[test]
fn event_frame_layout() {
    let event = OwnedFloEvent::new(FloEventId::new(1, 2), "/n".to_owned(), b"xy".to_vec());
    let mut out = Vec::new();
    serialize_server_message(&ServerMessage::Event(Arc::new(event)), &mut out);
    let mut expected = b"FLO_EVT\n".to_vec();
    expected.extend_from_slice(&[0, 1]);
    expected.extend_from_slice(&[0, 0, 0, 0, 0, 0, 0, 2]);
    expected.extend_from_slice(b"/n\n");
    expected.extend_from_slice(&[0, 0, 0, 2]);
    expected.extend_from_slice(b"xy");
    assert_eq!(expected, out);
}

#[test]
fn error_frame_parses_back() {
    let err = ServerMessage::Error(ErrorMessage {
        op_id: 5,
        kind: PERSISTENCE_FAILURE,
        description: "disk full".to_owned(),
    });
    let mut out = Vec::new();
    serialize_server_message(&err, &mut out);
    let total = out.len();
    match parse_server_message(&out) {
        ParseResult::Done(n, ServerMessage::Error(e)) => {
            assert_eq!(total, n);
            assert_eq!(5, e.op_id);
            assert_eq!(PERSISTENCE_FAILURE, e.kind);
            assert_eq!("disk full", e.description);
        }
        _ => panic!("expected an error frame"),
    }
}

#[test]
fn ack_parses_back() {
    let mut out = Vec::new();
    let ack = ServerMessage::EventAck(EventAck { op_id: 0xdeadbeef, event_id: FloEventId::new(0x1234, 0x0102030405060708) });
    serialize_server_message(&ack, &mut out);
    match parse_server_message(&out) {
        ParseResult::Done(22, ServerMessage::EventAck(a)) => {
            assert_eq!(0xdeadbeef, a.op_id);
            assert_eq!(FloEventId::new(0x1234, 0x0102030405060708), a.event_id);
        }
        _ => panic!("expected an ack"),
    }
}
