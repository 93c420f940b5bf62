use flo::stream::{ClientMessage, ClientMessageStream, InProgressEvent};

fn produce_frame(op_id: u32, namespace: &str, data: &[u8]) -> Vec<u8> {
    let mut b = Vec::new();
    b.extend_from_slice(b"FLO_PRO\n");
    b.extend_from_slice(&op_id.to_be_bytes());
    b.extend_from_slice(namespace.as_bytes());
    b.push(b'\n');
    b.extend_from_slice(&(data.len() as u32).to_be_bytes());
    b.extend_from_slice(data);
    b
}

fn three_frames() -> Vec<u8> {
    let mut b = produce_frame(4, "/one", b"evt_one");
    b.extend_from_slice(b"FLO_INI\nthe namespace\nthe username\nthe password\n");
    b.extend_from_slice(&produce_frame(5, "/two", b"evt_two"));
    b.extend_from_slice(b"FLO_CNS\n");
    b.extend_from_slice(&[0, 0, 0, 0, 0, 0, 0, 2]);
    b.extend_from_slice(&produce_frame(6, "/empty", b""));
    b
}

fn describe(messages: &[ClientMessage]) -> Vec<String> {
    messages
        .iter()
        .map(|m| match m {
            ClientMessage::ClientAuth(c, a) => format!("auth {} {} {} {}", c, a.namespace, a.username, a.password),
            ClientMessage::Produce(p) => format!("produce {} {} {} {:?}", p.connection_id, p.op_id, p.namespace, p.event_data),
            ClientMessage::StartConsuming(c, n) => format!("consume {} {}", c, n),
        })
        .collect()
}

#[test]
fn frames_are_decoded_in_sequence() {
    let mut stream = ClientMessageStream::new(123);
    let out = stream.receive(&three_frames());
    assert_eq!(
        vec![
            "produce 123 4 /one [101, 118, 116, 95, 111, 110, 101]".to_owned(),
            "auth 123 the namespace the username the password".to_owned(),
            "produce 123 5 /two [101, 118, 116, 95, 116, 119, 111]".to_owned(),
            "consume 123 2".to_owned(),
            "produce 123 6 /empty []".to_owned(),
        ],
        describe(&out)
    );
    assert!(!stream.is_closed());
    assert!(stream.requires_read());
}

#[test]
fn splitting_at_every_byte_gives_the_same_frames() {
    let bytes = three_frames();
    let mut whole = ClientMessageStream::new(1);
    let expected = describe(&whole.receive(&bytes));
    for cut in 0..=bytes.len() {
        let mut s = ClientMessageStream::new(1);
        let mut got = s.receive(&bytes[..cut]);
        got.extend(s.receive(&bytes[cut..]));
        assert_eq!(expected, describe(&got), "split at {}", cut);
    }
}

#[test]
fn one_byte_at_a_time_gives_the_same_frames() {
    let bytes = three_frames();
    let mut whole = ClientMessageStream::new(9);
    let expected = describe(&whole.receive(&bytes));
    let mut s = ClientMessageStream::new(9);
    let mut got = Vec::new();
    for b in bytes.iter() {
        got.extend(s.receive(&[*b]));
    }
    assert_eq!(expected, describe(&got));
}

#[test]
fn event_body_arrives_over_several_reads() {
    let data = b"the event data is a little bit longer and will be consumed in three reads";
    let bytes = produce_frame(789, "/ns", &data[..40]);
    let mut s = ClientMessageStream::new(123);
    let header_len = bytes.len() - 40;
    assert!(s.receive(&bytes[..header_len + 16]).is_empty());
    assert!(s.is_read_event());
    assert!(s.receive(&bytes[header_len + 16..header_len + 32]).is_empty());
    let out = s.receive(&bytes[header_len + 32..]);
    match &out[..] {
        [ClientMessage::Produce(p)] => {
            assert_eq!(789, p.op_id);
            assert_eq!(&data[..40], &p.event_data[..]);
        }
        _ => panic!("expected one produce"),
    }
    assert!(!s.is_read_event());
}

#[test]
fn unparseable_frame_closes_the_stream() {
    let mut s = ClientMessageStream::new(5);
    let mut bytes = produce_frame(1, "/a", b"ok");
    bytes.extend_from_slice(b"FLO_XXX\nmore bytes");
    let out = s.receive(&bytes);
    assert_eq!(1, out.len());
    assert!(s.is_closed());
    assert!(s.receive(&produce_frame(2, "/a", b"late")).is_empty());
    assert!(s.is_closed());
}

#[test]
fn other_streams_are_unaffected_by_a_bad_frame() {
    let mut bad = ClientMessageStream::new(1);
    let mut good = ClientMessageStream::new(2);
    assert!(bad.receive(b"FLO_XXX\n").is_empty());
    assert!(bad.is_closed());
    let out = good.receive(&produce_frame(3, "/x", b"fine"));
    assert_eq!(1, out.len());
    assert!(!good.is_closed());
}

#[test]
fn nothing_received_decodes_to_nothing() {
    let mut s = ClientMessageStream::new(123);
    assert!(s.receive(&[]).is_empty());
    assert!(s.requires_read());
    assert_eq!(123, s.connection_id());
}

#[test]
fn in_progress_event_remaining() {
    let e = InProgressEvent { op_id: 1, namespace: "n".to_owned(), data_length: 10, event_data: vec![1, 2, 3] };
    assert_eq!(7, e.remaining());
}

#[test]
fn multiple_events_are_read_in_sequence() {
    let mut b = Vec::new();
    b.extend_from_slice(b"FLO_PRO\n");
    b.extend_from_slice(&[0, 0, 0, 4]);
    b.extend_from_slice(b"the namespace\n");
    b.extend_from_slice(&[0, 0, 0, 7]);
    b.extend_from_slice(b"evt_one");
    b.extend_from_slice(b"FLO_INI\n");
    b.extend_from_slice(b"the namespace\n");
    b.extend_from_slice(b"the username\n");
    b.extend_from_slice(b"the password\n");
    b.extend_from_slice(b"FLO_PRO\n");
    b.extend_from_slice(&[0, 0, 0, 5]);
    b.extend_from_slice(b"the namespace\n");
    b.extend_from_slice(&[0, 0, 0, 7]);
    b.extend_from_slice(b"evt_two");

    let mut subject = ClientMessageStream::new(123);
    let result = subject.receive(&b);
    assert_eq!(3, result.len());
    match &result[0] {
        ClientMessage::Produce(p) => {
            assert_eq!(4, p.op_id);
            assert_eq!(123, p.connection_id);
            assert_eq!("evt_one".to_owned().into_bytes(), p.event_data);
        }
        _ => panic!("expected a produce"),
    }
    match &result[1] {
        ClientMessage::ClientAuth(c, a) => {
            assert_eq!(123, *c);
            assert_eq!("the namespace", a.namespace);
            assert_eq!("the username", a.username);
            assert_eq!("the password", a.password);
        }
        _ => panic!("expected credentials"),
    }
    match &result[2] {
        ClientMessage::Produce(p) => {
            assert_eq!(5, p.op_id);
            assert_eq!(123, p.connection_id);
            assert_eq!("evt_two".to_owned().into_bytes(), p.event_data);
        }
        _ => panic!("expected a produce"),
    }
    assert!(subject.receive(&[]).is_empty());
}

#[test]
fn poll_returns_ok_with_empty_option_when_protocol_returns_error() {
    let mut subject = ClientMessageStream::new(123);
    let result = subject.receive(&[99u8; 99]);
    assert!(result.is_empty());
    assert!(subject.is_closed());
}

#[test]
fn poll_returns_none_if_0_bytes_are_read_and_buffer_is_empty() {
    let mut subject = ClientMessageStream::new(123);
    assert!(subject.receive(&[]).is_empty());
    assert!(!subject.is_closed());
    assert!(subject.requires_read());
}

#[test]
fn poll_returns_event_after_multiple_reads() {
    let input_bytes = b"the event data is a little bit longer and will be consumed in three reads";
    let mut frame = b"FLO_PRO\n".to_vec();
    frame.extend_from_slice(&789u32.to_be_bytes());
    frame.extend_from_slice(b"ns\n");
    frame.extend_from_slice(&40u32.to_be_bytes());
    frame.extend_from_slice(&input_bytes[..40]);
    let mut subject = ClientMessageStream::new(123);
    let mut reads = frame.chunks(16);
    assert!(subject.receive(reads.next().unwrap()).is_empty());
    assert!(subject.receive(reads.next().unwrap()).is_empty());
    let mut got = Vec::new();
    for chunk in reads {
        got.extend(subject.receive(chunk));
    }
    match &got[..] {
        [ClientMessage::Produce(event)] => {
            assert_eq!(input_bytes[..40].to_vec(), event.event_data);
            assert_eq!(789, event.op_id);
        }
        _ => panic!("expected one produce"),
    }
}

#[test]
fn poll_returns_event_when_read_and_parse_both_succeed() {
    let mut bytes = b"FLO_PRO\n".to_vec();
    bytes.extend_from_slice(&999u32.to_be_bytes());
    bytes.extend_from_slice(b"ns\n");
    bytes.extend_from_slice(&14u32.to_be_bytes());
    bytes.extend_from_slice(b"the event data extra bytes");
    // 8 for the tag, 4 for op_id, 3 for the namespace, 4 for the length, 14 for data
    let frame_len = 33;

    let mut short = ClientMessageStream::new(123);
    assert!(short.receive(&bytes[..frame_len - 1]).is_empty());

    let mut subject = ClientMessageStream::new(123);
    let result = subject.receive(&bytes[..frame_len]);
    match &result[..] {
        [ClientMessage::Produce(event)] => {
            let expected_bytes: Vec<u8> = "the event data".into();
            assert_eq!(expected_bytes, event.event_data);
            assert_eq!(999, event.op_id);
        }
        _ => panic!("expected one produce"),
    }
    // the frame took all of its bytes and no more
    assert!(subject.requires_read());
    assert!(!subject.is_closed());
    // what follows the frame cannot start another one
    assert!(subject.receive(&bytes[frame_len..]).is_empty());
    assert!(subject.is_closed());
}

#[test]
fn poll_returns_api_message_when_read_and_parse_both_succeed() {
    let bytes = b"FLO_INI\ntheNamespace\ntheUsername\nthePassword\nthe input bytes plus some other bytes";
    let mut subject = ClientMessageStream::new(123);
    let result = subject.receive(&bytes[..]);
    match &result[..] {
        [ClientMessage::ClientAuth(_, connect)] => {
            assert_eq!("theUsername", &connect.username);
            assert_eq!("thePassword", &connect.password);
            assert_eq!("theNamespace", &connect.namespace);
        }
        _ => panic!("expected credentials"),
    }
}
