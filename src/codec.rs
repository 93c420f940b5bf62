use crate::bytes::{
    find_newline, has_line_end, has_tag, is_line_end, lemma_line_end_unique, lemma_u16_round_trip,
    lemma_u32_round_trip, lemma_u64_round_trip, line_end, line_safe, push_bytes, push_line,
    push_tag, push_u16, push_u32, push_u64, read_u16, read_u32, read_u64, tag, text_at, u16_at,
    u16_bytes, u32_at, u32_bytes, u64_at, u64_bytes, NEWLINE, TAG_LEN,
};
use crate::event::{EventView, FloEventId, OwnedFloEvent};
use std::sync::Arc;
use vstd::prelude::*;
use vstd::utf8::*;

verus! {

broadcast use encode_utf8_valid_utf8, encode_utf8_decode_utf8;

pub open spec fn tag_ini() -> Seq<u8> {
    tag(73, 78, 73)
}

pub open spec fn tag_pro() -> Seq<u8> {
    tag(80, 82, 79)
}

pub open spec fn tag_cns() -> Seq<u8> {
    tag(67, 78, 83)
}

pub open spec fn tag_ack() -> Seq<u8> {
    tag(65, 67, 75)
}

pub open spec fn tag_evt() -> Seq<u8> {
    tag(69, 86, 84)
}

pub open spec fn tag_err() -> Seq<u8> {
    tag(69, 82, 82)
}

/// The error kind sent when an event could not be persisted.
pub const PERSISTENCE_FAILURE: u8 = 1;

/// The outcome of parsing a frame from the front of a byte buffer.
pub enum ParseResult<T> {
    /// A whole frame: the number of bytes it took, and the message.
    Done(usize, T),
    /// More bytes are needed.
    Incomplete,
    /// The bytes cannot start a frame.
    Error,
}

/// The outcome of parsing, over plain values.
pub enum SpecParse<T> {
    Done(int, T),
    Incomplete,
    Error,
}

/// The outcome of reading one field.
pub enum SpecField<T> {
    Field(T, int),
    Incomplete,
    Error,
}

/// A newline-terminated UTF-8 text field at `start`.
pub open spec fn spec_line(b: Seq<u8>, start: int) -> SpecField<Seq<char>> {
    if !has_line_end(b, start) {
        SpecField::Incomplete
    } else {
        let j = line_end(b, start);
        let part = b.subrange(start, j);
        if valid_utf8(part) {
            SpecField::Field(decode_utf8(part), j + 1)
        } else {
            SpecField::Error
        }
    }
}

/// The outcome of reading a text field.
pub enum LineResult {
    Text(String, usize),
    Incomplete,
    Error,
}

pub open spec fn line_matches(r: LineResult, s: SpecField<Seq<char>>) -> bool {
    match (r, s) {
        (LineResult::Text(t, p), SpecField::Field(st, sp)) => t@ == st && p == sp,
        (LineResult::Incomplete, SpecField::Incomplete) => true,
        (LineResult::Error, SpecField::Error) => true,
        _ => false,
    }
}

pub fn read_line(b: &[u8], start: usize) -> (r: LineResult)
    requires
        start <= b@.len(),
    ensures
        line_matches(r, spec_line(b@, start as int)),
        r matches LineResult::Text(_, p) ==> start < p <= b@.len(),
{
    match find_newline(b, start) {
        None => LineResult::Incomplete,
        Some(j) => {
            let n = b.len();
            assert(j < n);
            match text_at(b, start, j) {
                Some(s) => LineResult::Text(s, j + 1),
                None => LineResult::Error,
            }
        },
    }
}

/// A text field written and read back gives the same text.
pub proof fn lemma_line_round_trip(b: Seq<u8>, start: int, s: Seq<char>)
    requires
        0 <= start,
        line_safe(s),
        start + encode_utf8(s).len() + 1 <= b.len(),
        b.subrange(start, start + encode_utf8(s).len() + 1) == encode_utf8(s) + seq![NEWLINE],
    ensures
        spec_line(b, start) == SpecField::Field(s, start + encode_utf8(s).len() + 1),
{
    let enc = encode_utf8(s);
    let j = start + enc.len();
    assert forall|k: int| start <= k < j implies b[k] != NEWLINE by {
        assert(b[k] == b.subrange(start, j + 1)[k - start]);
    }
    assert(b[j] == b.subrange(start, j + 1)[j - start]);
    lemma_line_end_unique(b, start, j);
    assert(b.subrange(start, j) =~= enc);
}

// ---------------------------------------------------------------------------
// Messages from clients.
/// Credentials a client presents for a namespace.
pub struct ClientAuth {
    pub namespace: String,
    pub username: String,
    pub password: String,
}

/// The header of a produced event; the data follows it on the wire.
pub struct EventHeader {
    pub op_id: u32,
    pub namespace: String,
    pub data_length: u32,
}

/// A frame that a client sends.
pub enum ProtocolMessage {
    ClientAuth(ClientAuth),
    ProduceEvent(EventHeader),
    StartConsuming(u64),
}

/// A client frame over plain values.
pub enum ProtocolMessageView {
    ClientAuth { namespace: Seq<char>, username: Seq<char>, password: Seq<char> },
    ProduceEvent { op_id: u32, namespace: Seq<char>, data_length: u32 },
    StartConsuming(u64),
}

impl View for ProtocolMessage {
    type V = ProtocolMessageView;

    open spec fn view(&self) -> ProtocolMessageView {
        match self {
            ProtocolMessage::ClientAuth(a) => ProtocolMessageView::ClientAuth {
                namespace: a.namespace@,
                username: a.username@,
                password: a.password@,
            },
            ProtocolMessage::ProduceEvent(h) => ProtocolMessageView::ProduceEvent {
                op_id: h.op_id,
                namespace: h.namespace@,
                data_length: h.data_length,
            },
            ProtocolMessage::StartConsuming(n) => ProtocolMessageView::StartConsuming(*n),
        }
    }
}

/// The bytes of a client frame.
pub open spec fn encode_client(m: ProtocolMessageView) -> Seq<u8> {
    match m {
        ProtocolMessageView::ClientAuth { namespace, username, password } => tag_ini()
            + encode_utf8(namespace) + seq![NEWLINE] + encode_utf8(username) + seq![NEWLINE]
            + encode_utf8(password) + seq![NEWLINE],
        ProtocolMessageView::ProduceEvent { op_id, namespace, data_length } => tag_pro()
            + u32_bytes(op_id) + encode_utf8(namespace) + seq![NEWLINE] + u32_bytes(data_length),
        ProtocolMessageView::StartConsuming(n) => tag_cns() + u64_bytes(n),
    }
}

/// A client frame whose text fields can be framed by newlines.
pub open spec fn client_frame_ok(m: ProtocolMessageView) -> bool {
    match m {
        ProtocolMessageView::ClientAuth { namespace, username, password } => line_safe(namespace)
            && line_safe(username) && line_safe(password),
        ProtocolMessageView::ProduceEvent { namespace, .. } => line_safe(namespace),
        ProtocolMessageView::StartConsuming(_) => true,
    }
}

/// How a client frame is read from the front of `b`.
#[verifier::opaque]
pub open spec fn spec_parse_client(b: Seq<u8>) -> SpecParse<ProtocolMessageView> {
    if b.len() < 8 {
        SpecParse::Incomplete
    } else if b.subrange(0, 8) == tag_ini() {
        match spec_line(b, 8) {
            SpecField::Field(namespace, at1) => match spec_line(b, at1) {
                SpecField::Field(username, at2) => match spec_line(b, at2) {
                    SpecField::Field(password, at3) => SpecParse::Done(
                        at3,
                        ProtocolMessageView::ClientAuth { namespace, username, password },
                    ),
                    SpecField::Incomplete => SpecParse::Incomplete,
                    SpecField::Error => SpecParse::Error,
                },
                SpecField::Incomplete => SpecParse::Incomplete,
                SpecField::Error => SpecParse::Error,
            },
            SpecField::Incomplete => SpecParse::Incomplete,
            SpecField::Error => SpecParse::Error,
        }
    } else if b.subrange(0, 8) == tag_pro() {
        if b.len() < 12 {
            SpecParse::Incomplete
        } else {
            match spec_line(b, 12) {
                SpecField::Field(namespace, p) => if b.len() < p + 4 {
                    SpecParse::Incomplete
                } else {
                    SpecParse::Done(
                        p + 4,
                        ProtocolMessageView::ProduceEvent {
                            op_id: u32_at(b, 8),
                            namespace,
                            data_length: u32_at(b, p),
                        },
                    )
                },
                SpecField::Incomplete => SpecParse::Incomplete,
                SpecField::Error => SpecParse::Error,
            }
        }
    } else if b.subrange(0, 8) == tag_cns() {
        if b.len() < 16 {
            SpecParse::Incomplete
        } else {
            SpecParse::Done(16, ProtocolMessageView::StartConsuming(u64_at(b, 8)))
        }
    } else {
        SpecParse::Error
    }
}

pub open spec fn client_parse_matches(
    r: ParseResult<ProtocolMessage>,
    s: SpecParse<ProtocolMessageView>,
) -> bool {
    match (r, s) {
        (ParseResult::Done(n, m), SpecParse::Done(sn, sm)) => n == sn && m@ == sm,
        (ParseResult::Incomplete, SpecParse::Incomplete) => true,
        (ParseResult::Error, SpecParse::Error) => true,
        _ => false,
    }
}

/// Parses one client frame from the front of `b`.
pub fn parse_client_message(b: &[u8]) -> (r: ParseResult<ProtocolMessage>)
    ensures
        client_parse_matches(r, spec_parse_client(b@)),
        r matches ParseResult::Done(n, _) ==> 8 <= n <= b@.len(),
{
    reveal(spec_parse_client);
    if b.len() < TAG_LEN {
        ParseResult::Incomplete
    } else if has_tag(b, 73, 78, 73) {
        match read_line(b, 8) {
            LineResult::Text(namespace, at1) => match read_line(b, at1) {
                LineResult::Text(username, at2) => match read_line(b, at2) {
                    LineResult::Text(password, at3) => ParseResult::Done(
                        at3,
                        ProtocolMessage::ClientAuth(ClientAuth { namespace, username, password }),
                    ),
                    LineResult::Incomplete => ParseResult::Incomplete,
                    LineResult::Error => ParseResult::Error,
                },
                LineResult::Incomplete => ParseResult::Incomplete,
                LineResult::Error => ParseResult::Error,
            },
            LineResult::Incomplete => ParseResult::Incomplete,
            LineResult::Error => ParseResult::Error,
        }
    } else if has_tag(b, 80, 82, 79) {
        if b.len() < 12 {
            ParseResult::Incomplete
        } else {
            let op_id = read_u32(b, 8);
            match read_line(b, 12) {
                LineResult::Text(namespace, p) => if b.len() - p < 4 {
                    ParseResult::Incomplete
                } else {
                    let data_length = read_u32(b, p);
                    ParseResult::Done(
                        p + 4,
                        ProtocolMessage::ProduceEvent(EventHeader { op_id, namespace, data_length }),
                    )
                },
                LineResult::Incomplete => ParseResult::Incomplete,
                LineResult::Error => ParseResult::Error,
            }
        }
    } else if has_tag(b, 67, 78, 83) {
        if b.len() < 16 {
            ParseResult::Incomplete
        } else {
            ParseResult::Done(16, ProtocolMessage::StartConsuming(read_u64(b, 8)))
        }
    } else {
        ParseResult::Error
    }
}

/// Appends the bytes of a client frame.
pub fn serialize_client_message(m: &ProtocolMessage, out: &mut Vec<u8>)
    ensures
        final(out)@ == old(out)@ + encode_client(m@),
{
    match m {
        ProtocolMessage::ClientAuth(a) => {
            push_tag(out, 73, 78, 73);
            push_line(out, a.namespace.as_str());
            push_line(out, a.username.as_str());
            push_line(out, a.password.as_str());
        },
        ProtocolMessage::ProduceEvent(h) => {
            push_tag(out, 80, 82, 79);
            push_u32(out, h.op_id);
            push_line(out, h.namespace.as_str());
            push_u32(out, h.data_length);
        },
        ProtocolMessage::StartConsuming(n) => {
            push_tag(out, 67, 78, 83);
            push_u64(out, *n);
        },
    }
    assert(final(out)@ =~= old(out)@ + encode_client(m@));
}

/// The six tags differ from one another.
pub proof fn lemma_tags_distinct()
    ensures
        tag_ini() != tag_pro(),
        tag_ini() != tag_cns(),
        tag_pro() != tag_cns(),
        tag_ack() != tag_evt(),
        tag_ack() != tag_err(),
        tag_evt() != tag_err(),
{
    assert(tag_ini()[4] != tag_pro()[4]);
    assert(tag_ini()[4] != tag_cns()[4]);
    assert(tag_pro()[4] != tag_cns()[4]);
    assert(tag_ack()[4] != tag_evt()[4]);
    assert(tag_ack()[4] != tag_err()[4]);
    assert(tag_evt()[5] != tag_err()[5]);
}

proof fn lemma_auth_round_trip(
    namespace: Seq<char>,
    username: Seq<char>,
    password: Seq<char>,
    rest: Seq<u8>,
)
    requires
        line_safe(namespace),
        line_safe(username),
        line_safe(password),
    ensures
        ({
            let m = ProtocolMessageView::ClientAuth { namespace, username, password };
            spec_parse_client(encode_client(m) + rest) == SpecParse::Done(
                encode_client(m).len() as int,
                m,
            )
        }),
{
    reveal(spec_parse_client);
    lemma_tags_distinct();
    let m = ProtocolMessageView::ClientAuth { namespace, username, password };
    let b = encode_client(m) + rest;
    let n0 = encode_utf8(namespace).len() as int;
    let n1 = encode_utf8(username).len() as int;
    let n2 = encode_utf8(password).len() as int;
    assert(b.subrange(0, 8) =~= tag_ini());
    assert(b.subrange(8, 8 + n0 + 1) =~= encode_utf8(namespace) + seq![NEWLINE]);
    lemma_line_round_trip(b, 8, namespace);
    let at1 = 8 + n0 + 1;
    assert(b.subrange(at1, at1 + n1 + 1) =~= encode_utf8(username) + seq![NEWLINE]);
    lemma_line_round_trip(b, at1, username);
    let at2 = at1 + n1 + 1;
    assert(b.subrange(at2, at2 + n2 + 1) =~= encode_utf8(password) + seq![NEWLINE]);
    lemma_line_round_trip(b, at2, password);
}

proof fn lemma_produce_round_trip(
    op_id: u32,
    namespace: Seq<char>,
    data_length: u32,
    rest: Seq<u8>,
)
    requires
        line_safe(namespace),
    ensures
        ({
            let m = ProtocolMessageView::ProduceEvent { op_id, namespace, data_length };
            spec_parse_client(encode_client(m) + rest) == SpecParse::Done(
                encode_client(m).len() as int,
                m,
            )
        }),
{
    reveal(spec_parse_client);
    lemma_tags_distinct();
    let m = ProtocolMessageView::ProduceEvent { op_id, namespace, data_length };
    let b = encode_client(m) + rest;
    let n0 = encode_utf8(namespace).len() as int;
    assert(b.subrange(0, 8) =~= tag_pro());
    assert(b.subrange(8, 12) =~= u32_bytes(op_id));
    lemma_u32_round_trip(op_id, b, 8);
    assert(b.subrange(12, 12 + n0 + 1) =~= encode_utf8(namespace) + seq![NEWLINE]);
    lemma_line_round_trip(b, 12, namespace);
    let p = 12 + n0 + 1;
    assert(b.subrange(p, p + 4) =~= u32_bytes(data_length));
    lemma_u32_round_trip(data_length, b, p);
}

/// Parsing the bytes of a client frame, whatever follows them, gives back the
/// frame and the number of bytes it took.
pub proof fn lemma_client_round_trip(m: ProtocolMessageView, rest: Seq<u8>)
    requires
        client_frame_ok(m),
    ensures
        spec_parse_client(encode_client(m) + rest) == SpecParse::Done(
            encode_client(m).len() as int,
            m,
        ),
{
    reveal(spec_parse_client);
    match m {
        ProtocolMessageView::ClientAuth { namespace, username, password } => {
            lemma_auth_round_trip(namespace, username, password, rest);
        },
        ProtocolMessageView::ProduceEvent { op_id, namespace, data_length } => {
            lemma_produce_round_trip(op_id, namespace, data_length, rest);
        },
        ProtocolMessageView::StartConsuming(n) => {
            lemma_tags_distinct();
            let b = encode_client(m) + rest;
            assert(b.subrange(0, 8) =~= tag_cns());
            assert(b.subrange(8, 16) =~= u64_bytes(n));
            lemma_u64_round_trip(n, b, 8);
        },
    }
}

/// A text field that is decided (read or refused) stays so in any buffer that
/// agrees up to and including its newline.
pub proof fn lemma_line_agree(b: Seq<u8>, c: Seq<u8>, start: int)
    requires
        0 <= start,
        has_line_end(b, start),
        line_end(b, start) < c.len(),
        c.subrange(0, line_end(b, start) + 1) == b.subrange(0, line_end(b, start) + 1),
    ensures
        spec_line(c, start) == spec_line(b, start),
{
    let j = line_end(b, start);
    assert(is_line_end(b, start, j));
    assert forall|k: int| start <= k <= j implies c[k] == b[k] by {
        assert(c[k] == c.subrange(0, j + 1)[k]);
        assert(b[k] == b.subrange(0, j + 1)[k]);
    }
    assert(is_line_end(c, start, j));
    lemma_line_end_unique(c, start, j);
    assert(c.subrange(start, j) =~= b.subrange(start, j));
}

proof fn lemma_agree_at(b: Seq<u8>, c: Seq<u8>, n: int, i: int)
    requires
        0 <= i < n,
        n <= b.len(),
        n <= c.len(),
        c.subrange(0, n) == b.subrange(0, n),
    ensures
        c[i] == b[i],
{
    assert(c[i] == c.subrange(0, n)[i]);
    assert(b[i] == b.subrange(0, n)[i]);
}

proof fn lemma_agree_shorter(b: Seq<u8>, c: Seq<u8>, n: int, k: int)
    requires
        0 <= k <= n,
        n <= b.len(),
        n <= c.len(),
        c.subrange(0, n) == b.subrange(0, n),
    ensures
        c.subrange(0, k) == b.subrange(0, k),
{
    assert(c.subrange(0, k) =~= c.subrange(0, n).subrange(0, k));
    assert(b.subrange(0, k) =~= b.subrange(0, n).subrange(0, k));
}

/// A client frame parsed from `b` is parsed the same from any buffer that
/// holds the same bytes where the frame stands.
pub proof fn lemma_client_done_prefix(b: Seq<u8>, c: Seq<u8>)
    requires
        spec_parse_client(b) is Done,
        spec_parse_client(b)->Done_0 <= c.len(),
        c.subrange(0, spec_parse_client(b)->Done_0) == b.subrange(0, spec_parse_client(b)->Done_0),
    ensures
        spec_parse_client(c) == spec_parse_client(b),
{
    reveal(spec_parse_client);
    let n = spec_parse_client(b)->Done_0;
    lemma_agree_shorter(b, c, n, 8);
    if b.subrange(0, 8) == tag_ini() {
        let j0 = line_end(b, 8);
        lemma_agree_shorter(b, c, n, j0 + 1);
        lemma_line_agree(b, c, 8);
        let at1 = j0 + 1;
        let j1 = line_end(b, at1);
        lemma_agree_shorter(b, c, n, j1 + 1);
        lemma_line_agree(b, c, at1);
        let at2 = j1 + 1;
        let j2 = line_end(b, at2);
        lemma_agree_shorter(b, c, n, j2 + 1);
        lemma_line_agree(b, c, at2);
    } else if b.subrange(0, 8) == tag_pro() {
        let j0 = line_end(b, 12);
        lemma_agree_shorter(b, c, n, j0 + 1);
        lemma_line_agree(b, c, 12);
        let p = j0 + 1;
        assert forall|i: int| 8 <= i < 12 || p <= i < p + 4 implies c[i] == b[i] by {
            lemma_agree_at(b, c, n, i);
        }
    } else {
        assert forall|i: int| 8 <= i < 16 implies c[i] == b[i] by {
            lemma_agree_at(b, c, n, i);
        }
    }
}

/// A buffer that cannot start a client frame cannot start one whatever is
/// appended to it.
pub proof fn lemma_client_error_extend(b: Seq<u8>, x: Seq<u8>)
    requires
        spec_parse_client(b) is Error,
    ensures
        spec_parse_client(b + x) is Error,
{
    reveal(spec_parse_client);
    let c = b + x;
    let n = b.len() as int;
    assert(c.subrange(0, n) =~= b);
    assert(b.subrange(0, n) =~= b);
    lemma_agree_shorter(b, c, n, 8);
    if b.subrange(0, 8) == tag_ini() {
        let j0 = line_end(b, 8);
        lemma_agree_shorter(b, c, n, j0 + 1);
        lemma_line_agree(b, c, 8);
        if spec_line(b, 8) is Field {
            let at1 = j0 + 1;
            let j1 = line_end(b, at1);
            lemma_agree_shorter(b, c, n, j1 + 1);
            lemma_line_agree(b, c, at1);
            if spec_line(b, at1) is Field {
                let at2 = j1 + 1;
                let j2 = line_end(b, at2);
                lemma_agree_shorter(b, c, n, j2 + 1);
                lemma_line_agree(b, c, at2);
            }
        }
    } else if b.subrange(0, 8) == tag_pro() {
        let j0 = line_end(b, 12);
        lemma_agree_shorter(b, c, n, j0 + 1);
        lemma_line_agree(b, c, 12);
    }
}

// ---------------------------------------------------------------------------
// Messages to clients.
/// The acknowledgement of a persisted event.
pub struct EventAck {
    pub op_id: u32,
    pub event_id: FloEventId,
}

/// An error reported to a client.
pub struct ErrorMessage {
    pub op_id: u32,
    pub kind: u8,
    pub description: String,
}

/// A frame that the server sends.
pub enum ServerMessage {
    EventAck(EventAck),
    Event(Arc<OwnedFloEvent>),
    Error(ErrorMessage),
}

/// A server frame over plain values.
pub enum ServerMessageView {
    EventAck { op_id: u32, event_id: FloEventId },
    Event(EventView),
    Error { op_id: u32, kind: u8, description: Seq<char> },
}

impl View for ServerMessage {
    type V = ServerMessageView;

    open spec fn view(&self) -> ServerMessageView {
        match self {
            ServerMessage::EventAck(a) => ServerMessageView::EventAck {
                op_id: a.op_id,
                event_id: a.event_id,
            },
            ServerMessage::Event(e) => ServerMessageView::Event(e@),
            ServerMessage::Error(m) => ServerMessageView::Error {
                op_id: m.op_id,
                kind: m.kind,
                description: m.description@,
            },
        }
    }
}

/// The bytes of an event frame.
pub open spec fn encode_event(e: EventView) -> Seq<u8> {
    tag_evt() + u16_bytes(e.id.actor) + u64_bytes(e.id.event_counter) + encode_utf8(e.namespace)
        + seq![NEWLINE] + u32_bytes(e.data.len() as u32) + e.data
}

/// The bytes of a server frame.
pub open spec fn encode_server(m: ServerMessageView) -> Seq<u8> {
    match m {
        ServerMessageView::EventAck { op_id, event_id } => tag_ack() + u32_bytes(op_id) + u16_bytes(
            event_id.actor,
        ) + u64_bytes(event_id.event_counter),
        ServerMessageView::Event(e) => encode_event(e),
        ServerMessageView::Error { op_id, kind, description } => tag_err() + u32_bytes(op_id)
            + seq![kind] + encode_utf8(description) + seq![NEWLINE],
    }
}

/// An event that fits in a frame: its namespace holds no newline and its
/// length fits in the length field.
pub open spec fn event_frame_ok(e: EventView) -> bool {
    line_safe(e.namespace) && e.data.len() <= u32::MAX
}

pub open spec fn server_frame_ok(m: ServerMessageView) -> bool {
    match m {
        ServerMessageView::EventAck { .. } => true,
        ServerMessageView::Event(e) => event_frame_ok(e),
        ServerMessageView::Error { description, .. } => line_safe(description),
    }
}

/// How a server frame is read from the front of `b`.
pub open spec fn spec_parse_server(b: Seq<u8>) -> SpecParse<ServerMessageView> {
    if b.len() < 8 {
        SpecParse::Incomplete
    } else if b.subrange(0, 8) == tag_ack() {
        if b.len() < 22 {
            SpecParse::Incomplete
        } else {
            SpecParse::Done(
                22,
                ServerMessageView::EventAck {
                    op_id: u32_at(b, 8),
                    event_id: FloEventId { actor: u16_at(b, 12), event_counter: u64_at(b, 14) },
                },
            )
        }
    } else if b.subrange(0, 8) == tag_evt() {
        if b.len() < 18 {
            SpecParse::Incomplete
        } else {
            match spec_line(b, 18) {
                SpecField::Field(namespace, p) => if b.len() < p + 4 {
                    SpecParse::Incomplete
                } else {
                    let n = u32_at(b, p);
                    if b.len() < p + 4 + n {
                        SpecParse::Incomplete
                    } else {
                        SpecParse::Done(
                            p + 4 + n,
                            ServerMessageView::Event(
                                EventView {
                                    id: FloEventId {
                                        actor: u16_at(b, 8),
                                        event_counter: u64_at(b, 10),
                                    },
                                    namespace,
                                    data: b.subrange(p + 4, p + 4 + n),
                                },
                            ),
                        )
                    }
                },
                SpecField::Incomplete => SpecParse::Incomplete,
                SpecField::Error => SpecParse::Error,
            }
        }
    } else if b.subrange(0, 8) == tag_err() {
        if b.len() < 13 {
            SpecParse::Incomplete
        } else {
            match spec_line(b, 13) {
                SpecField::Field(description, p) => SpecParse::Done(
                    p,
                    ServerMessageView::Error { op_id: u32_at(b, 8), kind: b[12], description },
                ),
                SpecField::Incomplete => SpecParse::Incomplete,
                SpecField::Error => SpecParse::Error,
            }
        }
    } else {
        SpecParse::Error
    }
}

pub open spec fn server_parse_matches(
    r: ParseResult<ServerMessage>,
    s: SpecParse<ServerMessageView>,
) -> bool {
    match (r, s) {
        (ParseResult::Done(n, m), SpecParse::Done(sn, sm)) => n == sn && m@ == sm,
        (ParseResult::Incomplete, SpecParse::Incomplete) => true,
        (ParseResult::Error, SpecParse::Error) => true,
        _ => false,
    }
}

/// Parses one server frame from the front of `b`.
pub fn parse_server_message(b: &[u8]) -> (r: ParseResult<ServerMessage>)
    ensures
        server_parse_matches(r, spec_parse_server(b@)),
{
    if b.len() < TAG_LEN {
        ParseResult::Incomplete
    } else if has_tag(b, 65, 67, 75) {
        if b.len() < 22 {
            ParseResult::Incomplete
        } else {
            let op_id = read_u32(b, 8);
            let actor = read_u16(b, 12);
            let event_counter = read_u64(b, 14);
            ParseResult::Done(
                22,
                ServerMessage::EventAck(
                    EventAck { op_id, event_id: FloEventId { actor, event_counter } },
                ),
            )
        }
    } else if has_tag(b, 69, 86, 84) {
        if b.len() < 18 {
            ParseResult::Incomplete
        } else {
            let actor = read_u16(b, 8);
            let event_counter = read_u64(b, 10);
            match read_line(b, 18) {
                LineResult::Text(namespace, p) => if b.len() - p < 4 {
                    ParseResult::Incomplete
                } else {
                    let n = read_u32(b, p);
                    if b.len() - (p + 4) < n as usize {
                        ParseResult::Incomplete
                    } else {
                        let start = p + 4;
                        let end = start + n as usize;
                        let data = vstd::slice::slice_to_vec(
                            vstd::slice::slice_subrange(b, start, end),
                        );
                        let event = OwnedFloEvent {
                            id: FloEventId { actor, event_counter },
                            namespace,
                            data,
                        };
                        ParseResult::Done(end, ServerMessage::Event(Arc::new(event)))
                    }
                },
                LineResult::Incomplete => ParseResult::Incomplete,
                LineResult::Error => ParseResult::Error,
            }
        }
    } else if has_tag(b, 69, 82, 82) {
        if b.len() < 13 {
            ParseResult::Incomplete
        } else {
            let op_id = read_u32(b, 8);
            let kind = b[12];
            match read_line(b, 13) {
                LineResult::Text(description, p) => ParseResult::Done(
                    p,
                    ServerMessage::Error(ErrorMessage { op_id, kind, description }),
                ),
                LineResult::Incomplete => ParseResult::Incomplete,
                LineResult::Error => ParseResult::Error,
            }
        }
    } else {
        ParseResult::Error
    }
}

/// Appends the bytes of an event frame.
pub fn serialize_event(e: &OwnedFloEvent, out: &mut Vec<u8>)
    requires
        e.data@.len() <= u32::MAX,
    ensures
        final(out)@ == old(out)@ + encode_event(e@),
{
    push_tag(out, 69, 86, 84);
    push_u16(out, e.id.actor);
    push_u64(out, e.id.event_counter);
    push_line(out, e.namespace.as_str());
    push_u32(out, e.data.len() as u32);
    push_bytes(out, e.data.as_slice());
    assert(final(out)@ =~= old(out)@ + encode_event(e@));
}

/// Appends the bytes of a server frame.
pub fn serialize_server_message(m: &ServerMessage, out: &mut Vec<u8>)
    requires
        m matches ServerMessage::Event(e) ==> e.data@.len() <= u32::MAX,
    ensures
        final(out)@ == old(out)@ + encode_server(m@),
{
    match m {
        ServerMessage::EventAck(a) => {
            push_tag(out, 65, 67, 75);
            push_u32(out, a.op_id);
            push_u16(out, a.event_id.actor);
            push_u64(out, a.event_id.event_counter);
        },
        ServerMessage::Event(e) => {
            serialize_event(e, out);
        },
        ServerMessage::Error(x) => {
            push_tag(out, 69, 82, 82);
            push_u32(out, x.op_id);
            out.push(x.kind);
            push_line(out, x.description.as_str());
        },
    }
    assert(final(out)@ =~= old(out)@ + encode_server(m@));
}

proof fn lemma_ack_round_trip(op_id: u32, event_id: FloEventId, rest: Seq<u8>)
    ensures
        ({
            let m = ServerMessageView::EventAck { op_id, event_id };
            spec_parse_server(encode_server(m) + rest) == SpecParse::Done(
                encode_server(m).len() as int,
                m,
            )
        }),
{
    lemma_tags_distinct();
    let m = ServerMessageView::EventAck { op_id, event_id };
    let b = encode_server(m) + rest;
    assert(b.subrange(0, 8) =~= tag_ack());
    assert(b.subrange(8, 12) =~= u32_bytes(op_id));
    lemma_u32_round_trip(op_id, b, 8);
    assert(b.subrange(12, 14) =~= u16_bytes(event_id.actor));
    lemma_u16_round_trip(event_id.actor, b, 12);
    assert(b.subrange(14, 22) =~= u64_bytes(event_id.event_counter));
    lemma_u64_round_trip(event_id.event_counter, b, 14);
}

/// Parsing the bytes of an event frame, whatever follows them, gives back an
/// event with the same id, namespace and data.
pub proof fn lemma_event_round_trip(ev: EventView, rest: Seq<u8>)
    requires
        event_frame_ok(ev),
    ensures
        spec_parse_server(encode_event(ev) + rest) == SpecParse::Done(
            encode_event(ev).len() as int,
            ServerMessageView::Event(ev),
        ),
{
    lemma_tags_distinct();
    let b = encode_event(ev) + rest;
    let n0 = encode_utf8(ev.namespace).len() as int;
    assert(b.subrange(0, 8) =~= tag_evt());
    assert(b.subrange(8, 10) =~= u16_bytes(ev.id.actor));
    lemma_u16_round_trip(ev.id.actor, b, 8);
    assert(b.subrange(10, 18) =~= u64_bytes(ev.id.event_counter));
    lemma_u64_round_trip(ev.id.event_counter, b, 10);
    assert(b.subrange(18, 18 + n0 + 1) =~= encode_utf8(ev.namespace) + seq![NEWLINE]);
    lemma_line_round_trip(b, 18, ev.namespace);
    let p = 18 + n0 + 1;
    assert(b.subrange(p, p + 4) =~= u32_bytes(ev.data.len() as u32));
    lemma_u32_round_trip(ev.data.len() as u32, b, p);
    assert(b.subrange(p + 4, p + 4 + ev.data.len()) =~= ev.data);
    assert(encode_event(ev).len() == p + 4 + ev.data.len());
}

proof fn lemma_error_round_trip(op_id: u32, kind: u8, description: Seq<char>, rest: Seq<u8>)
    requires
        line_safe(description),
    ensures
        ({
            let m = ServerMessageView::Error { op_id, kind, description };
            spec_parse_server(encode_server(m) + rest) == SpecParse::Done(
                encode_server(m).len() as int,
                m,
            )
        }),
{
    lemma_tags_distinct();
    let m = ServerMessageView::Error { op_id, kind, description };
    let b = encode_server(m) + rest;
    let n0 = encode_utf8(description).len() as int;
    assert(b.subrange(0, 8) =~= tag_err());
    assert(b.subrange(8, 12) =~= u32_bytes(op_id));
    lemma_u32_round_trip(op_id, b, 8);
    assert(b[12] == kind);
    assert(b.subrange(13, 13 + n0 + 1) =~= encode_utf8(description) + seq![NEWLINE]);
    lemma_line_round_trip(b, 13, description);
}

/// Parsing the bytes of a server frame, whatever follows them, gives back the
/// frame and the number of bytes it took.
pub proof fn lemma_server_round_trip(m: ServerMessageView, rest: Seq<u8>)
    requires
        server_frame_ok(m),
    ensures
        spec_parse_server(encode_server(m) + rest) == SpecParse::Done(
            encode_server(m).len() as int,
            m,
        ),
{
    match m {
        ServerMessageView::EventAck { op_id, event_id } => {
            lemma_ack_round_trip(op_id, event_id, rest);
        },
        ServerMessageView::Event(ev) => {
            lemma_event_round_trip(ev, rest);
        },
        ServerMessageView::Error { op_id, kind, description } => {
            lemma_error_round_trip(op_id, kind, description, rest);
        },
    }
}

} // verus!
