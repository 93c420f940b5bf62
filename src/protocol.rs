use crate::bytes::push_bytes;
use crate::codec::{
    encode_client, encode_server, parse_server_message, serialize_client_message,
    serialize_server_message,
    server_parse_matches, spec_parse_server, ErrorMessage, ParseResult, ProtocolMessage,
    ServerMessage,
};
use crate::event::FloEventId;
use vstd::prelude::*;

verus! {

/// The size of a read buffer.
pub const BUFFER_LENGTH: usize = 8192;

/// A fixed-size read buffer: bytes `pos..len` are read and not yet used.
pub struct Buffer {
    bytes: Vec<u8>,
    pos: usize,
    len: usize,
}

impl View for Buffer {
    type V = Seq<u8>;

    /// The bytes read and not yet used.
    closed spec fn view(&self) -> Seq<u8> {
        self.bytes@.subrange(self.pos as int, self.len as int)
    }
}

impl Buffer {
    pub closed spec fn wf(&self) -> bool {
        self.bytes@.len() == BUFFER_LENGTH && self.pos <= self.len <= BUFFER_LENGTH
    }

    pub fn new() -> (r: Buffer)
        ensures
            r.wf(),
            r@ == Seq::<u8>::empty(),
    {
        let mut bytes: Vec<u8> = Vec::new();
        let mut i: usize = 0;
        while i < BUFFER_LENGTH
            invariant
                i <= BUFFER_LENGTH,
                bytes@.len() == i,
            decreases BUFFER_LENGTH - i,
        {
            bytes.push(0);
            i = i + 1;
        }
        let r = Buffer { bytes, pos: 0, len: 0 };
        assert(r@ =~= Seq::<u8>::empty());
        r
    }

    /// Whether every byte read has been used, so that a read is due.
    pub fn needs_fill(&self) -> (r: bool)
        requires
            self.wf(),
        ensures
            r == (self@.len() == 0),
    {
        self.pos >= self.len
    }

    /// Takes the bytes of a read when every byte before has been used; at
    /// most a buffer's length of them is kept. Returns how many were kept.
    pub fn fill(&mut self, read: &[u8]) -> (r: usize)
        requires
            old(self).wf(),
        ensures
            final(self).wf(),
            old(self)@.len() == 0 ==> r == (if read@.len() < BUFFER_LENGTH {
                read@.len()
            } else {
                BUFFER_LENGTH as nat
            }) && final(self)@ == read@.subrange(0, r as int),
            old(self)@.len() > 0 ==> r == 0 && final(self)@ == old(self)@,
    {
        if self.pos < self.len {
            return 0;
        }
        let n = if read.len() < BUFFER_LENGTH {
            read.len()
        } else {
            BUFFER_LENGTH
        };
        let mut i: usize = 0;
        while i < n
            invariant
                i <= n <= BUFFER_LENGTH,
                n <= read@.len(),
                self.bytes@.len() == BUFFER_LENGTH,
                forall|k: int| 0 <= k < i ==> self.bytes@[k] == read@[k],
            decreases n - i,
        {
            self.bytes.set(i, read[i]);
            i = i + 1;
        }
        self.pos = 0;
        self.len = n;
        assert(self@ =~= read@.subrange(0, n as int));
        n
    }

    /// Takes up to `num_bytes` of the unused bytes.
    pub fn drain(&mut self, num_bytes: usize) -> (r: Vec<u8>)
        requires
            old(self).wf(),
        ensures
            final(self).wf(),
            r@.len() == (if num_bytes < old(self)@.len() {
                num_bytes as nat
            } else {
                old(self)@.len()
            }),
            old(self)@ == r@ + final(self)@,
    {
        let avail = self.len - self.pos;
        let count = if num_bytes < avail {
            num_bytes
        } else {
            avail
        };
        let start = self.pos;
        let out = vstd::slice::slice_to_vec(
            vstd::slice::slice_subrange(self.bytes.as_slice(), start, start + count),
        );
        self.consume(count);
        assert(old(self)@ =~= out@ + self@);
        out
    }

    /// Marks `nbytes` of the unused bytes as used.
    pub fn consume(&mut self, nbytes: usize)
        requires
            old(self).wf(),
            nbytes <= old(self)@.len(),
        ensures
            final(self).wf(),
            final(self)@ == old(self)@.subrange(nbytes as int, old(self)@.len() as int),
    {
        self.pos = self.pos + nbytes;
        assert(self@ =~= old(self)@.subrange(nbytes as int, old(self)@.len() as int));
    }

    /// The unused bytes.
    pub fn as_slice(&self) -> (r: &[u8])
        requires
            self.wf(),
        ensures
            r@ == self@,
    {
        vstd::slice::slice_subrange(self.bytes.as_slice(), self.pos, self.len)
    }
}

/// A frame to write: one a client sends, or one the server sends.
pub enum Frame {
    Client(ProtocolMessage),
    Server(ServerMessage),
}

impl Frame {
    /// The bytes of the frame, body excluded for a client's event.
    pub open spec fn header_bytes(&self) -> Seq<u8> {
        match self {
            Frame::Client(m) => encode_client(m@),
            Frame::Server(m) => encode_server(m@),
        }
    }

    pub open spec fn writable(&self) -> bool {
        match self {
            Frame::Client(_) => true,
            Frame::Server(m) => m matches ServerMessage::Event(e) ==> e.data@.len() <= u32::MAX,
        }
    }
}

/// Writes a frame, header then body, into a byte sink; what was written
/// already is not written again.
pub struct MessageWriter {
    message: Frame,
    body: Vec<u8>,
    header_written: bool,
    body_position: usize,
}

impl MessageWriter {
    pub closed spec fn remaining(&self) -> Seq<u8> {
        let body = self.body@.subrange(self.body_position as int, self.body@.len() as int);
        if self.header_written {
            body
        } else {
            self.message.header_bytes() + body
        }
    }

    pub closed spec fn wf(&self) -> bool {
        self.body_position <= self.body@.len() && self.message.writable()
    }

    /// A writer of the frame of `message` followed by `body`.
    pub fn new(message: ProtocolMessage, body: Vec<u8>) -> (r: MessageWriter)
        ensures
            r.wf(),
            r.remaining() == encode_client(message@) + body@,
    {
        let r = MessageWriter {
            message: Frame::Client(message),
            body,
            header_written: false,
            body_position: 0,
        };
        assert(r.body@.subrange(0, r.body@.len() as int) =~= r.body@);
        r
    }

    /// A writer of a frame the server sends; its body is part of the frame.
    pub fn for_server(message: ServerMessage) -> (r: MessageWriter)
        requires
            message matches ServerMessage::Event(e) ==> e.data@.len() <= u32::MAX,
        ensures
            r.wf(),
            r.remaining() == encode_server(message@),
    {
        let r = MessageWriter {
            message: Frame::Server(message),
            body: Vec::new(),
            header_written: false,
            body_position: 0,
        };
        assert(r.body@.subrange(0, 0) =~= Seq::<u8>::empty());
        assert(r.remaining() =~= encode_server(message@));
        r
    }

    /// Appends what is left of the frame to `dest`.
    pub fn write(&mut self, dest: &mut Vec<u8>)
        requires
            old(self).wf(),
        ensures
            final(self).wf(),
            final(dest)@ == old(dest)@ + old(self).remaining(),
            final(self).remaining() == Seq::<u8>::empty(),
    {
        if !self.header_written {
            match &self.message {
                Frame::Client(m) => serialize_client_message(m, dest),
                Frame::Server(m) => serialize_server_message(m, dest),
            }
            self.header_written = true;
        }
        let rest = vstd::slice::slice_subrange(self.body.as_slice(), self.body_position, self.body.len());
        push_bytes(dest, rest);
        self.body_position = self.body.len();
        assert(self.remaining() =~= Seq::<u8>::empty());
        assert(final(dest)@ =~= old(dest)@ + old(self).remaining());
    }
}

/// The client side of a connection: frames to send, and the server frames
/// read from the bytes received.
pub struct ClientStream {
    received: Vec<u8>,
}

impl View for ClientStream {
    type V = Seq<u8>;

    /// The bytes received and not yet read as a frame.
    closed spec fn view(&self) -> Seq<u8> {
        self.received@
    }
}

impl ClientStream {
    pub fn new() -> (r: ClientStream)
        ensures
            r@ == Seq::<u8>::empty(),
    {
        ClientStream { received: Vec::new() }
    }

    /// Appends the frame of `message` to the bytes to send.
    pub fn write(&self, message: &ProtocolMessage, out: &mut Vec<u8>)
        ensures
            final(out)@ == old(out)@ + encode_client(message@),
    {
        serialize_client_message(message, out);
    }

    /// Takes bytes received from the server.
    pub fn receive(&mut self, bytes: &[u8])
        ensures
            final(self)@ == old(self)@ + bytes@,
    {
        push_bytes(&mut self.received, bytes);
    }

    /// Reads the next server frame from the bytes received, and drops its
    /// bytes when it is whole.
    pub fn read(&mut self) -> (r: ParseResult<ServerMessage>)
        ensures
            server_parse_matches(r, spec_parse_server(old(self)@)),
            r matches ParseResult::Done(n, _) ==> n <= old(self)@.len() && final(self)@ == old(
                self,
            )@.subrange(n as int, old(self)@.len() as int),
            !(r is Done) ==> final(self)@ == old(self)@,
    {
        let r = parse_server_message(self.received.as_slice());
        if let ParseResult::Done(n, _) = &r {
            let n = *n;
            if n <= self.received.len() {
                self.received = vstd::slice::slice_to_vec(
                    vstd::slice::slice_subrange(self.received.as_slice(), n, self.received.len()),
                );
            }
        }
        r
    }
}

/// A message that could not be sent to a client, handed back.
pub struct ClientSendError(pub ServerMessage);

impl ClientSendError {
    pub fn into_message(self) -> (r: ServerMessage)
        ensures
            r@ == self.0@,
    {
        self.0
    }

    /// What went wrong, in words.
    pub fn description(&self) -> (r: &'static str) {
        "Failed to send message through Client Channel"
    }
}

/// What can go wrong for a client of the server.
pub enum ClientError {
    /// Reading or writing the connection failed.
    Io(String),
    /// The server answered with an error.
    FloError(ErrorMessage),
    /// The server answered with a frame that was not expected.
    UnexpectedMessage(ServerMessage),
}

impl From<ErrorMessage> for ClientError {
    fn from(err: ErrorMessage) -> (r: ClientError) {
        ClientError::FloError(err)
    }
}

impl vstd::std_specs::convert::FromSpecImpl<ErrorMessage> for ClientError {
    open spec fn obeys_from_spec() -> bool {
        true
    }

    open spec fn from_spec(err: ErrorMessage) -> ClientError {
        ClientError::FloError(err)
    }
}

/// What a consumer asks for.
pub struct ConsumerOptions {
    pub namespace: String,
    pub start_position: Option<FloEventId>,
    pub max_events: u64,
    pub username: String,
    pub password: String,
}

/// Units for a memory limit.
#[derive(Debug, Clone, Copy, PartialEq, Eq, Structural)]
pub enum MemoryUnit {
    Megabyte,
    Kilobyte,
    Byte,
}

/// An amount of memory.
#[derive(Debug, Clone, Copy, PartialEq, Eq, Structural)]
pub struct MemoryLimit {
    amount: usize,
    unit: MemoryUnit,
}

impl MemoryUnit {
    pub open spec fn multiplier(self) -> nat {
        match self {
            MemoryUnit::Byte => 1,
            MemoryUnit::Kilobyte => 1024,
            MemoryUnit::Megabyte => 1024 * 1024,
        }
    }
}

impl MemoryLimit {
    pub closed spec fn spec_bytes(&self) -> nat {
        (self.amount * self.unit.multiplier()) as nat
    }

    pub fn new(amount: usize, unit: MemoryUnit) -> (r: MemoryLimit)
        ensures
            r.spec_bytes() == amount * unit.multiplier(),
    {
        MemoryLimit { amount, unit }
    }

    /// The limit in bytes, or `None` when that does not fit in a `usize`.
    pub fn as_bytes(&self) -> (r: Option<usize>)
        ensures
            r matches Some(n) ==> n == self.spec_bytes(),
            r is None <==> self.spec_bytes() > usize::MAX,
    {
        let multiplier: usize = match self.unit {
            MemoryUnit::Byte => 1,
            MemoryUnit::Kilobyte => 1024,
            MemoryUnit::Megabyte => 1024 * 1024,
        };
        self.amount.checked_mul(multiplier)
    }
}

} // verus!
