use crate::bytes::push_bytes;
use crate::codec::{
    lemma_client_done_prefix, lemma_client_error_extend, parse_client_message, spec_parse_client,
    ClientAuth, ParseResult, ProtocolMessage, ProtocolMessageView, SpecParse,
};
use vstd::prelude::*;

verus! {

/// Identifies a client connection.
pub type ConnectionId = u64;

/// A whole client frame, body included, over plain values.
pub enum FrameView {
    Auth { namespace: Seq<char>, username: Seq<char>, password: Seq<char> },
    Produce { op_id: u32, namespace: Seq<char>, data: Seq<u8> },
    Consume(u64),
}

/// How a whole client frame, body included, is read from the front of `b`.
#[verifier::opaque]
pub open spec fn spec_parse_frame(b: Seq<u8>) -> SpecParse<FrameView> {
    match spec_parse_client(b) {
        SpecParse::Done(n, ProtocolMessageView::ProduceEvent { op_id, namespace, data_length }) => {
            if b.len() < n + data_length {
                SpecParse::Incomplete
            } else {
                SpecParse::Done(
                    n + data_length,
                    FrameView::Produce {
                        op_id,
                        namespace,
                        data: b.subrange(n, n + data_length),
                    },
                )
            }
        },
        SpecParse::Done(n, ProtocolMessageView::ClientAuth { namespace, username, password }) => {
            SpecParse::Done(n, FrameView::Auth { namespace, username, password })
        },
        SpecParse::Done(n, ProtocolMessageView::StartConsuming(m)) => SpecParse::Done(
            n,
            FrameView::Consume(m),
        ),
        SpecParse::Incomplete => SpecParse::Incomplete,
        SpecParse::Error => SpecParse::Error,
    }
}

/// What a byte stream decodes to: its whole frames in order, how many bytes
/// they take, and whether decoding stopped on bytes that cannot be a frame.
pub struct Decoded {
    pub frames: Seq<FrameView>,
    pub consumed: int,
    pub failed: bool,
}

#[verifier::opaque]
pub open spec fn decode_all(b: Seq<u8>) -> Decoded
    decreases b.len(),
{
    match spec_parse_frame(b) {
        SpecParse::Done(n, f) => if 0 < n <= b.len() {
            let r = decode_all(b.subrange(n, b.len() as int));
            Decoded { frames: seq![f] + r.frames, consumed: n + r.consumed, failed: r.failed }
        } else {
            Decoded { frames: seq![], consumed: 0, failed: false }
        },
        SpecParse::Incomplete => Decoded { frames: seq![], consumed: 0, failed: false },
        SpecParse::Error => Decoded { frames: seq![], consumed: 0, failed: true },
    }
}

proof fn lemma_client_done_bounds(b: Seq<u8>)
    requires
        spec_parse_client(b) is Done,
    ensures
        8 <= spec_parse_client(b)->Done_0 <= b.len(),
{
    reveal(spec_parse_client);
}

proof fn lemma_frame_done_bounds(b: Seq<u8>)
    requires
        spec_parse_frame(b) is Done,
    ensures
        8 <= spec_parse_frame(b)->Done_0 <= b.len(),
{
    reveal(spec_parse_frame);
    lemma_client_done_bounds(b);
}

/// A whole frame parsed from `b` is parsed the same from any buffer that
/// holds the same bytes where the frame stands.
pub proof fn lemma_frame_done_prefix(b: Seq<u8>, c: Seq<u8>)
    requires
        spec_parse_frame(b) is Done,
        spec_parse_frame(b)->Done_0 <= c.len(),
        c.subrange(0, spec_parse_frame(b)->Done_0) == b.subrange(0, spec_parse_frame(b)->Done_0),
    ensures
        spec_parse_frame(c) == spec_parse_frame(b),
{
    reveal(spec_parse_client);
    reveal(spec_parse_frame);
    lemma_client_done_bounds(b);
    let n = spec_parse_frame(b)->Done_0;
    let h = spec_parse_client(b)->Done_0;
    assert(c.subrange(0, h) =~= c.subrange(0, n).subrange(0, h));
    assert(b.subrange(0, h) =~= b.subrange(0, n).subrange(0, h));
    lemma_client_done_prefix(b, c);
    assert(c.subrange(h, n) =~= c.subrange(0, n).subrange(h, n));
    assert(b.subrange(h, n) =~= b.subrange(0, n).subrange(h, n));
}

/// Bytes that cannot start a frame cannot start one whatever is appended.
pub proof fn lemma_frame_error_extend(b: Seq<u8>, x: Seq<u8>)
    requires
        spec_parse_frame(b) is Error,
    ensures
        spec_parse_frame(b + x) is Error,
{
    reveal(spec_parse_client);
    reveal(spec_parse_frame);
    lemma_client_error_extend(b, x);
}

/// Once decoding has failed, appending bytes decodes to nothing more.
pub proof fn lemma_decode_failed_extend(b: Seq<u8>, x: Seq<u8>)
    requires
        decode_all(b).failed,
    ensures
        decode_all(b + x) == decode_all(b),
    decreases b.len(),
{
    reveal(decode_all);
    match spec_parse_frame(b) {
        SpecParse::Done(n, f) => {
            lemma_frame_done_bounds(b);
            assert((b + x).subrange(0, n) =~= b.subrange(0, n));
            lemma_frame_done_prefix(b, b + x);
            let rest = b.subrange(n, b.len() as int);
            assert((b + x).subrange(n, (b + x).len() as int) =~= rest + x);
            lemma_decode_failed_extend(rest, x);
        },
        SpecParse::Incomplete => {},
        SpecParse::Error => {
            lemma_frame_error_extend(b, x);
        },
    }
}

/// Decoding a buffer that ends on a frame boundary, followed by more bytes,
/// gives its frames followed by those of the rest.
pub proof fn lemma_decode_concat(p: Seq<u8>, q: Seq<u8>)
    requires
        decode_all(p).consumed == p.len(),
        !decode_all(p).failed,
    ensures
        decode_all(p + q) == (Decoded {
            frames: decode_all(p).frames + decode_all(q).frames,
            consumed: p.len() + decode_all(q).consumed,
            failed: decode_all(q).failed,
        }),
    decreases p.len(),
{
    reveal(decode_all);
    if p.len() == 0 {
        assert(p + q =~= q);
        assert(decode_all(p).frames + decode_all(q).frames =~= decode_all(q).frames);
    } else {
        let n = spec_parse_frame(p)->Done_0;
        let f = spec_parse_frame(p)->Done_1;
        lemma_frame_done_bounds(p);
        assert((p + q).subrange(0, n) =~= p.subrange(0, n));
        lemma_frame_done_prefix(p, p + q);
        let rest = p.subrange(n, p.len() as int);
        assert((p + q).subrange(n, (p + q).len() as int) =~= rest + q);
        lemma_decode_concat(rest, q);
        assert(seq![f] + (decode_all(rest).frames + decode_all(q).frames) =~= (seq![f]
            + decode_all(rest).frames) + decode_all(q).frames);
    }
}

proof fn lemma_decode_empty()
    ensures
        spec_parse_client(Seq::<u8>::empty()) is Incomplete,
        decode_all(Seq::<u8>::empty()) == (Decoded {
            frames: Seq::<FrameView>::empty(),
            consumed: 0,
            failed: false,
        }),
{
    reveal(decode_all);
    reveal(spec_parse_frame);
    reveal(spec_parse_client);
    assert(decode_all(Seq::<u8>::empty()).frames =~= Seq::<FrameView>::empty());
}

/// The bytes of exactly one frame decode to that frame.
proof fn lemma_decode_single(b: Seq<u8>)
    requires
        spec_parse_frame(b) is Done,
    ensures
        decode_all(b.subrange(0, spec_parse_frame(b)->Done_0)) == (Decoded {
            frames: seq![spec_parse_frame(b)->Done_1],
            consumed: spec_parse_frame(b)->Done_0,
            failed: false,
        }),
{
    reveal(decode_all);
    lemma_frame_done_bounds(b);
    let n = spec_parse_frame(b)->Done_0;
    let c = b.subrange(0, n);
    assert(c.subrange(0, n) =~= b.subrange(0, n));
    lemma_frame_done_prefix(b, c);
    let e = c.subrange(n, c.len() as int);
    assert(e =~= Seq::<u8>::empty());
    lemma_decode_empty();
    assert(seq![spec_parse_frame(b)->Done_1] + decode_all(e).frames =~= seq![
        spec_parse_frame(b)->Done_1,
    ]);
}

/// A produced event as received from a connection.
pub struct ProduceEvent {
    pub connection_id: ConnectionId,
    pub op_id: u32,
    pub namespace: String,
    pub event_data: Vec<u8>,
}

/// A message decoded from a connection, tagged with that connection.
pub enum ClientMessage {
    ClientAuth(ConnectionId, ClientAuth),
    Produce(ProduceEvent),
    StartConsuming(ConnectionId, u64),
}

impl ClientMessage {
    pub open spec fn connection(&self) -> ConnectionId {
        match self {
            ClientMessage::ClientAuth(c, _) => *c,
            ClientMessage::Produce(p) => p.connection_id,
            ClientMessage::StartConsuming(c, _) => *c,
        }
    }

    pub open spec fn frame(&self) -> FrameView {
        match self {
            ClientMessage::ClientAuth(_, a) => FrameView::Auth {
                namespace: a.namespace@,
                username: a.username@,
                password: a.password@,
            },
            ClientMessage::Produce(p) => FrameView::Produce {
                op_id: p.op_id,
                namespace: p.namespace@,
                data: p.event_data@,
            },
            ClientMessage::StartConsuming(_, m) => FrameView::Consume(*m),
        }
    }
}

/// The frames of a sequence of messages.
pub open spec fn frames_of(s: Seq<ClientMessage>) -> Seq<FrameView> {
    s.map_values(|m: ClientMessage| m.frame())
}

/// An event whose body is still arriving.
pub struct InProgressEvent {
    pub op_id: u32,
    pub namespace: String,
    pub data_length: u32,
    pub event_data: Vec<u8>,
}

impl InProgressEvent {
    /// How many bytes of the body are still to come.
    pub fn remaining(&self) -> (r: usize)
        requires
            self.event_data@.len() <= self.data_length,
        ensures
            r == self.data_length - self.event_data@.len(),
    {
        self.data_length as usize - self.event_data.len()
    }
}

/// Decodes the frames that arrive on one connection, in chunks of any size.
pub struct ClientMessageStream {
    connection_id: ConnectionId,
    buffer: Vec<u8>,
    reading: Option<InProgressEvent>,
    closed: bool,
    /// Every byte received while open.
    fed: Ghost<Seq<u8>>,
    /// The bytes of the frames emitted so far.
    done: Ghost<Seq<u8>>,
    /// The header bytes of the event being read.
    header: Ghost<Seq<u8>>,
    /// The frames emitted so far.
    emitted: Ghost<Seq<FrameView>>,
}

impl ClientMessageStream {
    /// The bytes received but not yet emitted as a frame.
    pub closed spec fn pending(&self) -> Seq<u8> {
        match self.reading {
            Some(ev) => self.header@ + ev.event_data@,
            None => self.buffer@,
        }
    }

    pub closed spec fn wf(&self) -> bool {
        &&& self.fed@ == self.done@ + self.pending()
        &&& decode_all(self.done@) == (Decoded {
            frames: self.emitted@,
            consumed: self.done@.len() as int,
            failed: false,
        })
        &&& if self.closed {
            &&& self.reading is None
            &&& spec_parse_frame(self.buffer@) is Error
        } else {
            match self.reading {
                Some(ev) => {
                    &&& self.buffer@.len() == 0
                    &&& ev.event_data@.len() < ev.data_length
                    &&& spec_parse_client(self.header@) == SpecParse::Done(
                        self.header@.len() as int,
                        ProtocolMessageView::ProduceEvent {
                            op_id: ev.op_id,
                            namespace: ev.namespace@,
                            data_length: ev.data_length,
                        },
                    )
                },
                None => spec_parse_client(self.buffer@) is Incomplete,
            }
        }
    }

    /// All bytes received while the stream was open.
    pub closed spec fn received(&self) -> Seq<u8> {
        self.fed@
    }

    /// All frames emitted so far.
    pub closed spec fn messages(&self) -> Seq<FrameView> {
        self.emitted@
    }

    pub closed spec fn spec_connection_id(&self) -> ConnectionId {
        self.connection_id
    }

    pub closed spec fn spec_closed(&self) -> bool {
        self.closed
    }

    /// Whether the body of an event is being read.
    pub closed spec fn spec_reading(&self) -> bool {
        self.reading is Some
    }

    /// How many received bytes wait in the buffer.
    pub closed spec fn spec_buffered(&self) -> nat {
        self.buffer@.len()
    }

    pub fn new(connection_id: ConnectionId) -> (r: ClientMessageStream)
        ensures
            r.wf(),
            r.received() == Seq::<u8>::empty(),
            r.messages() == Seq::<FrameView>::empty(),
            !r.spec_closed(),
            r.spec_connection_id() == connection_id,
    {
        let r = ClientMessageStream {
            connection_id,
            buffer: Vec::new(),
            reading: None,
            closed: false,
            fed: Ghost(Seq::empty()),
            done: Ghost(Seq::empty()),
            header: Ghost(Seq::empty()),
            emitted: Ghost(Seq::empty()),
        };
        proof {
            lemma_decode_empty();
        }
        r
    }

    pub fn connection_id(&self) -> (r: ConnectionId)
        ensures
            r == self.spec_connection_id(),
    {
        self.connection_id
    }

    /// Whether the stream has stopped on bytes that cannot be a frame.
    pub fn is_closed(&self) -> (r: bool)
        ensures
            r == self.spec_closed(),
    {
        self.closed
    }

    /// Whether the body of an event is being read.
    pub fn is_read_event(&self) -> (r: bool)
        ensures
            r == self.spec_reading(),
    {
        self.reading.is_some()
    }

    /// Whether nothing can be decoded before more bytes arrive.
    pub fn requires_read(&self) -> (r: bool)
        ensures
            r == (self.spec_reading() || self.spec_buffered() == 0),
    {
        self.reading.is_some() || self.buffer.len() == 0
    }

    /// What has been received decodes to what has been emitted.
    pub proof fn lemma_messages(&self)
        requires
            self.wf(),
        ensures
            decode_all(self.received()).frames == self.messages(),
            decode_all(self.received()).failed == self.spec_closed(),
    {
        reveal(spec_parse_frame);
        reveal(decode_all);
        let p = self.done@;
        let pend = self.pending();
        if self.closed {
        } else {
            match self.reading {
                Some(ev) => {
                    let h = self.header@;
                    assert(pend.subrange(0, h.len() as int) =~= h);
                    assert(h.subrange(0, h.len() as int) =~= h);
                    lemma_client_done_prefix(h, pend);
                },
                None => {},
            }
        }
        lemma_decode_concat(p, pend);
        assert(self.emitted@ + Seq::<FrameView>::empty() =~= self.emitted@);
    }

    /// The decoding state part way through `receive`: `fed` is everything
    /// received, `buf[pos..]` what is still to be looked at, `cur` the event
    /// whose body is being read, and `out` what has been emitted in this call.
    spec fn step_inv(
        &self,
        fed: Seq<u8>,
        buf: Seq<u8>,
        pos: int,
        cur: Option<InProgressEvent>,
        out: Seq<ClientMessage>,
        old_emitted: Seq<FrameView>,
    ) -> bool {
        &&& 0 <= pos <= buf.len()
        &&& fed == self.done@ + match cur {
            Some(ev) => self.header@ + ev.event_data@ + buf.subrange(pos, buf.len() as int),
            None => buf.subrange(pos, buf.len() as int),
        }
        &&& decode_all(self.done@) == (Decoded {
            frames: self.emitted@,
            consumed: self.done@.len() as int,
            failed: false,
        })
        &&& self.emitted@ == old_emitted + frames_of(out)
        &&& forall|i: int|
            0 <= i < out.len() ==> (#[trigger] out[i]).connection() == self.connection_id
        &&& cur matches Some(ev) ==> {
            &&& ev.event_data@.len() <= ev.data_length
            &&& spec_parse_client(self.header@) == SpecParse::Done(
                self.header@.len() as int,
                ProtocolMessageView::ProduceEvent {
                    op_id: ev.op_id,
                    namespace: ev.namespace@,
                    data_length: ev.data_length,
                },
            )
        }
        &&& !self.closed
    }

    /// Moves body bytes from `buf[pos..]` into the event being read, and
    /// emits it once its body is whole.
    #[verifier::rlimit(40)]
    fn fill_event(
        &mut self,
        ev: InProgressEvent,
        buf: &[u8],
        pos: usize,
        out: &mut Vec<ClientMessage>,
        Ghost(fed): Ghost<Seq<u8>>,
        Ghost(old_emitted): Ghost<Seq<FrameView>>,
    ) -> (r: (Option<InProgressEvent>, usize))
        requires
            old(self).step_inv(fed, buf@, pos as int, Some(ev), old(out)@, old_emitted),
        ensures
            final(self).step_inv(fed, buf@, r.1 as int, r.0, final(out)@, old_emitted),
            final(self).connection_id == old(self).connection_id,
            r.0 is None ==> r.1 >= pos,
            r.0 matches Some(e) ==> r.1 == buf@.len() && e.event_data@.len() < e.data_length,
    {
        let mut ev = ev;
        let want = ev.remaining();
        let avail = buf.len() - pos;
        let k = if want < avail {
            want
        } else {
            avail
        };
        let ghost data0 = ev.event_data@;
        push_bytes(&mut ev.event_data, vstd::slice::slice_subrange(buf, pos, pos + k));
        proof {
            assert(data0 + buf@.subrange(pos as int, pos + k) + buf@.subrange(
                pos + k,
                buf@.len() as int,
            ) =~= data0 + buf@.subrange(pos as int, buf@.len() as int));
        }
        proof {
            assert(fed =~= self.done@ + (self.header@ + ev.event_data@ + buf@.subrange(
                pos + k,
                buf@.len() as int,
            )));
        }
        let pos = pos + k;
        if ev.event_data.len() == ev.data_length as usize {
            let ghost hdr = self.header@;
            let ghost pend = hdr + ev.event_data@ + buf@.subrange(pos as int, buf@.len() as int);
            let ghost n: int = (hdr.len() + ev.event_data@.len()) as int;
            proof {
                assert(pend.subrange(0, hdr.len() as int) =~= hdr);
                assert(hdr.subrange(0, hdr.len() as int) =~= hdr);
                lemma_client_done_prefix(hdr, pend);
                assert(pend.subrange(hdr.len() as int, n) =~= ev.event_data@);
                reveal(spec_parse_frame);
                lemma_decode_single(pend);
                assert(pend.subrange(0, n) =~= hdr + ev.event_data@);
                lemma_decode_concat(self.done@, pend.subrange(0, n));
            }
            let msg = ClientMessage::Produce(
                ProduceEvent {
                    connection_id: self.connection_id,
                    op_id: ev.op_id,
                    namespace: ev.namespace,
                    event_data: ev.event_data,
                },
            );
            let ghost f = msg.frame();
            let ghost out0 = out@;
            out.push(msg);
            proof {
                assert(frames_of(out@) =~= frames_of(out0) + seq![f]);
                assert(fed =~= (self.done@ + pend.subrange(0, n)) + buf@.subrange(
                    pos as int,
                    buf@.len() as int,
                ));
            }
            self.done = Ghost(self.done@ + pend.subrange(0, n));
            self.emitted = Ghost(self.emitted@ + seq![f]);
            proof {
                assert(self.emitted@ =~= old_emitted + frames_of(out@));
            }
            (None, pos)
        } else {
            (Some(ev), pos)
        }
    }

    /// Parses the next frame header from `buf[pos..]`: emits a frame without
    /// a body at once, and starts reading the body of an event.
    #[verifier::rlimit(40)]
    fn parse_next(
        &mut self,
        buf: &[u8],
        pos: usize,
        out: &mut Vec<ClientMessage>,
        Ghost(fed): Ghost<Seq<u8>>,
        Ghost(old_emitted): Ghost<Seq<FrameView>>,
    ) -> (r: (Option<InProgressEvent>, usize, Step))
        requires
            old(self).step_inv(fed, buf@, pos as int, None, old(out)@, old_emitted),
        ensures
            final(self).step_inv(fed, buf@, r.1 as int, r.0, final(out)@, old_emitted),
            final(self).connection_id == old(self).connection_id,
            r.2 is Progress ==> r.1 > pos,
            r.2 is Wait ==> r.0 is None && r.1 == pos && spec_parse_client(
                buf@.subrange(pos as int, buf@.len() as int),
            ) is Incomplete,
            r.2 is Fail ==> r.0 is None && r.1 == pos && spec_parse_frame(
                buf@.subrange(pos as int, buf@.len() as int),
            ) is Error,
    {
        let rest = vstd::slice::slice_subrange(buf, pos, buf.len());
        match parse_client_message(rest) {
            ParseResult::Done(n, ProtocolMessage::ProduceEvent(h)) => {
                let ghost hdr = rest@.subrange(0, n as int);
                proof {
                    assert(hdr.subrange(0, n as int) =~= rest@.subrange(0, n as int));
                    lemma_client_done_prefix(rest@, hdr);
                    assert(fed =~= self.done@ + (hdr + Seq::<u8>::empty() + buf@.subrange(
                        pos + n,
                        buf@.len() as int,
                    )));
                }
                self.header = Ghost(hdr);
                let ev = InProgressEvent {
                    op_id: h.op_id,
                    namespace: h.namespace,
                    data_length: h.data_length,
                    event_data: Vec::new(),
                };
                (Some(ev), pos + n, Step::Progress)
            },
            ParseResult::Done(n, m) => {
                let msg = match m {
                    ProtocolMessage::ClientAuth(a) => ClientMessage::ClientAuth(
                        self.connection_id,
                        a,
                    ),
                    ProtocolMessage::StartConsuming(x) => ClientMessage::StartConsuming(
                        self.connection_id,
                        x,
                    ),
                    ProtocolMessage::ProduceEvent(_) => {
                        proof {
                            assert(false);
                        }
                        ClientMessage::StartConsuming(self.connection_id, 0)
                    },
                };
                let ghost f = msg.frame();
                proof {
                    reveal(spec_parse_frame);
                    assert(spec_parse_frame(rest@) == SpecParse::Done(n as int, f));
                    lemma_decode_single(rest@);
                    lemma_decode_concat(self.done@, rest@.subrange(0, n as int));
                    assert(fed =~= (self.done@ + rest@.subrange(0, n as int)) + buf@.subrange(
                        pos + n,
                        buf@.len() as int,
                    ));
                }
                let ghost out0 = out@;
                out.push(msg);
                proof {
                    assert(frames_of(out@) =~= frames_of(out0) + seq![f]);
                }
                self.done = Ghost(self.done@ + rest@.subrange(0, n as int));
                self.emitted = Ghost(self.emitted@ + seq![f]);
                proof {
                    assert(self.emitted@ =~= old_emitted + frames_of(out@));
                }
                (None, pos + n, Step::Progress)
            },
            ParseResult::Incomplete => (None, pos, Step::Wait),
            ParseResult::Error => {
                proof {
                    reveal(spec_parse_frame);
                }
                (None, pos, Step::Fail)
            },
        }
    }

    /// Takes the next chunk of bytes from the connection and returns the
    /// whole frames it completes, tagged with this connection. Whatever the
    /// chunks, the frames emitted so far are those that all the bytes
    /// received decode to; the stream closes on bytes that cannot be a frame.
    pub fn receive(&mut self, bytes: &[u8]) -> (r: Vec<ClientMessage>)
        requires
            old(self).wf(),
        ensures
            final(self).wf(),
            final(self).spec_connection_id() == old(self).spec_connection_id(),
            old(self).spec_closed() ==> r@.len() == 0 && final(self).received() == old(
                self,
            ).received() && final(self).spec_closed(),
            !old(self).spec_closed() ==> final(self).received() == old(self).received() + bytes@,
            final(self).messages() == old(self).messages() + frames_of(r@),
            decode_all(final(self).received()).frames == final(self).messages(),
            decode_all(final(self).received()).failed == final(self).spec_closed(),
            forall|i: int|
                0 <= i < r@.len() ==> (#[trigger] r@[i]).connection() == old(
                    self,
                ).spec_connection_id(),
    {
        let mut out: Vec<ClientMessage> = Vec::new();
        if self.closed {
            proof {
                self.lemma_messages();
                assert(frames_of(out@) =~= Seq::<FrameView>::empty());
                assert(self.emitted@ + frames_of(out@) =~= self.emitted@);
            }
            return out;
        }
        let ghost old_emitted = self.emitted@;
        let mut buf: Vec<u8> = Vec::new();
        push_bytes(&mut buf, self.buffer.as_slice());
        push_bytes(&mut buf, bytes);
        let mut cur = self.reading.take();
        let ghost fed = self.fed@ + bytes@;
        let mut pos: usize = 0;
        proof {
            if cur is Some {
                let ev = cur->Some_0;
                assert(fed =~= self.done@ + (self.header@ + ev.event_data@ + buf@.subrange(
                    0,
                    buf@.len() as int,
                )));
            } else {
                assert(fed =~= self.done@ + buf@.subrange(0, buf@.len() as int));
            }
            assert(frames_of(out@) =~= Seq::<FrameView>::empty());
            assert(self.emitted@ =~= old_emitted + frames_of(out@));
        }
        let mut failed = false;
        loop
            invariant_except_break
                !failed,
            invariant
                self.step_inv(fed, buf@, pos as int, cur, out@, old_emitted),
                self.connection_id == old(self).connection_id,
            ensures
                failed ==> cur is None && spec_parse_frame(
                    buf@.subrange(pos as int, buf@.len() as int),
                ) is Error,
                !failed ==> match cur {
                    Some(ev) => pos == buf@.len() && ev.event_data@.len() < ev.data_length,
                    None => spec_parse_client(
                        buf@.subrange(pos as int, buf@.len() as int),
                    ) is Incomplete,
                },
            decreases 2 * (buf@.len() - pos) + if cur is Some {
                1int
            } else {
                0int
            },
        {
            match cur {
                Some(ev) => {
                    let (next, p) = self.fill_event(
                        ev,
                        buf.as_slice(),
                        pos,
                        &mut out,
                        Ghost(fed),
                        Ghost(old_emitted),
                    );
                    pos = p;
                    if next.is_some() {
                        cur = next;
                        break ;
                    }
                    cur = next;
                },
                None => {
                    let (next, p, step) = self.parse_next(
                        buf.as_slice(),
                        pos,
                        &mut out,
                        Ghost(fed),
                        Ghost(old_emitted),
                    );
                    cur = next;
                    pos = p;
                    match step {
                        Step::Progress => {},
                        Step::Wait => {
                            break ;
                        },
                        Step::Fail => {
                            failed = true;
                            break ;
                        },
                    }
                },
            }
        }
        self.buffer = vstd::slice::slice_to_vec(
            vstd::slice::slice_subrange(buf.as_slice(), pos, buf.len()),
        );
        self.reading = cur;
        self.closed = failed;
        self.fed = Ghost(fed);
        proof {
            assert(self.fed@ =~= self.done@ + self.pending());
            self.lemma_messages();
        }
        out
    }
}

/// What one decoding step achieved.
enum Step {
    Progress,
    Wait,
    Fail,
}

} // verus!
