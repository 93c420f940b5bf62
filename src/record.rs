use crate::bytes::{
    has_tag, lemma_u16_round_trip, lemma_u32_round_trip, lemma_u64_round_trip, push_bytes, push_tag, push_u16, push_u32, push_u64, read_u16, read_u32, read_u64,
    text_at, u16_at, u16_bytes, u32_at, u32_bytes, u64_at, u64_bytes,
};
use crate::codec::tag_evt;
use crate::event::{EventView, FloEventId, OwnedFloEvent};
use crate::index::IndexEntry;
use vstd::prelude::*;
use vstd::utf8::*;

verus! {

broadcast use encode_utf8_valid_utf8, encode_utf8_decode_utf8;

/// The bytes of a record besides its namespace and data.
pub const RECORD_OVERHEAD: usize = 30;

/// The bytes of an event as a record of the log.
pub open spec fn encode_record(e: EventView) -> Seq<u8> {
    let ns = encode_utf8(e.namespace);
    tag_evt() + u32_bytes((30 + ns.len() + e.data.len()) as u32) + u64_bytes(e.id.event_counter)
        + u16_bytes(e.id.actor) + u32_bytes(ns.len() as u32) + ns + u32_bytes(e.data.len() as u32)
        + e.data
}

/// An event whose record length fits in the size field.
pub open spec fn record_fits(e: EventView) -> bool {
    30 + encode_utf8(e.namespace).len() + e.data.len() <= u32::MAX
}

/// The fixed-size start of a record.
#[derive(Debug, Clone, Copy, PartialEq, Eq, Structural)]
pub struct EventHeader {
    pub total_size: u32,
    pub event_counter: u64,
    pub actor_id: u16,
    pub namespace_length: u32,
}

impl EventHeader {
    /// The length of the header on disk.
    pub fn size_on_disk() -> (r: usize)
        ensures
            r == 26,
    {
        26
    }

    /// The data length that the total size leaves.
    pub fn compute_data_length(&self) -> (r: usize)
        requires
            self.total_size >= 30 + self.namespace_length,
        ensures
            r == self.total_size - 30 - self.namespace_length,
    {
        (self.total_size - 30 - self.namespace_length) as usize
    }

    pub fn event_id(&self) -> (r: FloEventId)
        ensures
            r == (FloEventId { actor: self.actor_id, event_counter: self.event_counter }),
    {
        FloEventId { actor: self.actor_id, event_counter: self.event_counter }
    }
}

/// The header at `off`, if 26 bytes are there and they start with the
/// record magic.
pub open spec fn spec_header_at(b: Seq<u8>, off: int) -> Option<EventHeader> {
    if 0 <= off && off + 26 <= b.len() && b.subrange(off, off + 8) == tag_evt() {
        Some(
            EventHeader {
                total_size: u32_at(b, off + 8),
                event_counter: u64_at(b, off + 12),
                actor_id: u16_at(b, off + 20),
                namespace_length: u32_at(b, off + 22),
            },
        )
    } else {
        None
    }
}

pub fn read_header(b: &[u8], off: usize) -> (r: Option<EventHeader>)
    ensures
        r == spec_header_at(b@, off as int),
{
    if off > b.len() || b.len() - off < 26 {
        return None;
    }
    let rest = vstd::slice::slice_subrange(b, off, b.len());
    proof {
        assert(rest@.subrange(0, 8) =~= b@.subrange(off as int, off + 8));
    }
    if !has_tag(rest, 69, 86, 84) {
        return None;
    }
    Some(
        EventHeader {
            total_size: read_u32(b, off + 8),
            event_counter: read_u64(b, off + 12),
            actor_id: read_u16(b, off + 20),
            namespace_length: read_u32(b, off + 22),
        },
    )
}

/// The event recorded at `off` and the length of its record, if a whole,
/// consistent record stands there.
pub open spec fn spec_record_at(b: Seq<u8>, off: int) -> Option<(EventView, int)> {
    match spec_header_at(b, off) {
        None => None,
        Some(h) => {
            let ns_start = off + 26;
            let ns_end = ns_start + h.namespace_length;
            if ns_end + 4 > b.len() {
                None
            } else {
                let dl = u32_at(b, ns_end);
                if h.total_size != 30 + h.namespace_length + dl {
                    None
                } else if off + h.total_size > b.len() {
                    None
                } else if !valid_utf8(b.subrange(ns_start, ns_end)) {
                    None
                } else {
                    Some(
                        (
                            EventView {
                                id: FloEventId { actor: h.actor_id, event_counter: h.event_counter },
                                namespace: decode_utf8(b.subrange(ns_start, ns_end)),
                                data: b.subrange(ns_end + 4, ns_end + 4 + dl),
                            },
                            h.total_size as int,
                        ),
                    )
                }
            }
        },
    }
}

/// Reads the record at `off`: the event and the length of its record.
pub fn read_event(b: &[u8], off: usize) -> (r: Option<(OwnedFloEvent, usize)>)
    ensures
        match (r, spec_record_at(b@, off as int)) {
            (Some((e, n)), Some((se, sn))) => e@ == se && n == sn,
            (None, None) => true,
            _ => false,
        },
        r matches Some((_, n)) ==> 30 <= n && off + n <= b@.len(),
{
    let h = match read_header(b, off) {
        Some(h) => h,
        None => return None,
    };
    let blen = b.len();
    assert(off + 26 <= blen);
    let ns_start = off + 26;
    if b.len() - ns_start < h.namespace_length as usize {
        return None;
    }
    let ns_end = ns_start + h.namespace_length as usize;
    if b.len() - ns_end < 4 {
        return None;
    }
    let dl = read_u32(b, ns_end);
    if h.total_size as u64 != 30 + h.namespace_length as u64 + dl as u64 {
        return None;
    }
    if b.len() - off < h.total_size as usize {
        return None;
    }
    let namespace = match text_at(b, ns_start, ns_end) {
        Some(s) => s,
        None => return None,
    };
    let data_start = ns_end + 4;
    let data = vstd::slice::slice_to_vec(
        vstd::slice::slice_subrange(b, data_start, data_start + dl as usize),
    );
    let event = OwnedFloEvent { id: h.event_id(), namespace, data };
    Some((event, h.total_size as usize))
}

/// Appends the record of an event.
pub fn write_record(e: &OwnedFloEvent, out: &mut Vec<u8>)
    requires
        record_fits(e@),
    ensures
        final(out)@ == old(out)@ + encode_record(e@),
{
    let ns = e.namespace.as_str().as_bytes();
    let total = (30 + ns.len() + e.data.len()) as u32;
    push_tag(out, 69, 86, 84);
    push_u32(out, total);
    push_u64(out, e.id.event_counter);
    push_u16(out, e.id.actor);
    push_u32(out, ns.len() as u32);
    push_bytes(out, ns);
    push_u32(out, e.data.len() as u32);
    push_bytes(out, e.data.as_slice());
    assert(final(out)@ =~= old(out)@ + encode_record(e@));
}

/// A record written after any bytes, and followed by any bytes, reads back
/// as the same event, with the length of the record.
#[verifier::rlimit(40)]
pub proof fn lemma_record_round_trip(prefix: Seq<u8>, e: EventView, rest: Seq<u8>)
    requires
        record_fits(e),
    ensures
        spec_record_at(prefix + encode_record(e) + rest, prefix.len() as int) == Some(
            (e, encode_record(e).len() as int),
        ),
{
    let b = prefix + encode_record(e) + rest;
    let off = prefix.len() as int;
    let ns = encode_utf8(e.namespace);
    let nl = ns.len() as int;
    let dl = e.data.len() as int;
    let total = (30 + nl + dl) as u32;
    assert(encode_record(e).len() == 30 + nl + dl);
    assert(b.subrange(off, off + 8) =~= tag_evt());
    assert(b.subrange(off + 8, off + 12) =~= u32_bytes(total));
    lemma_u32_round_trip(total, b, off + 8);
    assert(b.subrange(off + 12, off + 20) =~= u64_bytes(e.id.event_counter));
    lemma_u64_round_trip(e.id.event_counter, b, off + 12);
    assert(b.subrange(off + 20, off + 22) =~= u16_bytes(e.id.actor));
    lemma_u16_round_trip(e.id.actor, b, off + 20);
    assert(b.subrange(off + 22, off + 26) =~= u32_bytes(nl as u32));
    lemma_u32_round_trip(nl as u32, b, off + 22);
    assert(b.subrange(off + 26, off + 26 + nl) =~= ns);
    assert(b.subrange(off + 26 + nl, off + 30 + nl) =~= u32_bytes(dl as u32));
    lemma_u32_round_trip(dl as u32, b, off + 26 + nl);
    assert(b.subrange(off + 30 + nl, off + 30 + nl + dl) =~= e.data);
}

/// The index entries of the records that stand one after another from
/// `off`, up to the first place where no whole record stands.
pub open spec fn spec_scan(b: Seq<u8>, off: int) -> Seq<IndexEntry>
    decreases b.len() - off,
{
    match spec_record_at(b, off) {
        Some((e, n)) => if n > 0 && off + n <= b.len() {
            seq![IndexEntry { event_id: e.id, offset: off as u64 }] + spec_scan(b, off + n)
        } else {
            seq![]
        },
        None => seq![],
    }
}

/// Where the whole records that start at `off` end.
pub open spec fn spec_valid_end(b: Seq<u8>, off: int) -> int
    decreases b.len() - off,
{
    match spec_record_at(b, off) {
        Some((e, n)) => if n > 0 && off + n <= b.len() {
            spec_valid_end(b, off + n)
        } else {
            off
        },
        None => off,
    }
}

/// A whole record found at `off` is found the same in any buffer that holds
/// the same bytes up to its end.
#[verifier::rlimit(40)]
proof fn lemma_record_agree(b: Seq<u8>, c: Seq<u8>, off: int)
    requires
        spec_record_at(b, off) is Some,
        off + spec_record_at(b, off)->Some_0.1 <= c.len(),
        off + spec_record_at(b, off)->Some_0.1 <= b.len(),
        forall|i: int| 0 <= i < off + spec_record_at(b, off)->Some_0.1 ==> c[i] == b[i],
    ensures
        spec_record_at(c, off) == spec_record_at(b, off),
{
    let h = spec_header_at(b, off)->Some_0;
    let end = off + h.total_size;
    let ns_start = off + 26;
    let ns_end = ns_start + h.namespace_length;
    assert(c.subrange(off, off + 8) =~= b.subrange(off, off + 8));
    assert(c.subrange(ns_start, ns_end) =~= b.subrange(ns_start, ns_end));
    let dl = u32_at(b, ns_end);
    assert(c.subrange(ns_end + 4, ns_end + 4 + dl) =~= b.subrange(ns_end + 4, ns_end + 4 + dl));
}

/// Scanning from the end of a log at a record appended there finds just
/// that record.
#[verifier::rlimit(60)]
proof fn lemma_scan_last_record(log: Seq<u8>, e: EventView)
    requires
        record_fits(e),
    ensures
        spec_scan(log + encode_record(e), log.len() as int) == seq![
            IndexEntry { event_id: e.id, offset: log.len() as u64 },
        ],
        spec_valid_end(log + encode_record(e), log.len() as int) == log.len() + encode_record(
            e,
        ).len(),
{
    let rec = encode_record(e);
    let b = log + rec;
    let off = log.len() as int;
    lemma_record_round_trip(log, e, Seq::empty());
    assert(log + rec + Seq::<u8>::empty() =~= b);
    let end = off + rec.len();
    assert(spec_header_at(b, end) is None);
    assert(spec_record_at(b, end) is None);
    assert(spec_scan(b, end) =~= Seq::<IndexEntry>::empty());
    assert(spec_valid_end(b, end) == end);
    assert(spec_record_at(b, off) == Some((e, rec.len() as int)));
    assert(spec_valid_end(b, off) == spec_valid_end(b, end));
    assert(spec_scan(b, off) == seq![IndexEntry { event_id: e.id, offset: off as u64 }]
        + spec_scan(b, end));
    assert(seq![IndexEntry { event_id: e.id, offset: off as u64 }] + Seq::<IndexEntry>::empty()
        =~= seq![IndexEntry { event_id: e.id, offset: off as u64 }]);
}

/// Appending a record to a log made of whole records adds one entry, at
/// the old end of the log, to what a scan finds, and the log stays whole.
#[verifier::rlimit(60)]
pub proof fn lemma_scan_append(log: Seq<u8>, e: EventView, off: int)
    requires
        record_fits(e),
        0 <= off <= log.len(),
        spec_valid_end(log, off) == log.len(),
    ensures
        spec_scan(log + encode_record(e), off) == spec_scan(log, off).push(
            IndexEntry { event_id: e.id, offset: log.len() as u64 },
        ),
        spec_valid_end(log + encode_record(e), off) == log.len() + encode_record(e).len(),
    decreases log.len() - off,
{
    let rec = encode_record(e);
    let b = log + rec;
    let added = IndexEntry { event_id: e.id, offset: log.len() as u64 };
    if off == log.len() {
        assert(spec_header_at(log, off) is None);
        assert(spec_record_at(log, off) is None);
        assert(spec_scan(log, off) =~= Seq::<IndexEntry>::empty());
        lemma_scan_last_record(log, e);
        assert(Seq::<IndexEntry>::empty().push(added) =~= seq![added]);
    } else {
        let r = spec_record_at(log, off);
        assert(r is Some);
        let ev = r->Some_0.0;
        let n = r->Some_0.1;
        assert(n > 0 && off + n <= log.len());
        assert forall|i: int| 0 <= i < off + n implies b[i] == log[i] by {}
        lemma_record_agree(log, b, off);
        lemma_scan_append(log, e, off + n);
        let first = IndexEntry { event_id: ev.id, offset: off as u64 };
        assert(spec_scan(log, off) == seq![first] + spec_scan(log, off + n));
        assert(spec_scan(b, off) == seq![first] + spec_scan(b, off + n));
        assert(spec_valid_end(b, off) == spec_valid_end(b, off + n));
        assert(seq![first] + spec_scan(log, off + n).push(added) =~= (seq![first] + spec_scan(
            log,
            off + n,
        )).push(added));
    }
}

/// An event persisted at the end of a log made of whole records is found by
/// a scan of the log, at the offset where it was written, and reading there
/// gives back the same event.
pub proof fn lemma_persisted_event_is_read_back(log: Seq<u8>, e: EventView)
    requires
        record_fits(e),
        spec_valid_end(log, 0) == log.len(),
    ensures
        spec_scan(log + encode_record(e), 0).contains(
            IndexEntry { event_id: e.id, offset: log.len() as u64 },
        ),
        spec_read_range(log + encode_record(e), log.len() as int, 1) == seq![e],
{
    let b = log + encode_record(e);
    let added = IndexEntry { event_id: e.id, offset: log.len() as u64 };
    lemma_scan_append(log, e, 0);
    let s = spec_scan(log, 0).push(added);
    assert(s[s.len() - 1] == added);
    lemma_record_round_trip(log, e, Seq::empty());
    assert(log + encode_record(e) + Seq::<u8>::empty() =~= b);
    assert(spec_read_range(b, (log.len() + encode_record(e).len()) as int, 0) =~= Seq::<EventView>::empty());
    assert(seq![e] + Seq::<EventView>::empty() =~= seq![e]);
}

/// What recovery finds in a log.
pub struct LogScan {
    /// An index entry for each whole record, in log order.
    pub entries: Vec<IndexEntry>,
    /// The length of the part of the log made of whole records; what
    /// follows is cut off.
    pub valid_len: usize,
}

/// Scans a log from its start, validating each record, and stops at the
/// first place where no whole record stands.
pub fn scan_log(b: &[u8]) -> (r: LogScan)
    ensures
        r.entries@ == spec_scan(b@, 0),
        r.valid_len == spec_valid_end(b@, 0),
{
    let mut entries: Vec<IndexEntry> = Vec::new();
    let mut off: usize = 0;
    loop
        invariant
            off <= b@.len(),
            entries@ + spec_scan(b@, off as int) == spec_scan(b@, 0),
            spec_valid_end(b@, off as int) == spec_valid_end(b@, 0),
        decreases b@.len() - off,
    {
        match read_event(b, off) {
            Some((e, n)) => {
                let ghost before = entries@;
                entries.push(IndexEntry { event_id: e.id, offset: off as u64 });
                proof {
                    assert(spec_scan(b@, off as int) == seq![
                        IndexEntry { event_id: e.id, offset: off as u64 },
                    ] + spec_scan(b@, off + n));
                    assert(entries@ + spec_scan(b@, off + n) =~= before + spec_scan(
                        b@,
                        off as int,
                    ));
                }
                let blen = b.len();
                assert(off + n <= blen);
                off = off + n;
            },
            None => {
                proof {
                    assert(entries@ + spec_scan(b@, off as int) =~= entries@);
                }
                return LogScan { entries, valid_len: off };
            },
        }
    }
}

/// Up to `limit` events read one after another from `off`, stopping at the
/// end of the whole records.
pub open spec fn spec_read_range(b: Seq<u8>, off: int, limit: nat) -> Seq<EventView>
    decreases limit,
{
    if limit == 0 {
        seq![]
    } else {
        match spec_record_at(b, off) {
            Some((e, n)) => seq![e] + spec_read_range(b, off + n, (limit - 1) as nat),
            None => seq![],
        }
    }
}

/// Reads up to `limit` events from the log, starting at offset `off`.
pub fn read_range(b: &[u8], off: usize, limit: usize) -> (r: Vec<OwnedFloEvent>)
    ensures
        r@.map_values(|e: OwnedFloEvent| e@) == spec_read_range(b@, off as int, limit as nat),
{
    let mut out: Vec<OwnedFloEvent> = Vec::new();
    let mut pos = off;
    let mut left = limit;
    while left > 0
        invariant
            out@.map_values(|e: OwnedFloEvent| e@) + spec_read_range(b@, pos as int, left as nat)
                == spec_read_range(b@, off as int, limit as nat),
        decreases left,
    {
        match read_event(b, pos) {
            Some((e, n)) => {
                let ghost before = out@.map_values(|e: OwnedFloEvent| e@);
                let ghost ev = e@;
                out.push(e);
                proof {
                    assert(out@.map_values(|e: OwnedFloEvent| e@) =~= before.push(ev));
                    assert(before.push(ev) + spec_read_range(b@, pos + n, (left - 1) as nat)
                        =~= before + (seq![ev] + spec_read_range(b@, pos + n, (left - 1) as nat)));
                }
                let blen = b.len();
                assert(pos + n <= blen);
                pos = pos + n;
                left = left - 1;
            },
            None => {
                proof {
                    assert(out@.map_values(|e: OwnedFloEvent| e@) + spec_read_range(
                        b@,
                        pos as int,
                        left as nat,
                    ) =~= out@.map_values(|e: OwnedFloEvent| e@));
                }
                return out;
            },
        }
    }
    proof {
        assert(out@.map_values(|e: OwnedFloEvent| e@) + spec_read_range(b@, pos as int, 0)
            =~= out@.map_values(|e: OwnedFloEvent| e@));
    }
    out
}

} // verus!
