use crate::event::{ActorId, EventCounter, FloEventId, FloEventIdMap, OwnedFloEvent};
use crate::index::{sorted, with_dropped, EventIndex, IndexEntry};
use crate::record::{read_range, scan_log, spec_read_range, spec_scan, spec_valid_end};
use std::collections::HashMap;
use vstd::prelude::*;

verus! {

/// The contents of a log file, read from a given offset.
pub struct FileReader {
    contents: Vec<u8>,
}

impl View for FileReader {
    type V = Seq<u8>;

    closed spec fn view(&self) -> Seq<u8> {
        self.contents@
    }
}

impl FileReader {
    pub fn new(contents: Vec<u8>) -> (r: FileReader)
        ensures
            r@ == contents@,
    {
        FileReader { contents }
    }

    /// Up to `limit` events read one after another from `offset`.
    pub fn read_from_offset(&self, offset: u64, limit: usize) -> (r: Vec<OwnedFloEvent>)
        ensures
            offset <= usize::MAX ==> r@.map_values(|e: OwnedFloEvent| e@) == spec_read_range(
                self@,
                offset as int,
                limit as nat,
            ),
            offset > usize::MAX ==> r@.len() == 0,
    {
        if offset > usize::MAX as u64 {
            return Vec::new();
        }
        read_range(self.contents.as_slice(), offset as usize, limit)
    }
}

/// `e` is the entry with the smallest id greater than `after`.
pub open spec fn is_next_entry(s: Seq<IndexEntry>, after: FloEventId, e: IndexEntry) -> bool {
    &&& s.contains(e)
    &&& after.spec_lt(e.event_id)
    &&& forall|i: int|
        0 <= i < s.len() && after.spec_lt(#[trigger] s[i].event_id) ==> e.event_id.spec_le(
            s[i].event_id,
        )
}

/// Reads ranges of events from the log, starting where the index says.
pub struct FSEventReader {
    index: EventIndex,
}

impl FSEventReader {
    pub closed spec fn entries(&self) -> Seq<IndexEntry> {
        self.index@
    }

    pub closed spec fn wf(&self) -> bool {
        self.index.wf()
    }

    pub fn initialize(index: EventIndex) -> (r: FSEventReader)
        requires
            index.wf(),
        ensures
            r.wf(),
            r.entries() == index@,
    {
        FSEventReader { index }
    }

    /// Up to `limit` events of the log `log`, from the first indexed event
    /// with an id greater than `range_start`; none when there is no such
    /// event.
    pub fn load_range(&self, log: &[u8], range_start: FloEventId, limit: usize) -> (r: Vec<
        OwnedFloEvent,
    >)
        requires
            self.wf(),
        ensures
            (forall|i: int|
                0 <= i < self.entries().len() ==> !range_start.spec_lt(
                    #[trigger] self.entries()[i].event_id,
                )) ==> r@.len() == 0,
            forall|e: IndexEntry|
                #[trigger] is_next_entry(self.entries(), range_start, e) && e.offset <= usize::MAX
                    ==> r@.map_values(|x: OwnedFloEvent| x@) == spec_read_range(
                    log@,
                    e.offset as int,
                    limit as nat,
                ),
            forall|e: IndexEntry|
                #[trigger] is_next_entry(self.entries(), range_start, e) && e.offset > usize::MAX
                    ==> r@.len() == 0,
    {
        match self.index.get_next_entry(range_start) {
            Some(entry) => {
                proof {
                    assert(is_next_entry(self.entries(), range_start, entry));
                    assert forall|e: IndexEntry| #[trigger]
                        is_next_entry(self.entries(), range_start, e) implies e == entry by {
                        let i = choose|i: int|
                            0 <= i < self.entries().len() && self.entries()[i] == e;
                        let j = choose|j: int|
                            0 <= j < self.entries().len() && self.entries()[j] == entry;
                        assert(entry.event_id.spec_le(self.entries()[i].event_id));
                        assert(e.event_id.spec_le(self.entries()[j].event_id));
                        if i != j {
                            if i < j {
                                crate::index::lemma_sorted_lt(self.entries(), i, j);
                            } else {
                                crate::index::lemma_sorted_lt(self.entries(), j, i);
                            }
                        }
                    }
                }
                if entry.offset > usize::MAX as u64 {
                    return Vec::new();
                }
                read_range(log, entry.offset as usize, limit)
            },
            None => Vec::new(),
        }
    }

    pub fn get_highest_event_id(&self) -> (r: FloEventId)
        requires
            self.wf(),
        ensures
            self.entries().len() == 0 ==> r == FloEventId::spec_zero(),
            self.entries().len() > 0 ==> r == self.entries().last().event_id,
    {
        self.index.greatest_event_id()
    }

    /// Records where a newly written event starts; at capacity, the entry
    /// with the smallest id is dropped and returned.
    pub fn add_entry(&mut self, id: FloEventId, offset: u64) -> (r: Option<IndexEntry>)
        requires
            old(self).wf(),
        ensures
            final(self).wf(),
            sorted(with_dropped(r, final(self).entries())),
            forall|x: IndexEntry|
                #[trigger] with_dropped(r, final(self).entries()).contains(x) <==> (x == IndexEntry {
                    event_id: id,
                    offset,
                } || (old(self).entries().contains(x) && x.event_id != id)),
    {
        let r = self.index.add(id, offset);
        proof {
            assert forall|x: IndexEntry|
                #[trigger] with_dropped(r, self.entries()).contains(x) <==> (x == IndexEntry {
                    event_id: id,
                    offset,
                } || (old(self).entries().contains(x) && x.event_id != id)) by {
                assert(self.entries() == self.index@);
                assert(old(self).entries() == old(self).index@);
            }
        }
        r
    }

    /// The indexed entry with the smallest id greater than `after`, where a
    /// read of the log after `after` starts.
    pub fn next_entry(&self, after: FloEventId) -> (r: Option<IndexEntry>)
        requires
            self.wf(),
        ensures
            r matches Some(e) ==> is_next_entry(self.entries(), after, e),
            r is None ==> forall|i: int|
                0 <= i < self.entries().len() ==> !after.spec_lt(#[trigger] self.entries()[i].event_id),
    {
        let r = self.index.get_next_entry(after);
        proof {
            if r is Some {
                assert(is_next_entry(self.entries(), after, r->Some_0));
            }
        }
        r
    }

    /// Records that a record of `len` bytes for the event `id` was written
    /// at `offset`, the end of the log. Returns the new end, and the entry
    /// the index dropped to make room, if any. When the new end does not fit
    /// in a `u64`, nothing is recorded.
    pub fn record_written(&mut self, id: FloEventId, offset: u64, len: u64) -> (r: Option<
        (u64, Option<IndexEntry>),
    >)
        requires
            old(self).wf(),
        ensures
            final(self).wf(),
            r is Some <==> offset + len <= u64::MAX,
            r is None ==> final(self).entries() == old(self).entries(),
            r matches Some((end, d)) ==> {
                &&& end == offset + len
                &&& sorted(with_dropped(d, final(self).entries()))
                &&& forall|x: IndexEntry|
                    #[trigger] with_dropped(d, final(self).entries()).contains(x) <==> (x == IndexEntry {
                        event_id: id,
                        offset,
                    } || (old(self).entries().contains(x) && x.event_id != id))
            },
    {
        match offset.checked_add(len) {
            Some(end) => {
                let d = self.add_entry(id, offset);
                Some((end, d))
            },
            None => None,
        }
    }
}

/// The version vector after setting, in log order, the id of each entry.
pub open spec fn spec_version_vector(s: Seq<IndexEntry>) -> Map<ActorId, EventCounter>
    decreases s.len(),
{
    if s.len() == 0 {
        Map::empty()
    } else {
        spec_version_vector(s.drop_last()).insert(
            s.last().event_id.actor,
            s.last().event_id.event_counter,
        )
    }
}

/// What recovery rebuilds from a log.
pub struct Recovered {
    /// The index of the whole records.
    pub reader: FSEventReader,
    /// The version vector, set from each record in log order.
    pub version_vector: HashMap<ActorId, EventCounter>,
    /// The entries of the whole records, in log order.
    pub entries: Vec<IndexEntry>,
    /// The length of the log that holds whole records; the rest is cut off.
    pub valid_len: usize,
}

/// Where the newest `cap` of `n` entries start.
pub open spec fn kept_from(n: int, cap: int) -> int {
    if n > cap {
        n - cap
    } else {
        0
    }
}

/// Scans the log from its start: each whole record sets the version vector
/// and is added to an index of capacity `max_events`; scanning stops at the
/// first place where no whole record stands.
#[verifier::rlimit(80)]
pub fn recover(log: &[u8], max_events: usize) -> (r: Recovered)
    ensures
        r.reader.wf(),
        r.reader.entries().len() <= max_events,
        forall|x: IndexEntry| r.reader.entries().contains(x) ==> spec_scan(log@, 0).contains(x),
        sorted(spec_scan(log@, 0)) ==> r.reader.entries() == spec_scan(log@, 0).subrange(
            kept_from(spec_scan(log@, 0).len() as int, max_events as int),
            spec_scan(log@, 0).len() as int,
        ),
        spec_scan(log@, 0).len() == 0 ==> r.reader.entries().len() == 0,
        sorted(spec_scan(log@, 0)) && spec_scan(log@, 0).len() > 0 && max_events > 0
            ==> r.reader.entries().len() > 0 && r.reader.entries().last() == spec_scan(
            log@,
            0,
        ).last(),
        r.entries@ == spec_scan(log@, 0),
        r.valid_len == spec_valid_end(log@, 0),
        r.version_vector@ == spec_version_vector(spec_scan(log@, 0)),
{
    let scan = scan_log(log);
    let mut index = EventIndex::new(max_events);
    let mut vv: HashMap<ActorId, EventCounter> = <HashMap<ActorId, EventCounter> as FloEventIdMap>::new();
    let mut i: usize = 0;
    while i < scan.entries.len()
        invariant
            i <= scan.entries@.len(),
            index.wf(),
            index.capacity() == max_events,
            forall|x: IndexEntry| index@.contains(x) ==> scan.entries@.subrange(0, i as int).contains(x),
            sorted(scan.entries@) ==> index@ == scan.entries@.subrange(
                kept_from(i as int, max_events as int),
                i as int,
            ),
            vv@ == spec_version_vector(scan.entries@.subrange(0, i as int)),
        decreases scan.entries@.len() - i,
    {
        let e = scan.entries[i];
        let ghost before = index@;
        let dropped = index.add(e.event_id, e.offset);
        proof {
            let seen = scan.entries@.subrange(0, i + 1);
            assert(seen[i as int] == e);
            assert forall|x: IndexEntry| index@.contains(x) implies seen.contains(x) by {
                assert(with_dropped(dropped, index@).contains(x)) by {
                    let k = choose|k: int| 0 <= k < index@.len() && index@[k] == x;
                    if dropped is Some {
                        assert(with_dropped(dropped, index@)[k + 1] == x);
                    } else {
                        assert(with_dropped(dropped, index@)[k] == x);
                    }
                }
                if x != e {
                    assert(before.contains(x));
                    let j = choose|j: int| 0 <= j < i && scan.entries@.subrange(0, i as int)[j] == x;
                    assert(seen[j] == x);
                }
            }
        }
        proof {
            if sorted(scan.entries@) {
                let st = kept_from(i as int, max_events as int);
                let sc = scan.entries@;
                assert forall|j: int| 0 <= j < before.len() implies (#[trigger] before[j]).event_id.spec_lt(
                    e.event_id,
                ) by {
                    assert(before[j] == sc[st + j]);
                    crate::index::lemma_sorted_lt(sc, st + j, i as int);
                }
                assert(before.push(e) =~= sc.subrange(st, i + 1));
                let nst = kept_from(i + 1, max_events as int);
                if dropped is Some {
                    assert(index@ =~= with_dropped(dropped, index@).subrange(1, with_dropped(dropped, index@).len() as int));
                    assert(index@ =~= sc.subrange(nst, i + 1));
                } else {
                    assert(index@ =~= sc.subrange(nst, i + 1));
                }
            }
        }
        vv.set(e.event_id);
        proof {
            assert(scan.entries@.subrange(0, i + 1).drop_last() =~= scan.entries@.subrange(
                0,
                i as int,
            ));
        }
        i = i + 1;
    }
    assert(scan.entries@.subrange(0, scan.entries@.len() as int) =~= scan.entries@);
    proof {
        if scan.entries@.len() == 0 {
            assert(index@.len() == 0) by {
                if index@.len() > 0 {
                    assert(index@.contains(index@[0]));
                }
            }
        }
    }
    let reader = FSEventReader::initialize(index);
    Recovered {
        reader,
        version_vector: vv,
        entries: scan.entries,
        valid_len: scan.valid_len,
    }
}

} // verus!
