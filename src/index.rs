use crate::event::FloEventId;
use vstd::prelude::*;

verus! {

/// Where an event starts in the log.
#[derive(Debug, Clone, Copy, PartialEq, Eq, Structural)]
pub struct IndexEntry {
    pub event_id: FloEventId,
    pub offset: u64,
}

impl IndexEntry {
    pub fn new(event_id: FloEventId, offset: u64) -> (r: IndexEntry)
        ensures
            r.event_id == event_id,
            r.offset == offset,
    {
        IndexEntry { event_id, offset }
    }
}

/// Entries in strictly increasing id order.
pub open spec fn sorted(s: Seq<IndexEntry>) -> bool {
    forall|i: int, j: int| 0 <= i < j < s.len() ==> s[i].event_id.spec_lt(s[j].event_id)
}

pub proof fn lemma_sorted_lt(s: Seq<IndexEntry>, i: int, j: int)
    requires
        sorted(s),
        0 <= i < j < s.len(),
    ensures
        s[i].event_id.spec_lt(s[j].event_id),
{
}

/// The entries, with the dropped one, if any, in front.
pub open spec fn with_dropped(r: Option<IndexEntry>, s: Seq<IndexEntry>) -> Seq<IndexEntry> {
    match r {
        Some(d) => seq![d] + s,
        None => s,
    }
}

/// A bounded map from event id to log offset; at capacity, the smallest id
/// makes room.
pub struct EventIndex {
    entries: Vec<IndexEntry>,
    max_entries: usize,
}

impl View for EventIndex {
    type V = Seq<IndexEntry>;

    closed spec fn view(&self) -> Seq<IndexEntry> {
        self.entries@
    }
}

impl EventIndex {
    pub closed spec fn capacity(&self) -> nat {
        self.max_entries as nat
    }

    pub open spec fn wf(&self) -> bool {
        sorted(self@) && self@.len() <= self.capacity()
    }

    pub fn new(max_entries: usize) -> (r: EventIndex)
        ensures
            r.wf(),
            r@ == Seq::<IndexEntry>::empty(),
            r.capacity() == max_entries,
    {
        EventIndex { entries: Vec::new(), max_entries }
    }

    pub fn len(&self) -> (r: usize)
        ensures
            r == self@.len(),
    {
        self.entries.len()
    }

    /// Records where the event `id` starts. An entry with the same id is
    /// replaced. When that leaves more entries than the capacity, the entry
    /// with the smallest id is dropped and returned.
    pub fn add(&mut self, id: FloEventId, offset: u64) -> (r: Option<IndexEntry>)
        requires
            old(self).wf(),
        ensures
            final(self).wf(),
            final(self).capacity() == old(self).capacity(),
            sorted(with_dropped(r, final(self)@)),
            forall|x: IndexEntry|
                #[trigger] with_dropped(r, final(self)@).contains(x) <==> (x == IndexEntry {
                    event_id: id,
                    offset,
                } || (old(self)@.contains(x) && x.event_id != id)),
            r is Some <==> with_dropped(r, final(self)@).len() > old(self).capacity(),
            (forall|i: int| 0 <= i < old(self)@.len() ==> (#[trigger] old(self)@[i]).event_id.spec_lt(id))
                ==> with_dropped(r, final(self)@) == old(self)@.push(IndexEntry { event_id: id, offset }),
    {
        let entry = IndexEntry { event_id: id, offset };
        let mut k: usize = 0;
        while k < self.entries.len() && self.entries[k].event_id.is_less_than(&id)
            invariant
                k <= self.entries@.len(),
                self.entries@ == old(self).entries@,
                self.max_entries == old(self).max_entries,
                old(self).wf(),
                forall|i: int| 0 <= i < k ==> self.entries@[i].event_id.spec_lt(id),
            decreases self.entries@.len() - k,
        {
            k = k + 1;
        }
        let ghost before = self.entries@;
        assert(k < before.len() ==> !before[k as int].event_id.spec_lt(id));
        assert((forall|i: int| 0 <= i < before.len() ==> (#[trigger] before[i]).event_id.spec_lt(id))
            ==> k == before.len());
        assert forall|i: int| k <= i < before.len() implies !(#[trigger] before[i]).event_id.spec_lt(
            id,
        ) by {
            if i > k {
                assert(before[k as int].event_id.spec_lt(before[i].event_id));
            }
        }
        if k < self.entries.len() && self.entries[k].event_id == id {
            self.entries.set(k, entry);
            assert forall|i: int, j: int| 0 <= i < j < self.entries@.len() implies self.entries@[
                i].event_id.spec_lt(self.entries@[j].event_id) by {
                lemma_sorted_lt(before, i, j);
            }
            assert forall|x: IndexEntry| before.contains(x) && x.event_id != id implies #[trigger] self.entries@.contains(x) by {
                let i = choose|i: int| 0 <= i < before.len() && before[i] == x;
                assert(i != k);
                assert(self.entries@[i] == x);
            }
            assert forall|x: IndexEntry| #[trigger] self.entries@.contains(x) implies x == entry || (before.contains(x) && x.event_id != id) by {
                let i = choose|i: int| 0 <= i < self.entries@.len() && self.entries@[i] == x;
                if i != k {
                    assert(before[i] == x);
                    if i > k {
                        lemma_sorted_lt(before, k as int, i);
                    }
                }
            }
            assert(self.entries@[k as int] == entry);
        } else {
            self.entries.insert(k, entry);
            proof {
                if k == before.len() {
                    assert(self.entries@ =~= before.push(entry));
                }
            }
            assert forall|i: int, j: int| 0 <= i < j < self.entries@.len() implies self.entries@[
                i].event_id.spec_lt(self.entries@[j].event_id) by {
                if i < k && j > k {
                    assert(before[i].event_id.spec_lt(id));
                    assert(!before[j - 1].event_id.spec_lt(id));
                } else if i == k {
                    assert(!before[j - 1].event_id.spec_lt(id));
                    if j - 1 > k {
                        lemma_sorted_lt(before, k as int, j - 1);
                    }
                } else if j < k {
                    lemma_sorted_lt(before, i, j);
                } else if i > k {
                    lemma_sorted_lt(before, i - 1, j - 1);
                }
            }
            assert forall|x: IndexEntry| before.contains(x) && x.event_id != id implies #[trigger] self.entries@.contains(x) by {
                let i = choose|i: int| 0 <= i < before.len() && before[i] == x;
                if i < k {
                    assert(self.entries@[i] == x);
                } else {
                    assert(self.entries@[i + 1] == x);
                }
            }
            assert forall|x: IndexEntry| #[trigger] self.entries@.contains(x) implies x == entry || (before.contains(x) && x.event_id != id) by {
                let i = choose|i: int| 0 <= i < self.entries@.len() && self.entries@[i] == x;
                if i < k {
                    assert(before[i] == x);
                } else if i > k {
                    assert(before[i - 1] == x);
                    assert(!before[i - 1].event_id.spec_lt(id));
                    if i - 1 > k {
                        lemma_sorted_lt(before, k as int, i - 1);
                    }
                }
            }
            assert(self.entries@[k as int] == entry);
        }
        assert(sorted(self.entries@));
        assert(before == old(self)@);
        if self.entries.len() > self.max_entries {
            let ghost all = self.entries@;
            let d = self.entries.remove(0);
            assert(seq![d] + self.entries@ =~= all);
            assert forall|x: IndexEntry| #[trigger] all.contains(x) implies (seq![d] + self.entries@).contains(x) by {}
            assert forall|i: int, j: int| 0 <= i < j < self.entries@.len() implies self.entries@[
                i].event_id.spec_lt(self.entries@[j].event_id) by {
                lemma_sorted_lt(all, i + 1, j + 1);
            }
            Some(d)
        } else {
            None
        }
    }

    /// The entry with the smallest id greater than `after`.
    pub fn get_next_entry(&self, after: FloEventId) -> (r: Option<IndexEntry>)
        requires
            self.wf(),
        ensures
            r matches Some(e) ==> {
                &&& self@.contains(e)
                &&& after.spec_lt(e.event_id)
                &&& forall|i: int|
                    0 <= i < self@.len() && after.spec_lt(#[trigger] self@[i].event_id)
                        ==> e.event_id.spec_le(self@[i].event_id)
            },
            r is None ==> forall|i: int|
                0 <= i < self@.len() ==> !after.spec_lt(#[trigger] self@[i].event_id),
    {
        let mut k: usize = 0;
        while k < self.entries.len()
            invariant
                k <= self.entries@.len(),
                self.wf(),
                forall|i: int| 0 <= i < k ==> !after.spec_lt(#[trigger] self.entries@[i].event_id),
            decreases self.entries@.len() - k,
        {
            if after.is_less_than(&self.entries[k].event_id) {
                let e = self.entries[k];
                assert(self@[k as int] == e);
                assert forall|i: int|
                    0 <= i < self@.len() && after.spec_lt(#[trigger] self@[i].event_id)
                        implies e.event_id.spec_le(self@[i].event_id) by {
                    if i > k {
                        lemma_sorted_lt(self@, k as int, i);
                    }
                }
                return Some(e);
            }
            k = k + 1;
        }
        None
    }

    /// The entry for exactly this id.
    pub fn get(&self, id: FloEventId) -> (r: Option<IndexEntry>)
        ensures
            r matches Some(e) ==> self@.contains(e) && e.event_id == id,
            r is None ==> forall|i: int| 0 <= i < self@.len() ==> (#[trigger] self@[i]).event_id != id,
    {
        let mut k: usize = 0;
        while k < self.entries.len()
            invariant
                k <= self.entries@.len(),
                forall|i: int| 0 <= i < k ==> (#[trigger] self.entries@[i]).event_id != id,
            decreases self.entries@.len() - k,
        {
            if self.entries[k].event_id == id {
                let e = self.entries[k];
                assert(self@[k as int] == e);
                return Some(e);
            }
            k = k + 1;
        }
        None
    }

    /// The largest id indexed, or the zero id when there is none.
    pub fn greatest_event_id(&self) -> (r: FloEventId)
        requires
            self.wf(),
        ensures
            self@.len() == 0 ==> r == FloEventId::spec_zero(),
            self@.len() > 0 ==> r == self@.last().event_id,
            forall|i: int| 0 <= i < self@.len() ==> (#[trigger] self@[i]).event_id.spec_le(r),
    {
        let n = self.entries.len();
        if n == 0 {
            FloEventId::zero()
        } else {
            self.entries[n - 1].event_id
        }
    }
}

} // verus!
