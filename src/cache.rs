use crate::event::{EventView, FloEventId, OwnedFloEvent};
use std::sync::Arc;
use vstd::prelude::*;

verus! {

/// The data bytes of a sequence of events.
pub open spec fn total_bytes(s: Seq<EventView>) -> nat
    decreases s.len(),
{
    if s.len() == 0 {
        0
    } else {
        s[0].data.len() + total_bytes(s.subrange(1, s.len() as int))
    }
}

pub proof fn lemma_total_bytes_push(s: Seq<EventView>, e: EventView)
    ensures
        total_bytes(s.push(e)) == total_bytes(s) + e.data.len(),
    decreases s.len(),
{
    if s.len() > 0 {
        assert(s.push(e)[0] == s[0]);
        assert(s.push(e).subrange(1, s.len() as int + 1) =~= s.subrange(1, s.len() as int).push(e));
        lemma_total_bytes_push(s.subrange(1, s.len() as int), e);
    } else {
        assert(s.push(e).subrange(1, 1) =~= Seq::<EventView>::empty());
        assert(total_bytes(Seq::<EventView>::empty()) == 0);
    }
}

pub proof fn lemma_increasing(s: Seq<EventView>, i: int, j: int)
    requires
        ids_increasing(s),
        0 <= i < j < s.len(),
    ensures
        s[i].id.spec_lt(s[j].id),
{
}

/// Ids in strictly increasing order.
pub open spec fn ids_increasing(s: Seq<EventView>) -> bool {
    forall|i: int, j: int| 0 <= i < j < s.len() ==> s[i].id.spec_lt(s[j].id)
}

/// `s[..k]` holds the ids up to `start` and `s[k..]` those above it.
pub open spec fn splits_at(s: Seq<EventView>, start: FloEventId, k: int) -> bool {
    &&& 0 <= k <= s.len()
    &&& forall|i: int| 0 <= i < k ==> !start.spec_lt(#[trigger] s[i].id)
    &&& forall|i: int| k <= i < s.len() ==> start.spec_lt(#[trigger] s[i].id)
}

/// The views of shared events.
pub open spec fn views(s: Seq<Arc<OwnedFloEvent>>) -> Seq<EventView> {
    s.map_values(|e: Arc<OwnedFloEvent>| e@)
}

/// The newest events, bounded by a number of events and by the sum of their
/// data lengths; the oldest leave first.
pub struct Cache {
    events: Vec<Arc<OwnedFloEvent>>,
    max_entries: usize,
    max_bytes: usize,
    bytes: usize,
    last_evicted: FloEventId,
    /// Every event ever inserted, oldest first.
    history: Ghost<Seq<EventView>>,
}

impl Cache {
    /// The resident events, oldest first.
    pub closed spec fn resident(&self) -> Seq<EventView> {
        views(self.events@)
    }

    /// Every event inserted so far, oldest first.
    pub closed spec fn inserted(&self) -> Seq<EventView> {
        self.history@
    }

    pub closed spec fn spec_last_evicted(&self) -> FloEventId {
        self.last_evicted
    }

    pub closed spec fn entry_limit(&self) -> nat {
        self.max_entries as nat
    }

    pub closed spec fn byte_limit(&self) -> nat {
        self.max_bytes as nat
    }

    /// Whether the events fit in both bounds.
    pub open spec fn fits(&self, s: Seq<EventView>) -> bool {
        s.len() <= self.entry_limit() && total_bytes(s) <= self.byte_limit()
    }

    pub closed spec fn wf(&self) -> bool {
        &&& self.bytes == total_bytes(self.resident())
        &&& self.fits(self.resident())
        &&& ids_increasing(self.history@)
        &&& self.resident().len() <= self.history@.len()
        &&& self.resident() == self.history@.subrange(
            self.history@.len() - self.resident().len(),
            self.history@.len() as int,
        )
        &&& forall|i: int|
            0 <= i < self.history@.len() - self.resident().len() ==> (
            #[trigger] self.history@[i]).id.spec_le(self.last_evicted)
        &&& forall|i: int|
            0 <= i < self.resident().len() ==> self.last_evicted.spec_lt(
                (#[trigger] self.resident()[i]).id,
            )
    }

    /// Whether an event with this id may be inserted: it is newer than
    /// every event inserted so far and than the last evicted one.
    pub open spec fn spec_accepts(&self, id: FloEventId) -> bool {
        &&& forall|i: int|
            0 <= i < self.inserted().len() ==> (#[trigger] self.inserted()[i]).id.spec_lt(id)
        &&& self.spec_last_evicted().spec_lt(id)
    }

    /// `next` is this cache after inserting `e`: `e` joins the newest end,
    /// and the oldest events leave, as few as needed for both bounds to
    /// hold; the last evicted id is the newest of those that left, and never
    /// decreases.
    pub open spec fn inserted_as(&self, next: Cache, e: EventView) -> bool {
        let all = self.resident().push(e);
        let k = all.len() - next.resident().len();
        &&& next.inserted() == self.inserted().push(e)
        &&& next.entry_limit() == self.entry_limit()
        &&& next.byte_limit() == self.byte_limit()
        &&& next.fits(next.resident())
        &&& 0 <= k <= all.len()
        &&& next.resident() == all.subrange(k, all.len() as int)
        &&& k > 0 ==> !next.fits(all.subrange(k - 1, all.len() as int))
        &&& k > 0 ==> next.spec_last_evicted() == all[k - 1].id
        &&& k == 0 ==> next.spec_last_evicted() == self.spec_last_evicted()
        &&& next.spec_last_evicted() == self.spec_last_evicted()
            || self.spec_last_evicted().spec_lt(next.spec_last_evicted())
    }

    /// A well-formed cache holds both bounds.
    pub proof fn lemma_fits(&self)
        requires
            self.wf(),
        ensures
            self.fits(self.resident()),
    {
    }

    pub fn new(max_entries: usize, max_bytes: usize) -> (r: Cache)
        ensures
            r.wf(),
            r.resident() == Seq::<EventView>::empty(),
            r.inserted() == Seq::<EventView>::empty(),
            r.spec_last_evicted() == FloEventId::spec_zero(),
            r.entry_limit() == max_entries,
            r.byte_limit() == max_bytes,
            r.fits(r.resident()),
    {
        let r = Cache {
            events: Vec::new(),
            max_entries,
            max_bytes,
            bytes: 0,
            last_evicted: FloEventId::zero(),
            history: Ghost(Seq::empty()),
        };
        assert(r.resident() =~= Seq::<EventView>::empty());
        assert(total_bytes(Seq::<EventView>::empty()) == 0);
        assert(r.history@.subrange(0, 0) =~= Seq::<EventView>::empty());
        r
    }

    /// The id of the event evicted last, or the zero id.
    pub fn last_evicted_id(&self) -> (r: FloEventId)
        ensures
            r == self.spec_last_evicted(),
    {
        self.last_evicted
    }

    pub fn len(&self) -> (r: usize)
        ensures
            r == self.resident().len(),
    {
        self.events.len()
    }

    /// Whether `id` is newer than every event inserted so far.
    pub fn accepts(&self, id: FloEventId) -> (r: bool)
        requires
            self.wf(),
        ensures
            r == self.spec_accepts(id),
    {
        let n = self.events.len();
        let newer_than_resident = if n == 0 {
            true
        } else {
            self.events[n - 1].id.is_less_than(&id)
        };
        let r = newer_than_resident && self.last_evicted.is_less_than(&id);
        proof {
            let h = self.history@;
            let k = h.len() - self.resident().len();
            assert(self.inserted() == h);
            if n > 0 {
                assert(self.resident()[n - 1] == self.events@[n - 1]@);
                assert(self.resident()[n - 1] == h[h.len() - 1]);
            }
            if r {
                assert forall|i: int| 0 <= i < self.inserted().len() implies (
                #[trigger] self.inserted()[i]).id.spec_lt(id) by {
                    if i < k {
                        assert(h[i].id.spec_le(self.last_evicted));
                    } else if i < h.len() - 1 {
                        lemma_increasing(h, i, h.len() - 1);
                    } else {
                        assert(h[i] == self.resident()[n - 1]);
                    }
                }
            } else if !newer_than_resident {
                assert(!self.inserted()[h.len() - 1].id.spec_lt(id));
            }
        }
        r
    }

    /// Makes the event resident, evicting from the oldest end until both
    /// bounds hold, and returns the shared handle to it. An event that alone
    /// exceeds a bound is evicted at once.
    pub fn insert(&mut self, event: OwnedFloEvent) -> (r: Arc<OwnedFloEvent>)
        requires
            old(self).wf(),
            old(self).spec_accepts(event.id),
        ensures
            final(self).wf(),
            r@ == event@,
            old(self).inserted_as(*final(self), event@),
    {
        let ghost all = self.resident().push(event@);
        let ghost old_last = self.last_evicted;
        let ghost h0 = self.history@;
        let dl = event.data.len();
        let ghost mut k: int = 0;
        proof {
            assert(all.subrange(0, all.len() - 1) =~= self.resident());
        }
        while self.events.len() > 0 && !(self.events.len() < self.max_entries && dl
            <= self.max_bytes - self.bytes)
            invariant
                0 <= k <= all.len() - 1,
                self.resident() == all.subrange(k, all.len() - 1),
                self.bytes == total_bytes(self.resident()),
                self.fits(self.resident()),
                self.max_entries == old(self).max_entries,
                self.max_bytes == old(self).max_bytes,
                self.history@ == h0,
                k > 0 ==> self.last_evicted == all[k - 1].id && !self.fits(
                    all.subrange(k - 1, all.len() as int),
                ),
                k == 0 ==> self.last_evicted == old_last,
                all == old(self).resident().push(event@),
                dl == event@.data.len(),
                old(self).wf(),
            decreases self.events@.len(),
        {
            let ghost before = self.resident();
            proof {
                assert(before.len() == self.events@.len());
                assert(!(before.len() + 1 <= self.entry_limit() && total_bytes(before) + event@.data.len()
                    <= self.byte_limit()));
            }
            let gone = self.events.remove(0);
            proof {
                assert(before[0] == gone@);
                assert(self.resident() =~= before.subrange(1, before.len() as int));
                assert(all.subrange(k + 1, all.len() - 1) =~= before.subrange(1, before.len() as int));
                assert(all[k] == before[0]);
            }
            self.bytes = self.bytes - gone.data.len();
            self.last_evicted = gone.id;
            proof {
                // the suffix that still held the evicted event did not fit
                let with_gone = all.subrange(k, all.len() as int);
                assert(with_gone =~= before.push(event@));
                lemma_total_bytes_push(before, event@);
                assert(!self.fits(with_gone));
                assert(gone.id == all[k].id);
                k = k + 1;
            }
        }
        let shared = Arc::new(event);
        if self.events.len() < self.max_entries && dl <= self.max_bytes - self.bytes {
            let ghost before = self.resident();
            self.events.push(shared.clone());
            proof {
                lemma_total_bytes_push(before, event@);
                assert(self.resident() =~= before.push(event@));
                assert(self.resident() =~= all.subrange(k, all.len() as int));
            }
            self.bytes = self.bytes + dl;
        } else {
            proof {
                assert(self.resident().len() == 0);
                assert(all.subrange(k, all.len() as int) =~= seq![event@]);
                lemma_total_bytes_push(Seq::<EventView>::empty(), event@);
                assert(Seq::<EventView>::empty().push(event@) =~= seq![event@]);
                k = k + 1;
                assert(all.subrange(k, all.len() as int) =~= Seq::<EventView>::empty());
            }
            self.last_evicted = shared.id;
        }
        self.history = Ghost(h0.push(event@));
        proof {
            let h = self.history@;
            let r0 = old(self).resident().len();
            let b0 = h0.len() - r0;
            assert(all =~= h.subrange(b0, h.len() as int));
            assert forall|i: int, j: int| 0 <= i < j < h.len() implies h[i].id.spec_lt(
                h[j].id,
            ) by {
                assert(h[i] == h0[i]);
                assert(old(self).inserted()[i] == h0[i]);
                if j < h0.len() {
                    assert(h[j] == h0[j]);
                    lemma_increasing(h0, i, j);
                }
            }
            assert(ids_increasing(h));
            assert(self.resident() =~= h.subrange(b0 + k, h.len() as int));
            if k > 0 {
                assert(all[k - 1] == h[b0 + k - 1]);
                assert(old_last.spec_lt(all[k - 1].id)) by {
                    if k - 1 < r0 {
                        assert(all[k - 1] == old(self).resident()[k - 1]);
                    }
                }
            }
            assert forall|i: int|
                0 <= i < h.len() - self.resident().len() implies (#[trigger] h[i]).id.spec_le(
                self.last_evicted,
            ) by {
                if i < b0 {
                    assert(h[i] == h0[i]);
                    assert(h0[i].id.spec_le(old_last));
                } else if i < b0 + k - 1 {
                    lemma_increasing(h, i, b0 + k - 1);
                }
            }
            assert forall|i: int| 0 <= i < self.resident().len() implies self.last_evicted.spec_lt(
                (#[trigger] self.resident()[i]).id,
            ) by {
                assert(self.resident()[i] == h[b0 + k + i]);
                if k > 0 {
                    lemma_increasing(h, b0 + k - 1, b0 + k + i);
                } else if i < r0 {
                    assert(old(self).resident()[i] == h[b0 + i]);
                } else {
                    assert(h[b0 + i] == event@);
                }
            }
            if k > 0 {
                if k - 1 < r0 {
                    assert(all[k - 1] == old(self).resident()[k - 1]);
                }
            }
            assert(self.fits(self.resident()));
            assert(all.len() - self.resident().len() == k);
            assert(self.resident() =~= all.subrange(k, all.len() as int));
            assert(self.last_evicted == old_last || old_last.spec_lt(self.last_evicted));
        }
        shared
    }

    /// The resident events are in strictly increasing id order.
    pub proof fn lemma_resident_increasing(&self)
        requires
            self.wf(),
        ensures
            ids_increasing(self.resident()),
    {
        let h = self.history@;
        let b = h.len() - self.resident().len();
        assert forall|i: int, j: int| 0 <= i < j < self.resident().len() implies self.resident()[
            i].id.spec_lt(self.resident()[j].id) by {
            assert(self.resident()[i] == h[b + i]);
            assert(self.resident()[j] == h[b + j]);
            lemma_increasing(h, b + i, b + j);
        }
    }

    /// The cache never claims to hold what it has evicted: every event
    /// inserted with an id greater than `last_evicted_id()` is resident.
    pub proof fn lemma_resident_after_last_evicted(&self, i: int)
        requires
            self.wf(),
            0 <= i < self.inserted().len(),
            self.spec_last_evicted().spec_lt(self.inserted()[i].id),
        ensures
            self.resident().contains(self.inserted()[i]),
    {
        let h = self.history@;
        let b = h.len() - self.resident().len();
        if i < b {
            assert(h[i].id.spec_le(self.last_evicted));
        }
        assert(self.resident()[i - b] == h[i]);
    }

    /// Up to `limit` resident events with ids greater than `start`, in id
    /// order.
    pub fn do_with_range(&self, start: FloEventId, limit: usize) -> (r: Vec<Arc<OwnedFloEvent>>)
        requires
            self.wf(),
        ensures
            exists|k: int|
                #[trigger] splits_at(self.resident(), start, k) && views(r@) == self.resident().subrange(
                    k,
                    if k + limit < self.resident().len() {
                        k + limit
                    } else {
                        self.resident().len() as int
                    },
                ),
    {
        let ghost s = self.resident();
        let n = self.events.len();
        let mut k: usize = 0;
        while k < n && !start.is_less_than(&self.events[k].id)
            invariant
                k <= n,
                n == self.events@.len(),
                s == self.resident(),
                forall|i: int| 0 <= i < k ==> !start.spec_lt((#[trigger] s[i]).id),
            decreases n - k,
        {
            assert(s[k as int] == self.events@[k as int]@);
            k = k + 1;
        }
        proof {
            if k < n {
                assert(s[k as int] == self.events@[k as int]@);
                assert forall|i: int| k <= i < s.len() implies start.spec_lt((#[trigger] s[i]).id) by {
                    if i > k {
                        assert(self.history@.subrange(
                            self.history@.len() - s.len(),
                            self.history@.len() as int,
                        ) == s);
                        lemma_increasing(
                            self.history@,
                            self.history@.len() - s.len() + k,
                            self.history@.len() - s.len() + i,
                        );
                    }
                }
            }
            assert(splits_at(s, start, k as int));
        }
        let end = if limit < n - k {
            k + limit
        } else {
            n
        };
        let mut out: Vec<Arc<OwnedFloEvent>> = Vec::new();
        let mut j = k;
        while j < end
            invariant
                k <= j <= end <= n,
                n == self.events@.len(),
                s == self.resident(),
                views(out@) == s.subrange(k as int, j as int),
            decreases end - j,
        {
            let ghost before = out@;
            out.push(self.events[j].clone());
            proof {
                assert(views(out@) =~= views(before).push(s[j as int]));
                assert(s.subrange(k as int, j + 1) =~= s.subrange(k as int, j as int).push(s[j as int]));
            }
            j = j + 1;
        }
        out
    }
}

} // verus!
