use crate::cache::{splits_at, views, Cache};
use crate::event::{EventView, FloEventId, OwnedFloEvent};
use crate::stream::ConnectionId;
use std::sync::Arc;
use vstd::prelude::*;

verus! {

/// Where a connection's subscription stands; each state carries the id of
/// the last event delivered.
#[derive(Debug, Clone, Copy, PartialEq, Eq, Structural)]
pub enum ConsumerState {
    /// Idle: new events are delivered as they are persisted.
    NotConsuming(FloEventId),
    /// Being served from memory, with the number of events still wanted.
    ConsumingFromCache(FloEventId, u64),
    /// Being served by a reader of the log, with the number still wanted.
    ConsumingFromDisk(FloEventId, u64),
}

impl ConsumerState {
    pub open spec fn spec_position(self) -> FloEventId {
        match self {
            ConsumerState::NotConsuming(p) => p,
            ConsumerState::ConsumingFromCache(p, _) => p,
            ConsumerState::ConsumingFromDisk(p, _) => p,
        }
    }

    pub fn position(&self) -> (r: FloEventId)
        ensures
            r == self.spec_position(),
    {
        match self {
            ConsumerState::NotConsuming(p) => *p,
            ConsumerState::ConsumingFromCache(p, _) => *p,
            ConsumerState::ConsumingFromDisk(p, _) => *p,
        }
    }
}

/// A connection known to the consumer manager.
#[derive(Debug, Clone, Copy, PartialEq, Eq, Structural)]
pub struct Client {
    pub connection_id: ConnectionId,
    pub state: ConsumerState,
}

/// An event to send to a connection.
pub struct Delivery {
    pub connection_id: ConnectionId,
    pub event: Arc<OwnedFloEvent>,
}

/// A read of the log that the caller runs for a connection: up to `limit`
/// events with ids greater than `start`.
#[derive(Debug, Clone, Copy, PartialEq, Eq, Structural)]
pub struct DiskRead {
    pub connection_id: ConnectionId,
    pub start: FloEventId,
    pub limit: u64,
}

/// What starting (or going on with) a subscription produced.
pub struct StartOutcome {
    pub deliveries: Vec<Arc<OwnedFloEvent>>,
    pub disk_read: Option<DiskRead>,
}

/// A message for the consumer manager.
pub enum ConsumerMessage {
    ClientConnect(ConnectionId),
    Disconnect(ConnectionId),
    /// Start delivery of up to this many events.
    StartConsuming(ConnectionId, u64),
    /// A read of the log finished with this many events still wanted, and
    /// whether it found any.
    ContinueConsuming(ConnectionId, u64, bool),
    /// A read of the log produced this event for the connection.
    EventLoaded(ConnectionId, OwnedFloEvent),
    ErrorReadingEvents(ConnectionId),
    EventPersisted(OwnedFloEvent),
}

/// What handling a message produced: events to send, and a read of the log
/// to run.
pub struct ConsumerStep {
    pub deliveries: Vec<Delivery>,
    pub disk_read: Option<DiskRead>,
}

/// The ids of events.
pub open spec fn event_ids(s: Seq<EventView>) -> Seq<FloEventId> {
    s.map_values(|e: EventView| e.id)
}

/// The events of deliveries.
pub open spec fn delivered_views(s: Seq<Delivery>) -> Seq<EventView> {
    s.map_values(|d: Delivery| d.event@)
}

/// The connections of deliveries.
pub open spec fn targets(s: Seq<Delivery>) -> Seq<ConnectionId> {
    s.map_values(|d: Delivery| d.connection_id)
}

/// The ids of the events of deliveries.
pub open spec fn delivered_ids(s: Seq<Delivery>) -> Seq<FloEventId> {
    s.map_values(|d: Delivery| d.event@.id)
}

/// Events delivered to one subscriber, in the order sent, taking its
/// position from `before` to `after`: ids strictly increasing, all above
/// `before`, and `after` the last of them.
pub open spec fn delivered_in_order(before: FloEventId, after: FloEventId, ids: Seq<FloEventId>) -> bool {
    &&& forall|i: int, j: int| 0 <= i < j < ids.len() ==> ids[i].spec_lt(ids[j])
    &&& ids.len() > 0 ==> before.spec_lt(ids[0]) && after == ids.last()
    &&& ids.len() == 0 ==> after == before
}

/// What a subscriber receives over successive deliveries stays in strictly
/// increasing id order, without repeats.
pub proof fn lemma_delivered_in_order_chain(
    before: FloEventId,
    middle: FloEventId,
    after: FloEventId,
    a: Seq<FloEventId>,
    b: Seq<FloEventId>,
)
    requires
        delivered_in_order(before, middle, a),
        delivered_in_order(middle, after, b),
    ensures
        delivered_in_order(before, after, a + b),
{
    let c = a + b;
    assert forall|i: int, j: int| 0 <= i < j < c.len() implies c[i].spec_lt(c[j]) by {
        if j < a.len() {
        } else if i >= a.len() {
            assert(c[i] == b[i - a.len()] && c[j] == b[j - a.len()]);
        } else {
            assert(c[i] == a[i] && c[j] == b[j - a.len()]);
            if i < a.len() - 1 {
                assert(a[i].spec_lt(a[a.len() - 1]));
            }
            if j - a.len() > 0 {
                assert(b[0].spec_lt(b[j - a.len()]));
            }
        }
    }
    if a.len() > 0 {
        assert(c[0] == a[0]);
    }
    if b.len() > 0 {
        assert(c.last() == b.last());
    } else {
        assert(c =~= a);
    }
}

/// The ids of successive deliveries, one after another.
pub open spec fn joined(batches: Seq<Seq<FloEventId>>) -> Seq<FloEventId>
    decreases batches.len(),
{
    if batches.len() == 0 {
        seq![]
    } else {
        joined(batches.drop_last()) + batches.last()
    }
}

/// Over any number of successive deliveries, each taking a subscriber's
/// position from one value to the next, all it receives comes in strictly
/// increasing id order, after its first position.
pub proof fn lemma_delivered_in_order_all(
    positions: Seq<FloEventId>,
    batches: Seq<Seq<FloEventId>>,
)
    requires
        positions.len() == batches.len() + 1,
        forall|i: int|
            0 <= i < batches.len() ==> delivered_in_order(
                positions[i],
                positions[i + 1],
                #[trigger] batches[i],
            ),
    ensures
        delivered_in_order(positions[0], positions.last(), joined(batches)),
    decreases batches.len(),
{
    if batches.len() == 0 {
        assert(joined(batches) =~= Seq::<FloEventId>::empty());
    } else {
        let n = batches.len() - 1;
        let ps = positions.drop_last();
        let bs = batches.drop_last();
        assert forall|i: int| 0 <= i < bs.len() implies delivered_in_order(
            ps[i],
            ps[i + 1],
            #[trigger] bs[i],
        ) by {
            assert(bs[i] == batches[i]);
        }
        lemma_delivered_in_order_all(ps, bs);
        assert(batches[n] == batches.last());
        lemma_delivered_in_order_chain(positions[0], positions[n], positions[n + 1], joined(bs), batches[n]);
    }
}

/// A broadcast reaches exactly the connections whose client waits for the
/// event, and, connection ids being unique, each of them once.
pub proof fn lemma_broadcast_targets(s: Seq<Client>, id: FloEventId)
    ensures
        forall|c: ConnectionId|
            broadcast_targets(s, id).contains(c) <==> exists|i: int|
                0 <= i < s.len() && (#[trigger] s[i]).connection_id == c && awaits(s[i], id),
        unique_ids(s) ==> broadcast_targets(s, id).no_duplicates(),
    decreases s.len(),
{
    if s.len() > 0 {
        let rest = s.drop_last();
        lemma_broadcast_targets(rest, id);
        let t = broadcast_targets(rest, id);
        assert forall|c: ConnectionId|
            broadcast_targets(s, id).contains(c) <==> exists|i: int|
                0 <= i < s.len() && (#[trigger] s[i]).connection_id == c && awaits(s[i], id) by {
            if broadcast_targets(s, id).contains(c) {
                if t.contains(c) {
                    let i = choose|i: int|
                        0 <= i < rest.len() && (#[trigger] rest[i]).connection_id == c && awaits(
                            rest[i],
                            id,
                        );
                    assert(s[i] == rest[i]);
                } else {
                    let l = broadcast_targets(s, id);
                    let j = choose|j: int| 0 <= j < l.len() && l[j] == c;
                    assert(awaits(s.last(), id) && l == t.push(s.last().connection_id));
                    assert(j == t.len());
                    assert(s[s.len() - 1] == s.last());
                }
            }
            if exists|i: int| 0 <= i < s.len() && (#[trigger] s[i]).connection_id == c && awaits(s[i], id) {
                let i = choose|i: int|
                    0 <= i < s.len() && (#[trigger] s[i]).connection_id == c && awaits(s[i], id);
                if i < rest.len() {
                    assert(rest[i] == s[i]);
                    assert(t.contains(c));
                    let j = choose|j: int| 0 <= j < t.len() && t[j] == c;
                    if awaits(s.last(), id) {
                        assert(t.push(s.last().connection_id)[j] == c);
                    }
                } else {
                    assert(s[i] == s.last());
                    assert(t.push(c)[t.len() as int] == c);
                }
            }
        }
        if unique_ids(s) && awaits(s.last(), id) {
            assert(unique_ids(rest)) by {
                assert forall|a: int, b: int| 0 <= a < b < rest.len() implies (
                #[trigger] rest[a]).connection_id != (#[trigger] rest[b]).connection_id by {
                    assert(rest[a] == s[a] && rest[b] == s[b]);
                }
            }
            let c = s.last().connection_id;
            if t.contains(c) {
                let i = choose|i: int|
                    0 <= i < rest.len() && (#[trigger] rest[i]).connection_id == c && awaits(
                        rest[i],
                        id,
                    );
                assert(s[i] == rest[i]);
                assert(s[s.len() - 1] == s.last());
                assert(s[i].connection_id != s[s.len() - 1].connection_id);
            }
            let l = t.push(c);
            assert forall|a: int, b: int| 0 <= a < l.len() && 0 <= b < l.len() && a != b implies l[a]
                != l[b] by {
                if a < t.len() && b < t.len() {
                } else if a == t.len() {
                    assert(t[b] == l[b]);
                    assert(t.contains(l[b]));
                } else {
                    assert(t[a] == l[a]);
                    assert(t.contains(l[a]));
                }
            }
        } else if unique_ids(s) {
            assert(unique_ids(rest)) by {
                assert forall|a: int, b: int| 0 <= a < b < rest.len() implies (
                #[trigger] rest[a]).connection_id != (#[trigger] rest[b]).connection_id by {
                    assert(rest[a] == s[a] && rest[b] == s[b]);
                }
            }
        }
    }
}

/// The ids of shared events.
pub open spec fn ids_of(s: Seq<Arc<OwnedFloEvent>>) -> Seq<FloEventId> {
    s.map_values(|e: Arc<OwnedFloEvent>| e@.id)
}

/// Connection ids are unique among the clients.
pub open spec fn unique_ids(s: Seq<Client>) -> bool {
    forall|i: int, j: int|
        0 <= i < j < s.len() ==> (#[trigger] s[i]).connection_id != (#[trigger] s[j]).connection_id
}

/// Whether a broadcast of an event with this id reaches the client.
pub open spec fn awaits(c: Client, id: FloEventId) -> bool {
    c.state matches ConsumerState::NotConsuming(p) && p.spec_lt(id)
}

/// The connections that a broadcast of `id` reaches, in client order.
pub open spec fn broadcast_targets(s: Seq<Client>, id: FloEventId) -> Seq<ConnectionId>
    decreases s.len(),
{
    if s.len() == 0 {
        seq![]
    } else {
        let rest = broadcast_targets(s.drop_last(), id);
        if awaits(s.last(), id) {
            rest.push(s.last().connection_id)
        } else {
            rest
        }
    }
}

/// What follows a read of the log that sent `sent` events for `read`:
/// when it sent fewer than were wanted, delivery goes on with the rest,
/// noting whether the read found any event.
pub fn after_read(read: DiskRead, sent: u64) -> (r: Option<ConsumerMessage>)
    ensures
        sent < read.limit ==> (r matches Some(ConsumerMessage::ContinueConsuming(c, n, any)) && c
            == read.connection_id && n == read.limit - sent && any == (sent > 0)),
        sent >= read.limit ==> r is None,
{
    if sent < read.limit {
        Some(ConsumerMessage::ContinueConsuming(read.connection_id, read.limit - sent, sent > 0))
    } else {
        None
    }
}

/// A broadcast of the event `id` took the clients from `before` to
/// `after` and went to the connections `to`: each idle client whose
/// position is before the event receives it and moves to it.
pub open spec fn broadcast_step(
    before: Seq<Client>,
    after: Seq<Client>,
    id: FloEventId,
    to: Seq<ConnectionId>,
) -> bool {
    &&& to == broadcast_targets(before, id)
    &&& after.len() == before.len()
    &&& forall|i: int|
        0 <= i < before.len() ==> (#[trigger] after[i]) == if awaits(before[i], id) {
            Client {
                connection_id: before[i].connection_id,
                state: ConsumerState::NotConsuming(id),
            }
        } else {
            before[i]
        }
}

/// Per client, a broadcast keeps delivery in order: the client at place
/// `i` receives the event (once) exactly when the broadcast goes to it, and
/// its position moves from where it was to the last id it received.
pub proof fn lemma_broadcast_in_order(
    before: Seq<Client>,
    after: Seq<Client>,
    id: FloEventId,
    to: Seq<ConnectionId>,
    i: int,
)
    requires
        unique_ids(before),
        broadcast_step(before, after, id, to),
        0 <= i < before.len(),
    ensures
        to.no_duplicates(),
        to.contains(before[i].connection_id) <==> awaits(before[i], id),
        after[i].connection_id == before[i].connection_id,
        delivered_in_order(
            before[i].state.spec_position(),
            after[i].state.spec_position(),
            if awaits(before[i], id) {
                seq![id]
            } else {
                Seq::<FloEventId>::empty()
            },
        ),
{
    lemma_broadcast_targets(before, id);
    let c = before[i].connection_id;
    if to.contains(c) {
        let k = choose|k: int|
            0 <= k < before.len() && (#[trigger] before[k]).connection_id == c && awaits(
                before[k],
                id,
            );
        if k != i {
            if k < i {
                assert(before[k].connection_id != before[i].connection_id);
            } else {
                assert(before[i].connection_id != before[k].connection_id);
            }
        }
    }
    if awaits(before[i], id) {
        assert(seq![id].last() == id);
    }
}

/// Live broadcast: an idle client whose position is before two events
/// persisted one after the other, in increasing id order, receives the
/// first and then the second, each once, with no request in between.
pub proof fn lemma_live_broadcast(
    s0: Seq<Client>,
    s1: Seq<Client>,
    s2: Seq<Client>,
    first: FloEventId,
    second: FloEventId,
    to_first: Seq<ConnectionId>,
    to_second: Seq<ConnectionId>,
    i: int,
)
    requires
        unique_ids(s0),
        broadcast_step(s0, s1, first, to_first),
        broadcast_step(s1, s2, second, to_second),
        0 <= i < s0.len(),
        awaits(s0[i], first),
        first.spec_lt(second),
    ensures
        to_first.contains(s0[i].connection_id),
        to_second.contains(s0[i].connection_id),
        to_first.no_duplicates(),
        to_second.no_duplicates(),
        s2[i] == (Client {
            connection_id: s0[i].connection_id,
            state: ConsumerState::NotConsuming(second),
        }),
{
    assert(s1[i].connection_id == s0[i].connection_id);
    assert(awaits(s1[i], second));
    assert(unique_ids(s1)) by {
        assert forall|a: int, b: int| 0 <= a < b < s1.len() implies (#[trigger] s1[a]).connection_id
            != (#[trigger] s1[b]).connection_id by {
            assert(s1[a].connection_id == s0[a].connection_id);
            assert(s1[b].connection_id == s0[b].connection_id);
        }
    }
    lemma_broadcast_targets(s0, first);
    lemma_broadcast_targets(s1, second);
}

/// Subscription state for every connection, the hot cache, and the
/// decisions on how each subscriber is served.
pub struct ConsumerManager {
    clients: Vec<Client>,
    cache: Cache,
    greatest_event_id: FloEventId,
}

impl ConsumerManager {
    pub closed spec fn clients(&self) -> Seq<Client> {
        self.clients@
    }

    pub closed spec fn cache(&self) -> Cache {
        self.cache
    }

    pub closed spec fn spec_greatest(&self) -> FloEventId {
        self.greatest_event_id
    }

    pub closed spec fn wf(&self) -> bool {
        unique_ids(self.clients@) && self.cache.wf()
    }

    /// The client of a connection, if it is known.
    pub open spec fn client_of(&self, c: ConnectionId) -> Option<Client> {
        if exists|i: int| 0 <= i < self.clients().len() && self.clients()[i].connection_id == c {
            Some(
                self.clients()[choose|i: int|
                    0 <= i < self.clients().len() && self.clients()[i].connection_id == c],
            )
        } else {
            None
        }
    }

    /// Serving `c` from memory sent `sent`: the resident events with ids
    /// after its position, in id order, up to `limit`. In `next` its position
    /// is the last id sent; it is idle when fewer than `limit` were sent.
    pub open spec fn served_from_cache(
        &self,
        next: ConsumerManager,
        c: ConnectionId,
        limit: u64,
        sent: Seq<EventView>,
    ) -> bool {
        let start = self.client_of(c)->Some_0.state.spec_position();
        let s = self.cache().resident();
        let p = if sent.len() == 0 { start } else { sent.last().id };
        &&& exists|k: int|
            #[trigger] splits_at(s, start, k) && sent == s.subrange(
                k,
                if k + limit < s.len() { k + limit } else { s.len() as int },
            )
        &&& delivered_in_order(start, p, event_ids(sent))
        &&& next.client_of(c) == Some(
            Client {
                connection_id: c,
                state: if sent.len() < limit {
                    ConsumerState::NotConsuming(p)
                } else {
                    ConsumerState::ConsumingFromCache(p, 0)
                },
            },
        )
    }

    /// Sending `c` to a read of the log from its position: nothing is sent
    /// at once, the read is asked for, and it is being served from disk.
    pub open spec fn sent_to_disk(
        &self,
        next: ConsumerManager,
        c: ConnectionId,
        limit: u64,
        sent: Seq<EventView>,
        disk_read: Option<DiskRead>,
    ) -> bool {
        let start = self.client_of(c)->Some_0.state.spec_position();
        &&& sent.len() == 0
        &&& disk_read == Some(DiskRead { connection_id: c, start, limit })
        &&& next.client_of(c) == Some(
            Client { connection_id: c, state: ConsumerState::ConsumingFromDisk(start, limit) },
        )
    }

    /// Starting delivery for `c`: from memory when its position is past the
    /// last evicted event; otherwise from a read of the log.
    pub open spec fn started(
        &self,
        next: ConsumerManager,
        c: ConnectionId,
        limit: u64,
        sent: Seq<EventView>,
        disk_read: Option<DiskRead>,
    ) -> bool {
        let start = self.client_of(c)->Some_0.state.spec_position();
        if self.cache().spec_last_evicted().spec_lt(start) {
            disk_read is None && self.served_from_cache(next, c, limit, sent)
        } else {
            self.sent_to_disk(next, c, limit, sent, disk_read)
        }
    }

    /// Going on after a read of the log. When the read found events, the
    /// decision is made as at the start. When it found none, a position
    /// before the last evicted event is read from the log again; otherwise
    /// it is served from memory, which holds every event inserted after the
    /// last evicted one (at that very event, so an empty log is not read
    /// again and again).
    pub open spec fn continued(
        &self,
        next: ConsumerManager,
        c: ConnectionId,
        remaining: u64,
        read_any: bool,
        sent: Seq<EventView>,
        disk_read: Option<DiskRead>,
    ) -> bool {
        let start = self.client_of(c)->Some_0.state.spec_position();
        if read_any {
            self.started(next, c, remaining, sent, disk_read)
        } else if start.spec_lt(self.cache().spec_last_evicted()) {
            self.sent_to_disk(next, c, remaining, sent, disk_read)
        } else {
            disk_read is None && self.served_from_cache(next, c, remaining, sent)
        }
    }

    /// The cache after a persisted event: inserted when it is newer than all
    /// the cache has seen, unchanged otherwise.
    pub open spec fn cache_after_persist(&self, next: ConsumerManager, e: EventView) -> bool {
        if self.cache().spec_accepts(e.id) {
            self.cache().inserted_as(next.cache(), e)
        } else {
            next.cache() == self.cache()
        }
    }

    /// Connection ids are unique among the clients.
    pub proof fn lemma_unique(&self)
        requires
            self.wf(),
        ensures
            unique_ids(self.clients()),
    {
    }

    pub fn new(cache: Cache, greatest_event_id: FloEventId) -> (r: ConsumerManager)
        requires
            cache.wf(),
        ensures
            r.wf(),
            r.clients() == Seq::<Client>::empty(),
            r.cache() == cache,
            r.spec_greatest() == greatest_event_id,
    {
        ConsumerManager { clients: Vec::new(), cache, greatest_event_id }
    }

    pub fn greatest_event_id(&self) -> (r: FloEventId)
        ensures
            r == self.spec_greatest(),
    {
        self.greatest_event_id
    }

    pub fn last_evicted_id(&self) -> (r: FloEventId)
        ensures
            r == self.cache().spec_last_evicted(),
    {
        self.cache.last_evicted_id()
    }

    fn find(&self, c: ConnectionId) -> (r: Option<usize>)
        requires
            self.wf(),
        ensures
            r matches Some(i) ==> i < self.clients().len() && self.clients()[i as int].connection_id
                == c && self.client_of(c) == Some(self.clients()[i as int]),
            r is None ==> self.client_of(c) is None,
    {
        let mut i: usize = 0;
        while i < self.clients.len()
            invariant
                i <= self.clients@.len(),
                self.wf(),
                forall|k: int| 0 <= k < i ==> (#[trigger] self.clients@[k]).connection_id != c,
            decreases self.clients@.len() - i,
        {
            if self.clients[i].connection_id == c {
                proof {
                    let k = choose|k: int|
                        0 <= k < self.clients().len() && self.clients()[k].connection_id == c;
                    if k != i {
                        assert(unique_ids(self.clients@));
                        if k < i {
                            assert(self.clients@[k].connection_id != self.clients@[i as int].connection_id);
                        } else {
                            assert(self.clients@[i as int].connection_id != self.clients@[k].connection_id);
                        }
                    }
                }
                return Some(i);
            }
            i = i + 1;
        }
        None
    }

    /// The delivery position of a connection.
    pub fn get_consumer_position(&self, c: ConnectionId) -> (r: Option<FloEventId>)
        requires
            self.wf(),
        ensures
            r == (match self.client_of(c) {
                Some(cl) => Some(cl.state.spec_position()),
                None => None,
            }),
    {
        match self.find(c) {
            Some(i) => Some(self.clients[i].state.position()),
            None => None,
        }
    }

    /// Registers a connection with nothing delivered yet.
    pub fn client_connect(&mut self, c: ConnectionId)
        requires
            old(self).wf(),
        ensures
            final(self).wf(),
            final(self).cache() == old(self).cache(),
            final(self).client_of(c) == Some(
                Client { connection_id: c, state: ConsumerState::NotConsuming(FloEventId::spec_zero()) },
            ),
            forall|d: ConnectionId| d != c ==> final(self).client_of(d) == old(self).client_of(d),
    {
        let fresh = Client {
            connection_id: c,
            state: ConsumerState::NotConsuming(FloEventId::zero()),
        };
        match self.find(c) {
            Some(i) => {
                let ghost before = self.clients@;
                self.clients.set(i, fresh);
                proof {
                    assert(self.clients@[i as int] == fresh);
                    assert(unique_ids(self.clients@)) by {
                        assert forall|a: int, b: int| 0 <= a < b < self.clients@.len() implies (
                        #[trigger] self.clients@[a]).connection_id != (
                        #[trigger] self.clients@[b]).connection_id by {
                            assert(before[a].connection_id != before[b].connection_id);
                        }
                    }
                    self.lemma_client_at(i as int);
                    assert forall|d: ConnectionId| d != c implies self.client_of(d) == old(
                        self,
                    ).client_of(d) by {
                        self.lemma_same_client(before, d, i as int);
                    }
                }
            },
            None => {
                let ghost before = self.clients@;
                self.clients.push(fresh);
                proof {
                    assert(unique_ids(self.clients@)) by {
                        assert forall|a: int, b: int| 0 <= a < b < self.clients@.len() implies (
                        #[trigger] self.clients@[a]).connection_id != (
                        #[trigger] self.clients@[b]).connection_id by {
                            if b == before.len() {
                                assert(before[a].connection_id != c);
                            } else {
                                assert(before[a].connection_id != before[b].connection_id);
                            }
                        }
                    }
                    self.lemma_client_at(before.len() as int);
                    assert forall|d: ConnectionId| d != c implies self.client_of(d) == old(
                        self,
                    ).client_of(d) by {
                        self.lemma_pushed_client(before, d);
                    }
                }
            },
        }
    }

    proof fn lemma_client_at(&self, i: int)
        requires
            unique_ids(self.clients@),
            0 <= i < self.clients@.len(),
        ensures
            self.client_of(self.clients@[i].connection_id) == Some(self.clients@[i]),
    {
        let c = self.clients@[i].connection_id;
        let k = choose|k: int| 0 <= k < self.clients().len() && self.clients()[k].connection_id == c;
        if k != i {
            if k < i {
                assert(self.clients@[k].connection_id != self.clients@[i].connection_id);
            } else {
                assert(self.clients@[i].connection_id != self.clients@[k].connection_id);
            }
        }
    }

    proof fn lemma_same_client(&self, before: Seq<Client>, d: ConnectionId, i: int)
        requires
            unique_ids(before),
            unique_ids(self.clients@),
            before.len() == self.clients@.len(),
            0 <= i < before.len(),
            forall|k: int| 0 <= k < before.len() && k != i ==> self.clients@[k] == before[k],
            before[i].connection_id == self.clients@[i].connection_id,
            d != before[i].connection_id,
        ensures
            self.client_of(d) == (if exists|k: int|
                0 <= k < before.len() && before[k].connection_id == d {
                Some(before[choose|k: int| 0 <= k < before.len() && before[k].connection_id == d])
            } else {
                None
            }),
    {
        if exists|k: int| 0 <= k < before.len() && before[k].connection_id == d {
            let k = choose|k: int| 0 <= k < before.len() && before[k].connection_id == d;
            assert(self.clients@[k] == before[k]);
            let j = choose|j: int|
                0 <= j < self.clients().len() && self.clients()[j].connection_id == d;
            if j != k {
                if j < k {
                    assert(self.clients@[j].connection_id != self.clients@[k].connection_id);
                } else {
                    assert(self.clients@[k].connection_id != self.clients@[j].connection_id);
                }
            }
        } else {
            assert forall|j: int| 0 <= j < self.clients().len() implies self.clients()[j].connection_id
                != d by {
                if j != i {
                    assert(self.clients@[j] == before[j]);
                }
            }
        }
    }

    proof fn lemma_pushed_client(&self, before: Seq<Client>, d: ConnectionId)
        requires
            unique_ids(before),
            unique_ids(self.clients@),
            self.clients@.len() == before.len() + 1,
            forall|k: int| 0 <= k < before.len() ==> self.clients@[k] == before[k],
            d != self.clients@.last().connection_id,
        ensures
            self.client_of(d) == (if exists|k: int|
                0 <= k < before.len() && before[k].connection_id == d {
                Some(before[choose|k: int| 0 <= k < before.len() && before[k].connection_id == d])
            } else {
                None
            }),
    {
        if exists|k: int| 0 <= k < before.len() && before[k].connection_id == d {
            let k = choose|k: int| 0 <= k < before.len() && before[k].connection_id == d;
            assert(self.clients@[k] == before[k]);
            let j = choose|j: int|
                0 <= j < self.clients().len() && self.clients()[j].connection_id == d;
            if j != k {
                if j < k {
                    assert(self.clients@[j].connection_id != self.clients@[k].connection_id);
                } else {
                    assert(self.clients@[k].connection_id != self.clients@[j].connection_id);
                }
            }
        } else {
            assert forall|j: int| 0 <= j < self.clients().len() implies self.clients()[j].connection_id
                != d by {
                if j < before.len() {
                    assert(self.clients@[j] == before[j]);
                }
            }
        }
    }

    /// Clients with the same connection at each place keep their ids unique.
    proof fn lemma_unique_kept(before: Seq<Client>, after: Seq<Client>)
        requires
            unique_ids(before),
            before.len() == after.len(),
            forall|k: int| 0 <= k < before.len() ==> (#[trigger] after[k]).connection_id == before[k].connection_id,
        ensures
            unique_ids(after),
    {
        assert forall|a: int, b: int| 0 <= a < b < after.len() implies (
        #[trigger] after[a]).connection_id != (#[trigger] after[b]).connection_id by {
            assert(after[a].connection_id == before[a].connection_id);
            assert(after[b].connection_id == before[b].connection_id);
        }
    }

    /// Replaces the client at place `i` by one of the same connection.
    fn replace_client(&mut self, i: usize, next: Client)
        requires
            old(self).wf(),
            i < old(self).clients().len(),
            next.connection_id == old(self).clients()[i as int].connection_id,
        ensures
            final(self).wf(),
            final(self).cache() == old(self).cache(),
            final(self).spec_greatest() == old(self).spec_greatest(),
            final(self).clients() == old(self).clients().update(i as int, next),
            final(self).client_of(next.connection_id) == Some(next),
            forall|d: ConnectionId|
                d != next.connection_id ==> final(self).client_of(d) == old(self).client_of(d),
    {
        let ghost before = self.clients@;
        self.clients.set(i, next);
        proof {
            Self::lemma_unique_kept(before, self.clients@);
            self.lemma_client_at(i as int);
            assert forall|d: ConnectionId| d != next.connection_id implies self.client_of(d) == old(
                self,
            ).client_of(d) by {
                self.lemma_same_client(before, d, i as int);
            }
        }
    }

    /// Forgets a connection.
    pub fn remove(&mut self, c: ConnectionId)
        requires
            old(self).wf(),
        ensures
            final(self).wf(),
            final(self).cache() == old(self).cache(),
            final(self).client_of(c) is None,
            forall|d: ConnectionId| d != c ==> final(self).client_of(d) == old(self).client_of(d),
    {
        if let Some(i) = self.find(c) {
            let ghost before = self.clients@;
            self.clients.remove(i);
            proof {
                assert forall|a: int, b: int| 0 <= a < b < self.clients@.len() implies (
                #[trigger] self.clients@[a]).connection_id != (
                #[trigger] self.clients@[b]).connection_id by {
                    let a0 = if a < i { a } else { a + 1 };
                    let b0 = if b < i { b } else { b + 1 };
                    assert(self.clients@[a] == before[a0]);
                    assert(self.clients@[b] == before[b0]);
                }
                assert forall|j: int| 0 <= j < self.clients@.len() implies self.clients@[j].connection_id != c by {
                    let j0 = if j < i { j } else { j + 1 };
                    assert(self.clients@[j] == before[j0]);
                    assert(before[j0].connection_id != before[i as int].connection_id) by {
                        if j0 < i {
                        } else {
                        }
                    }
                }
                assert forall|d: ConnectionId| d != c implies self.client_of(d) == old(self).client_of(d) by {
                    if exists|k: int| 0 <= k < before.len() && before[k].connection_id == d {
                        let k = choose|k: int| 0 <= k < before.len() && before[k].connection_id == d;
                        assert(k != i);
                        let k1 = if k < i { k } else { k - 1 };
                        assert(self.clients@[k1] == before[k]);
                        let j = choose|j: int| 0 <= j < self.clients().len() && self.clients()[j].connection_id == d;
                        if j != k1 {
                            if j < k1 {
                                assert(self.clients@[j].connection_id != self.clients@[k1].connection_id);
                            } else {
                                assert(self.clients@[k1].connection_id != self.clients@[j].connection_id);
                            }
                        }
                    } else {
                        assert forall|j: int| 0 <= j < self.clients().len() implies self.clients()[j].connection_id != d by {
                            let j0 = if j < i { j } else { j + 1 };
                            assert(self.clients@[j] == before[j0]);
                        }
                    }
                }
            }
        }
    }

    /// Sends a client what the cache holds after its position, up to
    /// `limit` events, and records the new position.
    #[verifier::rlimit(40)]
    fn serve_from_cache(&mut self, i: usize, limit: u64) -> (r: Vec<Arc<OwnedFloEvent>>)
        requires
            old(self).wf(),
            i < old(self).clients().len(),
        ensures
            final(self).wf(),
            final(self).cache() == old(self).cache(),
            final(self).spec_greatest() == old(self).spec_greatest(),
            old(self).served_from_cache(*final(self), old(self).clients()[i as int].connection_id, limit, views(r@)),
            forall|d: ConnectionId|
                d != old(self).clients()[i as int].connection_id ==> final(self).client_of(d) == old(
                    self,
                ).client_of(d),
    {
        let c = self.clients[i];
        let start = c.state.position();
        let lim: usize = if limit > usize::MAX as u64 {
            usize::MAX
        } else {
            limit as usize
        };
        let resident_len = self.cache.len();
        let out = self.cache.do_with_range(start, lim);
        let p = if out.len() == 0 {
            start
        } else {
            out[out.len() - 1].id
        };
        proof {
            let s = self.cache.resident();
            self.cache.lemma_resident_increasing();
            let k = choose|k: int|
                #[trigger] splits_at(s, start, k) && views(out@) == s.subrange(
                    k,
                    if k + lim < s.len() { k + lim } else { s.len() as int },
                );
            let end = if k + lim < s.len() { k + lim } else { s.len() as int };
            assert(views(out@) == s.subrange(k, end));
            assert(s.len() == resident_len);
            let end2 = if k + limit < s.len() { k + limit } else { s.len() as int };
            assert(end == end2);
            let ids = ids_of(out@);
            assert(ids.len() == end - k);
            assert forall|a: int, b: int| 0 <= a < b < ids.len() implies ids[a].spec_lt(ids[b]) by {
                assert(ids[a] == views(out@)[a].id);
                assert(ids[b] == views(out@)[b].id);
                assert(views(out@)[a] == s[k + a]);
                assert(views(out@)[b] == s[k + b]);
            }
            if ids.len() > 0 {
                assert(views(out@)[0] == s[k]);
                assert(ids[0] == s[k].id);
                assert(ids.last() == out@.last()@.id);
            }
        }
        let state = if (out.len() as u64) < limit {
            ConsumerState::NotConsuming(p)
        } else {
            ConsumerState::ConsumingFromCache(p, 0)
        };
        proof {
            self.lemma_client_at(i as int);
            assert(event_ids(views(out@)) =~= ids_of(out@));
            if out@.len() > 0 {
                assert(views(out@).last() == out@.last()@);
            }
        }
        self.replace_client(i, Client { connection_id: c.connection_id, state });
        out
    }

    /// Starts delivery for a connection from its position: from memory when
    /// the position is past the last evicted event, otherwise by a read of
    /// the log that the caller runs.
    pub fn start_consuming(&mut self, c: ConnectionId, limit: u64) -> (r: Option<StartOutcome>)
        requires
            old(self).wf(),
        ensures
            final(self).wf(),
            final(self).cache() == old(self).cache(),
            r is None <==> old(self).client_of(c) is None,
            r is None ==> final(self).clients() == old(self).clients(),
            forall|d: ConnectionId| d != c ==> final(self).client_of(d) == old(self).client_of(d),
            r matches Some(o) ==> old(self).started(
                *final(self),
                c,
                limit,
                views(o.deliveries@),
                o.disk_read,
            ),
    {
        let i = match self.find(c) {
            Some(i) => i,
            None => return None,
        };
        let start = self.clients[i].state.position();
        if self.cache.last_evicted_id().is_less_than(&start) {
            let deliveries = self.serve_from_cache(i, limit);
            Some(StartOutcome { deliveries, disk_read: None })
        } else {
            self.replace_client(
                i,
                Client { connection_id: c, state: ConsumerState::ConsumingFromDisk(start, limit) },
            );
            Some(
                StartOutcome {
                    deliveries: Vec::new(),
                    disk_read: Some(DiskRead { connection_id: c, start, limit }),
                },
            )
        }
    }

    /// Goes on after a read of the log for a connection finished with
    /// `remaining` events still wanted. When the read found events, the
    /// decision is made again from the new position; when it found none,
    /// what the cache holds after the position is sent.
    pub fn continue_consuming(&mut self, c: ConnectionId, remaining: u64, read_any: bool) -> (r:
        Option<StartOutcome>)
        requires
            old(self).wf(),
        ensures
            final(self).wf(),
            final(self).cache() == old(self).cache(),
            r is None <==> old(self).client_of(c) is None,
            r is None ==> final(self).clients() == old(self).clients(),
            r is Some ==> final(self).client_of(c) is Some,
            forall|d: ConnectionId| d != c ==> final(self).client_of(d) == old(self).client_of(d),
            r matches Some(o) ==> old(self).continued(
                *final(self),
                c,
                remaining,
                read_any,
                views(o.deliveries@),
                o.disk_read,
            ),
    {
        if read_any {
            let r = self.start_consuming(c, remaining);
            r
        } else {
            let i = match self.find(c) {
                Some(i) => i,
                None => return None,
            };
            let start = self.clients[i].state.position();
            if start.is_less_than(&self.cache.last_evicted_id()) {
                self.replace_client(
                    i,
                    Client { connection_id: c, state: ConsumerState::ConsumingFromDisk(start, remaining) },
                );
                Some(
                    StartOutcome {
                        deliveries: Vec::new(),
                        disk_read: Some(DiskRead { connection_id: c, start, limit: remaining }),
                    },
                )
            } else {
                let deliveries = self.serve_from_cache(i, remaining);
                Some(StartOutcome { deliveries, disk_read: None })
            }
        }
    }

    /// An event that a read of the log produced for a connection: it is
    /// delivered when it comes after the connection's position.
    pub fn event_loaded(&mut self, c: ConnectionId, event: OwnedFloEvent) -> (r: Option<Arc<OwnedFloEvent>>)
        requires
            old(self).wf(),
        ensures
            final(self).wf(),
            final(self).cache() == old(self).cache(),
            forall|d: ConnectionId| d != c ==> final(self).client_of(d) == old(self).client_of(d),
            r is Some <==> (old(self).client_of(c) matches Some(cl) && cl.state.spec_position().spec_lt(event.id)),
            r matches Some(e) ==> e@ == event@ && final(self).client_of(c)->Some_0.state.spec_position() == event.id,
            r is None ==> final(self).client_of(c) == old(self).client_of(c),
            old(self).client_of(c) matches Some(cl) ==> final(self).client_of(c) is Some && delivered_in_order(
                cl.state.spec_position(),
                final(self).client_of(c)->Some_0.state.spec_position(),
                match r { Some(e) => seq![e@.id], None => seq![] },
            ),
    {
        let i = match self.find(c) {
            Some(i) => i,
            None => return None,
        };
        let cl = self.clients[i];
        if !cl.state.position().is_less_than(&event.id) {
            return None;
        }
        let id = event.id;
        let state = match cl.state {
            ConsumerState::NotConsuming(_) => ConsumerState::NotConsuming(id),
            ConsumerState::ConsumingFromCache(_, n) => ConsumerState::ConsumingFromCache(id, n),
            ConsumerState::ConsumingFromDisk(_, n) => ConsumerState::ConsumingFromDisk(
                id,
                if n > 0 { n - 1 } else { 0 },
            ),
        };
        self.replace_client(i, Client { connection_id: c, state });
        let shared = Arc::new(event);
        proof {
            assert(seq![shared@.id].last() == id);
        }
        Some(shared)
    }

    /// A read of the log failed: the connection goes back to waiting at its
    /// last delivered event.
    pub fn reading_failed(&mut self, c: ConnectionId)
        requires
            old(self).wf(),
        ensures
            final(self).wf(),
            final(self).cache() == old(self).cache(),
            forall|d: ConnectionId| d != c ==> final(self).client_of(d) == old(self).client_of(d),
            old(self).client_of(c) matches Some(cl) ==> final(self).client_of(c) == Some(Client {
                connection_id: c,
                state: ConsumerState::NotConsuming(cl.state.spec_position()),
            }),
            old(self).client_of(c) is None ==> final(self).client_of(c) is None,
    {
        if let Some(i) = self.find(c) {
            let p = self.clients[i].state.position();
            self.replace_client(i, Client { connection_id: c, state: ConsumerState::NotConsuming(p) });
        }
    }

    /// A new event was persisted: it enters the cache, when it is newer than
    /// all the cache has seen, and goes to every idle connection whose
    /// position is before it; their position moves to it.
    pub fn event_persisted(&mut self, event: OwnedFloEvent) -> (r: Vec<Delivery>)
        requires
            old(self).wf(),
        ensures
            final(self).wf(),
            broadcast_step(old(self).clients(), final(self).clients(), event.id, targets(r@)),
            final(self).clients().len() == old(self).clients().len(),
            forall|i: int|
                0 <= i < old(self).clients().len() ==> (#[trigger] final(self).clients()[i]) == if awaits(
                    old(self).clients()[i],
                    event.id,
                ) {
                    Client {
                        connection_id: old(self).clients()[i].connection_id,
                        state: ConsumerState::NotConsuming(event.id),
                    }
                } else {
                    old(self).clients()[i]
                },
            r@.map_values(|d: Delivery| d.connection_id) == broadcast_targets(
                old(self).clients(),
                event.id,
            ),
            forall|i: int| 0 <= i < r@.len() ==> (#[trigger] r@[i]).event@ == event@,
            final(self).spec_greatest() == if old(self).spec_greatest().spec_lt(event.id) {
                event.id
            } else {
                old(self).spec_greatest()
            },
            old(self).cache_after_persist(*final(self), event@),
            final(self).cache().spec_last_evicted() == old(self).cache().spec_last_evicted() || old(
                self,
            ).cache().spec_last_evicted().spec_lt(final(self).cache().spec_last_evicted()),
    {
        let id = event.id;
        if self.greatest_event_id.is_less_than(&id) {
            self.greatest_event_id = id;
        }
        let shared = if self.cache.accepts(id) {
            self.cache.insert(event)
        } else {
            Arc::new(event)
        };
        let ghost before = self.clients@;
        let ghost cache_now = self.cache;
        let ghost greatest_now = self.greatest_event_id;
        let mut out: Vec<Delivery> = Vec::new();
        let mut i: usize = 0;
        while i < self.clients.len()
            invariant
                i <= self.clients@.len(),
                self.cache == cache_now,
                self.greatest_event_id == greatest_now,
                self.clients@.len() == before.len(),
                unique_ids(before),
                self.cache.wf(),
                shared@.id == id,
                forall|k: int|
                    0 <= k < i ==> (#[trigger] self.clients@[k]) == if awaits(before[k], id) {
                        Client {
                            connection_id: before[k].connection_id,
                            state: ConsumerState::NotConsuming(id),
                        }
                    } else {
                        before[k]
                    },
                forall|k: int| i <= k < before.len() ==> (#[trigger] self.clients@[k]) == before[k],
                out@.map_values(|d: Delivery| d.connection_id) == broadcast_targets(
                    before.subrange(0, i as int),
                    id,
                ),
                forall|k: int| 0 <= k < out@.len() ==> (#[trigger] out@[k]).event@ == shared@,
            decreases before.len() - i,
        {
            let cl = self.clients[i];
            proof {
                assert(before.subrange(0, i + 1).drop_last() =~= before.subrange(0, i as int));
                assert(before.subrange(0, i + 1).last() == before[i as int]);
            }
            let due = match cl.state {
                ConsumerState::NotConsuming(p) => p.is_less_than(&id),
                _ => false,
            };
            if due {
                self.clients.set(i, Client { connection_id: cl.connection_id, state: ConsumerState::NotConsuming(id) });
                let ghost out0 = out@;
                out.push(Delivery { connection_id: cl.connection_id, event: shared.clone() });
                proof {
                    assert(out@.map_values(|d: Delivery| d.connection_id) =~= out0.map_values(
                        |d: Delivery| d.connection_id,
                    ).push(cl.connection_id));
                }
            }
            i = i + 1;
        }
        proof {
            assert(before.subrange(0, before.len() as int) =~= before);
            Self::lemma_unique_kept(before, self.clients@);
        }
        out
    }

    fn to_deliveries(c: ConnectionId, events: Vec<Arc<OwnedFloEvent>>) -> (r: Vec<Delivery>)
        ensures
            r@.len() == events@.len(),
            forall|i: int| 0 <= i < r@.len() ==> (#[trigger] r@[i]).connection_id == c,
            delivered_ids(r@) == ids_of(events@),
            delivered_views(r@) == views(events@),
            forall|i: int| 0 <= i < r@.len() ==> (#[trigger] r@[i]).event@ == events@[i]@,
    {
        let mut out: Vec<Delivery> = Vec::new();
        let mut i: usize = 0;
        while i < events.len()
            invariant
                i <= events@.len(),
                out@.len() == i,
                forall|k: int| 0 <= k < i ==> (#[trigger] out@[k]).connection_id == c,
                forall|k: int| 0 <= k < i ==> (#[trigger] out@[k]).event@ == events@[k]@,
            decreases events@.len() - i,
        {
            out.push(Delivery { connection_id: c, event: events[i].clone() });
            i = i + 1;
        }
        assert(delivered_ids(out@) =~= ids_of(events@));
        assert(delivered_views(out@) =~= views(events@));
        out
    }

    /// Handles one message, in the order received: registers or forgets a
    /// connection, starts or continues delivery, takes events read from the
    /// log, or fans out a persisted event. Every connection is sent events
    /// in strictly increasing id order, starting after its position.
    pub fn process(&mut self, message: ConsumerMessage) -> (r: ConsumerStep)
        requires
            old(self).wf(),
        ensures
            final(self).wf(),
            final(self).cache().spec_last_evicted() == old(self).cache().spec_last_evicted() || old(
                self,
            ).cache().spec_last_evicted().spec_lt(final(self).cache().spec_last_evicted()),
            !(message is EventPersisted) ==> final(self).cache() == old(self).cache(),
            match message {
                ConsumerMessage::ClientConnect(c) => {
                    &&& r.deliveries@.len() == 0 && r.disk_read is None
                    &&& final(self).client_of(c) == Some(
                        Client {
                            connection_id: c,
                            state: ConsumerState::NotConsuming(FloEventId::spec_zero()),
                        },
                    )
                    &&& forall|d: ConnectionId|
                        d != c ==> final(self).client_of(d) == old(self).client_of(d)
                },
                ConsumerMessage::Disconnect(c) => {
                    &&& r.deliveries@.len() == 0 && r.disk_read is None
                    &&& final(self).client_of(c) is None
                    &&& forall|d: ConnectionId|
                        d != c ==> final(self).client_of(d) == old(self).client_of(d)
                },
                ConsumerMessage::StartConsuming(c, limit) => {
                    &&& forall|i: int|
                        0 <= i < r.deliveries@.len() ==> (#[trigger] r.deliveries@[i]).connection_id
                            == c
                    &&& forall|d: ConnectionId|
                        d != c ==> final(self).client_of(d) == old(self).client_of(d)
                    &&& old(self).client_of(c) is None ==> r.deliveries@.len() == 0
                        && r.disk_read is None && final(self).client_of(c) is None
                    &&& old(self).client_of(c) is Some ==> old(self).started(
                        *final(self),
                        c,
                        limit,
                        delivered_views(r.deliveries@),
                        r.disk_read,
                    )
                },
                ConsumerMessage::ContinueConsuming(c, remaining, read_any) => {
                    &&& forall|i: int|
                        0 <= i < r.deliveries@.len() ==> (#[trigger] r.deliveries@[i]).connection_id
                            == c
                    &&& forall|d: ConnectionId|
                        d != c ==> final(self).client_of(d) == old(self).client_of(d)
                    &&& old(self).client_of(c) is None ==> r.deliveries@.len() == 0
                        && r.disk_read is None && final(self).client_of(c) is None
                    &&& old(self).client_of(c) is Some ==> old(self).continued(
                        *final(self),
                        c,
                        remaining,
                        read_any,
                        delivered_views(r.deliveries@),
                        r.disk_read,
                    )
                },
                ConsumerMessage::EventLoaded(c, event) => {
                    &&& r.disk_read is None
                    &&& (r.deliveries@.len() == 1 <==> (old(self).client_of(c) matches Some(cl)
                        && cl.state.spec_position().spec_lt(event.id)))
                    &&& r.deliveries@.len() <= 1
                    &&& forall|i: int|
                        0 <= i < r.deliveries@.len() ==> (#[trigger] r.deliveries@[i]).connection_id
                            == c && r.deliveries@[i].event@ == event@
                    &&& forall|d: ConnectionId|
                        d != c ==> final(self).client_of(d) == old(self).client_of(d)
                    &&& r.deliveries@.len() == 0 ==> final(self).client_of(c) == old(self).client_of(c)
                    &&& r.deliveries@.len() == 1 ==> final(self).client_of(c)->Some_0.state.spec_position()
                        == event.id
                    &&& old(self).client_of(c) matches Some(cl) ==> final(self).client_of(c) is Some
                        && delivered_in_order(
                        cl.state.spec_position(),
                        final(self).client_of(c)->Some_0.state.spec_position(),
                        delivered_ids(r.deliveries@),
                    )
                },
                ConsumerMessage::ErrorReadingEvents(c) => {
                    &&& r.deliveries@.len() == 0 && r.disk_read is None
                    &&& forall|d: ConnectionId|
                        d != c ==> final(self).client_of(d) == old(self).client_of(d)
                    &&& old(self).client_of(c) matches Some(cl) ==> final(self).client_of(c) == Some(
                        Client {
                            connection_id: c,
                            state: ConsumerState::NotConsuming(cl.state.spec_position()),
                        },
                    )
                    &&& old(self).client_of(c) is None ==> final(self).client_of(c) is None
                },
                ConsumerMessage::EventPersisted(event) => {
                    &&& r.disk_read is None
                    &&& broadcast_step(
                        old(self).clients(),
                        final(self).clients(),
                        event.id,
                        targets(r.deliveries@),
                    )
                    &&& old(self).cache_after_persist(*final(self), event@)
                    &&& targets(r.deliveries@) == broadcast_targets(old(self).clients(), event.id)
                    &&& forall|i: int|
                        0 <= i < r.deliveries@.len() ==> (#[trigger] r.deliveries@[i]).event@
                            == event@
                    &&& final(self).clients().len() == old(self).clients().len()
                    &&& forall|i: int|
                        0 <= i < old(self).clients().len() ==> (#[trigger] final(self).clients()[i])
                            == if awaits(old(self).clients()[i], event.id) {
                            Client {
                                connection_id: old(self).clients()[i].connection_id,
                                state: ConsumerState::NotConsuming(event.id),
                            }
                        } else {
                            old(self).clients()[i]
                        }
                },
            },
    {
        match message {
            ConsumerMessage::ClientConnect(c) => {
                self.client_connect(c);
                ConsumerStep { deliveries: Vec::new(), disk_read: None }
            },
            ConsumerMessage::Disconnect(c) => {
                self.remove(c);
                ConsumerStep { deliveries: Vec::new(), disk_read: None }
            },
            ConsumerMessage::StartConsuming(c, limit) => match self.start_consuming(c, limit) {
                Some(o) => {
                    let deliveries = Self::to_deliveries(c, o.deliveries);
                    ConsumerStep { deliveries, disk_read: o.disk_read }
                },
                None => ConsumerStep { deliveries: Vec::new(), disk_read: None },
            },
            ConsumerMessage::ContinueConsuming(c, remaining, read_any) => match self.continue_consuming(
                c,
                remaining,
                read_any,
            ) {
                Some(o) => {
                    let deliveries = Self::to_deliveries(c, o.deliveries);
                    ConsumerStep { deliveries, disk_read: o.disk_read }
                },
                None => ConsumerStep { deliveries: Vec::new(), disk_read: None },
            },
            ConsumerMessage::EventLoaded(c, event) => {
                let ghost ev = event@;
                let mut deliveries: Vec<Delivery> = Vec::new();
                if let Some(e) = self.event_loaded(c, event) {
                    deliveries.push(Delivery { connection_id: c, event: e });
                    proof {
                        assert(delivered_ids(deliveries@) =~= seq![ev.id]);
                    }
                } else {
                    proof {
                        assert(delivered_ids(deliveries@) =~= Seq::<FloEventId>::empty());
                    }
                }
                ConsumerStep { deliveries, disk_read: None }
            },
            ConsumerMessage::ErrorReadingEvents(c) => {
                self.reading_failed(c);
                ConsumerStep { deliveries: Vec::new(), disk_read: None }
            },
            ConsumerMessage::EventPersisted(event) => {
                let deliveries = self.event_persisted(event);
                ConsumerStep { deliveries, disk_read: None }
            },
        }
    }
}

} // verus!
