use crate::codec::{ClientAuth, ErrorMessage, EventAck, ServerMessage, ServerMessageView, PERSISTENCE_FAILURE};
use crate::event::{ActorId, EventCounter, FloEventId, OwnedFloEvent};
use crate::index::IndexEntry;
use crate::stream::{ConnectionId, ProduceEvent};
use std::collections::HashSet;
use vstd::prelude::*;

verus! {

/// The connections that the producer manager answers.
pub struct ProducerMap {
    clients: HashSet<ConnectionId>,
}

impl View for ProducerMap {
    type V = Set<ConnectionId>;

    closed spec fn view(&self) -> Set<ConnectionId> {
        self.clients@
    }
}

impl ProducerMap {
    pub fn new() -> (r: ProducerMap)
        ensures
            r@ == Set::<ConnectionId>::empty(),
    {
        ProducerMap { clients: HashSet::new() }
    }

    pub fn add(&mut self, client: ConnectionId)
        ensures
            final(self)@ == old(self)@.insert(client),
    {
        self.clients.insert(client);
    }

    pub fn remove(&mut self, client: ConnectionId)
        ensures
            final(self)@ == old(self)@.remove(client),
    {
        self.clients.remove(&client);
    }

    /// Addresses a message to a connection, if it is registered.
    pub fn send(&self, client: ConnectionId, message: ServerMessage) -> (r: Result<
        (ConnectionId, ServerMessage),
        ServerMessage,
    >)
        ensures
            r is Ok <==> self@.contains(client),
            r matches Ok((c, m)) ==> c == client && m@ == message@,
            r matches Err(m) ==> m@ == message@,
    {
        if self.clients.contains(&client) {
            Ok((client, message))
        } else {
            Err(message)
        }
    }
}

/// An event waiting to be persisted, with where its acknowledgement goes.
pub struct PendingEvent {
    pub connection_id: ConnectionId,
    pub op_id: u32,
    pub event: OwnedFloEvent,
}

/// What follows the attempt to persist an event: the reply to the
/// producing connection, and the event to hand on for fan-out.
pub struct ProduceOutcome {
    pub connection_id: ConnectionId,
    pub reply: ServerMessage,
    pub forward: Option<OwnedFloEvent>,
}

/// A message for the producer manager.
pub enum ProducerMessage {
    ClientConnect(ConnectionId),
    ClientDisconnect(ConnectionId),
    /// Credentials from a connection; they are carried, not checked.
    ClientAuth(ConnectionId, ClientAuth),
    Produce(ProduceEvent),
}

/// What the producer manager needs done next.
pub enum ProducerStep {
    /// Nothing: the message is handled.
    Done,
    /// Persist this event, then report the outcome with `complete_produce`.
    Persist(PendingEvent),
    /// Send this reply; nothing is persisted.
    Reply(ProduceOutcome),
}

/// The highest counter recorded for `actor` in a sequence of index entries.
pub open spec fn max_counter(s: Seq<IndexEntry>, actor: ActorId) -> EventCounter
    decreases s.len(),
{
    if s.len() == 0 {
        0
    } else {
        let m = max_counter(s.drop_last(), actor);
        let last = s.last().event_id;
        if last.actor == actor && last.event_counter > m {
            last.event_counter
        } else {
            m
        }
    }
}

/// The highest counter that `actor` has in the recovered entries.
pub fn greatest_counter(entries: &[IndexEntry], actor: ActorId) -> (r: EventCounter)
    ensures
        r == max_counter(entries@, actor),
{
    let mut m: EventCounter = 0;
    let mut i: usize = 0;
    while i < entries.len()
        invariant
            i <= entries@.len(),
            m == max_counter(entries@.subrange(0, i as int), actor),
        decreases entries@.len() - i,
    {
        proof {
            assert(entries@.subrange(0, i + 1).drop_last() =~= entries@.subrange(0, i as int));
        }
        let id = entries[i].event_id;
        if id.actor == actor && id.event_counter > m {
            m = id.event_counter;
        }
        i = i + 1;
    }
    assert(entries@.subrange(0, entries@.len() as int) =~= entries@);
    m
}

/// No entry of `actor` has a counter above `max_counter`.
pub proof fn lemma_max_counter_bounds(s: Seq<IndexEntry>, actor: ActorId, i: int)
    requires
        0 <= i < s.len(),
        s[i].event_id.actor == actor,
    ensures
        s[i].event_id.event_counter <= max_counter(s, actor),
    decreases s.len(),
{
    if i < s.len() - 1 {
        lemma_max_counter_bounds(s.drop_last(), actor, i);
    }
}

/// `max_counter` is zero or the counter of an entry of `actor`.
pub proof fn lemma_max_counter_attained(s: Seq<IndexEntry>, actor: ActorId)
    ensures
        max_counter(s, actor) == 0 || exists|i: int|
            0 <= i < s.len() && s[i].event_id.actor == actor && s[i].event_id.event_counter
                == max_counter(s, actor),
    decreases s.len(),
{
    if s.len() > 0 {
        lemma_max_counter_attained(s.drop_last(), actor);
        let m = max_counter(s.drop_last(), actor);
        if max_counter(s, actor) == m && m != 0 {
            let i = choose|i: int|
                0 <= i < s.drop_last().len() && s.drop_last()[i].event_id.actor == actor
                    && s.drop_last()[i].event_id.event_counter == m;
            assert(s[i] == s.drop_last()[i]);
        }
    }
}

/// After recovery from the entries of a log, the first counter the local
/// actor assigns is one past the greatest counter it has there.
pub proof fn lemma_first_counter_after_recovery(
    entries: Seq<IndexEntry>,
    actor: ActorId,
    recovered: ProducerManager,
)
    requires
        recovered.actor() == actor,
        recovered.highest() == max_counter(entries, actor),
    ensures
        forall|i: int|
            0 <= i < entries.len() && (#[trigger] entries[i]).event_id.actor == actor
                ==> entries[i].event_id.event_counter < recovered.highest() + 1,
        recovered.highest() == 0 || exists|i: int|
            0 <= i < entries.len() && entries[i].event_id.actor == actor
                && entries[i].event_id.event_counter + 1 == recovered.highest() + 1,
{
    assert forall|i: int|
        0 <= i < entries.len() && (#[trigger] entries[i]).event_id.actor == actor
            implies entries[i].event_id.event_counter < recovered.highest() + 1 by {
        lemma_max_counter_bounds(entries, actor, i);
    }
    lemma_max_counter_attained(entries, actor);
}

/// Assigns counters to produced events, one after another, for the local
/// actor.
pub struct ProducerManager {
    actor_id: ActorId,
    highest_event_id: EventCounter,
    clients: ProducerMap,
}

impl ProducerManager {
    pub closed spec fn actor(&self) -> ActorId {
        self.actor_id
    }

    /// The counter of the last event persisted.
    pub closed spec fn highest(&self) -> EventCounter {
        self.highest_event_id
    }

    pub closed spec fn connections(&self) -> Set<ConnectionId> {
        self.clients@
    }

    pub fn new(actor_id: ActorId, highest_event_id: EventCounter) -> (r: ProducerManager)
        ensures
            r.actor() == actor_id,
            r.highest() == highest_event_id,
            r.connections() == Set::<ConnectionId>::empty(),
    {
        ProducerManager { actor_id, highest_event_id, clients: ProducerMap::new() }
    }

    /// A manager that goes on from the events recovered from the log: its
    /// next counter follows the greatest counter the local actor has there.
    pub fn recover(actor_id: ActorId, entries: &[IndexEntry]) -> (r: ProducerManager)
        ensures
            r.actor() == actor_id,
            r.highest() == max_counter(entries@, actor_id),
            r.connections() == Set::<ConnectionId>::empty(),
    {
        let highest = greatest_counter(entries, actor_id);
        ProducerManager::new(actor_id, highest)
    }

    pub fn highest_counter(&self) -> (r: EventCounter)
        ensures
            r == self.highest(),
    {
        self.highest_event_id
    }

    pub fn client_connect(&mut self, connection_id: ConnectionId)
        ensures
            final(self).connections() == old(self).connections().insert(connection_id),
            final(self).highest() == old(self).highest(),
            final(self).actor() == old(self).actor(),
    {
        self.clients.add(connection_id);
    }

    pub fn client_disconnect(&mut self, connection_id: ConnectionId)
        ensures
            final(self).connections() == old(self).connections().remove(connection_id),
            final(self).highest() == old(self).highest(),
            final(self).actor() == old(self).actor(),
    {
        self.clients.remove(connection_id);
    }

    /// The event to persist for a produce: it takes the next counter of the
    /// local actor. Nothing changes until the outcome is known; when the
    /// counters are used up, the producer gets an error instead.
    pub fn produce_event(&self, event: ProduceEvent) -> (r: Result<PendingEvent, ProduceOutcome>)
        ensures
            r is Ok <==> self.highest() < u64::MAX,
            r matches Ok(p) ==> {
                &&& p.connection_id == event.connection_id
                &&& p.op_id == event.op_id
                &&& p.event.id == (FloEventId {
                    actor: self.actor(),
                    event_counter: (self.highest() + 1) as u64,
                })
                &&& p.event.namespace@ == event.namespace@
                &&& p.event.data@ == event.event_data@
            },
            r matches Err(o) ==> {
                &&& o.connection_id == event.connection_id
                &&& o.forward is None
                &&& (o.reply@ matches ServerMessageView::Error { op_id, kind, .. } && op_id
                    == event.op_id && kind == PERSISTENCE_FAILURE)
            },
    {
        if self.highest_event_id == u64::MAX {
            return Err(
                ProduceOutcome {
                    connection_id: event.connection_id,
                    reply: ServerMessage::Error(
                        ErrorMessage {
                            op_id: event.op_id,
                            kind: PERSISTENCE_FAILURE,
                            description: String::from_str("event counter exhausted"),
                        },
                    ),
                    forward: None,
                },
            );
        }
        let id = FloEventId { actor: self.actor_id, event_counter: self.highest_event_id + 1 };
        Ok(
            PendingEvent {
                connection_id: event.connection_id,
                op_id: event.op_id,
                event: OwnedFloEvent {
                    id,
                    namespace: event.namespace,
                    data: event.event_data,
                },
            },
        )
    }

    /// Records the outcome of persisting the pending event. When it was
    /// persisted, the counter advances to it, the producer gets an
    /// acknowledgement with its id, and the event is handed on for fan-out.
    /// Otherwise nothing advances and the producer gets a persistence error.
    pub fn complete_produce(&mut self, pending: PendingEvent, persisted: bool) -> (r: ProduceOutcome)
        requires
            pending.event.id == (FloEventId {
                actor: old(self).actor(),
                event_counter: (old(self).highest() + 1) as u64,
            }),
            old(self).highest() < u64::MAX,
        ensures
            final(self).actor() == old(self).actor(),
            final(self).connections() == old(self).connections(),
            r.connection_id == pending.connection_id,
            persisted ==> acknowledged(*old(self), *final(self), pending, r),
            persisted ==> {
                &&& final(self).highest() == old(self).highest() + 1
                &&& r.reply@ == (ServerMessageView::EventAck {
                    op_id: pending.op_id,
                    event_id: pending.event.id,
                })
                &&& (r.forward matches Some(e) && e@ == pending.event@)
            },
            !persisted ==> {
                &&& final(self).highest() == old(self).highest()
                &&& (r.reply@ matches ServerMessageView::Error { op_id, kind, .. } && op_id
                    == pending.op_id && kind == PERSISTENCE_FAILURE)
                &&& r.forward is None
            },
    {
        if persisted {
            self.highest_event_id = pending.event.id.event_counter;
            ProduceOutcome {
                connection_id: pending.connection_id,
                reply: ServerMessage::EventAck(
                    EventAck { op_id: pending.op_id, event_id: pending.event.id },
                ),
                forward: Some(pending.event),
            }
        } else {
            ProduceOutcome {
                connection_id: pending.connection_id,
                reply: ServerMessage::Error(
                    ErrorMessage {
                        op_id: pending.op_id,
                        kind: PERSISTENCE_FAILURE,
                        description: String::from_str("failed to persist event"),
                    },
                ),
                forward: None,
            }
        }
    }

    /// Handles one message, in the order received: registers or forgets a
    /// connection, or prepares a produced event for persisting.
    pub fn process(&mut self, message: ProducerMessage) -> (r: ProducerStep)
        ensures
            final(self).actor() == old(self).actor(),
            final(self).highest() == old(self).highest(),
            match message {
                ProducerMessage::ClientConnect(c) => r is Done && final(self).connections() == old(
                    self,
                ).connections().insert(c),
                ProducerMessage::ClientDisconnect(c) => r is Done && final(self).connections()
                    == old(self).connections().remove(c),
                ProducerMessage::ClientAuth(_, _) => r is Done && final(self).connections() == old(
                    self,
                ).connections(),
                ProducerMessage::Produce(event) => {
                    &&& final(self).connections() == old(self).connections()
                    &&& !(r is Done)
                    &&& (r is Persist <==> old(self).highest() < u64::MAX)
                    &&& (r is Reply <==> old(self).highest() == u64::MAX)
                    &&& r matches ProducerStep::Persist(p) ==> {
                        &&& p.connection_id == event.connection_id
                        &&& p.op_id == event.op_id
                        &&& p.event.id == (FloEventId {
                            actor: old(self).actor(),
                            event_counter: (old(self).highest() + 1) as u64,
                        })
                        &&& p.event.namespace@ == event.namespace@
                        &&& p.event.data@ == event.event_data@
                    }
                    &&& r matches ProducerStep::Reply(o) ==> {
                        &&& o.connection_id == event.connection_id
                        &&& o.forward is None
                        &&& (o.reply@ matches ServerMessageView::Error { op_id, kind, .. } && op_id
                            == event.op_id && kind == PERSISTENCE_FAILURE)
                    }
                },
            },
    {
        match message {
            ProducerMessage::ClientConnect(c) => {
                self.client_connect(c);
                ProducerStep::Done
            },
            ProducerMessage::ClientDisconnect(c) => {
                self.client_disconnect(c);
                ProducerStep::Done
            },
            ProducerMessage::ClientAuth(_, _) => ProducerStep::Done,
            ProducerMessage::Produce(event) => match self.produce_event(event) {
                Ok(p) => ProducerStep::Persist(p),
                Err(o) => ProducerStep::Reply(o),
            },
        }
    }

    /// Addresses a reply to a registered connection.
    pub fn send(&self, client: ConnectionId, message: ServerMessage) -> (r: Result<
        (ConnectionId, ServerMessage),
        ServerMessage,
    >)
        ensures
            r is Ok <==> self.connections().contains(client),
            r matches Ok((c, m)) ==> c == client && m@ == message@,
            r matches Err(m) ==> m@ == message@,
    {
        self.clients.send(client, message)
    }
}

/// A produce that `complete_produce` acknowledged: `before` and `after` are
/// the manager around the call, `pending` the event it took and `outcome`
/// what it returned.
pub open spec fn acknowledged(
    before: ProducerManager,
    after: ProducerManager,
    pending: PendingEvent,
    outcome: ProduceOutcome,
) -> bool {
    &&& before.highest() < u64::MAX
    &&& pending.event.id == (FloEventId {
        actor: before.actor(),
        event_counter: (before.highest() + 1) as u64,
    })
    &&& after.actor() == before.actor()
    &&& after.highest() == before.highest() + 1
    &&& outcome.reply@ == (ServerMessageView::EventAck {
        op_id: pending.op_id,
        event_id: pending.event.id,
    })
}

/// Acknowledgements carry strictly increasing counters of the same actor:
/// when a second produce is acknowledged by the manager in a state reached
/// after the first was acknowledged (its counter never goes down in
/// between), its acknowledgement carries a greater counter.
pub proof fn lemma_acks_increase(
    before_first: ProducerManager,
    after_first: ProducerManager,
    first: PendingEvent,
    first_outcome: ProduceOutcome,
    before_second: ProducerManager,
    after_second: ProducerManager,
    second: PendingEvent,
    second_outcome: ProduceOutcome,
)
    requires
        acknowledged(before_first, after_first, first, first_outcome),
        acknowledged(before_second, after_second, second, second_outcome),
        after_first.highest() <= before_second.highest(),
        after_first.actor() == before_second.actor(),
    ensures
        first_outcome.reply@ matches ServerMessageView::EventAck { event_id: a, .. }
            && second_outcome.reply@ matches ServerMessageView::EventAck { event_id: b, .. }
            && a.event_counter < b.event_counter && a.actor == b.actor,
{
}

} // verus!
