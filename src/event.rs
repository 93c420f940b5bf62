use std::collections::HashMap;
use vstd::prelude::*;

verus! {

/// The identity of a producer.
pub type ActorId = u16;

/// A per-actor, monotonically increasing counter.
pub type EventCounter = u64;

/// Identifies an event: ordered by counter first, then by actor.
#[derive(Debug, PartialEq, Eq, Clone, Copy, Hash, Structural)]
pub struct FloEventId {
    pub actor: ActorId,
    pub event_counter: EventCounter,
}

impl FloEventId {
    /// The total order on ids: counter first, then actor.
    pub open spec fn spec_lt(self, other: FloEventId) -> bool {
        ||| self.event_counter < other.event_counter
        ||| (self.event_counter == other.event_counter && self.actor < other.actor)
    }

    pub open spec fn spec_le(self, other: FloEventId) -> bool {
        self.spec_lt(other) || self == other
    }

    /// The sentinel that comes before every other id.
    pub open spec fn spec_zero() -> FloEventId {
        FloEventId { actor: 0, event_counter: 0 }
    }

    pub fn new(actor: ActorId, event_counter: EventCounter) -> (r: FloEventId)
        ensures
            r.actor == actor,
            r.event_counter == event_counter,
    {
        FloEventId { actor, event_counter }
    }

    pub fn zero() -> (r: FloEventId)
        ensures
            r == FloEventId::spec_zero(),
    {
        FloEventId { actor: 0, event_counter: 0 }
    }

    pub fn is_less_than(&self, other: &FloEventId) -> (r: bool)
        ensures
            r == self.spec_lt(*other),
    {
        self.event_counter < other.event_counter || (self.event_counter == other.event_counter
            && self.actor < other.actor)
    }
}

/// The order on ids is a strict total order.
pub proof fn lemma_id_order(a: FloEventId, b: FloEventId, c: FloEventId)
    ensures
        !a.spec_lt(a),
        a.spec_lt(b) && b.spec_lt(c) ==> a.spec_lt(c),
        a.spec_lt(b) || a == b || b.spec_lt(a),
        !(a.spec_lt(b) && b.spec_lt(a)),
        FloEventId::spec_zero().spec_le(a),
{
}

/// What an event is made of, as plain values.
pub struct EventView {
    pub id: FloEventId,
    pub namespace: Seq<char>,
    pub data: Seq<u8>,
}

/// An event: immutable once created.
#[derive(Debug, PartialEq, Clone)]
pub struct OwnedFloEvent {
    pub id: FloEventId,
    pub namespace: String,
    pub data: Vec<u8>,
}

impl View for OwnedFloEvent {
    type V = EventView;

    open spec fn view(&self) -> EventView {
        EventView { id: self.id, namespace: self.namespace@, data: self.data@ }
    }
}

impl OwnedFloEvent {
    pub fn new(id: FloEventId, namespace: String, data: Vec<u8>) -> (r: OwnedFloEvent)
        ensures
            r.id == id,
            r.namespace@ == namespace@,
            r.data@ == data@,
    {
        OwnedFloEvent { id, namespace, data }
    }

    /// A copy with the same id, namespace and data.
    pub fn duplicate(&self) -> (r: OwnedFloEvent)
        ensures
            r@ == self@,
    {
        OwnedFloEvent { id: self.id, namespace: self.namespace.clone(), data: self.data.clone() }
    }
}

/// Read access to an event.
pub trait FloEvent {
    spec fn event_view(&self) -> EventView;

    fn id(&self) -> (r: &FloEventId)
        ensures
            *r == self.event_view().id,
    ;

    fn namespace(&self) -> (r: &str)
        ensures
            r@ == self.event_view().namespace,
    ;

    fn data_len(&self) -> (r: u32)
        requires
            self.event_view().data.len() <= u32::MAX,
        ensures
            r == self.event_view().data.len(),
    ;

    fn data(&self) -> (r: &[u8])
        ensures
            r@ == self.event_view().data,
    ;

    fn to_owned(&self) -> (r: OwnedFloEvent)
        ensures
            r@ == self.event_view(),
    ;
}

impl FloEvent for OwnedFloEvent {
    open spec fn event_view(&self) -> EventView {
        self@
    }

    fn id(&self) -> (r: &FloEventId) {
        &self.id
    }

    fn namespace(&self) -> (r: &str) {
        self.namespace.as_str()
    }

    fn data_len(&self) -> (r: u32) {
        self.data.len() as u32
    }

    fn data(&self) -> (r: &[u8]) {
        self.data.as_slice()
    }

    fn to_owned(&self) -> (r: OwnedFloEvent) {
        self.duplicate()
    }
}

/// The counter recorded for an actor, or zero if none is.
pub open spec fn counter_of(m: Map<ActorId, EventCounter>, actor: ActorId) -> EventCounter {
    if m.contains_key(actor) {
        m[actor]
    } else {
        0
    }
}

/// A version vector: the highest counter observed for each actor.
pub trait FloEventIdMap: Sized {
    spec fn counters(&self) -> Map<ActorId, EventCounter>;

    fn new() -> (r: Self)
        ensures
            r.counters() == Map::<ActorId, EventCounter>::empty(),
    ;

    fn get_counter(&self, actor: ActorId) -> (r: EventCounter)
        ensures
            r == counter_of(self.counters(), actor),
    ;

    /// Raises the actor's counter by `amount` and returns the new counter.
    fn increment(&mut self, actor: ActorId, amount: u64) -> (r: EventCounter)
        requires
            counter_of(old(self).counters(), actor) + amount <= u64::MAX,
        ensures
            r == counter_of(old(self).counters(), actor) + amount,
            final(self).counters() == old(self).counters().insert(actor, r),
    ;

    /// Overwrites the actor's counter with the id's counter.
    fn set(&mut self, event_id: FloEventId)
        ensures
            final(self).counters() == old(self).counters().insert(
                event_id.actor,
                event_id.event_counter,
            ),
    ;

    fn event_is_greater(&self, event_id: FloEventId) -> (r: bool)
        ensures
            r == (event_id.event_counter > counter_of(self.counters(), event_id.actor)),
    {
        let current = self.get_counter(event_id.actor);
        event_id.event_counter > current
    }
}

impl FloEventIdMap for HashMap<ActorId, EventCounter> {
    open spec fn counters(&self) -> Map<ActorId, EventCounter> {
        self@
    }

    fn new() -> (r: Self) {
        HashMap::new()
    }

    fn get_counter(&self, actor: ActorId) -> (r: EventCounter) {
        match self.get(&actor) {
            Some(c) => *c,
            None => 0,
        }
    }

    fn increment(&mut self, actor: ActorId, amount: u64) -> (r: EventCounter) {
        let current = self.get_counter(actor);
        let next = current + amount;
        self.insert(actor, next);
        next
    }

    fn set(&mut self, event_id: FloEventId) {
        self.insert(event_id.actor, event_id.event_counter);
    }
}

} // verus!
