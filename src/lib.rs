//! An append-only event log: event identities, the wire protocol codec, the
//! on-disk record format, the index, the hot cache, and the producer and
//! consumer managers that coordinate writers and subscribers.

pub mod bytes;
pub mod cache;
pub mod codec;
pub mod consumer;
pub mod engine;
pub mod event;
pub mod index;
pub mod producer;
pub mod protocol;
pub mod record;
pub mod storage;
pub mod stream;

pub use event::{ActorId, EventCounter, FloEvent, FloEventId, FloEventIdMap, OwnedFloEvent};
