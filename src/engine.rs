use crate::consumer::ConsumerMessage;
use crate::producer::ProducerMessage;
use crate::stream::{ClientMessage, ConnectionId};
use vstd::prelude::*;

verus! {

/// Where a decoded client message goes.
pub enum Route {
    Producer(ProducerMessage),
    Consumer(ConsumerMessage),
}

/// Sends produced events and credentials to the producer manager, and
/// requests to consume to the consumer manager.
pub fn route(message: ClientMessage) -> (r: Route)
    ensures
        match message {
            ClientMessage::Produce(p) => r matches Route::Producer(ProducerMessage::Produce(q)) && q
                == p,
            ClientMessage::ClientAuth(c, a) => r matches Route::Producer(
                ProducerMessage::ClientAuth(d, b),
            ) && d == c && b == a,
            ClientMessage::StartConsuming(c, n) => r matches Route::Consumer(
                ConsumerMessage::StartConsuming(d, m),
            ) && d == c && m == n,
        },
{
    match message {
        ClientMessage::Produce(p) => Route::Producer(ProducerMessage::Produce(p)),
        ClientMessage::ClientAuth(c, a) => Route::Producer(ProducerMessage::ClientAuth(c, a)),
        ClientMessage::StartConsuming(c, n) => Route::Consumer(ConsumerMessage::StartConsuming(c, n)),
    }
}

/// A new connection is announced to both managers.
pub fn client_connect(c: ConnectionId) -> (r: (ProducerMessage, ConsumerMessage))
    ensures
        r.0 matches ProducerMessage::ClientConnect(d) && d == c,
        r.1 matches ConsumerMessage::ClientConnect(d) && d == c,
{
    (ProducerMessage::ClientConnect(c), ConsumerMessage::ClientConnect(c))
}

/// A closed connection is forgotten by both managers.
pub fn client_disconnect(c: ConnectionId) -> (r: (ProducerMessage, ConsumerMessage))
    ensures
        r.0 matches ProducerMessage::ClientDisconnect(d) && d == c,
        r.1 matches ConsumerMessage::Disconnect(d) && d == c,
{
    (ProducerMessage::ClientDisconnect(c), ConsumerMessage::Disconnect(c))
}

} // verus!
