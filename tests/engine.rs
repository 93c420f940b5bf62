use flo::cache::Cache;
use flo::codec::{serialize_server_message, ClientAuth, ServerMessage, PERSISTENCE_FAILURE};
use flo::engine::{client_connect, client_disconnect, route, Route};
use flo::consumer::{after_read, Client, ConsumerManager, ConsumerMessage, ConsumerState, DiskRead};
use flo::protocol::MessageWriter;
use flo::producer::{greatest_counter, ProducerManager, ProducerMessage, ProducerStep};
use flo::record::write_record;
use flo::storage::recover;
use flo::stream::{ClientMessage, ClientMessageStream, ProduceEvent};
use flo::{FloEventId, OwnedFloEvent};

fn produce(conn: u64, op_id: u32, ns: &str, data: &str) -> ProduceEvent {
    ProduceEvent { connection_id: conn, op_id, namespace: ns.to_owned(), event_data: data.as_bytes().to_vec() }
}

/// Runs a produce through the producer manager, writing the record to `log`.
fn persist(p: &mut ProducerManager, log: &mut Vec<u8>, e: ProduceEvent) -> (u32, FloEventId, OwnedFloEvent) {
    let pending = p.produce_event(e).ok().unwrap();
    write_record(&pending.event, log);
    let outcome = p.complete_produce(pending, true);
    match outcome.reply {
        ServerMessage::EventAck(a) => (a.op_id, a.event_id, outcome.forward.unwrap()),
        _ => panic!("expected an ack"),
    }
}

#[test]
fn produce_is_acknowledged_with_the_first_counter() {
    let mut p = ProducerManager::new(1, 0);
    p.client_connect(7);
    let mut log = Vec::new();
    let (op_id, id, event) = persist(&mut p, &mut log, produce(7, 1, "/foo/bar", "ninechars"));
    assert_eq!(1, op_id);
    assert_eq!(FloEventId::new(1, 1), id);
    assert_eq!(b"ninechars".to_vec(), event.data);
    assert_eq!("/foo/bar", event.namespace);
    assert_eq!(1, p.highest_counter());
}

#[test]
fn acks_on_a_connection_have_increasing_counters() {
    let mut p = ProducerManager::new(1, 0);
    let mut log = Vec::new();
    let mut last = 0;
    for op in 0..5 {
        let (_, id, _) = persist(&mut p, &mut log, produce(3, op, "/a", "x"));
        assert!(id.event_counter > last);
        last = id.event_counter;
    }
}

#[test]
fn failed_persistence_sends_an_error_and_keeps_the_counter() {
    let mut p = ProducerManager::new(1, 4);
    let pending = p.produce_event(produce(2, 9, "/a", "x")).ok().unwrap();
    assert_eq!(FloEventId::new(1, 5), pending.event.id);
    let outcome = p.complete_produce(pending, false);
    assert_eq!(2, outcome.connection_id);
    assert!(outcome.forward.is_none());
    match outcome.reply {
        ServerMessage::Error(e) => {
            assert_eq!(9, e.op_id);
            assert_eq!(PERSISTENCE_FAILURE, e.kind);
        }
        _ => panic!("expected an error"),
    }
    assert_eq!(4, p.highest_counter());
    let again = p.produce_event(produce(2, 10, "/a", "x")).ok().unwrap();
    assert_eq!(5, again.event.id.event_counter);
}

#[test]
fn exhausted_counter_is_an_error() {
    let p = ProducerManager::new(1, u64::MAX);
    match p.produce_event(produce(2, 1, "/a", "x")) {
        Err(o) => assert!(matches!(o.reply, ServerMessage::Error(_))),
        Ok(_) => panic!("expected an error"),
    }
}

#[test]
fn producer_only_addresses_registered_connections() {
    let mut p = ProducerManager::new(1, 0);
    p.client_connect(1);
    let ack = ServerMessage::Error(flo::codec::ErrorMessage { op_id: 1, kind: 1, description: "x".to_owned() });
    assert!(p.send(1, ack).is_ok());
    p.client_disconnect(1);
    let ack = ServerMessage::Error(flo::codec::ErrorMessage { op_id: 1, kind: 1, description: "x".to_owned() });
    assert!(p.send(1, ack).is_err());
}

#[test]
fn after_restart_the_next_counter_follows_the_greatest_persisted() {
    let n = 7;
    let mut p = ProducerManager::new(1, 0);
    let mut log = Vec::new();
    for op in 0..n {
        persist(&mut p, &mut log, produce(1, op, "/ns", "data"));
    }
    let recovered = recover(&log, 1000);
    assert_eq!(n as u64, greatest_counter(&recovered.entries, 1));
    let restarted = ProducerManager::recover(1, &recovered.entries);
    let pending = restarted.produce_event(produce(1, 0, "/ns", "next")).ok().unwrap();
    assert_eq!(FloEventId::new(1, n as u64 + 1), pending.event.id);
}

#[test]
fn recovery_ignores_other_actors() {
    let mut log = Vec::new();
    write_record(&OwnedFloEvent::new(FloEventId::new(2, 50), "/a".to_owned(), vec![]), &mut log);
    write_record(&OwnedFloEvent::new(FloEventId::new(1, 3), "/a".to_owned(), vec![]), &mut log);
    let recovered = recover(&log, 10);
    assert_eq!(3, ProducerManager::recover(1, &recovered.entries).highest_counter());
}

fn event(counter: u64, data: &str) -> OwnedFloEvent {
    OwnedFloEvent::new(FloEventId::new(1, counter), "/first".to_owned(), data.as_bytes().to_vec())
}

#[test]
fn cache_evicts_oldest_first_and_last_evicted_only_grows() {
    let mut cache = Cache::new(100, 10);
    let mut last = FloEventId::zero();
    for i in 1..8 {
        cache.insert(event(i, "abcd"));
        assert!(!cache.last_evicted_id().is_less_than(&last));
        last = cache.last_evicted_id();
    }
    assert_eq!(2, cache.len());
    assert_eq!(FloEventId::new(1, 5), cache.last_evicted_id());
    let resident = cache.do_with_range(FloEventId::zero(), 10);
    assert_eq!(vec![6, 7], resident.iter().map(|e| e.id.event_counter).collect::<Vec<u64>>());
}

#[test]
fn cache_entry_bound_and_oversized_event() {
    let mut cache = Cache::new(2, 1000);
    for i in 1..4 {
        cache.insert(event(i, "x"));
    }
    assert_eq!(2, cache.len());
    assert_eq!(FloEventId::new(1, 1), cache.last_evicted_id());
    let mut small = Cache::new(10, 3);
    let shared = small.insert(event(1, "toolong"));
    assert_eq!(b"toolong".to_vec(), shared.data);
    assert_eq!(0, small.len());
    assert_eq!(FloEventId::new(1, 1), small.last_evicted_id());
    assert!(!small.accepts(FloEventId::new(1, 1)));
    assert!(small.accepts(FloEventId::new(1, 2)));
}

#[test]
fn cache_range_respects_start_and_limit() {
    let mut cache = Cache::new(10, 1000);
    for i in 1..6 {
        cache.insert(event(i, "x"));
    }
    let r = cache.do_with_range(FloEventId::new(1, 2), 2);
    assert_eq!(vec![3, 4], r.iter().map(|e| e.id.event_counter).collect::<Vec<u64>>());
    assert!(cache.do_with_range(FloEventId::new(1, 5), 2).is_empty());
}

#[test]
fn new_subscriber_reads_persisted_events_from_disk() {
    let mut p = ProducerManager::new(1, 0);
    let mut c = ConsumerManager::new(Cache::new(100, 1 << 20), FloEventId::zero());
    let mut log = Vec::new();
    c.client_connect(1);
    let (_, _, e1) = persist(&mut p, &mut log, produce(1, 1, "/first", "first event data"));
    c.event_persisted(e1);
    let (_, _, e2) = persist(&mut p, &mut log, produce(1, 2, "/first", "second event data"));
    c.event_persisted(e2);

    c.client_connect(2);
    let out = c.start_consuming(2, 2).unwrap();
    assert!(out.deliveries.is_empty());
    let read = out.disk_read.unwrap();
    assert_eq!(DiskRead { connection_id: 2, start: FloEventId::zero(), limit: 2 }, read);
    let recovered = recover(&log, 1000);
    let loaded = recovered.reader.load_range(&log, read.start, read.limit as usize);
    let mut got = Vec::new();
    for e in loaded {
        got.push(c.event_loaded(2, e).unwrap());
    }
    assert_eq!(b"first event data".to_vec(), got[0].data);
    assert_eq!("/first", got[0].namespace);
    assert_eq!(b"second event data".to_vec(), got[1].data);
    assert_eq!(Some(FloEventId::new(1, 2)), c.get_consumer_position(2));
}

#[test]
fn live_subscriber_receives_events_as_they_are_persisted() {
    let mut p = ProducerManager::new(1, 0);
    let mut c = ConsumerManager::new(Cache::new(100, 1 << 20), FloEventId::zero());
    let mut log = Vec::new();
    c.client_connect(5);
    let out = c.start_consuming(5, 2).unwrap();
    assert!(out.disk_read.is_some());
    let more = c.continue_consuming(5, 2, false).unwrap();
    assert!(more.deliveries.is_empty());
    let (_, _, e1) = persist(&mut p, &mut log, produce(9, 1, "/animal/pig", "first event data"));
    let d1 = c.event_persisted(e1);
    let (_, _, e2) = persist(&mut p, &mut log, produce(9, 2, "/animal/donkey", "second event data"));
    let d2 = c.event_persisted(e2);
    assert_eq!(1, d1.len());
    assert_eq!(5, d1[0].connection_id);
    assert_eq!(b"first event data".to_vec(), d1[0].event.data);
    assert_eq!(b"second event data".to_vec(), d2[0].event.data);
    assert_eq!(FloEventId::new(1, 2), c.greatest_event_id());
}

#[test]
fn subscriber_behind_the_cache_falls_back_to_disk_and_gets_the_oldest_first() {
    let mut p = ProducerManager::new(1, 0);
    let mut c = ConsumerManager::new(Cache::new(100, 20), FloEventId::zero());
    let mut log = Vec::new();
    for i in 0..3 {
        let (_, _, e) = persist(&mut p, &mut log, produce(1, i, "/a", "0123456789"));
        c.event_persisted(e);
    }
    assert_eq!(FloEventId::new(1, 1), c.last_evicted_id());
    c.client_connect(8);
    let read = c.start_consuming(8, 3).unwrap().disk_read.unwrap();
    let recovered = recover(&log, 1000);
    let loaded = recovered.reader.load_range(&log, read.start, read.limit as usize);
    assert_eq!(1, loaded[0].id.event_counter);
    let first = c.event_loaded(8, loaded[0].clone()).unwrap();
    assert_eq!(1, first.id.event_counter);
    assert!(c.event_loaded(8, loaded[0].clone()).is_none());
}

#[test]
fn subscriber_past_the_last_evicted_is_served_from_memory() {
    let mut c = ConsumerManager::new(Cache::new(100, 1000), FloEventId::zero());
    c.client_connect(1);
    c.event_persisted(event(1, "a"));
    c.event_persisted(event(2, "b"));
    c.event_persisted(event(3, "c"));
    assert_eq!(Some(FloEventId::new(1, 3)), c.get_consumer_position(1));
    c.client_connect(2);
    c.event_loaded(2, event(1, "a")).unwrap();
    let out = c.start_consuming(2, 10).unwrap();
    assert!(out.disk_read.is_none());
    let ids: Vec<u64> = out.deliveries.iter().map(|e| e.id.event_counter).collect();
    assert_eq!(vec![2, 3], ids);
    assert_eq!(Some(FloEventId::new(1, 3)), c.get_consumer_position(2));
}

#[test]
fn deliveries_to_a_subscriber_strictly_increase() {
    let mut c = ConsumerManager::new(Cache::new(100, 1000), FloEventId::zero());
    c.client_connect(1);
    let mut seen: Vec<FloEventId> = Vec::new();
    for i in 1..5 {
        for d in c.event_persisted(event(i, "x")) {
            seen.push(d.event.id);
        }
        assert!(c.event_persisted(event(i, "again")).is_empty());
    }
    for w in seen.windows(2) {
        assert!(w[0].is_less_than(&w[1]));
    }
    assert_eq!(4, seen.len());
}

#[test]
fn disconnected_and_failed_readers() {
    let mut c = ConsumerManager::new(Cache::new(100, 1000), FloEventId::zero());
    assert!(c.start_consuming(3, 1).is_none());
    c.client_connect(3);
    c.start_consuming(3, 1).unwrap();
    c.reading_failed(3);
    assert_eq!(Some(FloEventId::zero()), c.get_consumer_position(3));
    c.remove(3);
    assert_eq!(None, c.get_consumer_position(3));
    assert!(c.event_loaded(3, event(1, "x")).is_none());
}

#[test]
fn consumer_state_positions() {
    let id = FloEventId::new(1, 9);
    assert_eq!(id, ConsumerState::NotConsuming(id).position());
    assert_eq!(id, ConsumerState::ConsumingFromCache(id, 3).position());
    assert_eq!(id, ConsumerState::ConsumingFromDisk(id, 3).position());
    let client = Client { connection_id: 1, state: ConsumerState::NotConsuming(id) };
    assert_eq!(1, client.connection_id);
}

#[test]
fn producer_process_registers_and_prepares_events() {
    let mut p = ProducerManager::new(1, 10);
    assert!(matches!(p.process(ProducerMessage::ClientConnect(4)), ProducerStep::Done));
    match p.process(ProducerMessage::Produce(produce(4, 3, "/a", "abc"))) {
        ProducerStep::Persist(pending) => {
            assert_eq!(FloEventId::new(1, 11), pending.event.id);
            assert_eq!(3, pending.op_id);
            assert_eq!(4, pending.connection_id);
        }
        _ => panic!("expected an event to persist"),
    }
    assert_eq!(10, p.highest_counter());
    assert!(matches!(p.process(ProducerMessage::ClientDisconnect(4)), ProducerStep::Done));
    let mut full = ProducerManager::new(1, u64::MAX);
    assert!(matches!(full.process(ProducerMessage::Produce(produce(4, 3, "/a", "abc"))), ProducerStep::Reply(_)));
}

#[test]
fn consumer_process_handles_each_message() {
    use_consumer_process();
}

fn use_consumer_process() {
    let mut c = ConsumerManager::new(Cache::new(100, 1000), FloEventId::zero());
    let step = c.process(ConsumerMessage::ClientConnect(1));
    assert!(step.deliveries.is_empty() && step.disk_read.is_none());
    let step = c.process(ConsumerMessage::StartConsuming(1, 5));
    assert_eq!(Some(DiskRead { connection_id: 1, start: FloEventId::zero(), limit: 5 }), step.disk_read);
    let step = c.process(ConsumerMessage::EventLoaded(1, event(1, "a")));
    assert_eq!(1, step.deliveries.len());
    assert_eq!(1, step.deliveries[0].connection_id);
    let step = c.process(ConsumerMessage::ContinueConsuming(1, 4, true));
    assert!(step.deliveries.is_empty());
    assert!(step.disk_read.is_none());
    let step = c.process(ConsumerMessage::EventPersisted(event(2, "b")));
    assert_eq!(vec![1], step.deliveries.iter().map(|d| d.connection_id).collect::<Vec<u64>>());
    let step = c.process(ConsumerMessage::ErrorReadingEvents(1));
    assert!(step.deliveries.is_empty());
    c.process(ConsumerMessage::Disconnect(1));
    assert_eq!(None, c.get_consumer_position(1));
}

#[test]
fn produce_then_read_back_the_ack_bytes() {
    let mut frame = b"FLO_PRO\n".to_vec();
    frame.extend_from_slice(&1u32.to_be_bytes());
    frame.extend_from_slice(b"/foo/bar\n");
    frame.extend_from_slice(&9u32.to_be_bytes());
    frame.extend_from_slice(b"ninechars");

    let mut stream = ClientMessageStream::new(42);
    let mut messages = stream.receive(&frame);
    assert_eq!(1, messages.len());
    let mut p = ProducerManager::new(1, 0);
    let (to_producer, _) = client_connect(42);
    p.process(to_producer);
    let message = match route(messages.remove(0)) {
        Route::Producer(m) => m,
        Route::Consumer(_) => panic!("a produce goes to the producer"),
    };
    let pending = match p.process(message) {
        ProducerStep::Persist(pending) => pending,
        _ => panic!("expected an event to persist"),
    };
    let mut log = Vec::new();
    write_record(&pending.event, &mut log);
    let outcome = p.complete_produce(pending, true);
    let (to, reply) = p.send(outcome.connection_id, outcome.reply).ok().unwrap();
    assert_eq!(42, to);
    let mut bytes = Vec::new();
    serialize_server_message(&reply, &mut bytes);
    assert_eq!(22, bytes.len());
    assert_eq!(b"FLO_ACK\n", &bytes[..8]);
    assert_eq!(&1u32.to_be_bytes(), &bytes[8..12]);
    assert_eq!(&[0, 1, 0, 0, 0, 0, 0, 0, 0, 1], &bytes[12..22]);
}

#[test]
fn messages_are_routed_to_their_manager() {
    assert!(matches!(
        route(ClientMessage::StartConsuming(3, 2)),
        Route::Consumer(ConsumerMessage::StartConsuming(3, 2))
    ));
    let auth = ClientAuth { namespace: "n".to_owned(), username: "u".to_owned(), password: "p".to_owned() };
    assert!(matches!(route(ClientMessage::ClientAuth(3, auth)), Route::Producer(ProducerMessage::ClientAuth(3, _))));
    assert!(matches!(
        route(ClientMessage::Produce(produce(3, 1, "/a", "x"))),
        Route::Producer(ProducerMessage::Produce(_))
    ));
    let (p, c) = client_disconnect(8);
    assert!(matches!(p, ProducerMessage::ClientDisconnect(8)));
    assert!(matches!(c, ConsumerMessage::Disconnect(8)));
}

#[test]
fn continuing_without_events_read_serves_the_cache_after_the_position() {
    let mut c = ConsumerManager::new(Cache::new(100, 1000), FloEventId::zero());
    c.client_connect(1);
    let start = c.start_consuming(1, 3).unwrap();
    assert!(start.disk_read.is_some());
    c.client_connect(2);
    for i in 1..5 {
        c.event_persisted(event(i, "x"));
    }
    let out = c.continue_consuming(1, 3, false).unwrap();
    assert!(out.disk_read.is_none());
    let ids: Vec<u64> = out.deliveries.iter().map(|e| e.id.event_counter).collect();
    assert_eq!(vec![1, 2, 3], ids);
    assert_eq!(Some(FloEventId::new(1, 3)), c.get_consumer_position(1));
    let step = c.process(ConsumerMessage::StartConsuming(1, 5));
    let ids: Vec<u64> = step.deliveries.iter().map(|d| d.event.id.event_counter).collect();
    assert_eq!(vec![4], ids);
    assert!(step.disk_read.is_none());
}

#[test]
fn continuing_behind_the_last_evicted_event_reads_the_log_again() {
    let mut c = ConsumerManager::new(Cache::new(1, 1000), FloEventId::zero());
    c.client_connect(1);
    let first = c.start_consuming(1, 5).unwrap();
    assert!(first.disk_read.is_some());
    c.event_persisted(event(1, "a"));
    c.event_persisted(event(2, "b"));
    assert_eq!(FloEventId::new(1, 1), c.last_evicted_id());
    let out = c.continue_consuming(1, 5, false).unwrap();
    assert!(out.deliveries.is_empty());
    assert_eq!(Some(DiskRead { connection_id: 1, start: FloEventId::zero(), limit: 5 }), out.disk_read);
    let step = c.process(ConsumerMessage::ContinueConsuming(1, 5, false));
    assert!(step.deliveries.is_empty());
    assert!(step.disk_read.is_some());
}

#[test]
fn after_a_read_delivery_goes_on_with_the_rest() {
    let read = DiskRead { connection_id: 4, start: FloEventId::zero(), limit: 5 };
    assert!(matches!(after_read(read, 2), Some(ConsumerMessage::ContinueConsuming(4, 3, true))));
    assert!(matches!(after_read(read, 0), Some(ConsumerMessage::ContinueConsuming(4, 5, false))));
    assert!(after_read(read, 5).is_none());
}

#[test]
fn ack_written_through_the_message_writer_is_twenty_two_bytes() {
    let ack = ServerMessage::EventAck(flo::codec::EventAck { op_id: 1, event_id: FloEventId::new(1, 1) });
    let mut writer = MessageWriter::for_server(ack);
    let mut dest = Vec::new();
    writer.write(&mut dest);
    let mut expected = b"FLO_ACK\n".to_vec();
    expected.extend_from_slice(&[0, 0, 0, 1]);
    expected.extend_from_slice(&[0, 1]);
    expected.extend_from_slice(&[0, 0, 0, 0, 0, 0, 0, 1]);
    assert_eq!(expected, dest);
}
