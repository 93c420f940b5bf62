use flo::cache::Cache;
use flo::index::{EventIndex, IndexEntry};
use flo::record::{read_event, read_header, read_range, scan_log, write_record, EventHeader};
use flo::storage::{recover, FSEventReader, FileReader};
use flo::{FloEventId, FloEventIdMap, OwnedFloEvent};

fn event(counter: u64, ns: &str, data: &str) -> OwnedFloEvent {
    OwnedFloEvent::new(FloEventId::new(1, counter), ns.to_owned(), data.as_bytes().to_vec())
}

fn log_of(events: &[OwnedFloEvent]) -> (Vec<u8>, Vec<u64>) {
    let mut log = Vec::new();
    let mut offsets = Vec::new();
    for e in events {
        offsets.push(log.len() as u64);
        write_record(e, &mut log);
    }
    (log, offsets)
}

#[test]
fn record_layout() {
    let mut log = Vec::new();
    write_record(&event(3, "/ns", "data!"), &mut log);
    assert_eq!(30 + 3 + 5, log.len());
    assert_eq!(b"FLO_EVT\n", &log[..8]);
    assert_eq!(&[0, 0, 0, 38], &log[8..12]);
    assert_eq!(&[0, 0, 0, 0, 0, 0, 0, 3], &log[12..20]);
    assert_eq!(&[0, 1], &log[20..22]);
    assert_eq!(&[0, 0, 0, 3], &log[22..26]);
    assert_eq!(b"/ns", &log[26..29]);
    assert_eq!(&[0, 0, 0, 5], &log[29..33]);
    assert_eq!(b"data!", &log[33..]);
}

#[test]
fn header_fields() {
    let mut log = Vec::new();
    write_record(&event(3, "/ns", "data!"), &mut log);
    let h = read_header(&log, 0).unwrap();
    assert_eq!(EventHeader { total_size: 38, event_counter: 3, actor_id: 1, namespace_length: 3 }, h);
    assert_eq!(26, EventHeader::size_on_disk());
    assert_eq!(5, h.compute_data_length());
    assert_eq!(FloEventId::new(1, 3), h.event_id());
    assert!(read_header(&log, 1).is_none());
}

#[test]
fn written_record_reads_back() {
    let e = event(9, "/first", "first event data");
    let mut log = Vec::new();
    write_record(&e, &mut log);
    let (back, n) = read_event(&log, 0).unwrap();
    assert_eq!(e, back);
    assert_eq!(log.len(), n);
}

#[test]
fn events_from_disk_iterates_over_events_in_file() {
    let events: Vec<OwnedFloEvent> = (1..11).map(|i| event(i, "/ns", "eventData")).collect();
    let (log, _) = log_of(&events);
    let reader = FileReader::new(log);
    let results = reader.read_from_offset(0, 100);
    assert_eq!(10, results.len());
    for i in 0..10 {
        assert_eq!(i as u64 + 1, results[i].id.event_counter);
    }
}

#[test]
fn file_reader_returns_events_starting_at_a_specified_offset() {
    let events: Vec<OwnedFloEvent> = (1..11).map(|i| event(i, "/ns", "eventData")).collect();
    let (log, offsets) = log_of(&events);
    let reader = FileReader::new(log);
    let results = reader.read_from_offset(offsets[5], 100);
    assert_eq!(5, results.len());
    assert_eq!(6, results[0].id.event_counter);
}

#[test]
fn reading_stops_after_the_limit() {
    let events: Vec<OwnedFloEvent> = (1..6).map(|i| event(i, "/ns", "x")).collect();
    let (log, _) = log_of(&events);
    assert_eq!(2, read_range(&log, 0, 2).len());
    assert_eq!(0, read_range(&log, 0, 0).len());
}

#[test]
fn scan_stops_at_a_torn_record() {
    let events: Vec<OwnedFloEvent> = (1..4).map(|i| event(i, "/ns", "abc")).collect();
    let (mut log, offsets) = log_of(&events);
    let whole = log.len();
    let mut torn = Vec::new();
    write_record(&event(4, "/ns", "abc"), &mut torn);
    log.extend_from_slice(&torn[..torn.len() - 1]);
    let scan = scan_log(&log);
    assert_eq!(3, scan.entries.len());
    assert_eq!(whole, scan.valid_len);
    for i in 0..3 {
        assert_eq!(IndexEntry::new(FloEventId::new(1, i as u64 + 1), offsets[i]), scan.entries[i]);
    }
}

#[test]
fn scan_stops_at_bad_magic_and_bad_size() {
    let (mut log, _) = log_of(&[event(1, "/a", "b")]);
    let first = log.len();
    let mut second = Vec::new();
    write_record(&event(2, "/a", "b"), &mut second);
    second[11] += 1;
    log.extend_from_slice(&second);
    assert_eq!(first, scan_log(&log).valid_len);
    let mut garbage = b"FLO_XXX\n".to_vec();
    garbage.extend_from_slice(&[0; 30]);
    assert_eq!(0, scan_log(&garbage).valid_len);
    assert_eq!(0, scan_log(&[]).entries.len());
}

#[test]
fn index_keeps_ids_in_order_and_drops_the_smallest_at_capacity() {
    let mut index = EventIndex::new(3);
    assert!(index.add(FloEventId::new(1, 2), 20).is_none());
    assert!(index.add(FloEventId::new(1, 1), 10).is_none());
    assert!(index.add(FloEventId::new(1, 3), 30).is_none());
    let dropped = index.add(FloEventId::new(1, 4), 40);
    assert_eq!(Some(IndexEntry::new(FloEventId::new(1, 1), 10)), dropped);
    assert_eq!(3, index.len());
    assert_eq!(FloEventId::new(1, 4), index.greatest_event_id());
    assert_eq!(Some(IndexEntry::new(FloEventId::new(1, 2), 20)), index.get_next_entry(FloEventId::zero()));
    assert_eq!(Some(IndexEntry::new(FloEventId::new(1, 4), 40)), index.get_next_entry(FloEventId::new(1, 3)));
    assert_eq!(None, index.get_next_entry(FloEventId::new(1, 4)));
    assert_eq!(Some(IndexEntry::new(FloEventId::new(1, 3), 30)), index.get(FloEventId::new(1, 3)));
    assert_eq!(None, index.get(FloEventId::new(1, 1)));
}

#[test]
fn index_replaces_an_entry_with_the_same_id() {
    let mut index = EventIndex::new(10);
    index.add(FloEventId::new(1, 1), 10);
    assert!(index.add(FloEventId::new(1, 1), 99).is_none());
    assert_eq!(1, index.len());
    assert_eq!(Some(IndexEntry::new(FloEventId::new(1, 1), 99)), index.get(FloEventId::new(1, 1)));
}

#[test]
fn empty_index_has_the_zero_id() {
    let index = EventIndex::new(10);
    assert_eq!(FloEventId::zero(), index.greatest_event_id());
    assert_eq!(None, index.get_next_entry(FloEventId::zero()));
}

#[test]
fn once_the_maximum_number_of_events_is_exceeded_earlier_events_are_dropped() {
    let max_events = 50;
    let mut index = EventIndex::new(max_events);
    for i in 1..(max_events + 2) {
        index.add(FloEventId::new(1, i as u64), i as u64 * 100);
    }
    let next = index.get_next_entry(FloEventId::zero()).unwrap();
    assert_eq!(2, next.event_id.event_counter);
}

#[test]
fn recovery_rebuilds_index_and_version_vector() {
    let events: Vec<OwnedFloEvent> = (1..6).map(|i| event(i, "/ns", "payload")).collect();
    let (log, offsets) = log_of(&events);
    let r = recover(&log, 1000);
    assert_eq!(5, r.entries.len());
    assert_eq!(log.len(), r.valid_len);
    assert_eq!(5, r.version_vector.get_counter(1));
    assert_eq!(FloEventId::new(1, 5), r.reader.get_highest_event_id());
    let loaded = r.reader.load_range(&log, FloEventId::new(1, 2), 2);
    assert_eq!(2, loaded.len());
    assert_eq!(events[2], loaded[0]);
    assert_eq!(events[3], loaded[1]);
    assert_eq!(offsets[2], r.entries[2].offset);
}

#[test]
fn load_range_past_the_end_is_empty() {
    let events: Vec<OwnedFloEvent> = (1..3).map(|i| event(i, "/ns", "p")).collect();
    let (log, _) = log_of(&events);
    let r = recover(&log, 10);
    assert!(r.reader.load_range(&log, FloEventId::new(1, 2), 5).is_empty());
    let mut reader = FSEventReader::initialize(EventIndex::new(10));
    assert!(reader.load_range(&log, FloEventId::zero(), 5).is_empty());
    reader.add_entry(FloEventId::new(1, 1), 0);
    assert_eq!(2, reader.load_range(&log, FloEventId::zero(), 5).len());
}

#[test]
fn greatest_id_after_recovery_ignores_trailing_garbage() {
    let events: Vec<OwnedFloEvent> = (1..4).map(|i| event(i, "/ns", "abc")).collect();
    let (mut log, _) = log_of(&events);
    log.extend_from_slice(b"FLO_EVT\n\x00\x00");
    let r = recover(&log, 10);
    assert_eq!(FloEventId::new(1, 3), r.reader.get_highest_event_id());
    let empty = recover(b"garbage bytes that are no record", 10);
    assert_eq!(FloEventId::zero(), empty.reader.get_highest_event_id());
}

#[test]
fn new_event_store_is_created_with_existing_events_on_disk() {
    let e1 = event(1, "/ns", r#"{"firstEventKey":"firstEventValue"}"#);
    let e2 = event(2, "/ns", r#"{"secondEventKey": "secondEventValue"}"#);
    let (log, _) = log_of(&[e1.clone(), e2.clone()]);
    let r = recover(&log, 10);
    let first = r.reader.load_range(&log, FloEventId::zero(), 1);
    assert_eq!(vec![e1], first);
    let second = r.reader.load_range(&log, FloEventId::new(1, 1), 1);
    assert_eq!(vec![e2], second);
}

#[test]
fn recovery_keeps_the_newest_entries_at_capacity() {
    let events: Vec<OwnedFloEvent> = (1..6).map(|i| event(i, "/ns", "p")).collect();
    let (log, offsets) = log_of(&events);
    let r = recover(&log, 2);
    assert_eq!(FloEventId::new(1, 5), r.reader.get_highest_event_id());
    let loaded = r.reader.load_range(&log, FloEventId::zero(), 10);
    assert_eq!(4, loaded[0].id.event_counter);
    assert_eq!(offsets.len(), r.entries.len());
}

#[test]
fn storing_an_event_adds_its_starting_offset_to_the_index() {
    let mut reader = FSEventReader::initialize(EventIndex::new(10));
    let mut log = Vec::new();
    let mut offset = 0u64;
    for (counter, data) in [(1, "firstEventData"), (2, "secondEventValue")] {
        let e = event(counter, "/ns", data);
        write_record(&e, &mut log);
        let len = log.len() as u64 - offset;
        offset = reader.record_written(e.id, offset, len).unwrap().0;
    }
    let first_record_len = 30 + 3 + "firstEventData".len() as u64;
    let index_entry = reader.next_entry(FloEventId::new(1, 1)).unwrap();
    assert_eq!(FloEventId::new(1, 2), index_entry.event_id);
    assert_eq!(first_record_len, index_entry.offset);
    assert_eq!(log.len() as u64, offset);
}

#[test]
fn storing_an_event_adds_its_event_id_to_the_index() {
    let mut reader = FSEventReader::initialize(EventIndex::new(10));
    let e = event(3, "/ns", r#"{"myKey": "myValue"}"#);
    let mut log = Vec::new();
    write_record(&e, &mut log);
    reader.record_written(e.id, 0, log.len() as u64).unwrap();
    let index_entry = reader.next_entry(FloEventId::zero());
    assert!(index_entry.is_some());
    assert_eq!(index_entry.unwrap().offset, 0);
    assert_eq!(FloEventId::new(1, 3), index_entry.unwrap().event_id);
    assert!(reader.record_written(e.id, u64::MAX, 1).is_none());
}

#[test]
fn get_next_event_returns_a_non_cached_event_stored_on_disk() {
    let events: Vec<OwnedFloEvent> = (1..11).map(|i| event(i, "/ns", &format!("event: {}", i))).collect();
    let (log, _) = log_of(&events);
    let r = recover(&log, 20);
    let result = r.reader.load_range(&log, FloEventId::new(1, 5), 1);
    assert!(!result.is_empty());
    assert_eq!(6, result[0].id.event_counter);
}

#[test]
fn get_next_event_returns_a_cached_event() {
    let e = event(3, "/ns", r#"{"myKey": "one"}"#);
    let mut cache = Cache::new(10, 1000);
    cache.insert(e.clone());
    let mut index = EventIndex::new(10);
    index.add(e.id, 9876);
    let next = index.get_next_entry(FloEventId::new(1, 2)).unwrap();
    assert_eq!(9876, next.offset);
    let result = cache.do_with_range(FloEventId::new(1, 2), 1);
    assert_eq!(e, *result[0]);
}

#[test]
fn events_are_put_into_the_cache_when_they_are_stored() {
    let e = event(1, "/ns", r#"{"myKey": "one"}"#);
    let mut cache = Cache::new(10, 1000);
    cache.insert(e.clone());
    assert_eq!(1, cache.len());
    assert_eq!(e, *cache.do_with_range(FloEventId::zero(), 1)[0]);
}
