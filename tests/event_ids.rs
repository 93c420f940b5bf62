use flo::{FloEvent, FloEventId, FloEventIdMap, OwnedFloEvent};
use std::collections::HashMap;

#[test]
fn flo_event_id_map_has_current_value_set() {
    let mut map = HashMap::new();

    map.set(FloEventId::new(2, 33));

    assert_eq!(33, map.get_counter(2));
}

#[test]
fn event_is_greater_returns_true_if_event_id_is_greater_than_current() {
    let mut map = HashMap::new();

    map.set(FloEventId::new(2, 33));

    assert!(map.event_is_greater(FloEventId::new(2, 34)));
}

#[test]
fn event_is_greater_returns_false_when_event_id_equals_current() {
    let mut map = HashMap::new();

    map.set(FloEventId::new(2, 33));

    assert!(!map.event_is_greater(FloEventId::new(2, 33)));
}

#[test]
fn event_is_greater_returns_false_when_event_id_is_less_than_current() {
    let mut map = HashMap::new();

    map.set(FloEventId::new(2, 33));

    assert!(!map.event_is_greater(FloEventId::new(2, 32)));
}

#[test]
fn event_is_greater_returns_true_if_actor_is_not_represented_in_map() {
    let map: HashMap<u16, u64> = HashMap::new();

    assert!(map.event_is_greater(FloEventId::new(2, 1)));
}

#[test]
fn increment_raises_and_returns_the_new_counter() {
    let mut map: HashMap<u16, u64> = HashMap::new();
    assert_eq!(5, map.increment(1, 5));
    assert_eq!(7, map.increment(1, 2));
    assert_eq!(7, map.get_counter(1));
    assert_eq!(0, map.get_counter(9));
}

#[test]
fn set_overwrites_a_higher_counter() {
    let mut map: HashMap<u16, u64> = HashMap::new();
    map.set(FloEventId::new(1, 40));
    map.set(FloEventId::new(1, 3));
    assert_eq!(3, map.get_counter(1));
}

#[test]
fn ids_order_by_counter_then_actor() {
    assert!(FloEventId::new(9, 1).is_less_than(&FloEventId::new(1, 2)));
    assert!(FloEventId::new(1, 2).is_less_than(&FloEventId::new(2, 2)));
    assert!(!FloEventId::new(2, 2).is_less_than(&FloEventId::new(2, 2)));
    assert!(!FloEventId::new(1, 3).is_less_than(&FloEventId::new(9, 2)));
    assert!(FloEventId::zero().is_less_than(&FloEventId::new(0, 1)));
    assert_eq!(FloEventId::new(0, 0), FloEventId::zero());
}

#[test]
fn owned_event_accessors() {
    let e = OwnedFloEvent::new(FloEventId::new(3, 4), "/ns".to_owned(), b"abc".to_vec());
    assert_eq!(&FloEventId::new(3, 4), e.id());
    assert_eq!("/ns", e.namespace());
    assert_eq!(3, e.data_len());
    assert_eq!(b"abc", e.data());
    let copy = FloEvent::to_owned(&e);
    assert_eq!(e, copy);
    assert_eq!(e, e.duplicate());
}
