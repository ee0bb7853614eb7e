//! The wire codec: big-endian integer conventions and lossless CRDT
//! conversions.

use std::collections::HashSet;

use mergedb::aw_set::AWSet;
use mergedb::codec::{i64_to_be_bytes, u64_from_be_bytes, u64_to_be_bytes};
use mergedb::lww_register::LwwRegister;
use mergedb::pn_counter::PNCounter;

#[test]
fn u64_big_endian_bytes_are_most_significant_first() {
    let bytes = u64_to_be_bytes(0x0102030405060708);
    assert_eq!(bytes, vec![1, 2, 3, 4, 5, 6, 7, 8]);
    assert_eq!(u64_from_be_bytes(&bytes), 0x0102030405060708);
    assert_eq!(u64_to_be_bytes(0), vec![0; 8]);
    assert_eq!(u64_from_be_bytes(&vec![0, 0, 0, 0, 0, 0, 0, 9]), 9);
}

#[test]
fn i64_bytes_carry_twos_complement() {
    assert_eq!(i64_to_be_bytes(-1), vec![0xff; 8]);
    assert_eq!(i64_to_be_bytes(6), (6i64).to_be_bytes().to_vec());
    let raw = i64_to_be_bytes(-42);
    let back = i64::from_be_bytes(raw.try_into().unwrap());
    assert_eq!(back, -42);
}

#[test]
fn counter_round_trips_through_the_wire() {
    let mut counter = PNCounter::new("node_1".to_string(), 5, 2);
    counter.increment("node_2".to_string(), 7);

    let decoded = PNCounter::from_wire(&counter.to_wire());
    assert_eq!(decoded.value(), counter.value());
    assert_eq!(decoded.value(), 10);
    assert_eq!(
        decoded.tally_of_increments(&"node_2".to_string()),
        counter.tally_of_increments(&"node_2".to_string())
    );
}

#[test]
fn set_round_trips_through_the_wire() {
    let mut set = AWSet::new();
    set.add("apple".to_string(), "node_1".to_string());
    set.add("banana".to_string(), "node_2".to_string());
    set.remove("apple".to_string());

    let decoded = AWSet::from_wire(&set.to_wire());
    let before: HashSet<String> = set.read().into_iter().collect();
    let after: HashSet<String> = decoded.read().into_iter().collect();
    assert_eq!(before, after);
    assert_eq!(decoded.clock, set.clock);
    assert!(!after.contains("apple"));
    assert!(after.contains("banana"));
}

#[test]
fn register_round_trips_through_the_wire() {
    let mut reg = LwwRegister::new("node_1".to_string());
    reg.set("Hello".to_string(), "node_1".to_string());

    let decoded = LwwRegister::from_wire(&reg.to_wire());
    assert_eq!(decoded.get(), "Hello");
    assert_eq!(decoded.clock, reg.clock);
    assert_eq!(decoded.register_state.counter, reg.register_state.counter);
    assert_eq!(decoded.register_state.node_id, reg.register_state.node_id);
}

#[test]
fn round_trip_preserves_merge_behaviour() {
    // a decoded encoding merges exactly as the value it came from does
    let mut a = AWSet::new();
    a.add("apple".to_string(), "node_1".to_string());
    let mut b = a.clone();
    a.remove("apple".to_string());
    b.add("apple".to_string(), "node_2".to_string());

    let mut direct = a.clone();
    direct.merge(&b);

    let mut through_wire = AWSet::from_wire(&a.to_wire());
    through_wire.merge(&AWSet::from_wire(&b.to_wire()));

    let d: HashSet<String> = direct.read().into_iter().collect();
    let w: HashSet<String> = through_wire.read().into_iter().collect();
    assert_eq!(d, w);
    assert!(w.contains("apple"));
}
