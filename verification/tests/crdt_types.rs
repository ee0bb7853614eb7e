//! The three CRDT value types, exercised locally and across merges.

use std::collections::HashSet;

use mergedb::aw_set::AWSet;
use mergedb::lww_register::LwwRegister;
use mergedb::pn_counter::PNCounter;

fn as_set(v: Vec<String>) -> HashSet<String> {
    v.into_iter().collect()
}

#[test]
fn test_local_increments_and_decremenets() {
    let node_id = String::from("node_1");
    let mut counter = PNCounter::new(node_id.clone(), 0, 0);
    counter.increment(node_id.clone(), 1);
    counter.increment(node_id.clone(), 1);
    counter.decrement(node_id.clone(), 1);

    assert_eq!(counter.value(), 1);
}

#[test]
fn merge_maintains_total() {
    let node_id_a = String::from("node_1");
    let mut replica_a = PNCounter::new(node_id_a.clone(), 0, 0);
    replica_a.increment(node_id_a.clone(), 1); //becomes 1 now

    let node_id_b = String::from("node_2");
    let mut replica_b = PNCounter::new(node_id_b.clone(), 1, 0);
    replica_b.increment(node_id_b.clone(), 1); //becomes 2 now

    //merge b's state to a
    replica_a.merge(&replica_b);

    assert_eq!(replica_a.value(), 3); //as it should get b's value now

    let node_id_c = String::from("node_3");
    let mut replica_c = PNCounter::new(node_id_c.clone(), 0, 0);
    replica_c.increment(node_id_c.clone(), 1);
    replica_c.increment(node_id_c.clone(), 1);
    replica_c.decrement(node_id_c.clone(), 1);

    let node_id_d = String::from("node_4");
    let mut replica_d = PNCounter::new(node_id_d.clone(), 0, 0);
    replica_d.increment(node_id_d.clone(), 1);
    replica_d.increment(node_id_d.clone(), 1);
    replica_d.increment(node_id_d.clone(), 1);

    replica_c.merge(&replica_d);
    assert_eq!(replica_c.value(), 4);
}

#[test]
fn pn_counter_test_merge_is_commutative() {
    let node_id_a = String::from("node_1");
    let mut replica_a = PNCounter::new(node_id_a.clone(), 0, 0);
    replica_a.increment(node_id_a.clone(), 1);

    let node_id_b = String::from("node_2");
    let mut replica_b = PNCounter::new(node_id_b.clone(), 1, 0);
    replica_b.decrement(node_id_b.clone(), 1);

    let mut a_then_b = replica_a.clone();
    a_then_b.merge(&replica_b);

    let mut b_then_a = replica_b.clone();
    b_then_a.merge(&replica_a);

    //the final state must be identical regardless of merge order
    assert_eq!(a_then_b.value(), b_then_a.value());
}

#[test]
fn test_local_add_remove() {
    let node_id = String::from("node_1");
    let mut set = AWSet::new();

    set.add("apple".to_string(), node_id.clone());
    set.add("banana".to_string(), node_id);

    let view = as_set(set.read());
    assert!(view.contains("apple"));
    assert!(view.contains("banana"));
    assert_eq!(view.len(), 2);

    set.remove("apple".to_string());
    let view_after = as_set(set.read());
    assert!(!view_after.contains("apple"));
    assert!(view_after.contains("banana"));
    assert_eq!(view_after.len(), 1);
}

#[test]
fn aw_set_test_simple_merge() {
    let node_1 = String::from("node_1");
    let mut replica_1 = AWSet::new();
    replica_1.add("hiking".to_string(), node_1);

    let node_2 = String::from("node_2");
    let mut replica_2 = AWSet::new();
    replica_2.add("swimming".to_string(), node_2);

    //merge node_2 into node_1
    replica_1.merge(&replica_2);

    let view = as_set(replica_1.read());
    assert!(view.contains("hiking"));
    assert!(view.contains("swimming"));
    assert_eq!(view.len(), 2);
}

#[test]
fn test_add_wins_concurrent_conflict() {
    // 1. Both nodes start with "apple".
    // 2. Node 1 removes "apple".
    // 3. Node 2 concurrently adds "apple" (readds).
    // 4. Merge. "apple" still exists because Bs addition is newer (different dot).

    let node_1 = String::from("node_1");
    let mut replica_1 = AWSet::new();
    replica_1.add("apple".to_string(), node_1); // Creates Dot (A, 1)

    //simulate sync: B starts with the same state as A
    let node_2 = String::from("node_2");
    let mut replica_2 = replica_1.clone();

    //Node A removes apple (Tombstones Dot (A,1))
    replica_1.remove("apple".to_string());
    assert!(!as_set(replica_1.read()).contains("apple"));

    //Node B adds apple concurrently (Creates Dot (B, 2))
    //Clock is 2 as B inherited As clock of 1.
    replica_2.add("apple".to_string(), node_2);
    assert!(as_set(replica_2.read()).contains("apple"));

    //merge B into A
    replica_1.merge(&replica_2);

    // The set contains:
    // Add-Set: {(A,1), (B,2)}
    // Remove-Set: {(A,1)}
    // (B,2) is in Add but not Remove, so visible.
    assert!(
        as_set(replica_1.read()).contains("apple"),
        "Add should win over Remove in concurrency"
    );
}

#[test]
fn test_remove_sync() {
    let node_1 = String::from("node_1");
    let mut replica_1 = AWSet::new();
    replica_1.add("apple".to_string(), node_1);

    let mut replica_2 = AWSet::new();

    replica_2.merge(&replica_1);
    assert!(as_set(replica_2.read()).contains("apple"));

    replica_1.remove("apple".to_string());

    replica_2.merge(&replica_1);

    assert!(!as_set(replica_2.read()).contains("apple"));
}

#[test]
fn aw_set_test_merge_is_commutative() {
    let node_1 = String::from("node_1");
    let mut replica_1 = AWSet::new();
    replica_1.add("apple".to_string(), node_1.clone());
    replica_1.remove("apple".to_string());
    replica_1.add("banana".to_string(), node_1);

    let node_2 = String::from("node_2");
    let mut replica_2 = AWSet::new();
    replica_2.add("apple".to_string(), node_2.clone());
    replica_2.add("cherry".to_string(), node_2);

    let mut a_then_b = replica_1.clone();
    a_then_b.merge(&replica_2);

    let mut b_then_a = replica_2.clone();
    b_then_a.merge(&replica_1);

    //check lengths
    assert_eq!(a_then_b.read().len(), b_then_a.read().len());

    //check contents
    let view_a = as_set(a_then_b.read());
    assert!(view_a.contains("banana"));
    assert!(view_a.contains("cherry"));
    assert!(view_a.contains("apple"));

    let view_b = as_set(b_then_a.read());
    assert_eq!(view_a, view_b);
}

#[test]
fn test_local_set_get() {
    let node_id = String::from("node_1");
    let mut reg = LwwRegister::new(node_id.clone());

    assert_eq!(reg.get(), "");

    reg.set("Hello".to_string(), node_id.clone());
    assert_eq!(reg.get(), "Hello");

    reg.set("World".to_string(), node_id);
    assert_eq!(reg.get(), "World");
}

#[test]
fn test_local_append() {
    let node_id = String::from("node_1");
    let mut reg = LwwRegister::new(node_id.clone());

    reg.set("Hello".to_string(), node_id.clone());
    reg.append(", World".to_string(), node_id);

    assert_eq!(reg.get(), "Hello, World");
    assert_eq!(reg.strlen(), 12);
}

#[test]
fn lww_register_test_simple_merge() {
    let node_1 = String::from("node_1");
    let mut r1 = LwwRegister::new(node_1.clone());
    r1.set("Value A".to_string(), node_1);

    let node_2 = String::from("node_2");
    let mut r2 = LwwRegister::new(node_2.clone());

    //forcing r2 to have higher clock for test clarity
    r2.clock = 10;
    r2.set("Value B".to_string(), node_2);

    r1.merge(&r2);

    assert_eq!(r1.get(), "Value B");
}

#[test]
fn test_concurrent_conflict_resolution() {
    //two nodes update the register at the exact same logical time,
    //tie-breaker: node_2 > node_1, so node_2 value should win

    let node_1 = String::from("node_1");
    let mut r1 = LwwRegister::new(node_1.clone());

    let node_2 = String::from("node_2");
    let mut r2 = LwwRegister::new(node_2.clone());

    // Both set value at clock 1
    r1.set("Lost Value".to_string(), node_1);
    r2.set("Won Value".to_string(), node_2);

    assert_eq!(r1.register_state.counter, r2.register_state.counter);

    r1.merge(&r2);
    assert_eq!(r1.get(), "Won Value", "node_2 should win because 'node_2' > 'node_1'");

    //verify commutativity
    let mut r1_reset = LwwRegister::new(String::from("node_1"));
    r1_reset.set("Lost Value".to_string(), String::from("node_1"));

    r2.merge(&r1_reset);
    assert_eq!(r2.get(), "Won Value", "node_2 should stay because it beats node_1");
}

#[test]
fn lww_register_test_merge_is_commutative() {
    let node_1 = String::from("node_1");
    let mut r1 = LwwRegister::new(node_1.clone());
    r1.set("Apple".to_string(), node_1);

    let node_2 = String::from("node_2");
    let mut r2 = LwwRegister::new(node_2.clone());
    r2.set("Banana".to_string(), node_2);

    let mut a_then_b = r1.clone();
    a_then_b.merge(&r2.clone());

    let mut b_then_a = r2.clone();
    b_then_a.merge(&r1.clone());

    assert_eq!(a_then_b.get(), b_then_a.get(), "Merge order should not matter");

    assert_eq!(a_then_b.clock, b_then_a.clock);
}

#[test]
fn test_outdated_update_ignored() {
    let node_1 = String::from("node_1");
    let mut r1 = LwwRegister::new(node_1.clone());

    r1.clock = 4;
    r1.set("Future Value".to_string(), node_1.clone());

    let node_2 = String::from("node_2");
    let mut r2 = LwwRegister::new(node_2.clone());

    r2.set("Old Value".to_string(), node_2);

    r1.merge(&r2);

    assert_eq!(r1.get(), "Future Value");
}

#[test]
fn counter_merge_is_associative() {
    let mut a = PNCounter::new("node_1".to_string(), 2, 0);
    let mut b = PNCounter::new("node_2".to_string(), 3, 1);
    let c = PNCounter::new("node_3".to_string(), 0, 4);

    let mut ab_then_c = a.clone();
    ab_then_c.merge(&b);
    ab_then_c.merge(&c);

    let mut bc = b.clone();
    bc.merge(&c);
    let mut a_then_bc = a.clone();
    a_then_bc.merge(&bc);

    assert_eq!(ab_then_c.value(), a_then_bc.value());
    assert_eq!(ab_then_c.value(), 0);

    a.merge(&a.clone());
    b.merge(&b.clone());
    assert_eq!(a.value(), 2);
    assert_eq!(b.value(), 2);
}

#[test]
fn set_merge_is_associative_and_idempotent() {
    let mut a = AWSet::new();
    a.add("x".to_string(), "node_1".to_string());
    let mut b = AWSet::new();
    b.add("y".to_string(), "node_2".to_string());
    let mut c = AWSet::new();
    c.add("z".to_string(), "node_3".to_string());
    c.remove("z".to_string());

    let mut ab_then_c = a.clone();
    ab_then_c.merge(&b);
    ab_then_c.merge(&c);

    let mut bc = b.clone();
    bc.merge(&c);
    let mut a_then_bc = a.clone();
    a_then_bc.merge(&bc);

    assert_eq!(as_set(ab_then_c.read()), as_set(a_then_bc.read()));
    assert_eq!(as_set(ab_then_c.read()), as_set(vec!["x".to_string(), "y".to_string()]));

    let snapshot = as_set(a.read());
    let twin = a.clone();
    a.merge(&twin);
    assert_eq!(as_set(a.read()), snapshot);
}

#[test]
fn register_merge_is_associative_and_idempotent() {
    let mut a = LwwRegister::new("node_1".to_string());
    a.set("one".to_string(), "node_1".to_string());
    let mut b = LwwRegister::new("node_2".to_string());
    b.clock = 5;
    b.set("six".to_string(), "node_2".to_string());
    let mut c = LwwRegister::new("node_3".to_string());
    c.clock = 2;
    c.set("three".to_string(), "node_3".to_string());

    let mut ab_then_c = a.clone();
    ab_then_c.merge(&b);
    ab_then_c.merge(&c);

    let mut bc = b.clone();
    bc.merge(&c);
    let mut a_then_bc = a.clone();
    a_then_bc.merge(&bc);

    assert_eq!(ab_then_c.get(), a_then_bc.get());
    assert_eq!(ab_then_c.get(), "six");
    assert_eq!(ab_then_c.clock, a_then_bc.clock);

    let twin = a.clone();
    a.merge(&twin);
    assert_eq!(a.get(), "one");
    assert_eq!(a.clock, 1);
}

#[test]
fn counter_merge_of_disjoint_replicas_adds_values() {
    let mut a = PNCounter::new("node_1".to_string(), 0, 0);
    a.increment("node_1".to_string(), 10);
    a.decrement("node_1".to_string(), 4);

    let mut b = PNCounter::new("node_2".to_string(), 0, 0);
    b.increment("node_2".to_string(), 7);

    a.merge(&b);
    assert_eq!(a.value(), 13);
}
