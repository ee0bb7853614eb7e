//! Replication across a simulated cluster: single-entry gossip, batched
//! anti-entropy, and the end-to-end convergence scenarios. The tests stand
//! in for the network: they carry each request to its target themselves and
//! drive the clock explicitly, in milliseconds.

use std::collections::HashSet;

use mergedb::codec::{CrdtData, GossipBatchRequest, GossipChangesRequest, PropagateDataRequest};
use mergedb::service::ReplicationServer;
use mergedb::Config;

fn cluster_node(node_id: &str, peers: &[&str]) -> ReplicationServer {
    ReplicationServer::new(Config {
        node_id: node_id.to_string(),
        listen_address: "127.0.0.1:8000".to_string(),
        peers: peers.iter().map(|p| p.to_string()).collect(),
    })
}

fn request(verb: &str, key: &str, value: Vec<u8>) -> PropagateDataRequest {
    PropagateDataRequest { valuetype: verb.to_string(), key: key.to_string(), value }
}

fn be(v: u64) -> Vec<u8> {
    v.to_be_bytes().to_vec()
}

fn state_of(node: &ReplicationServer, key: &str) -> CrdtData {
    for (k, v) in node.store.entries.iter() {
        if k == key {
            return v.data.to_wire();
        }
    }
    panic!("no value under the key");
}

/// Carry one key's whole state from `src` to `dst`, as a reactive push does.
fn push_state(src: &ReplicationServer, key: &str, dst: &mut ReplicationServer, now: u64) -> bool {
    let req = GossipChangesRequest { key: key.to_string(), counter: Some(state_of(src, key)) };
    dst.gossip_changes(req, now).success
}

fn counter_value(node: &mut ReplicationServer, key: &str, now: u64) -> i64 {
    let resp = node.propagate_data(request("CGET", key, Vec::new()), now).unwrap();
    i64::from_be_bytes(resp.response.try_into().unwrap())
}

fn set_members(node: &mut ReplicationServer, key: &str, now: u64) -> HashSet<String> {
    let resp = node.propagate_data(request("SGET", key, Vec::new()), now).unwrap();
    let members: Vec<String> = serde_json::from_slice(&resp.response).unwrap();
    members.into_iter().collect()
}

#[test]
fn gossip_inserts_merges_and_refuses_mismatches() {
    let mut n1 = cluster_node("node_1", &["b:1"]);
    let mut n2 = cluster_node("node_2", &["a:1"]);

    n1.propagate_data(request("CSET", "likes", be(4)), 0).unwrap();

    // an absent key is created
    assert!(push_state(&n1, "likes", &mut n2, 10));
    assert_eq!(counter_value(&mut n2, "likes", 11), 4);

    // a matching kind merges
    n1.propagate_data(request("CINC", "likes", be(3)), 20).unwrap();
    assert!(push_state(&n1, "likes", &mut n2, 21));
    assert_eq!(counter_value(&mut n2, "likes", 22), 7);

    // a mismatching kind is refused and leaves the value intact
    n1.propagate_data(request("SADD", "colors", b"red".to_vec()), 30).unwrap();
    let req = GossipChangesRequest {
        key: "likes".to_string(),
        counter: Some(state_of(&n1, "colors")),
    };
    assert!(!n2.gossip_changes(req, 31).success);
    assert_eq!(counter_value(&mut n2, "likes", 32), 7);

    // an empty envelope is refused
    let empty = GossipChangesRequest { key: "likes".to_string(), counter: None };
    assert!(!n2.gossip_changes(empty, 33).success);
    let hollow = GossipChangesRequest {
        key: "likes".to_string(),
        counter: Some(CrdtData { data: None }),
    };
    assert!(!n2.gossip_changes(hollow, 34).success);
}

#[test]
fn duplicate_gossip_does_not_refresh_the_timestamp() {
    let mut n1 = cluster_node("node_1", &[]);
    let mut n2 = cluster_node("node_2", &[]);

    n1.propagate_data(request("CSET", "likes", be(4)), 0).unwrap();
    assert!(push_state(&n1, "likes", &mut n2, 100));
    assert_eq!(n2.store.entries[0].1.last_updated, 100);

    // the same state again changes nothing, so the entry keeps its stamp
    assert!(push_state(&n1, "likes", &mut n2, 200));
    assert_eq!(n2.store.entries[0].1.last_updated, 100);

    // a genuinely newer state refreshes it
    n1.propagate_data(request("CINC", "likes", be(1)), 250).unwrap();
    assert!(push_state(&n1, "likes", &mut n2, 300));
    assert_eq!(n2.store.entries[0].1.last_updated, 300);
}

#[test]
fn reactive_push_targets_are_distinct_peers() {
    let peers = ["p1:1", "p2:1", "p3:1", "p4:1", "p5:1"];
    let mut node = cluster_node("node_1", &peers);
    node.propagate_data(request("CSET", "likes", be(1)), 0).unwrap();

    let messages = node.reactive_push(&"likes".to_string());
    assert_eq!(messages.len(), 3);
    let addrs: HashSet<String> = messages.iter().map(|(a, _)| a.clone()).collect();
    assert_eq!(addrs.len(), 3);
    for (addr, req) in &messages {
        assert!(peers.contains(&addr.as_str()));
        assert_eq!(req.key, "likes");
        assert!(req.counter.is_some());
    }

    let mut small = cluster_node("node_1", &["only:1"]);
    small.propagate_data(request("CSET", "likes", be(1)), 0).unwrap();
    assert_eq!(small.reactive_push(&"likes".to_string()).len(), 1);
    assert!(small.reactive_push(&"missing".to_string()).is_empty());
}

#[test]
fn anti_entropy_batches_sweep_recent_keys_only() {
    let mut node = cluster_node("node_1", &["peer:1"]);
    node.propagate_data(request("CSET", "old", be(1)), 0).unwrap();
    node.propagate_data(request("CSET", "fresh", be(2)), 9_000).unwrap();

    // at 10s, only the key updated within the last two seconds is swept
    let batches = node.build_gossip_batches(10_000);
    let keys: Vec<String> =
        batches.iter().flat_map(|b| b.batch.iter().map(|(k, _)| k.clone())).collect();
    assert_eq!(keys, vec!["fresh".to_string()]);

    // stale peers are the ones whose last round lies over a period back
    assert_eq!(node.peers.stale_peers(10_000), vec!["peer:1".to_string()]);
    node.peers.mark_contacted(&"peer:1".to_string(), 10_000);
    assert!(node.peers.stale_peers(11_000).is_empty());
    assert_eq!(node.peers.stale_peers(13_000), vec!["peer:1".to_string()]);
}

#[test]
fn scenario_counter_convergence() {
    let mut n1 = cluster_node("node_1", &["b:1", "c:1"]);
    let mut n2 = cluster_node("node_2", &["a:1", "c:1"]);
    let mut n3 = cluster_node("node_3", &["a:1", "b:1"]);

    n1.propagate_data(request("CSET", "likes", be(0)), 0).unwrap();
    push_state(&n1, "likes", &mut n2, 1);
    push_state(&n1, "likes", &mut n3, 1);

    n1.propagate_data(request("CINC", "likes", be(5)), 10).unwrap();
    n2.propagate_data(request("CINC", "likes", be(3)), 10).unwrap();
    n3.propagate_data(request("CDEC", "likes", be(2)), 10).unwrap();

    // all-pairs exchange
    push_state(&n1, "likes", &mut n2, 20);
    push_state(&n1, "likes", &mut n3, 20);
    push_state(&n2, "likes", &mut n1, 21);
    push_state(&n2, "likes", &mut n3, 21);
    push_state(&n3, "likes", &mut n1, 22);
    push_state(&n3, "likes", &mut n2, 22);

    assert_eq!(counter_value(&mut n1, "likes", 30), 6);
    assert_eq!(counter_value(&mut n2, "likes", 30), 6);
    assert_eq!(counter_value(&mut n3, "likes", 30), 6);
}

#[test]
fn scenario_set_add_wins() {
    let mut n1 = cluster_node("node_1", &[]);
    let mut n2 = cluster_node("node_2", &[]);
    let mut n3 = cluster_node("node_3", &[]);

    n1.propagate_data(request("SADD", "tags", b"apple".to_vec()), 0).unwrap();
    push_state(&n1, "tags", &mut n2, 1);
    push_state(&n1, "tags", &mut n3, 1);

    // concurrently: a removal at one node, a fresh addition at another
    n1.propagate_data(request("SREM", "tags", b"apple".to_vec()), 10).unwrap();
    n2.propagate_data(request("SADD", "tags", b"apple".to_vec()), 10).unwrap();

    push_state(&n1, "tags", &mut n2, 20);
    push_state(&n1, "tags", &mut n3, 20);
    push_state(&n2, "tags", &mut n1, 21);
    push_state(&n2, "tags", &mut n3, 21);

    assert!(set_members(&mut n1, "tags", 30).contains("apple"));
    assert!(set_members(&mut n2, "tags", 30).contains("apple"));
    assert!(set_members(&mut n3, "tags", 30).contains("apple"));
}

#[test]
fn scenario_set_batch_after_partition() {
    let mut n1 = cluster_node("node_1", &["b:1", "c:1"]);
    let mut n2 = cluster_node("node_2", &["a:1", "c:1"]);
    let mut n3 = cluster_node("node_3", &["a:1", "b:1"]);

    // with the third node partitioned away:
    n1.propagate_data(request("SADD", "colors", b"red".to_vec()), 100).unwrap();
    n1.propagate_data(request("SADD", "colors", b"green".to_vec()), 110).unwrap();
    n1.propagate_data(request("SREM", "colors", b"red".to_vec()), 120).unwrap();
    n2.propagate_data(request("SADD", "colors", b"blue".to_vec()), 130).unwrap();
    push_state(&n1, "colors", &mut n2, 200);

    // heal: a periodic anti-entropy round from the second node reaches the
    // third within one full period of the merge
    let batches = n2.build_gossip_batches(1_000);
    assert!(!batches.is_empty());
    for batch in batches {
        assert!(n3.gossip_batch(batch, 1_001).success);
    }
    n2.peers.mark_contacted(&"c:1".to_string(), 1_001);

    assert_eq!(
        set_members(&mut n3, "colors", 1_100),
        HashSet::from(["green".to_string(), "blue".to_string()])
    );
}

#[test]
fn scenario_register_tie_break() {
    let mut n1 = cluster_node("node_1", &[]);
    let mut n2 = cluster_node("node_2", &[]);

    // simultaneous writes at equal clocks
    n1.propagate_data(request("RSET", "title", b"A".to_vec()), 0).unwrap();
    n2.propagate_data(request("RSET", "title", b"B".to_vec()), 0).unwrap();

    push_state(&n1, "title", &mut n2, 10);
    push_state(&n2, "title", &mut n1, 10);

    // the greater node identifier wins the tie, in either merge order
    let a = n1.propagate_data(request("RGET", "title", Vec::new()), 20).unwrap();
    let b = n2.propagate_data(request("RGET", "title", Vec::new()), 20).unwrap();
    assert_eq!(a.response, b"B".to_vec());
    assert_eq!(b.response, b"B".to_vec());
}

#[test]
fn scenario_register_append() {
    let mut n1 = cluster_node("node_1", &[]);
    let mut n2 = cluster_node("node_2", &[]);

    n1.propagate_data(request("RSET", "msg", b"Hello".to_vec()), 0).unwrap();
    n1.propagate_data(request("RAPP", "msg", b", World".to_vec()), 10).unwrap();
    push_state(&n1, "msg", &mut n2, 20);

    let got = n2.propagate_data(request("RGET", "msg", Vec::new()), 30).unwrap();
    assert_eq!(got.response, b"Hello, World".to_vec());
    let len = n2.propagate_data(request("RLEN", "msg", Vec::new()), 31).unwrap();
    assert_eq!(len.response, (12u64).to_be_bytes().to_vec());
}

#[test]
fn scenario_peer_drop() {
    let mut n1 = cluster_node("node_1", &["b:1", "c:1"]);
    let mut n2 = cluster_node("node_2", &["a:1", "c:1"]);

    n1.propagate_data(request("CSET", "likes", be(0)), 0).unwrap();
    push_state(&n1, "likes", &mut n2, 1);

    // the third node is down; the first keeps counting
    for t in 0..100u64 {
        n1.propagate_data(request("CINC", "likes", be(1)), 10 + t).unwrap();
    }
    push_state(&n1, "likes", &mut n2, 200);

    // the third node restarts with an empty store and learns everything
    // from the second node's anti-entropy round
    let mut n3 = cluster_node("node_3", &["a:1", "b:1"]);
    let batches = n2.build_gossip_batches(1_000);
    for batch in batches {
        assert!(n3.gossip_batch(batch, 1_001).success);
    }

    assert_eq!(counter_value(&mut n3, "likes", 2_000), 100);
}

#[test]
fn batch_entries_are_applied_independently() {
    let mut n1 = cluster_node("node_1", &[]);
    let mut n2 = cluster_node("node_2", &[]);
    n1.propagate_data(request("CSET", "likes", be(4)), 0).unwrap();
    n1.propagate_data(request("SADD", "tags", b"apple".to_vec()), 1).unwrap();
    n2.propagate_data(request("RSET", "title", b"A".to_vec()), 2).unwrap();

    // an empty envelope and a kind mismatch sit between two good entries;
    // both good entries must still be applied and the batch accepted
    let batch = GossipBatchRequest {
        batch: vec![
            ("likes".to_string(), state_of(&n1, "likes")),
            ("hollow".to_string(), CrdtData { data: None }),
            ("title".to_string(), state_of(&n1, "likes")),
            ("tags".to_string(), state_of(&n1, "tags")),
        ],
    };
    assert!(n2.gossip_batch(batch, 10).success);

    assert_eq!(counter_value(&mut n2, "likes", 20), 4);
    assert!(set_members(&mut n2, "tags", 20).contains("apple"));
    // the mismatched entry left the register untouched
    let got = n2.propagate_data(request("RGET", "title", Vec::new()), 20).unwrap();
    assert_eq!(got.response, b"A".to_vec());
    // the empty envelope created nothing
    assert!(n2.propagate_data(request("CGET", "hollow", Vec::new()), 20).is_err());
}

#[test]
fn reactive_push_never_targets_the_node_itself() {
    let mut node = cluster_node("node_1", &["me:1", "p2:1"]);
    node.config.listen_address = "me:1".to_string();
    node.propagate_data(request("CSET", "likes", be(1)), 0).unwrap();

    for _ in 0..16 {
        let messages = node.reactive_push(&"likes".to_string());
        assert_eq!(messages.len(), 1);
        assert_eq!(messages[0].0, "p2:1");
    }
}
