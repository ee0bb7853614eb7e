//! The command-dispatch layer: the verb table, the byte conventions of the
//! payloads and responses, and the error taxonomy.

use std::collections::HashSet;

use mergedb::client::{decode_numeric_reply, Commands};
use mergedb::codec::PropagateDataRequest;
use mergedb::service::{ReplicationServer, ServiceError};
use mergedb::Config;

fn server(node_id: &str) -> ReplicationServer {
    ReplicationServer::new(Config {
        node_id: node_id.to_string(),
        listen_address: "127.0.0.1:8000".to_string(),
        peers: Vec::new(),
    })
}

fn request(verb: &str, key: &str, value: Vec<u8>) -> PropagateDataRequest {
    PropagateDataRequest { valuetype: verb.to_string(), key: key.to_string(), value }
}

fn be(v: u64) -> Vec<u8> {
    v.to_be_bytes().to_vec()
}

#[test]
fn counter_set_then_get_returns_big_endian_value() {
    let mut node = server("node_1");
    let set = node.propagate_data(request("CSET", "likes", be(7)), 100).unwrap();
    assert!(set.success);
    assert!(set.response.is_empty());

    let got = node.propagate_data(request("CGET", "likes", Vec::new()), 101).unwrap();
    assert!(got.success);
    assert_eq!(got.response, (7i64).to_be_bytes().to_vec());
}

#[test]
fn counter_inc_and_dec_change_the_value() {
    let mut node = server("node_1");
    node.propagate_data(request("CSET", "likes", be(0)), 0).unwrap();
    node.propagate_data(request("CINC", "likes", be(5)), 1).unwrap();
    node.propagate_data(request("CINC", "likes", be(2)), 2).unwrap();
    node.propagate_data(request("CDEC", "likes", be(3)), 3).unwrap();

    let got = node.propagate_data(request("CGET", "likes", Vec::new()), 4).unwrap();
    assert_eq!(got.response, (4i64).to_be_bytes().to_vec());
}

#[test]
fn missing_keys_are_not_found() {
    let mut node = server("node_1");
    for verb in ["CGET", "CINC", "CDEC", "SREM", "SGET", "RGET", "RAPP", "RLEN"] {
        let payload = if verb == "CINC" || verb == "CDEC" { be(1) } else { b"x".to_vec() };
        let err = node.propagate_data(request(verb, "missing", payload), 0).unwrap_err();
        assert_eq!(err, ServiceError::NotFound, "verb {verb}");
    }
}

#[test]
fn short_counter_payloads_are_invalid() {
    let mut node = server("node_1");
    for verb in ["CSET", "CINC", "CDEC"] {
        let err = node.propagate_data(request(verb, "likes", vec![1, 2, 3]), 0).unwrap_err();
        assert_eq!(err, ServiceError::InvalidArgument, "verb {verb}");
    }
}

#[test]
fn unknown_verbs_are_invalid() {
    let mut node = server("node_1");
    let err = node.propagate_data(request("NOPE", "likes", Vec::new()), 0).unwrap_err();
    assert_eq!(err, ServiceError::InvalidArgument);
}

#[test]
fn invalid_utf8_payloads_are_rejected() {
    let mut node = server("node_1");
    for verb in ["SADD", "RSET"] {
        let err = node
            .propagate_data(request(verb, "k", vec![0xff, 0xfe]), 0)
            .unwrap_err();
        assert_eq!(err, ServiceError::InvalidArgument, "verb {verb}");
    }
}

#[test]
fn type_mismatch_is_invalid_and_leaves_the_counter_intact() {
    let mut node = server("node_1");
    node.propagate_data(request("CSET", "k", be(9)), 0).unwrap();

    let sadd = node.propagate_data(request("SADD", "k", b"apple".to_vec()), 1).unwrap_err();
    assert_eq!(sadd, ServiceError::InvalidArgument);
    let rset = node.propagate_data(request("RSET", "k", b"title".to_vec()), 2).unwrap_err();
    assert_eq!(rset, ServiceError::InvalidArgument);
    let rlen = node.propagate_data(request("RLEN", "k", Vec::new()), 3).unwrap_err();
    assert_eq!(rlen, ServiceError::InvalidArgument);

    let got = node.propagate_data(request("CGET", "k", Vec::new()), 4).unwrap();
    assert_eq!(got.response, (9i64).to_be_bytes().to_vec());
}

#[test]
fn set_commands_round_trip_through_json() {
    let mut node = server("node_1");
    node.propagate_data(request("SADD", "tags", b"apple".to_vec()), 0).unwrap();
    node.propagate_data(request("SADD", "tags", b"banana".to_vec()), 1).unwrap();
    node.propagate_data(request("SREM", "tags", b"apple".to_vec()), 2).unwrap();

    let got = node.propagate_data(request("SGET", "tags", Vec::new()), 3).unwrap();
    let members: Vec<String> = serde_json::from_slice(&got.response).unwrap();
    let members: HashSet<String> = members.into_iter().collect();
    assert_eq!(members, HashSet::from(["banana".to_string()]));
}

#[test]
fn register_commands_follow_the_byte_conventions() {
    let mut node = server("node_1");
    node.propagate_data(request("RSET", "msg", b"Hello".to_vec()), 0).unwrap();
    node.propagate_data(request("RAPP", "msg", b", World".to_vec()), 1).unwrap();

    let got = node.propagate_data(request("RGET", "msg", Vec::new()), 2).unwrap();
    assert_eq!(got.response, b"Hello, World".to_vec());

    let len = node.propagate_data(request("RLEN", "msg", Vec::new()), 3).unwrap();
    assert_eq!(len.response, (12u64).to_be_bytes().to_vec());
}

#[test]
fn counter_set_overwrites_and_starts_from_the_payload() {
    let mut node = server("node_1");
    node.propagate_data(request("CSET", "likes", be(3)), 0).unwrap();
    node.propagate_data(request("CINC", "likes", be(2)), 1).unwrap();
    node.propagate_data(request("CSET", "likes", be(1)), 2).unwrap();

    let got = node.propagate_data(request("CGET", "likes", Vec::new()), 3).unwrap();
    assert_eq!(got.response, (1i64).to_be_bytes().to_vec());
}

#[test]
fn client_commands_encode_the_documented_payloads() {
    let req = Commands::Cset { key: "likes".to_string(), value: 7 }.to_request().unwrap();
    assert_eq!(req.valuetype, "CSET");
    assert_eq!(req.key, "likes");
    assert_eq!(req.value, (7i64).to_be_bytes().to_vec());

    let req = Commands::Sadd { key: "tags".to_string(), tag: "apple".to_string() }
        .to_request()
        .unwrap();
    assert_eq!(req.valuetype, "SADD");
    assert_eq!(req.value, b"apple".to_vec());

    let req = Commands::Rlen { key: "msg".to_string() }.to_request().unwrap();
    assert_eq!(req.valuetype, "RLEN");
    assert!(req.value.is_empty());

    assert!(Commands::Interactive.to_request().is_none());

    assert_eq!(decode_numeric_reply(&(9i64).to_be_bytes().to_vec()), 9);
    assert_eq!(decode_numeric_reply(&vec![1, 2]), 0);
}

#[test]
fn tallies_at_the_numeric_limit_are_internal_errors() {
    let mut node = server("node_1");
    node.propagate_data(request("CSET", "likes", be(u64::MAX)), 0).unwrap();

    // the node's tally of increments can no longer grow
    let inc = node.propagate_data(request("CINC", "likes", be(1)), 1).unwrap_err();
    assert_eq!(inc, ServiceError::Internal);

    // and the sum of increments no longer fits a signed 64-bit value
    let got = node.propagate_data(request("CGET", "likes", Vec::new()), 2).unwrap_err();
    assert_eq!(got, ServiceError::Internal);

    // a tally below the limit is still fine
    node.propagate_data(request("CSET", "ok", be(1)), 3).unwrap();
    node.propagate_data(request("CINC", "ok", be(2)), 4).unwrap();
    let got = node.propagate_data(request("CGET", "ok", Vec::new()), 5).unwrap();
    assert_eq!(got.response, (3i64).to_be_bytes().to_vec());
}

#[test]
fn huge_cancelling_tallies_still_read_their_net_value() {
    // the per-node tallies exceed the signed range, but the net value is
    // small and must still be readable
    let mut node = server("node_1");
    node.propagate_data(request("CSET", "likes", be(u64::MAX)), 0).unwrap();
    node.propagate_data(request("CDEC", "likes", be(u64::MAX - 5)), 1).unwrap();

    let got = node.propagate_data(request("CGET", "likes", Vec::new()), 2).unwrap();
    assert_eq!(got.response, (5i64).to_be_bytes().to_vec());
}
