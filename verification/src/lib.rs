//! A replicated key/value store whose values are conflict-free replicated
//! data types (CRDTs): a positive-negative counter, an add-wins set and a
//! last-writer-wins register. Every stored value is a join-semilattice whose
//! merge operation is commutative, associative and idempotent, so replicas
//! converge under lossy, reordered and duplicated gossip delivery.

use vstd::prelude::*;

pub mod aw_set;
pub mod client;
pub mod codec;
pub mod gossip;
pub mod json;
pub mod lww_register;
pub mod pn_counter;
pub mod service;
pub mod store;
pub mod tally;
pub mod text;

verus! {

/// An opaque, non-empty identifier, unique per replica.
pub type NodeId = String;

/// What a node is started with: its identifier, the address it listens on,
/// and the addresses of its peers. Loading this from a file is the caller's
/// business; the core only reads the values.
pub struct Config {
    pub node_id: String,
    pub listen_address: String,
    pub peers: Vec<String>,
}

} // verus!
