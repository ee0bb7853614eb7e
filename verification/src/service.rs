//! The request-dispatch layer of the replication service. `propagate_data`
//! maps a client command verb to a store mutation or read; `gossip_changes`
//! and `gossip_batch` absorb peer state by merging. The whole behaviour of a
//! dispatch — which inputs are rejected with which error, and what the store
//! and the response hold afterwards — is stated by `spec_dispatch`.

use vstd::prelude::*;
use vstd::string::StrSliceExecFns;
use vstd::utf8::{decode_utf8, encode_utf8, valid_utf8};

use crate::codec::{
    i64_to_be_bytes, spec_i64_to_be_bytes, spec_u64_from_be_bytes, spec_u64_to_be_bytes,
    u64_from_be_bytes, u64_to_be_bytes, CrdtData, GossipBatchRequest, GossipBatchResponse,
    GossipChangesRequest, GossipChangesResponse, PropagateDataRequest, PropagateDataResponse,
};
use crate::aw_set::{spec_add, spec_remove, visible_elements, AWSet, SetView};
use crate::gossip::{recently_updated, PeerTable, BATCH_SIZE, GOSSIP_PERIOD_MS, K};
use crate::lww_register::{LwwRegister, RegisterView};
use crate::pn_counter::{counter_value, CounterView, PNCounter};
use crate::store::{
    crdt_data_view, lemma_store_view_props, same_kind, value_join, CRDTValue, Store, StoredValue,
    StoredView, ValueView,
};
use crate::tally::tget;
use crate::text::{names_contain, str_eq, utf8_to_string};
use crate::Config;

verus! {

/// The command verbs a client can dispatch.
#[derive(Debug, PartialEq)]
pub enum Command {
    SetCounter,
    GetCounter,
    IncCounter,
    DecCounter,
    SetAdd,
    SetRemove,
    GetSet,
    SetRegister,
    GetRegister,
    AppendRegister,
    LenRegister,
    Unknown,
}

/// The verb each command answers to.
pub open spec fn spec_command(verb: Seq<char>) -> Command {
    if verb == "CSET"@ {
        Command::SetCounter
    } else if verb == "CGET"@ {
        Command::GetCounter
    } else if verb == "CINC"@ {
        Command::IncCounter
    } else if verb == "CDEC"@ {
        Command::DecCounter
    } else if verb == "SADD"@ {
        Command::SetAdd
    } else if verb == "SREM"@ {
        Command::SetRemove
    } else if verb == "SGET"@ {
        Command::GetSet
    } else if verb == "RSET"@ {
        Command::SetRegister
    } else if verb == "RGET"@ {
        Command::GetRegister
    } else if verb == "RAPP"@ {
        Command::AppendRegister
    } else if verb == "RLEN"@ {
        Command::LenRegister
    } else {
        Command::Unknown
    }
}

impl Command {
    /// Parse a command verb; anything unrecognised is `Unknown`.
    pub fn parse(input: &str) -> (r: Command)
        ensures
            r == spec_command(input@),
    {
        if str_eq(input, "CSET") {
            Command::SetCounter
        } else if str_eq(input, "CGET") {
            Command::GetCounter
        } else if str_eq(input, "CINC") {
            Command::IncCounter
        } else if str_eq(input, "CDEC") {
            Command::DecCounter
        } else if str_eq(input, "SADD") {
            Command::SetAdd
        } else if str_eq(input, "SREM") {
            Command::SetRemove
        } else if str_eq(input, "SGET") {
            Command::GetSet
        } else if str_eq(input, "RSET") {
            Command::SetRegister
        } else if str_eq(input, "RGET") {
            Command::GetRegister
        } else if str_eq(input, "RAPP") {
            Command::AppendRegister
        } else if str_eq(input, "RLEN") {
            Command::LenRegister
        } else {
            Command::Unknown
        }
    }
}

/// The error taxonomy of the service. `NotFound`: the command needs a key
/// that is absent. `InvalidArgument`: a malformed payload, an unknown verb,
/// or a stored value of another kind than the command expects. `Internal`: a
/// tally or clock has reached its numeric limit.
#[derive(Debug, Clone, Copy, PartialEq, Eq)]
pub enum ServiceError {
    NotFound,
    InvalidArgument,
    Internal,
}

/// What a successful response carries: nothing, exact bytes, or a JSON array
/// listing each member of a set exactly once (in an order the representation
/// chooses).
pub enum RespSpec {
    Empty,
    Raw(Seq<u8>),
    Members(Set<Seq<char>>),
}

/// Whether the response bytes answer to their description.
pub open spec fn resp_matches(rs: RespSpec, bytes: Seq<u8>) -> bool {
    match rs {
        RespSpec::Empty => bytes == Seq::<u8>::empty(),
        RespSpec::Raw(b) => bytes == b,
        RespSpec::Members(members) => exists|elems: Seq<Seq<char>>|
            {
                &&& forall|e: Seq<char>| members.contains(e) <==> (#[trigger] elems.contains(e))
                &&& forall|i: int, j: int| 0 <= i < j < elems.len() ==> elems[i] != elems[j]
                &&& bytes == crate::json::json_of_strings(elems)
            },
    }
}

/// A fresh, empty add-wins set state.
pub open spec fn empty_set_view() -> SetView {
    SetView {
        clock: 0,
        adds: Map::<Seq<char>, Set<(Seq<char>, u64)>>::empty(),
        removes: Map::<Seq<char>, Set<(Seq<char>, u64)>>::empty(),
    }
}

/// What one dispatched command does: the store afterwards, and the response
/// or error. `m` is the store, `node` this replica's identifier, `raw` the
/// client payload, `now` the local wall clock in milliseconds.
pub open spec fn spec_dispatch(
    m: Map<Seq<char>, StoredView>,
    node: Seq<char>,
    cmd: Command,
    key: Seq<char>,
    raw: Seq<u8>,
    now: u64,
) -> (Map<Seq<char>, StoredView>, Result<RespSpec, ServiceError>) {
    match cmd {
        Command::SetCounter => {
            if raw.len() != 8 {
                (m, Err(ServiceError::InvalidArgument))
            } else {
                let c = CounterView {
                    p: Map::<Seq<char>, u64>::empty().insert(node, spec_u64_from_be_bytes(raw)),
                    n: Map::<Seq<char>, u64>::empty().insert(node, 0u64),
                };
                (
                    m.insert(key, StoredView { data: ValueView::Counter(c), last_updated: now }),
                    Ok(RespSpec::Empty),
                )
            }
        },
        Command::GetCounter => {
            if !m.contains_key(key) {
                (m, Err(ServiceError::NotFound))
            } else {
                match m[key].data {
                    ValueView::Counter(c) => {
                        if -(i64::MAX as int) <= counter_value(c) <= i64::MAX as int {
                            (m, Ok(RespSpec::Raw(spec_i64_to_be_bytes(counter_value(c) as i64))))
                        } else {
                            (m, Err(ServiceError::Internal))
                        }
                    },
                    _ => (m, Err(ServiceError::InvalidArgument)),
                }
            }
        },
        Command::IncCounter => {
            if raw.len() != 8 {
                (m, Err(ServiceError::InvalidArgument))
            } else if !m.contains_key(key) {
                (m, Err(ServiceError::NotFound))
            } else {
                match m[key].data {
                    ValueView::Counter(c) => {
                        let amt = spec_u64_from_be_bytes(raw);
                        if tget(c.p, node) + amt > u64::MAX {
                            (m, Err(ServiceError::Internal))
                        } else {
                            let c2 = CounterView {
                                p: c.p.insert(node, (tget(c.p, node) + amt) as u64),
                                n: c.n,
                            };
                            (
                                m.insert(
                                    key,
                                    StoredView {
                                        data: ValueView::Counter(c2),
                                        last_updated: m[key].last_updated,
                                    },
                                ),
                                Ok(RespSpec::Empty),
                            )
                        }
                    },
                    _ => (m, Err(ServiceError::InvalidArgument)),
                }
            }
        },
        Command::DecCounter => {
            if raw.len() != 8 {
                (m, Err(ServiceError::InvalidArgument))
            } else if !m.contains_key(key) {
                (m, Err(ServiceError::NotFound))
            } else {
                match m[key].data {
                    ValueView::Counter(c) => {
                        let amt = spec_u64_from_be_bytes(raw);
                        if tget(c.n, node) + amt > u64::MAX {
                            (m, Err(ServiceError::Internal))
                        } else {
                            let c2 = CounterView {
                                p: c.p,
                                n: c.n.insert(node, (tget(c.n, node) + amt) as u64),
                            };
                            (
                                m.insert(
                                    key,
                                    StoredView {
                                        data: ValueView::Counter(c2),
                                        last_updated: m[key].last_updated,
                                    },
                                ),
                                Ok(RespSpec::Empty),
                            )
                        }
                    },
                    _ => (m, Err(ServiceError::InvalidArgument)),
                }
            }
        },
        Command::SetAdd => {
            if !valid_utf8(raw) {
                (m, Err(ServiceError::InvalidArgument))
            } else {
                let tag = decode_utf8(raw);
                if !m.contains_key(key) {
                    (
                        m.insert(
                            key,
                            StoredView {
                                data: ValueView::AwSet(spec_add(empty_set_view(), tag, node)),
                                last_updated: now,
                            },
                        ),
                        Ok(RespSpec::Empty),
                    )
                } else {
                    match m[key].data {
                        ValueView::AwSet(s) => {
                            if s.clock == u64::MAX {
                                (m, Err(ServiceError::Internal))
                            } else {
                                (
                                    m.insert(
                                        key,
                                        StoredView {
                                            data: ValueView::AwSet(spec_add(s, tag, node)),
                                            last_updated: m[key].last_updated,
                                        },
                                    ),
                                    Ok(RespSpec::Empty),
                                )
                            }
                        },
                        _ => (m, Err(ServiceError::InvalidArgument)),
                    }
                }
            }
        },
        Command::SetRemove => {
            if !valid_utf8(raw) {
                (m, Err(ServiceError::InvalidArgument))
            } else if !m.contains_key(key) {
                (m, Err(ServiceError::NotFound))
            } else {
                match m[key].data {
                    ValueView::AwSet(s) => (
                        m.insert(
                            key,
                            StoredView {
                                data: ValueView::AwSet(spec_remove(s, decode_utf8(raw))),
                                last_updated: m[key].last_updated,
                            },
                        ),
                        Ok(RespSpec::Empty),
                    ),
                    _ => (m, Err(ServiceError::InvalidArgument)),
                }
            }
        },
        Command::GetSet => {
            if !m.contains_key(key) {
                (m, Err(ServiceError::NotFound))
            } else {
                match m[key].data {
                    ValueView::AwSet(s) => (m, Ok(RespSpec::Members(visible_elements(s)))),
                    _ => (m, Err(ServiceError::InvalidArgument)),
                }
            }
        },
        Command::SetRegister => {
            if !valid_utf8(raw) {
                (m, Err(ServiceError::InvalidArgument))
            } else {
                let v = decode_utf8(raw);
                if !m.contains_key(key) {
                    let r = RegisterView { clock: 1, node_id: node, counter: 1, value: v };
                    (
                        m.insert(
                            key,
                            StoredView { data: ValueView::Register(r), last_updated: now },
                        ),
                        Ok(RespSpec::Empty),
                    )
                } else {
                    match m[key].data {
                        ValueView::Register(r) => {
                            if r.clock == u64::MAX {
                                (m, Err(ServiceError::Internal))
                            } else {
                                let r2 = RegisterView {
                                    clock: (r.clock + 1) as u64,
                                    node_id: node,
                                    counter: (r.clock + 1) as u64,
                                    value: v,
                                };
                                (
                                    m.insert(
                                        key,
                                        StoredView {
                                            data: ValueView::Register(r2),
                                            last_updated: m[key].last_updated,
                                        },
                                    ),
                                    Ok(RespSpec::Empty),
                                )
                            }
                        },
                        _ => (m, Err(ServiceError::InvalidArgument)),
                    }
                }
            }
        },
        Command::GetRegister => {
            if !m.contains_key(key) {
                (m, Err(ServiceError::NotFound))
            } else {
                match m[key].data {
                    ValueView::Register(r) => (m, Ok(RespSpec::Raw(encode_utf8(r.value)))),
                    _ => (m, Err(ServiceError::InvalidArgument)),
                }
            }
        },
        Command::AppendRegister => {
            if !valid_utf8(raw) {
                (m, Err(ServiceError::InvalidArgument))
            } else if !m.contains_key(key) {
                (m, Err(ServiceError::NotFound))
            } else {
                match m[key].data {
                    ValueView::Register(r) => {
                        if r.clock == u64::MAX {
                            (m, Err(ServiceError::Internal))
                        } else {
                            let r2 = RegisterView {
                                clock: (r.clock + 1) as u64,
                                node_id: node,
                                counter: (r.clock + 1) as u64,
                                value: r.value + decode_utf8(raw),
                            };
                            (
                                m.insert(
                                    key,
                                    StoredView {
                                        data: ValueView::Register(r2),
                                        last_updated: m[key].last_updated,
                                    },
                                ),
                                Ok(RespSpec::Empty),
                            )
                        }
                    },
                    _ => (m, Err(ServiceError::InvalidArgument)),
                }
            }
        },
        Command::LenRegister => {
            if !m.contains_key(key) {
                (m, Err(ServiceError::NotFound))
            } else {
                match m[key].data {
                    ValueView::Register(r) => (
                        m,
                        Ok(
                            RespSpec::Raw(
                                spec_u64_to_be_bytes(encode_utf8(r.value).len() as u64),
                            ),
                        ),
                    ),
                    _ => (m, Err(ServiceError::InvalidArgument)),
                }
            }
        },
        Command::Unknown => (m, Err(ServiceError::InvalidArgument)),
    }
}

/// One replica of the replication service: its store, its configuration and
/// its peer table.
pub struct ReplicationServer {
    pub store: Store,
    pub config: Config,
    pub peers: PeerTable,
}

/// The handler outcome promised for a command: the store moved as
/// `spec_dispatch` says, nothing else changed, and the result agrees with
/// the dispatch — a successful response with matching bytes, or the same
/// error.
pub open spec fn dispatch_post(
    pre: ReplicationServer,
    post: ReplicationServer,
    cmd: Command,
    key: Seq<char>,
    raw: Seq<u8>,
    now: u64,
    r: Result<PropagateDataResponse, ServiceError>,
) -> bool {
    let (m2, res) = spec_dispatch(pre.store@, pre.config.node_id@, cmd, key, raw, now);
    &&& post.store@ == m2
    &&& post.store.wf()
    &&& post.config == pre.config
    &&& post.peers == pre.peers
    &&& match (r, res) {
        (Result::Ok(resp), Result::Ok(rs)) => resp.success == true && resp_matches(
            rs,
            resp.response@,
        ),
        (Result::Err(e1), Result::Err(e2)) => e1 == e2,
        _ => false,
    }
}

impl ReplicationServer {
    pub open spec fn wf(&self) -> bool {
        self.store.wf() && self.peers.wf()
    }

    /// A fresh replica: an empty store, and a peer table in which every
    /// configured peer is immediately due an anti-entropy round.
    pub fn new(config: Config) -> (r: Self)
        ensures
            r.wf(),
            r.store@ == Map::<Seq<char>, StoredView>::empty(),
            r.config == config,
            forall|a: Seq<char>| r.peers@.contains_key(a) <==> names_contain(config.peers@, a),
            forall|a: Seq<char>| #[trigger] r.peers@.contains_key(a) ==> r.peers@[a] == 0,
    {
        let peers = PeerTable::new(&config.peers);
        ReplicationServer { store: Store::new(), config, peers }
    }

    /// Set a counter: the payload is an eight-byte big-endian tally, and the
    /// key is created or overwritten with `{p: {self: v}, n: {self: 0}}`.
    pub fn handle_set_counter(&mut self, key: String, raw_value_bytes: Vec<u8>, now: u64) -> (r:
        Result<PropagateDataResponse, ServiceError>)
        requires
            old(self).wf(),
        ensures
            dispatch_post(
                *old(self),
                *final(self),
                Command::SetCounter,
                key@,
                raw_value_bytes@,
                now,
                r,
            ),
    {
        if raw_value_bytes.len() != 8 {
            return Err(ServiceError::InvalidArgument);
        }
        let numeric_val = u64_from_be_bytes(&raw_value_bytes);
        let counter = PNCounter::new(self.config.node_id.clone(), numeric_val, 0);
        self.store.put(&key, CRDTValue::Counter(counter), now);
        Ok(PropagateDataResponse { success: true, response: Vec::new() })
    }

    /// Read a counter's value as eight big-endian bytes of a signed 64-bit
    /// integer.
    pub fn handle_get_counter(&mut self, key: String) -> (r: Result<
        PropagateDataResponse,
        ServiceError,
    >)
        requires
            old(self).wf(),
        ensures
            dispatch_post(
                *old(self),
                *final(self),
                Command::GetCounter,
                key@,
                Seq::<u8>::empty(),
                0,
                r,
            ),
            *final(self) == *old(self),
    {
        proof {
            lemma_store_view_props(self.store.entries@);
        }
        let i = match self.store.find(&key) {
            Some(i) => i,
            None => {
                return Err(ServiceError::NotFound);
            },
        };
        match &self.store.entries[i].1.data {
            CRDTValue::Counter(c) => {
                match c.try_value() {
                    Some(v) => Ok(
                        PropagateDataResponse { success: true, response: i64_to_be_bytes(v) },
                    ),
                    None => Err(ServiceError::Internal),
                }
            },
            _ => Err(ServiceError::InvalidArgument),
        }
    }

    /// Raise this node's tally of increments for a counter key.
    pub fn handle_inc_counter(&mut self, key: String, raw_value_bytes: Vec<u8>) -> (r: Result<
        PropagateDataResponse,
        ServiceError,
    >)
        requires
            old(self).wf(),
        ensures
            dispatch_post(
                *old(self),
                *final(self),
                Command::IncCounter,
                key@,
                raw_value_bytes@,
                0,
                r,
            ),
    {
        if raw_value_bytes.len() != 8 {
            return Err(ServiceError::InvalidArgument);
        }
        let numeric_val = u64_from_be_bytes(&raw_value_bytes);
        proof {
            lemma_store_view_props(self.store.entries@);
        }
        let i = match self.store.find(&key) {
            Some(i) => i,
            None => {
                return Err(ServiceError::NotFound);
            },
        };
        let ghost s = self.store.entries@;
        proof {
            assert(old(self).store@[s[i as int].0@] == s[i as int].1@);
        }
        match &mut self.store.entries[i].1.data {
            CRDTValue::Counter(c) => {
                proof {
                    assert(s[i as int].1.data == CRDTValue::Counter(*c));
                }
                let cur = c.tally_of_increments(&self.config.node_id);
                if numeric_val > u64::MAX - cur {
                    proof {
                        assert(self.store.entries@ =~= s);
                    }
                    return Err(ServiceError::Internal);
                }
                c.increment(self.config.node_id.clone(), numeric_val);
                proof {
                    assert(self.store.entries@ =~= s.update(
                        i as int,
                        self.store.entries@[i as int],
                    ));
                    crate::store::lemma_store_view_update(
                        s,
                        i as int,
                        self.store.entries@[i as int],
                    );
                }
                Ok(PropagateDataResponse { success: true, response: Vec::new() })
            },
            _ => {
                proof {
                    assert(self.store.entries@ =~= s);
                }
                Err(ServiceError::InvalidArgument)
            },
        }
    }

    /// Raise this node's tally of decrements for a counter key.
    pub fn handle_dec_counter(&mut self, key: String, raw_value_bytes: Vec<u8>) -> (r: Result<
        PropagateDataResponse,
        ServiceError,
    >)
        requires
            old(self).wf(),
        ensures
            dispatch_post(
                *old(self),
                *final(self),
                Command::DecCounter,
                key@,
                raw_value_bytes@,
                0,
                r,
            ),
    {
        if raw_value_bytes.len() != 8 {
            return Err(ServiceError::InvalidArgument);
        }
        let numeric_val = u64_from_be_bytes(&raw_value_bytes);
        proof {
            lemma_store_view_props(self.store.entries@);
        }
        let i = match self.store.find(&key) {
            Some(i) => i,
            None => {
                return Err(ServiceError::NotFound);
            },
        };
        let ghost s = self.store.entries@;
        proof {
            assert(old(self).store@[s[i as int].0@] == s[i as int].1@);
        }
        match &mut self.store.entries[i].1.data {
            CRDTValue::Counter(c) => {
                proof {
                    assert(s[i as int].1.data == CRDTValue::Counter(*c));
                }
                let cur = c.tally_of_decrements(&self.config.node_id);
                if numeric_val > u64::MAX - cur {
                    proof {
                        assert(self.store.entries@ =~= s);
                    }
                    return Err(ServiceError::Internal);
                }
                c.decrement(self.config.node_id.clone(), numeric_val);
                proof {
                    assert(self.store.entries@ =~= s.update(
                        i as int,
                        self.store.entries@[i as int],
                    ));
                    crate::store::lemma_store_view_update(
                        s,
                        i as int,
                        self.store.entries@[i as int],
                    );
                }
                Ok(PropagateDataResponse { success: true, response: Vec::new() })
            },
            _ => {
                proof {
                    assert(self.store.entries@ =~= s);
                }
                Err(ServiceError::InvalidArgument)
            },
        }
    }

    /// Add an element to a set key, creating the set if the key is absent.
    /// The payload is the element's UTF-8 bytes.
    pub fn handle_add_set(&mut self, key: String, raw_value_bytes: Vec<u8>, now: u64) -> (r:
        Result<PropagateDataResponse, ServiceError>)
        requires
            old(self).wf(),
        ensures
            dispatch_post(
                *old(self),
                *final(self),
                Command::SetAdd,
                key@,
                raw_value_bytes@,
                now,
                r,
            ),
    {
        let tag = match utf8_to_string(raw_value_bytes) {
            Some(t) => t,
            None => {
                return Err(ServiceError::InvalidArgument);
            },
        };
        proof {
            lemma_store_view_props(self.store.entries@);
        }
        let i = match self.store.find(&key) {
            Some(i) => i,
            None => {
                let mut set = AWSet::new();
                proof {
                    assert(set@ == empty_set_view());
                }
                set.add(tag, self.config.node_id.clone());
                self.store.put(&key, CRDTValue::AwSet(set), now);
                return Ok(PropagateDataResponse { success: true, response: Vec::new() });
            },
        };
        let ghost s = self.store.entries@;
        proof {
            assert(old(self).store@[s[i as int].0@] == s[i as int].1@);
        }
        match &mut self.store.entries[i].1.data {
            CRDTValue::AwSet(aw) => {
                proof {
                    assert(s[i as int].1.data == CRDTValue::AwSet(*aw));
                }
                if aw.clock == u64::MAX {
                    proof {
                        assert(self.store.entries@ =~= s);
                    }
                    return Err(ServiceError::Internal);
                }
                aw.add(tag, self.config.node_id.clone());
                proof {
                    assert(self.store.entries@ =~= s.update(
                        i as int,
                        self.store.entries@[i as int],
                    ));
                    crate::store::lemma_store_view_update(
                        s,
                        i as int,
                        self.store.entries@[i as int],
                    );
                }
                Ok(PropagateDataResponse { success: true, response: Vec::new() })
            },
            _ => {
                proof {
                    assert(self.store.entries@ =~= s);
                }
                Err(ServiceError::InvalidArgument)
            },
        }
    }

    /// Tombstone every observed addition of an element of a set key. The
    /// payload is the element's UTF-8 bytes.
    pub fn handle_rem_set(&mut self, key: String, raw_value_bytes: Vec<u8>) -> (r: Result<
        PropagateDataResponse,
        ServiceError,
    >)
        requires
            old(self).wf(),
        ensures
            dispatch_post(
                *old(self),
                *final(self),
                Command::SetRemove,
                key@,
                raw_value_bytes@,
                0,
                r,
            ),
    {
        let tag = match utf8_to_string(raw_value_bytes) {
            Some(t) => t,
            None => {
                return Err(ServiceError::InvalidArgument);
            },
        };
        proof {
            lemma_store_view_props(self.store.entries@);
        }
        let i = match self.store.find(&key) {
            Some(i) => i,
            None => {
                return Err(ServiceError::NotFound);
            },
        };
        let ghost s = self.store.entries@;
        proof {
            assert(old(self).store@[s[i as int].0@] == s[i as int].1@);
        }
        match &mut self.store.entries[i].1.data {
            CRDTValue::AwSet(aw) => {
                proof {
                    assert(s[i as int].1.data == CRDTValue::AwSet(*aw));
                }
                aw.remove(tag);
                proof {
                    assert(self.store.entries@ =~= s.update(
                        i as int,
                        self.store.entries@[i as int],
                    ));
                    crate::store::lemma_store_view_update(
                        s,
                        i as int,
                        self.store.entries@[i as int],
                    );
                }
                Ok(PropagateDataResponse { success: true, response: Vec::new() })
            },
            _ => {
                proof {
                    assert(self.store.entries@ =~= s);
                }
                Err(ServiceError::InvalidArgument)
            },
        }
    }

    /// Read the visible members of a set key, as a JSON array.
    pub fn handle_get_set(&mut self, key: String) -> (r: Result<
        PropagateDataResponse,
        ServiceError,
    >)
        requires
            old(self).wf(),
        ensures
            dispatch_post(
                *old(self),
                *final(self),
                Command::GetSet,
                key@,
                Seq::<u8>::empty(),
                0,
                r,
            ),
            *final(self) == *old(self),
    {
        proof {
            lemma_store_view_props(self.store.entries@);
        }
        let i = match self.store.find(&key) {
            Some(i) => i,
            None => {
                return Err(ServiceError::NotFound);
            },
        };
        match &self.store.entries[i].1.data {
            CRDTValue::AwSet(aw) => {
                let members = aw.read();
                let bytes = crate::json::json_encode_strings(&members);
                proof {
                    let ghost elems = members.deep_view();
                    assert forall|e: Seq<char>|
                        visible_elements(aw@).contains(e) <==> (#[trigger] elems.contains(
                            e,
                        )) by {
                        assert(elems.len() == members@.len());
                        assert(forall|k: int|
                            0 <= k < members@.len() ==> elems[k] == (#[trigger] members@[k])@);
                        if elems.contains(e) {
                            let k = choose|k: int| 0 <= k < elems.len() && elems[k] == e;
                            assert(members@[k]@ == e);
                        }
                        if visible_elements(aw@).contains(e) {
                            assert(names_contain(members@, e));
                            let k = choose|k: int|
                                0 <= k < members@.len() && (#[trigger] members@[k])@ == e;
                            assert(elems[k] == e);
                        }
                    }
                    assert(forall|k: int, l: int|
                        0 <= k < l < elems.len() ==> elems[k] != elems[l]);
                    assert(resp_matches(RespSpec::Members(visible_elements(aw@)), bytes@));
                }
                Ok(PropagateDataResponse { success: true, response: bytes })
            },
            _ => Err(ServiceError::InvalidArgument),
        }
    }

    /// Write a register key, creating it if absent. The payload is the
    /// value's UTF-8 bytes.
    pub fn handle_set_register(&mut self, key: String, raw_value_bytes: Vec<u8>, now: u64) -> (r:
        Result<PropagateDataResponse, ServiceError>)
        requires
            old(self).wf(),
        ensures
            dispatch_post(
                *old(self),
                *final(self),
                Command::SetRegister,
                key@,
                raw_value_bytes@,
                now,
                r,
            ),
    {
        let value = match utf8_to_string(raw_value_bytes) {
            Some(v) => v,
            None => {
                return Err(ServiceError::InvalidArgument);
            },
        };
        proof {
            lemma_store_view_props(self.store.entries@);
        }
        let i = match self.store.find(&key) {
            Some(i) => i,
            None => {
                let mut reg = LwwRegister::new(self.config.node_id.clone());
                reg.set(value, self.config.node_id.clone());
                self.store.put(&key, CRDTValue::Register(reg), now);
                return Ok(PropagateDataResponse { success: true, response: Vec::new() });
            },
        };
        let ghost s = self.store.entries@;
        proof {
            assert(old(self).store@[s[i as int].0@] == s[i as int].1@);
        }
        match &mut self.store.entries[i].1.data {
            CRDTValue::Register(reg) => {
                proof {
                    assert(s[i as int].1.data == CRDTValue::Register(*reg));
                }
                if reg.clock == u64::MAX {
                    proof {
                        assert(self.store.entries@ =~= s);
                    }
                    return Err(ServiceError::Internal);
                }
                reg.set(value, self.config.node_id.clone());
                proof {
                    assert(self.store.entries@ =~= s.update(
                        i as int,
                        self.store.entries@[i as int],
                    ));
                    crate::store::lemma_store_view_update(
                        s,
                        i as int,
                        self.store.entries@[i as int],
                    );
                }
                Ok(PropagateDataResponse { success: true, response: Vec::new() })
            },
            _ => {
                proof {
                    assert(self.store.entries@ =~= s);
                }
                Err(ServiceError::InvalidArgument)
            },
        }
    }

    /// Read a register key, as the raw UTF-8 bytes of its value.
    pub fn handle_get_register(&mut self, key: String) -> (r: Result<
        PropagateDataResponse,
        ServiceError,
    >)
        requires
            old(self).wf(),
        ensures
            dispatch_post(
                *old(self),
                *final(self),
                Command::GetRegister,
                key@,
                Seq::<u8>::empty(),
                0,
                r,
            ),
            *final(self) == *old(self),
    {
        proof {
            lemma_store_view_props(self.store.entries@);
        }
        let i = match self.store.find(&key) {
            Some(i) => i,
            None => {
                return Err(ServiceError::NotFound);
            },
        };
        match &self.store.entries[i].1.data {
            CRDTValue::Register(reg) => {
                let bytes = reg.register_state.register.as_str().as_bytes_vec();
                Ok(PropagateDataResponse { success: true, response: bytes })
            },
            _ => Err(ServiceError::InvalidArgument),
        }
    }

    /// Write a register key with its current value extended by the payload.
    pub fn handle_append_register(&mut self, key: String, raw_value_bytes: Vec<u8>) -> (r: Result<
        PropagateDataResponse,
        ServiceError,
    >)
        requires
            old(self).wf(),
        ensures
            dispatch_post(
                *old(self),
                *final(self),
                Command::AppendRegister,
                key@,
                raw_value_bytes@,
                0,
                r,
            ),
    {
        let to_append = match utf8_to_string(raw_value_bytes) {
            Some(v) => v,
            None => {
                return Err(ServiceError::InvalidArgument);
            },
        };
        proof {
            lemma_store_view_props(self.store.entries@);
        }
        let i = match self.store.find(&key) {
            Some(i) => i,
            None => {
                return Err(ServiceError::NotFound);
            },
        };
        let ghost s = self.store.entries@;
        proof {
            assert(old(self).store@[s[i as int].0@] == s[i as int].1@);
        }
        match &mut self.store.entries[i].1.data {
            CRDTValue::Register(reg) => {
                proof {
                    assert(s[i as int].1.data == CRDTValue::Register(*reg));
                }
                if reg.clock == u64::MAX {
                    proof {
                        assert(self.store.entries@ =~= s);
                    }
                    return Err(ServiceError::Internal);
                }
                reg.append(to_append, self.config.node_id.clone());
                proof {
                    assert(self.store.entries@ =~= s.update(
                        i as int,
                        self.store.entries@[i as int],
                    ));
                    crate::store::lemma_store_view_update(
                        s,
                        i as int,
                        self.store.entries@[i as int],
                    );
                }
                Ok(PropagateDataResponse { success: true, response: Vec::new() })
            },
            _ => {
                proof {
                    assert(self.store.entries@ =~= s);
                }
                Err(ServiceError::InvalidArgument)
            },
        }
    }

    /// Read the byte length of a register key's value, as eight big-endian
    /// bytes.
    pub fn handle_len_register(&mut self, key: String) -> (r: Result<
        PropagateDataResponse,
        ServiceError,
    >)
        requires
            old(self).wf(),
        ensures
            dispatch_post(
                *old(self),
                *final(self),
                Command::LenRegister,
                key@,
                Seq::<u8>::empty(),
                0,
                r,
            ),
            *final(self) == *old(self),
    {
        proof {
            lemma_store_view_props(self.store.entries@);
        }
        let i = match self.store.find(&key) {
            Some(i) => i,
            None => {
                return Err(ServiceError::NotFound);
            },
        };
        match &self.store.entries[i].1.data {
            CRDTValue::Register(reg) => {
                let n = reg.strlen();
                let bytes = u64_to_be_bytes(n as u64);
                Ok(PropagateDataResponse { success: true, response: bytes })
            },
            _ => Err(ServiceError::InvalidArgument),
        }
    }

    /// Dispatch one client command: decode the verb and hand the key and
    /// payload to its handler. An unknown verb is rejected without touching
    /// the store.
    pub fn propagate_data(&mut self, request: PropagateDataRequest, now: u64) -> (r: Result<
        PropagateDataResponse,
        ServiceError,
    >)
        requires
            old(self).wf(),
        ensures
            dispatch_post(
                *old(self),
                *final(self),
                spec_command(request.valuetype@),
                request.key@,
                request.value@,
                now,
                r,
            ),
    {
        let PropagateDataRequest { valuetype, key, value } = request;
        let command = Command::parse(valuetype.as_str());
        match command {
            Command::SetCounter => self.handle_set_counter(key, value, now),
            Command::GetCounter => self.handle_get_counter(key),
            Command::IncCounter => self.handle_inc_counter(key, value),
            Command::DecCounter => self.handle_dec_counter(key, value),
            Command::SetAdd => self.handle_add_set(key, value, now),
            Command::SetRemove => self.handle_rem_set(key, value),
            Command::GetSet => self.handle_get_set(key),
            Command::SetRegister => self.handle_set_register(key, value, now),
            Command::GetRegister => self.handle_get_register(key),
            Command::AppendRegister => self.handle_append_register(key, value),
            Command::LenRegister => self.handle_len_register(key),
            Command::Unknown => Err(ServiceError::InvalidArgument),
        }
    }
}

/// What absorbing one gossiped state does: an absent key is created with the
/// remote state; a key of the same kind takes the join, refreshing
/// `last_updated` only if the merge changed the local state; a key of
/// another kind is left alone and the entry is refused.
pub open spec fn spec_gossip_entry(
    m: Map<Seq<char>, StoredView>,
    key: Seq<char>,
    v: ValueView,
    now: u64,
) -> (Map<Seq<char>, StoredView>, bool) {
    if !m.contains_key(key) {
        (m.insert(key, StoredView { data: v, last_updated: now }), true)
    } else if same_kind(m[key].data, v) {
        let joined = value_join(m[key].data, v);
        let ts = if joined == m[key].data {
            m[key].last_updated
        } else {
            now
        };
        (m.insert(key, StoredView { data: joined, last_updated: ts }), true)
    } else {
        (m, false)
    }
}

/// What absorbing a whole batch does: entries are applied front to back,
/// each independently as `spec_gossip_entry`. A refused entry — an empty
/// envelope, or a kind mismatch — is skipped; it never rejects the rest of
/// the batch.
pub open spec fn spec_gossip_batch(
    m: Map<Seq<char>, StoredView>,
    entries: Seq<(String, CrdtData)>,
    now: u64,
) -> Map<Seq<char>, StoredView>
    decreases entries.len(),
{
    if entries.len() == 0 {
        m
    } else {
        match crdt_data_view(entries.first().1) {
            Option::None => spec_gossip_batch(m, entries.drop_first(), now),
            Option::Some(v) => {
                let stepped = spec_gossip_entry(m, entries.first().0@, v, now);
                spec_gossip_batch(stepped.0, entries.drop_first(), now)
            },
        }
    }
}

/// Whether two values are of the same CRDT kind.
fn kind_matches(a: &CRDTValue, b: &CRDTValue) -> (r: bool)
    ensures
        r == same_kind(a@, b@),
{
    match (a, b) {
        (CRDTValue::Counter(_), CRDTValue::Counter(_)) => true,
        (CRDTValue::AwSet(_), CRDTValue::AwSet(_)) => true,
        (CRDTValue::Register(_), CRDTValue::Register(_)) => true,
        _ => false,
    }
}

impl ReplicationServer {
    /// Absorb one remote state under `key`, as `spec_gossip_entry` says.
    fn apply_gossip(&mut self, key: &String, remote: CRDTValue, now: u64) -> (r: bool)
        requires
            old(self).wf(),
            remote.wf(),
        ensures
            final(self).wf(),
            final(self).config == old(self).config,
            final(self).peers == old(self).peers,
            (final(self).store@, r) == spec_gossip_entry(old(self).store@, key@, remote@, now),
    {
        proof {
            lemma_store_view_props(self.store.entries@);
        }
        let i = match self.store.find(key) {
            Some(i) => i,
            None => {
                self.store.put(key, remote, now);
                return true;
            },
        };
        let ghost s = self.store.entries@;
        proof {
            assert(old(self).store@[s[i as int].0@] == s[i as int].1@);
        }
        if !kind_matches(&self.store.entries[i].1.data, &remote) {
            return false;
        }
        let changed = !self.store.entries[i].1.data.dominates(&remote);
        self.store.entries[i].1.data.merge(&remote);
        if changed {
            self.store.entries[i].1.last_updated = now;
        }
        proof {
            assert(self.store.entries@ =~= s.update(i as int, self.store.entries@[i as int]));
            crate::store::lemma_store_view_update(s, i as int, self.store.entries@[i as int]);
        }
        true
    }

    /// Absorb a single-entry push from a peer. An envelope with no state is
    /// refused and changes nothing; one of another kind than the stored
    /// value is refused too, leaving the stored value intact.
    pub fn gossip_changes(&mut self, changes: GossipChangesRequest, now: u64) -> (r:
        GossipChangesResponse)
        requires
            old(self).wf(),
        ensures
            final(self).wf(),
            final(self).config == old(self).config,
            final(self).peers == old(self).peers,
            match changes.counter {
                Option::None => final(self).store@ == old(self).store@ && !r.success,
                Option::Some(cd) => match crdt_data_view(cd) {
                    Option::None => final(self).store@ == old(self).store@ && !r.success,
                    Option::Some(v) => (final(self).store@, r.success) == spec_gossip_entry(
                        old(self).store@,
                        changes.key@,
                        v,
                        now,
                    ),
                },
            },
    {
        let GossipChangesRequest { key, counter } = changes;
        let cd = match counter {
            Some(cd) => cd,
            None => {
                return GossipChangesResponse { success: false };
            },
        };
        let remote = match CRDTValue::from_wire(&cd) {
            Some(v) => v,
            None => {
                return GossipChangesResponse { success: false };
            },
        };
        let success = self.apply_gossip(&key, remote, now);
        GossipChangesResponse { success }
    }

    /// Absorb a batched push from a peer: each entry is applied
    /// independently, as a single-entry push would be; an entry that is
    /// refused — an empty envelope, or a kind mismatch — is skipped without
    /// rejecting the rest. Success means the batch was accepted, not that
    /// every entry was.
    pub fn gossip_batch(&mut self, batch: GossipBatchRequest, now: u64) -> (r: GossipBatchResponse)
        requires
            old(self).wf(),
        ensures
            final(self).wf(),
            final(self).config == old(self).config,
            final(self).peers == old(self).peers,
            final(self).store@ == spec_gossip_batch(old(self).store@, batch.batch@, now),
            r.success,
    {
        let entries = batch.batch;
        proof {
            assert(entries@.skip(0) =~= entries@);
        }
        let mut j: usize = 0;
        while j < entries.len()
            invariant
                j <= entries@.len(),
                entries@ == batch.batch@,
                self.wf(),
                self.config == old(self).config,
                self.peers == old(self).peers,
                spec_gossip_batch(old(self).store@, entries@, now) == spec_gossip_batch(
                    self.store@,
                    entries@.skip(j as int),
                    now,
                ),
            decreases entries@.len() - j,
        {
            let ghost rest = entries@.skip(j as int);
            proof {
                assert(rest.first() == entries@[j as int]);
                assert(rest.drop_first() =~= entries@.skip(j + 1));
            }
            match CRDTValue::from_wire(&entries[j].1) {
                Some(remote) => {
                    self.apply_gossip(&entries[j].0, remote, now);
                },
                None => {
                    proof {
                        assert(crdt_data_view(rest.first().1) is None);
                    }
                },
            }
            j += 1;
        }
        proof {
            assert(entries@.skip(entries@.len() as int) =~= Seq::<(String, CrdtData)>::empty());
        }
        GossipBatchResponse { success: true }
    }

    /// The messages of a reactive push: after a successful local mutation of
    /// `key`, the whole stored state of that key is addressed to up to `K`
    /// peers chosen at random — never to this node itself, even when its own
    /// address is configured as a peer. The caller sends them; failures are
    /// the anti-entropy loop's to repair. An absent key yields nothing.
    pub fn reactive_push(&self, key: &String) -> (r: Vec<(String, GossipChangesRequest)>)
        requires
            self.wf(),
        ensures
            !self.store@.contains_key(key@) ==> r@.len() == 0,
            self.store@.contains_key(key@) ==> {
                let others = crate::gossip::count_excluding(
                    self.peers.entries@,
                    self.config.listen_address@,
                );
                &&& (others >= K ==> r@.len() == K)
                &&& (others < K ==> r@.len() == others)
                &&& forall|k: int|
                    0 <= k < r@.len() ==> self.peers@.contains_key((#[trigger] r@[k]).0@)
                        && r@[k].0@ != self.config.listen_address@
                &&& forall|k: int|
                    0 <= k < r@.len() ==> (#[trigger] r@[k]).1.key@ == key@
                        && r@[k].1.counter is Some && crdt_data_view(r@[k].1.counter->0) == Some(
                        self.store@[key@].data,
                    )
                &&& forall|k: int, l: int| 0 <= k < l < r@.len() ==> r@[k].0@ != r@[l].0@
            },
    {
        proof {
            lemma_store_view_props(self.store.entries@);
        }
        let i = match self.store.find(key) {
            Some(i) => i,
            None => {
                proof {
                    assert(!self.store@.contains_key(key@)) by {
                        if self.store@.contains_key(key@) {
                            let j = choose|j: int|
                                0 <= j < self.store.entries@.len() && (
                                #[trigger] self.store.entries@[j]).0@ == key@;
                        }
                    }
                }
                return Vec::new();
            },
        };
        proof {
            assert(self.store@[self.store.entries@[i as int].0@] == self.store.entries@[
                i as int].1@);
        }
        let targets = self.peers.select_push_targets(&self.config.listen_address);
        let mut out: Vec<(String, GossipChangesRequest)> = Vec::new();
        let mut m: usize = 0;
        while m < targets.len()
            invariant
                m <= targets@.len(),
                out@.len() == m,
                i < self.store.entries@.len(),
                self.store@.contains_key(key@),
                self.store@[key@].data == self.store.entries@[i as int].1.data@,
                forall|k: int|
                    0 <= k < targets@.len() ==> self.peers@.contains_key((#[trigger] targets@[k])@)
                        && targets@[k]@ != self.config.listen_address@,
                forall|k: int, l: int| 0 <= k < l < targets@.len() ==> targets@[k]@ != targets@[l]@,
                forall|k: int| 0 <= k < m ==> (#[trigger] out@[k]).0@ == targets@[k]@,
                forall|k: int|
                    0 <= k < m ==> (#[trigger] out@[k]).1.key@ == key@ && out@[k].1.counter
                        is Some && crdt_data_view(out@[k].1.counter->0) == Some(
                        self.store@[key@].data,
                    ),
            decreases targets@.len() - m,
        {
            let cd = self.store.entries[i].1.data.to_wire();
            out.push((targets[m].clone(), GossipChangesRequest { key: key.clone(), counter: Some(cd) }));
            m += 1;
        }
        out
    }

    /// The anti-entropy batches for one peer: every recently updated key's
    /// whole state, in store order, split into batches of at most
    /// `BATCH_SIZE` entries. The caller sends each batch and then marks the
    /// peer contacted, whatever the outcome.
    pub fn build_gossip_batches(&self, now: u64) -> (r: Vec<GossipBatchRequest>)
        requires
            self.wf(),
        ensures
            forall|b: int| 0 <= b < r@.len() ==> (#[trigger] r@[b]).batch@.len() <= BATCH_SIZE,
            batches_entries(r@) == recent_entries(self.store.entries@, now),
    {
        let mut out: Vec<GossipBatchRequest> = Vec::new();
        let mut cur: Vec<(String, CrdtData)> = Vec::new();
        let mut i: usize = 0;
        proof {
            assert(self.store.entries@.take(0) =~= Seq::<(String, StoredValue)>::empty());
            assert(batches_entries(out@) + envelope_entries(cur@) =~= Seq::<
                (Seq<char>, Option<ValueView>),
            >::empty());
        }
        while i < self.store.entries.len()
            invariant
                i <= self.store.entries@.len(),
                self.wf(),
                cur@.len() <= BATCH_SIZE,
                forall|b: int| 0 <= b < out@.len() ==> (#[trigger] out@[b]).batch@.len()
                    <= BATCH_SIZE,
                batches_entries(out@) + envelope_entries(cur@) == recent_entries(
                    self.store.entries@.take(i as int),
                    now,
                ),
            decreases self.store.entries@.len() - i,
        {
            let ghost done = self.store.entries@.take(i as int);
            proof {
                assert(self.store.entries@.take(i + 1).drop_last() =~= done);
                assert(self.store.entries@.take(i + 1).last() == self.store.entries@[i as int]);
            }
            let lu = self.store.entries[i].1.last_updated;
            if now <= lu || now - lu < GOSSIP_PERIOD_MS {
                if cur.len() == BATCH_SIZE {
                    let ghost pre_out = out@;
                    let full = cur;
                    cur = Vec::new();
                    out.push(GossipBatchRequest { batch: full });
                    proof {
                        assert(out@.drop_last() =~= pre_out);
                        assert(envelope_entries(cur@) =~= Seq::<
                            (Seq<char>, Option<ValueView>),
                        >::empty());
                        assert(batches_entries(out@) + envelope_entries(cur@) =~= batches_entries(
                            pre_out,
                        ) + envelope_entries(out@.last().batch@));
                    }
                }
                let ghost pre_cur = cur@;
                let cd = self.store.entries[i].1.data.to_wire();
                cur.push((self.store.entries[i].0.clone(), cd));
                proof {
                    assert(cur@.drop_last() =~= pre_cur);
                    assert(envelope_entries(cur@) == envelope_entries(pre_cur).push(
                        (cur@.last().0@, crdt_data_view(cur@.last().1)),
                    ));
                    assert(batches_entries(out@) + envelope_entries(cur@) =~= recent_entries(
                        self.store.entries@.take(i + 1),
                        now,
                    ));
                }
            } else {
                proof {
                    assert(recent_entries(self.store.entries@.take(i + 1), now)
                        == recent_entries(done, now));
                }
            }
            i += 1;
        }
        proof {
            assert(self.store.entries@.take(self.store.entries@.len() as int)
                =~= self.store.entries@);
        }
        if cur.len() > 0 {
            let ghost pre_out = out@;
            out.push(GossipBatchRequest { batch: cur });
            proof {
                assert(out@.drop_last() =~= pre_out);
                assert(batches_entries(out@) =~= batches_entries(pre_out) + envelope_entries(
                    out@.last().batch@,
                ));
            }
        } else {
            proof {
                assert(envelope_entries(cur@) =~= Seq::<(Seq<char>, Option<ValueView>)>::empty());
                assert(batches_entries(out@) =~= batches_entries(out@) + envelope_entries(cur@));
            }
        }
        out
    }
}

/// The recently updated entries of the store, in order, each paired with
/// the state it holds.
pub open spec fn recent_entries(s: Seq<(String, StoredValue)>, now: u64) -> Seq<
    (Seq<char>, Option<ValueView>),
>
    decreases s.len(),
{
    if s.len() == 0 {
        Seq::empty()
    } else {
        let r = recent_entries(s.drop_last(), now);
        if recently_updated(s.last().1.last_updated, now) {
            r.push((s.last().0@, Some(s.last().1.data@)))
        } else {
            r
        }
    }
}

/// The keyed states carried by one batch, in order.
pub open spec fn envelope_entries(s: Seq<(String, CrdtData)>) -> Seq<
    (Seq<char>, Option<ValueView>),
>
    decreases s.len(),
{
    if s.len() == 0 {
        Seq::empty()
    } else {
        envelope_entries(s.drop_last()).push((s.last().0@, crdt_data_view(s.last().1)))
    }
}

/// The keyed states carried by a list of batches, in order.
pub open spec fn batches_entries(bs: Seq<GossipBatchRequest>) -> Seq<
    (Seq<char>, Option<ValueView>),
>
    decreases bs.len(),
{
    if bs.len() == 0 {
        Seq::empty()
    } else {
        batches_entries(bs.drop_last()) + envelope_entries(bs.last().batch@)
    }
}

} // verus!
