//! The wire representation: a tagged envelope carrying one CRDT state, the
//! request and response shapes of the replication service, and the big-endian
//! integer conventions of the client payloads. Conversions between in-memory
//! values and wire messages are total and lossless: both sides of each
//! conversion carry the same mathematical state, so decoding an encoding
//! yields an equal value.

use vstd::prelude::*;

use crate::aw_set::{dots_view, tags_view, tags_keys_unique, AWSet, Dot, SetView};
use crate::lww_register::{Dot as RegisterDot, LwwRegister, RegisterView};
use crate::pn_counter::{CounterView, PNCounter};
use crate::tally::{tally_keys_unique, tally_view};

verus! {

/// The eight bytes of `x`, most significant first.
pub open spec fn spec_u64_to_be_bytes(x: u64) -> Seq<u8> {
    seq![
        ((x >> 56) & 0xff) as u8,
        ((x >> 48) & 0xff) as u8,
        ((x >> 40) & 0xff) as u8,
        ((x >> 32) & 0xff) as u8,
        ((x >> 24) & 0xff) as u8,
        ((x >> 16) & 0xff) as u8,
        ((x >> 8) & 0xff) as u8,
        (x & 0xff) as u8,
    ]
}

/// The unsigned 64-bit value read from eight bytes, most significant first.
pub open spec fn spec_u64_from_be_bytes(s: Seq<u8>) -> u64
    recommends
        s.len() == 8,
{
    (
    (s[0] as u64) << 56 | (s[1] as u64) << 48 | (s[2] as u64) << 40 | (s[3] as u64) << 32 | (
    s[4] as u64) << 24 | (s[5] as u64) << 16 | (s[6] as u64) << 8 | (s[7] as u64))
}

/// A signed value travels as the eight bytes of its two's-complement bits.
pub open spec fn spec_i64_to_be_bytes(x: i64) -> Seq<u8> {
    spec_u64_to_be_bytes(x as u64)
}

/// Writing eight bytes and reading them back yields the value, and reading
/// eight bytes and writing them back yields the bytes.
pub proof fn lemma_u64_be_bytes_round_trip(x: u64, s: Seq<u8>)
    requires
        s.len() == 8,
    ensures
        spec_u64_to_be_bytes(x).len() == 8,
        spec_u64_from_be_bytes(spec_u64_to_be_bytes(x)) == x,
        spec_u64_to_be_bytes(spec_u64_from_be_bytes(s)) == s,
{
    let b = spec_u64_to_be_bytes(x);
    assert(spec_u64_from_be_bytes(b) == x) by {
        assert(((x >> 56) & 0xff) < 256 && ((x >> 48) & 0xff) < 256 && ((x >> 40) & 0xff) < 256
            && ((x >> 32) & 0xff) < 256 && ((x >> 24) & 0xff) < 256 && ((x >> 16) & 0xff) < 256
            && ((x >> 8) & 0xff) < 256 && (x & 0xff) < 256) by (bit_vector);
        assert((((x >> 56) & 0xff) as u8 as u64) << 56 | (((x >> 48) & 0xff) as u8 as u64) << 48
            | (((x >> 40) & 0xff) as u8 as u64) << 40 | (((x >> 32) & 0xff) as u8 as u64) << 32 | ((
        (x >> 24) & 0xff) as u8 as u64) << 24 | (((x >> 16) & 0xff) as u8 as u64) << 16 | (((x >> 8)
            & 0xff) as u8 as u64) << 8 | ((x & 0xff) as u8 as u64) == x) by (bit_vector);
    }
    let y = spec_u64_from_be_bytes(s);
    let s0 = s[0] as u64;
    let s1 = s[1] as u64;
    let s2 = s[2] as u64;
    let s3 = s[3] as u64;
    let s4 = s[4] as u64;
    let s5 = s[5] as u64;
    let s6 = s[6] as u64;
    let s7 = s[7] as u64;
    assert((s0 < 256 && s1 < 256 && s2 < 256 && s3 < 256 && s4 < 256 && s5 < 256 && s6 < 256 && s7
        < 256 && y == s0 << 56 | s1 << 48 | s2 << 40 | s3 << 32 | s4 << 24 | s5 << 16 | s6 << 8
        | s7) ==> (((y >> 56) & 0xff) == s0 && ((y >> 48) & 0xff) == s1 && ((y >> 40) & 0xff) == s2
        && ((y >> 32) & 0xff) == s3 && ((y >> 24) & 0xff) == s4 && ((y >> 16) & 0xff) == s5 && ((y
        >> 8) & 0xff) == s6 && (y & 0xff) == s7)) by (bit_vector);
    assert(spec_u64_to_be_bytes(y) =~= s);
}

/// Encode `x` as eight bytes, most significant first.
pub fn u64_to_be_bytes(x: u64) -> (s: Vec<u8>)
    ensures
        s@ == spec_u64_to_be_bytes(x),
{
    proof {
        assert(((x >> 56) & 0xff) < 256 && ((x >> 48) & 0xff) < 256 && ((x >> 40) & 0xff) < 256
            && ((x >> 32) & 0xff) < 256 && ((x >> 24) & 0xff) < 256 && ((x >> 16) & 0xff) < 256
            && ((x >> 8) & 0xff) < 256 && (x & 0xff) < 256) by (bit_vector);
    }
    let mut s: Vec<u8> = Vec::new();
    s.push(((x >> 56) & 0xff) as u8);
    s.push(((x >> 48) & 0xff) as u8);
    s.push(((x >> 40) & 0xff) as u8);
    s.push(((x >> 32) & 0xff) as u8);
    s.push(((x >> 24) & 0xff) as u8);
    s.push(((x >> 16) & 0xff) as u8);
    s.push(((x >> 8) & 0xff) as u8);
    s.push((x & 0xff) as u8);
    proof {
        assert(s@ =~= spec_u64_to_be_bytes(x));
    }
    s
}

/// Decode eight bytes, most significant first.
pub fn u64_from_be_bytes(s: &Vec<u8>) -> (x: u64)
    requires
        s@.len() == 8,
    ensures
        x == spec_u64_from_be_bytes(s@),
{
    (s[0] as u64) << 56 | (s[1] as u64) << 48 | (s[2] as u64) << 40 | (s[3] as u64) << 32 | (
    s[4] as u64) << 24 | (s[5] as u64) << 16 | (s[6] as u64) << 8 | (s[7] as u64)
}

/// Encode a signed value as the eight bytes of its two's-complement bits.
pub fn i64_to_be_bytes(x: i64) -> (s: Vec<u8>)
    ensures
        s@ == spec_i64_to_be_bytes(x),
{
    u64_to_be_bytes(x as u64)
}

/// A PN-Counter on the wire: both tally maps, as listed pairs.
#[derive(Debug)]
pub struct PnCounterMessage {
    pub p: Vec<(String, u64)>,
    pub n: Vec<(String, u64)>,
}

impl View for PnCounterMessage {
    type V = CounterView;

    open spec fn view(&self) -> CounterView {
        CounterView { p: tally_view(self.p@), n: tally_view(self.n@) }
    }
}

/// A dot on the wire.
#[derive(Debug)]
pub struct ProtoDot {
    pub node_id: String,
    pub counter: u64,
}

pub open spec fn proto_dot_view(d: ProtoDot) -> (Seq<char>, u64) {
    (d.node_id@, d.counter)
}

/// A set of dots on the wire.
#[derive(Debug)]
pub struct ProtoDotSet {
    pub dots: Vec<ProtoDot>,
}

pub open spec fn proto_dots_view(s: Seq<ProtoDot>) -> Set<(Seq<char>, u64)>
    decreases s.len(),
{
    if s.len() == 0 {
        Set::empty()
    } else {
        proto_dots_view(s.drop_last()).insert(proto_dot_view(s.last()))
    }
}

pub open spec fn proto_tags_view(s: Seq<(String, ProtoDotSet)>) -> Map<
    Seq<char>,
    Set<(Seq<char>, u64)>,
>
    decreases s.len(),
{
    if s.len() == 0 {
        Map::empty()
    } else {
        proto_tags_view(s.drop_last()).insert(s.last().0@, proto_dots_view(s.last().1.dots@))
    }
}

/// An AW-Set on the wire.
#[derive(Debug)]
pub struct AwSetMessage {
    pub clock: u64,
    pub add_tags: Vec<(String, ProtoDotSet)>,
    pub remove_tags: Vec<(String, ProtoDotSet)>,
}

impl View for AwSetMessage {
    type V = SetView;

    open spec fn view(&self) -> SetView {
        SetView {
            clock: self.clock,
            adds: proto_tags_view(self.add_tags@),
            removes: proto_tags_view(self.remove_tags@),
        }
    }
}

/// An LWW-Register on the wire.
#[derive(Debug)]
pub struct LwwRegisterMessage {
    pub clock: u64,
    pub node_id: String,
    pub counter: u64,
    pub value: String,
}

impl View for LwwRegisterMessage {
    type V = RegisterView;

    open spec fn view(&self) -> RegisterView {
        RegisterView {
            clock: self.clock,
            node_id: self.node_id@,
            counter: self.counter,
            value: self.value@,
        }
    }
}

/// The tagged union carried by the gossip envelope.
#[derive(Debug)]
pub enum Data {
    PnCounter(PnCounterMessage),
    AwSet(AwSetMessage),
    Register(LwwRegisterMessage),
}

/// The gossip envelope: one CRDT state, or nothing.
#[derive(Debug)]
pub struct CrdtData {
    pub data: Option<Data>,
}

/// The client-facing request: a command verb, a key and a raw payload.
#[derive(Debug)]
pub struct PropagateDataRequest {
    pub valuetype: String,
    pub key: String,
    pub value: Vec<u8>,
}

#[derive(Debug)]
pub struct PropagateDataResponse {
    pub success: bool,
    pub response: Vec<u8>,
}

/// A single-entry push from a peer. The envelope field is named after the
/// first CRDT that travelled in it.
#[derive(Debug)]
pub struct GossipChangesRequest {
    pub key: String,
    pub counter: Option<CrdtData>,
}

#[derive(Debug)]
pub struct GossipChangesResponse {
    pub success: bool,
}

/// A batched push from a peer: many keyed envelopes.
#[derive(Debug)]
pub struct GossipBatchRequest {
    pub batch: Vec<(String, CrdtData)>,
}

#[derive(Debug)]
pub struct GossipBatchResponse {
    pub success: bool,
}

/// A field-by-field copy of a tally list.
pub fn copy_tallies(v: &Vec<(String, u64)>) -> (r: Vec<(String, u64)>)
    ensures
        r@ == v@,
{
    let mut r: Vec<(String, u64)> = Vec::new();
    let mut i: usize = 0;
    while i < v.len()
        invariant
            i <= v@.len(),
            r@ == v@.take(i as int),
        decreases v@.len() - i,
    {
        r.push((v[i].0.clone(), v[i].1));
        proof {
            assert(r@ =~= v@.take(i + 1));
        }
        i += 1;
    }
    proof {
        assert(v@.take(v@.len() as int) =~= v@);
    }
    r
}

impl PNCounter {
    /// Encode this counter for the wire; the message carries the same state.
    pub fn to_wire(&self) -> (r: PnCounterMessage)
        ensures
            r@ == self@,
    {
        PnCounterMessage { p: copy_tallies(&self.p), n: copy_tallies(&self.n) }
    }

    /// Decode a counter from the wire; the result carries the same state.
    /// Repeated keys — which a well-formed sender never produces — are
    /// resolved in favour of the later entry, as the view is.
    pub fn from_wire(w: &PnCounterMessage) -> (r: Self)
        ensures
            r.wf(),
            r@ == w@,
    {
        PNCounter { p: normalize_tallies(&w.p), n: normalize_tallies(&w.n) }
    }
}

/// Lists with pointwise equal dot fields have the same model on both sides
/// of the wire.
proof fn lemma_dot_lists_agree(a: Seq<ProtoDot>, b: Seq<Dot>)
    requires
        a.len() == b.len(),
        forall|i: int|
            0 <= i < a.len() ==> proto_dot_view(#[trigger] a[i]) == crate::aw_set::dot_view(b[i]),
    ensures
        proto_dots_view(a) == dots_view(b),
    decreases a.len(),
{
    if a.len() > 0 {
        assert(forall|i: int|
            0 <= i < a.len() - 1 ==> proto_dot_view(#[trigger] a.drop_last()[i])
                == crate::aw_set::dot_view(b.drop_last()[i]));
        lemma_dot_lists_agree(a.drop_last(), b.drop_last());
    }
}

proof fn lemma_proto_tags_view_push(s: Seq<(String, ProtoDotSet)>, p: (String, ProtoDotSet))
    ensures
        proto_tags_view(s.push(p)) == proto_tags_view(s).insert(p.0@, proto_dots_view(p.1.dots@)),
{
    assert(s.push(p).drop_last() =~= s);
    assert(s.push(p).last() == p);
}

/// Encode a dot list for the wire.
fn dots_to_wire(v: &Vec<Dot>) -> (r: ProtoDotSet)
    ensures
        proto_dots_view(r.dots@) == dots_view(v@),
{
    let mut dots: Vec<ProtoDot> = Vec::new();
    let mut i: usize = 0;
    while i < v.len()
        invariant
            i <= v@.len(),
            dots@.len() == i,
            forall|j: int|
                0 <= j < i ==> proto_dot_view(#[trigger] dots@[j]) == crate::aw_set::dot_view(
                    v@[j],
                ),
        decreases v@.len() - i,
    {
        dots.push(ProtoDot { node_id: v[i].node_id.clone(), counter: v[i].counter });
        i += 1;
    }
    proof {
        assert(dots@.len() == v@.len());
        lemma_dot_lists_agree(dots@, v@);
    }
    ProtoDotSet { dots }
}

/// Decode a dot list from the wire.
fn dots_from_wire(v: &Vec<ProtoDot>) -> (r: Vec<Dot>)
    ensures
        dots_view(r@) == proto_dots_view(v@),
{
    let mut dots: Vec<Dot> = Vec::new();
    let mut i: usize = 0;
    while i < v.len()
        invariant
            i <= v@.len(),
            dots@.len() == i,
            forall|j: int|
                0 <= j < i ==> proto_dot_view(v@[j]) == crate::aw_set::dot_view(
                    #[trigger] dots@[j],
                ),
        decreases v@.len() - i,
    {
        dots.push(Dot { node_id: v[i].node_id.clone(), counter: v[i].counter });
        i += 1;
    }
    proof {
        assert(v@.len() == dots@.len());
        lemma_dot_lists_agree(v@, dots@);
    }
    dots
}

/// Encode a tag list for the wire; the message carries the same map.
fn tags_to_wire(v: &Vec<(String, Vec<Dot>)>) -> (r: Vec<(String, ProtoDotSet)>)
    ensures
        proto_tags_view(r@) == tags_view(v@),
{
    let mut r: Vec<(String, ProtoDotSet)> = Vec::new();
    let mut i: usize = 0;
    while i < v.len()
        invariant
            i <= v@.len(),
            proto_tags_view(r@) == tags_view(v@.take(i as int)),
        decreases v@.len() - i,
    {
        let ghost pre = r@;
        let converted = dots_to_wire(&v[i].1);
        r.push((v[i].0.clone(), converted));
        proof {
            lemma_proto_tags_view_push(pre, r@.last());
            assert(v@.take(i + 1).drop_last() =~= v@.take(i as int));
            assert(v@.take(i + 1).last() == v@[i as int]);
        }
        i += 1;
    }
    proof {
        assert(v@.take(v@.len() as int) =~= v@);
    }
    r
}

/// Decode a tag list from the wire, re-inserting entries in order so that
/// keys are unique while the map is kept.
fn tags_from_wire(v: &Vec<(String, ProtoDotSet)>) -> (r: Vec<(String, Vec<Dot>)>)
    ensures
        tags_keys_unique(r@),
        tags_view(r@) == proto_tags_view(v@),
{
    let mut r: Vec<(String, Vec<Dot>)> = Vec::new();
    let mut i: usize = 0;
    while i < v.len()
        invariant
            i <= v@.len(),
            tags_keys_unique(r@),
            tags_view(r@) == proto_tags_view(v@.take(i as int)),
        decreases v@.len() - i,
    {
        let converted = dots_from_wire(&v[i].1.dots);
        crate::aw_set::tags_put(&mut r, &v[i].0, converted);
        proof {
            assert(v@.take(i + 1).drop_last() =~= v@.take(i as int));
            assert(v@.take(i + 1).last() == v@[i as int]);
        }
        i += 1;
    }
    proof {
        assert(v@.take(v@.len() as int) =~= v@);
    }
    r
}

impl AWSet {
    /// Encode this set for the wire; the message carries the same state.
    pub fn to_wire(&self) -> (r: AwSetMessage)
        ensures
            r@ == self@,
    {
        AwSetMessage {
            clock: self.clock,
            add_tags: tags_to_wire(&self.add_tags),
            remove_tags: tags_to_wire(&self.remove_tags),
        }
    }

    /// Decode a set from the wire; the result carries the same state.
    pub fn from_wire(w: &AwSetMessage) -> (r: Self)
        ensures
            r.wf(),
            r@ == w@,
    {
        AWSet {
            clock: w.clock,
            add_tags: tags_from_wire(&w.add_tags),
            remove_tags: tags_from_wire(&w.remove_tags),
        }
    }
}

impl LwwRegister {
    /// Encode this register for the wire; the message carries the same state.
    pub fn to_wire(&self) -> (r: LwwRegisterMessage)
        ensures
            r@ == self@,
    {
        LwwRegisterMessage {
            clock: self.clock,
            node_id: self.register_state.node_id.clone(),
            counter: self.register_state.counter,
            value: self.register_state.register.clone(),
        }
    }

    /// Decode a register from the wire; the result carries the same state.
    pub fn from_wire(w: &LwwRegisterMessage) -> (r: Self)
        ensures
            r@ == w@,
    {
        LwwRegister {
            clock: w.clock,
            register_state: RegisterDot {
                node_id: w.node_id.clone(),
                counter: w.counter,
                register: w.value.clone(),
            },
        }
    }
}

/// Re-insert every entry in order, so that keys are unique and the view is
/// kept.
fn normalize_tallies(v: &Vec<(String, u64)>) -> (r: Vec<(String, u64)>)
    ensures
        tally_keys_unique(r@),
        tally_view(r@) == tally_view(v@),
{
    let mut r: Vec<(String, u64)> = Vec::new();
    let mut i: usize = 0;
    while i < v.len()
        invariant
            i <= v@.len(),
            tally_keys_unique(r@),
            tally_view(r@) == tally_view(v@.take(i as int)),
        decreases v@.len() - i,
    {
        proof {
            assert(v@.take(i + 1).drop_last() =~= v@.take(i as int));
            assert(v@.take(i + 1).last() == v@[i as int]);
        }
        crate::tally::tally_put(&mut r, &v[i].0, v[i].1);
        i += 1;
    }
    proof {
        assert(v@.take(v@.len() as int) =~= v@);
    }
    r
}

} // verus!
