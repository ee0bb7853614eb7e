//! The keyed store: a mapping from client-supplied string keys to tagged
//! CRDT values with freshness metadata. The value kind of a key is decided by
//! the first command that creates it; later commands of an incompatible kind
//! fail and leave the stored value untouched. `last_updated` records the
//! local wall clock (in milliseconds) at insertion and at any merge that
//! changed state; it drives anti-entropy candidate selection and carries no
//! CRDT meaning.

use vstd::prelude::*;

use crate::aw_set::{set_join, AWSet, SetView};
use crate::codec::{AwSetMessage, CrdtData, Data, LwwRegisterMessage, PnCounterMessage};
use crate::lww_register::{register_join, LwwRegister, RegisterView};
use crate::pn_counter::{counter_join, CounterView, PNCounter};

verus! {

/// The closed sum of the value kinds a key can hold.
pub enum CRDTValue {
    Counter(PNCounter),
    AwSet(AWSet),
    Register(LwwRegister),
}

/// The mathematical state of a stored value.
pub enum ValueView {
    Counter(CounterView),
    AwSet(SetView),
    Register(RegisterView),
}

impl View for CRDTValue {
    type V = ValueView;

    open spec fn view(&self) -> ValueView {
        match self {
            CRDTValue::Counter(c) => ValueView::Counter(c@),
            CRDTValue::AwSet(s) => ValueView::AwSet(s@),
            CRDTValue::Register(r) => ValueView::Register(r@),
        }
    }
}

/// Two stored states are of the same kind when they came from the same CRDT.
pub open spec fn same_kind(a: ValueView, b: ValueView) -> bool {
    match (a, b) {
        (ValueView::Counter(_), ValueView::Counter(_)) => true,
        (ValueView::AwSet(_), ValueView::AwSet(_)) => true,
        (ValueView::Register(_), ValueView::Register(_)) => true,
        _ => false,
    }
}

/// The join of two stored states of the same kind.
pub open spec fn value_join(a: ValueView, b: ValueView) -> ValueView
    recommends
        same_kind(a, b),
{
    match (a, b) {
        (ValueView::Counter(x), ValueView::Counter(y)) => ValueView::Counter(counter_join(x, y)),
        (ValueView::AwSet(x), ValueView::AwSet(y)) => ValueView::AwSet(set_join(x, y)),
        (ValueView::Register(x), ValueView::Register(y)) => ValueView::Register(
            register_join(x, y),
        ),
        _ => a,
    }
}

/// The state carried by a gossip envelope, when it carries one.
pub open spec fn crdt_data_view(c: CrdtData) -> Option<ValueView> {
    match c.data {
        Option::None => Option::None,
        Option::Some(Data::PnCounter(m)) => Option::Some(ValueView::Counter(m@)),
        Option::Some(Data::AwSet(m)) => Option::Some(ValueView::AwSet(m@)),
        Option::Some(Data::Register(m)) => Option::Some(ValueView::Register(m@)),
    }
}

impl CRDTValue {
    /// The structural invariants of the underlying CRDT representation.
    pub open spec fn wf(&self) -> bool {
        match self {
            CRDTValue::Counter(c) => c.wf(),
            CRDTValue::AwSet(s) => s.wf(),
            CRDTValue::Register(_) => true,
        }
    }

    /// Encode this value into a gossip envelope carrying the same state.
    pub fn to_wire(&self) -> (r: CrdtData)
        ensures
            crdt_data_view(r) == Some(self@),
    {
        let data = match self {
            CRDTValue::Counter(c) => Data::PnCounter(c.to_wire()),
            CRDTValue::AwSet(s) => Data::AwSet(s.to_wire()),
            CRDTValue::Register(r) => Data::Register(r.to_wire()),
        };
        CrdtData { data: Some(data) }
    }

    /// Decode the state carried by a gossip envelope, if any.
    pub fn from_wire(w: &CrdtData) -> (r: Option<Self>)
        ensures
            match r {
                Some(v) => v.wf() && crdt_data_view(*w) == Some(v@),
                None => crdt_data_view(*w) is None,
            },
    {
        match &w.data {
            None => None,
            Some(Data::PnCounter(m)) => Some(CRDTValue::Counter(PNCounter::from_wire(m))),
            Some(Data::AwSet(m)) => Some(CRDTValue::AwSet(AWSet::from_wire(m))),
            Some(Data::Register(m)) => Some(CRDTValue::Register(LwwRegister::from_wire(m))),
        }
    }

    /// Merge a state of the same kind into this one.
    pub fn merge(&mut self, other: &Self)
        requires
            old(self).wf(),
            other.wf(),
            same_kind(old(self)@, other@),
        ensures
            final(self).wf(),
            final(self)@ == value_join(old(self)@, other@),
    {
        match (self, other) {
            (CRDTValue::Counter(c), CRDTValue::Counter(o)) => c.merge(o),
            (CRDTValue::AwSet(s), CRDTValue::AwSet(o)) => s.merge(o),
            (CRDTValue::Register(r), CRDTValue::Register(o)) => r.merge(o),
            _ => {
                proof {
                    assert(false);
                }
            },
        }
    }

    /// Whether merging `other` into this value would change nothing.
    pub fn dominates(&self, other: &Self) -> (r: bool)
        requires
            self.wf(),
            other.wf(),
            same_kind(self@, other@),
        ensures
            r == (value_join(self@, other@) == self@),
    {
        match (self, other) {
            (CRDTValue::Counter(c), CRDTValue::Counter(o)) => c.dominates(o),
            (CRDTValue::AwSet(s), CRDTValue::AwSet(o)) => s.dominates(o),
            (CRDTValue::Register(r), CRDTValue::Register(o)) => r.dominates(o),
            _ => {
                proof {
                    assert(false);
                }
                false
            },
        }
    }
}

/// Register states written by the same node at the same clock tick carry the
/// same value; between replicas of one register this always holds, since a
/// stamp is drawn once. The other kinds need no such side condition.
pub open spec fn stamps_coherent(a: ValueView, b: ValueView) -> bool {
    match (a, b) {
        (ValueView::Register(x), ValueView::Register(y)) => x.counter == y.counter && x.node_id
            == y.node_id ==> x.value == y.value,
        _ => true,
    }
}

/// Merging stored values of one kind is commutative.
pub proof fn lemma_value_merge_comm(a: ValueView, b: ValueView)
    requires
        same_kind(a, b),
        stamps_coherent(a, b),
    ensures
        value_join(a, b) == value_join(b, a),
{
    match (a, b) {
        (ValueView::Counter(x), ValueView::Counter(y)) => {
            crate::pn_counter::lemma_counter_merge_comm(x, y);
        },
        (ValueView::AwSet(x), ValueView::AwSet(y)) => {
            crate::aw_set::lemma_set_merge_comm(x, y);
        },
        (ValueView::Register(x), ValueView::Register(y)) => {
            crate::lww_register::lemma_register_merge_comm(x, y);
        },
        _ => {},
    }
}

/// Merging stored values of one kind is associative.
pub proof fn lemma_value_merge_assoc(a: ValueView, b: ValueView, c: ValueView)
    requires
        same_kind(a, b),
        same_kind(b, c),
        stamps_coherent(a, b),
        stamps_coherent(b, c),
        stamps_coherent(a, c),
    ensures
        value_join(value_join(a, b), c) == value_join(a, value_join(b, c)),
{
    match (a, b) {
        (ValueView::Counter(x), ValueView::Counter(y)) => {
            match c {
                ValueView::Counter(z) => {
                    crate::pn_counter::lemma_counter_merge_assoc(x, y, z);
                },
                _ => {},
            }
        },
        (ValueView::AwSet(x), ValueView::AwSet(y)) => {
            match c {
                ValueView::AwSet(z) => {
                    crate::aw_set::lemma_set_merge_assoc(x, y, z);
                },
                _ => {},
            }
        },
        (ValueView::Register(x), ValueView::Register(y)) => {
            match c {
                ValueView::Register(z) => {
                    crate::lww_register::lemma_register_merge_assoc(x, y, z);
                },
                _ => {},
            }
        },
        _ => {},
    }
}

/// Merging a stored value with itself changes nothing.
pub proof fn lemma_value_merge_idem(a: ValueView)
    ensures
        value_join(a, a) == a,
{
    match a {
        ValueView::Counter(x) => {
            crate::pn_counter::lemma_counter_merge_idem(x);
        },
        ValueView::AwSet(x) => {
            crate::aw_set::lemma_set_merge_idem(x);
        },
        ValueView::Register(x) => {
            crate::lww_register::lemma_register_merge_idem(x);
        },
    }
}

/// A stored value: the CRDT state and the wall clock of its last local
/// insertion or state-changing merge, in milliseconds.
pub struct StoredValue {
    pub data: CRDTValue,
    pub last_updated: u64,
}

/// The mathematical state of a store entry.
pub struct StoredView {
    pub data: ValueView,
    pub last_updated: u64,
}

impl View for StoredValue {
    type V = StoredView;

    open spec fn view(&self) -> StoredView {
        StoredView { data: self.data@, last_updated: self.last_updated }
    }
}

/// The model of the entry list: keys folded into a map, later entries
/// overriding earlier ones.
pub open spec fn store_view(s: Seq<(String, StoredValue)>) -> Map<Seq<char>, StoredView>
    decreases s.len(),
{
    if s.len() == 0 {
        Map::empty()
    } else {
        store_view(s.drop_last()).insert(s.last().0@, s.last().1@)
    }
}

pub open spec fn store_keys_unique(s: Seq<(String, StoredValue)>) -> bool {
    forall|i: int, j: int| 0 <= i < j < s.len() ==> s[i].0@ != s[j].0@
}

/// The keyed store itself.
pub struct Store {
    pub entries: Vec<(String, StoredValue)>,
}

impl View for Store {
    type V = Map<Seq<char>, StoredView>;

    open spec fn view(&self) -> Map<Seq<char>, StoredView> {
        store_view(self.entries@)
    }
}

/// The domain of the entry list's view is exactly its set of keys, and under
/// uniqueness each entry is mapped to its listed value.
pub proof fn lemma_store_view_props(s: Seq<(String, StoredValue)>)
    requires
        store_keys_unique(s),
    ensures
        forall|k: Seq<char>|
            store_view(s).contains_key(k) <==> exists|i: int|
                0 <= i < s.len() && (#[trigger] s[i]).0@ == k,
        forall|i: int| 0 <= i < s.len() ==> store_view(s)[(#[trigger] s[i]).0@] == s[i].1@,
    decreases s.len(),
{
    if s.len() > 0 {
        let t = s.drop_last();
        lemma_store_view_props(t);
        assert forall|k: Seq<char>| store_view(s).contains_key(k) implies exists|i: int|
            0 <= i < s.len() && (#[trigger] s[i]).0@ == k by {
            if k == s.last().0@ {
                assert(s[s.len() - 1].0@ == k);
            } else {
                assert(store_view(t).contains_key(k));
                let i = choose|i: int| 0 <= i < t.len() && (#[trigger] t[i]).0@ == k;
                assert(s[i].0@ == k);
            }
        }
        assert forall|k: Seq<char>|
            (exists|i: int| 0 <= i < s.len() && (#[trigger] s[i]).0@ == k) implies store_view(
            s,
        ).contains_key(k) by {
            let i = choose|i: int| 0 <= i < s.len() && (#[trigger] s[i]).0@ == k;
            if i < s.len() - 1 {
                assert(t[i].0@ == k);
                assert(store_view(t).contains_key(k));
            }
        }
        assert forall|i: int| 0 <= i < s.len() implies store_view(s)[(#[trigger] s[i]).0@]
            == s[i].1@ by {
            if i < s.len() - 1 {
                assert(t[i] == s[i]);
                assert(s[i].0@ != s.last().0@);
            }
        }
    }
}

pub proof fn lemma_store_view_push(s: Seq<(String, StoredValue)>, p: (String, StoredValue))
    ensures
        store_view(s.push(p)) == store_view(s).insert(p.0@, p.1@),
{
    assert(s.push(p).drop_last() =~= s);
    assert(s.push(p).last() == p);
}

/// Overwriting the entry at `i` with the same key updates the view at that key.
pub proof fn lemma_store_view_update(s: Seq<(String, StoredValue)>, i: int, p: (String, StoredValue))
    requires
        store_keys_unique(s),
        0 <= i < s.len(),
        p.0@ == s[i].0@,
    ensures
        store_view(s.update(i, p)) == store_view(s).insert(p.0@, p.1@),
        store_keys_unique(s.update(i, p)),
    decreases s.len(),
{
    let u = s.update(i, p);
    if i == s.len() - 1 {
        assert(u.drop_last() =~= s.drop_last());
        assert(u.last() == p);
        assert(store_view(s.drop_last()).insert(s[i].0@, s[i].1@).insert(p.0@, p.1@)
            =~= store_view(s.drop_last()).insert(p.0@, p.1@));
    } else {
        assert(u.drop_last() =~= s.drop_last().update(i, p));
        assert(u.last() == s.last());
        lemma_store_view_update(s.drop_last(), i, p);
        assert(s[i].0@ != s.last().0@);
        assert(store_view(s.drop_last()).insert(p.0@, p.1@).insert(s.last().0@, s.last().1@)
            =~= store_view(s.drop_last()).insert(s.last().0@, s.last().1@).insert(p.0@, p.1@));
    }
}

impl Store {
    /// Keys are unique and every stored value is well-formed.
    pub open spec fn wf(&self) -> bool {
        store_keys_unique(self.entries@) && forall|i: int|
            0 <= i < self.entries@.len() ==> (#[trigger] self.entries@[i]).1.data.wf()
    }

    /// An empty store.
    pub fn new() -> (r: Self)
        ensures
            r.wf(),
            r@ == Map::<Seq<char>, StoredView>::empty(),
    {
        Store { entries: Vec::new() }
    }

    /// Index of the entry holding `key`, if the store holds one.
    pub fn find(&self, key: &String) -> (r: Option<usize>)
        ensures
            match r {
                Some(i) => i < self.entries@.len() && self.entries@[i as int].0@ == key@,
                None => forall|i: int|
                    0 <= i < self.entries@.len() ==> (#[trigger] self.entries@[i]).0@ != key@,
            },
    {
        let mut i: usize = 0;
        while i < self.entries.len()
            invariant
                i <= self.entries@.len(),
                forall|j: int| 0 <= j < i ==> (#[trigger] self.entries@[j]).0@ != key@,
            decreases self.entries@.len() - i,
        {
            if self.entries[i].0 == *key {
                return Some(i);
            }
            i += 1;
        }
        None
    }

    /// Record `data` for `key`, inserting or overwriting, stamped `now`.
    pub fn put(&mut self, key: &String, data: CRDTValue, now: u64)
        requires
            old(self).wf(),
            data.wf(),
        ensures
            final(self).wf(),
            final(self)@ == old(self)@.insert(key@, StoredView { data: data@, last_updated: now }),
    {
        let v = StoredValue { data, last_updated: now };
        match self.find(key) {
            Some(i) => {
                let ghost s = self.entries@;
                let k = key.clone();
                self.entries[i] = (k, v);
                proof {
                    lemma_store_view_update(s, i as int, self.entries@[i as int]);
                }
            },
            None => {
                let ghost s = self.entries@;
                let k = key.clone();
                self.entries.push((k, v));
                proof {
                    lemma_store_view_push(s, self.entries@.last());
                    assert forall|a: int, b: int|
                        0 <= a < b < self.entries@.len() implies (#[trigger] self.entries@[a]).0@
                        != (#[trigger] self.entries@[b]).0@ by {
                        if b == self.entries@.len() - 1 {
                            assert(s[a].0@ != key@);
                        }
                    }
                }
            },
        }
    }
}

} // verus!
