//! The last-writer-wins register: a string value stamped with the writing
//! node's logical clock and identifier. A merge adopts the other side's state
//! exactly when its stamp `(counter, node_id)` is lexicographically greater —
//! a higher counter wins, and on equal counters the greater node identifier
//! wins — so concurrent writes resolve the same way on every replica.

use vstd::prelude::*;
use vstd::string::StringExecFns;

use crate::NodeId;
use crate::tally::max_u64;
use crate::text::{lemma_lex_lt_irrefl, lemma_lex_lt_total, lemma_lex_lt_trans, lex_lt, str_lt};

verus! {

/// The stamped value held by a register: which node wrote it, at which count
/// of that register's logical clock, and the written string.
#[derive(Debug, Clone)]
pub struct Dot {
    pub node_id: NodeId,
    pub counter: u64,
    pub register: String,
}

/// The mathematical state of a register.
pub struct RegisterView {
    pub clock: u64,
    pub node_id: Seq<char>,
    pub counter: u64,
    pub value: Seq<char>,
}

/// The order on write stamps: higher counter wins; on a tie the
/// lexicographically greater node identifier wins.
pub open spec fn stamp_lt(c1: u64, n1: Seq<char>, c2: u64, n2: Seq<char>) -> bool {
    c1 < c2 || (c1 == c2 && lex_lt(n1, n2))
}

/// The join of two register states: the state with the greater stamp, and
/// the maximum of the two clocks.
pub open spec fn register_join(a: RegisterView, b: RegisterView) -> RegisterView {
    if stamp_lt(a.counter, a.node_id, b.counter, b.node_id) {
        RegisterView {
            clock: max_u64(a.clock, b.clock),
            node_id: b.node_id,
            counter: b.counter,
            value: b.value,
        }
    } else {
        RegisterView {
            clock: max_u64(a.clock, b.clock),
            node_id: a.node_id,
            counter: a.counter,
            value: a.value,
        }
    }
}

#[derive(Debug, Clone)]
pub struct LwwRegister {
    pub clock: u64,
    pub register_state: Dot,
}

impl View for LwwRegister {
    type V = RegisterView;

    open spec fn view(&self) -> RegisterView {
        RegisterView {
            clock: self.clock,
            node_id: self.register_state.node_id@,
            counter: self.register_state.counter,
            value: self.register_state.register@,
        }
    }
}

impl LwwRegister {
    /// An empty register owned by `id`: clock and counter at zero, value empty.
    pub fn new(id: NodeId) -> (r: Self)
        ensures
            r@.clock == 0,
            r@.counter == 0,
            r@.node_id == id@,
            r@.value == Seq::<char>::empty(),
    {
        LwwRegister { clock: 0, register_state: Dot { node_id: id, counter: 0, register: String::new() } }
    }

    /// Advance the clock and stamp a fresh, empty dot for `id`.
    pub fn next_dot(&mut self, id: NodeId) -> (r: Dot)
        requires
            old(self).clock < u64::MAX,
        ensures
            final(self).clock == old(self).clock + 1,
            final(self).register_state == old(self).register_state,
            r.node_id@ == id@,
            r.counter == old(self).clock + 1,
            r.register@ == Seq::<char>::empty(),
    {
        self.clock = self.clock + 1;
        Dot { node_id: id, counter: self.clock, register: String::new() }
    }

    /// Write `register` as `id`, stamped with the next clock tick.
    pub fn set(&mut self, register: String, id: NodeId)
        requires
            old(self).clock < u64::MAX,
        ensures
            final(self)@.clock == old(self)@.clock + 1,
            final(self)@.counter == old(self)@.clock + 1,
            final(self)@.node_id == id@,
            final(self)@.value == register@,
    {
        let mut dot = self.next_dot(id);
        dot.register = register;
        self.register_state = dot;
    }

    /// The current value.
    pub fn get(&self) -> (r: String)
        ensures
            r@ == self@.value,
    {
        self.register_state.register.clone()
    }

    /// Write the current value extended by `to_append`, as `id`.
    pub fn append(&mut self, to_append: String, id: NodeId)
        requires
            old(self).clock < u64::MAX,
        ensures
            final(self)@.clock == old(self)@.clock + 1,
            final(self)@.counter == old(self)@.clock + 1,
            final(self)@.node_id == id@,
            final(self)@.value == old(self)@.value + to_append@,
    {
        let mut chosen_value = self.get();
        chosen_value.append(to_append.as_str());
        self.set(chosen_value, id);
    }

    /// The byte length of the current value's UTF-8 encoding.
    pub fn strlen(&self) -> (r: usize)
        ensures
            r == vstd::utf8::encode_utf8(self@.value).len(),
    {
        self.register_state.register.as_str().as_bytes().len()
    }

    /// Merge another replica's state into this one: adopt the other state
    /// exactly when its stamp is greater, and keep the later clock.
    pub fn merge(&mut self, other: &Self)
        ensures
            final(self)@ == register_join(old(self)@, other@),
    {
        let adopt = if other.register_state.counter > self.register_state.counter {
            true
        } else if other.register_state.counter == self.register_state.counter {
            str_lt(self.register_state.node_id.as_str(), other.register_state.node_id.as_str())
        } else {
            false
        };
        if adopt {
            self.register_state = Dot {
                node_id: other.register_state.node_id.clone(),
                counter: other.register_state.counter,
                register: other.register_state.register.clone(),
            };
        }
        if other.clock > self.clock {
            self.clock = other.clock;
        }
    }

    /// Whether merging `other` into this replica would change nothing.
    pub fn dominates(&self, other: &Self) -> (r: bool)
        ensures
            r == (register_join(self@, other@) == self@),
    {
        proof {
            lemma_lex_lt_irrefl(self@.node_id);
            lemma_lex_lt_total(self@.node_id, other@.node_id);
        }
        let newer = if other.register_state.counter > self.register_state.counter {
            true
        } else if other.register_state.counter == self.register_state.counter {
            str_lt(self.register_state.node_id.as_str(), other.register_state.node_id.as_str())
        } else {
            false
        };
        !newer && self.clock >= other.clock
    }
}

/// Merging is commutative, as long as two states stamped by the same
/// `(counter, node_id)` carry the same value — which holds between replicas,
/// since a stamp is written by one node at one clock tick.
pub proof fn lemma_register_merge_comm(a: RegisterView, b: RegisterView)
    requires
        a.counter == b.counter && a.node_id == b.node_id ==> a.value == b.value,
    ensures
        register_join(a, b) == register_join(b, a),
{
    lemma_lex_lt_total(a.node_id, b.node_id);
}

/// Merging is associative, under the same coherence of stamps as
/// commutativity, for each of the three pairs.
pub proof fn lemma_register_merge_assoc(a: RegisterView, b: RegisterView, c: RegisterView)
    requires
        a.counter == b.counter && a.node_id == b.node_id ==> a.value == b.value,
        b.counter == c.counter && b.node_id == c.node_id ==> b.value == c.value,
        a.counter == c.counter && a.node_id == c.node_id ==> a.value == c.value,
    ensures
        register_join(register_join(a, b), c) == register_join(a, register_join(b, c)),
{
    lemma_lex_lt_total(a.node_id, b.node_id);
    lemma_lex_lt_total(b.node_id, c.node_id);
    lemma_lex_lt_total(a.node_id, c.node_id);
    if lex_lt(a.node_id, b.node_id) && lex_lt(b.node_id, c.node_id) {
        lemma_lex_lt_trans(a.node_id, b.node_id, c.node_id);
    }
    if lex_lt(c.node_id, b.node_id) && lex_lt(b.node_id, a.node_id) {
        lemma_lex_lt_trans(c.node_id, b.node_id, a.node_id);
    }
    if lex_lt(b.node_id, a.node_id) && lex_lt(a.node_id, c.node_id) {
        lemma_lex_lt_trans(b.node_id, a.node_id, c.node_id);
    }
    if lex_lt(c.node_id, a.node_id) && lex_lt(a.node_id, b.node_id) {
        lemma_lex_lt_trans(c.node_id, a.node_id, b.node_id);
    }
    if lex_lt(a.node_id, c.node_id) && lex_lt(c.node_id, b.node_id) {
        lemma_lex_lt_trans(a.node_id, c.node_id, b.node_id);
    }
    if lex_lt(b.node_id, c.node_id) && lex_lt(c.node_id, a.node_id) {
        lemma_lex_lt_trans(b.node_id, c.node_id, a.node_id);
    }
}

/// Merging is idempotent.
pub proof fn lemma_register_merge_idem(a: RegisterView)
    ensures
        register_join(a, a) == a,
{
    lemma_lex_lt_irrefl(a.node_id);
}

/// Merging a state with a strictly smaller stamp leaves the local state
/// unchanged apart from the clock, which moves to the maximum.
pub proof fn lemma_register_merge_keeps_newer(a: RegisterView, b: RegisterView)
    requires
        stamp_lt(b.counter, b.node_id, a.counter, a.node_id),
    ensures
        register_join(a, b).counter == a.counter,
        register_join(a, b).node_id == a.node_id,
        register_join(a, b).value == a.value,
        register_join(a, b).clock == max_u64(a.clock, b.clock),
{
    lemma_lex_lt_total(b.node_id, a.node_id);
}

} // verus!
