//! The PN-Counter: a counter CRDT split into per-node tallies of increments
//! (`p`) and decrements (`n`). Each node only raises its own entries; a merge
//! takes the pointwise maximum of both sides, so replicas converge to the
//! join of everything they have seen. The observable value is the sum of all
//! positive tallies minus the sum of all negative ones.

use vstd::prelude::*;

use crate::tally::{
    lemma_map_sum_remove, lemma_seq_sum_is_map_sum, lemma_tally_join_assoc,
    lemma_tally_join_below, lemma_tally_join_comm, lemma_tally_join_idem, lemma_tally_join_le,
    lemma_tally_join_upper, lemma_tally_le_trans, lemma_tally_view_props, map_sum, max_u64,
    tally_add, tally_find, tally_get, tally_join, tally_keys_unique, tally_le, tally_merge,
    tally_sum, tally_view, tget,
};

verus! {

/// The mathematical state of a PN-Counter: two finite maps from node
/// identifier to tally.
pub struct CounterView {
    pub p: Map<Seq<char>, u64>,
    pub n: Map<Seq<char>, u64>,
}

/// The join of two counter states: pointwise maximum on both sides.
pub open spec fn counter_join(a: CounterView, b: CounterView) -> CounterView {
    CounterView { p: tally_join(a.p, b.p), n: tally_join(a.n, b.n) }
}

/// `b` is dominated by `a`: joining it into `a` changes nothing.
pub open spec fn counter_le(b: CounterView, a: CounterView) -> bool {
    tally_le(b.p, a.p) && tally_le(b.n, a.n)
}

/// The observable value: all increments minus all decrements.
pub open spec fn counter_value(v: CounterView) -> int {
    map_sum(v.p) - map_sum(v.n)
}

#[derive(Debug, Clone)]
pub struct PNCounter {
    pub p: Vec<(String, u64)>,
    pub n: Vec<(String, u64)>,
}

impl View for PNCounter {
    type V = CounterView;

    open spec fn view(&self) -> CounterView {
        CounterView { p: tally_view(self.p@), n: tally_view(self.n@) }
    }
}

impl PNCounter {
    /// No node identifier is listed twice on either side.
    pub open spec fn wf(&self) -> bool {
        tally_keys_unique(self.p@) && tally_keys_unique(self.n@)
    }

    /// A counter whose only entries are `node_id`'s, set to `p` and `n`.
    pub fn new(node_id: String, p: u64, n: u64) -> (r: Self)
        ensures
            r.wf(),
            r@.p == Map::<Seq<char>, u64>::empty().insert(node_id@, p),
            r@.n == Map::<Seq<char>, u64>::empty().insert(node_id@, n),
    {
        let mut pv: Vec<(String, u64)> = Vec::new();
        let mut nv: Vec<(String, u64)> = Vec::new();
        pv.push((node_id.clone(), p));
        nv.push((node_id, n));
        let r = PNCounter { p: pv, n: nv };
        proof {
            assert(r.p@.drop_last() =~= Seq::<(String, u64)>::empty());
            assert(r.n@.drop_last() =~= Seq::<(String, u64)>::empty());
            assert(tally_view(Seq::<(String, u64)>::empty()) == Map::<Seq<char>, u64>::empty());
            assert(r@.p == tally_view(r.p@.drop_last()).insert(r.p@.last().0@, r.p@.last().1));
            assert(r@.n == tally_view(r.n@.drop_last()).insert(r.n@.last().0@, r.n@.last().1));
        }
        r
    }

    /// Raise this node's tally of increments by `amt`.
    pub fn increment(&mut self, node_id: String, amt: u64)
        requires
            old(self).wf(),
            tget(old(self)@.p, node_id@) + amt <= u64::MAX,
        ensures
            final(self).wf(),
            final(self)@.p == old(self)@.p.insert(
                node_id@,
                (tget(old(self)@.p, node_id@) + amt) as u64,
            ),
            final(self)@.n == old(self)@.n,
    {
        tally_add(&mut self.p, &node_id, amt);
    }

    /// Raise this node's tally of decrements by `amt`.
    pub fn decrement(&mut self, node_id: String, amt: u64)
        requires
            old(self).wf(),
            tget(old(self)@.n, node_id@) + amt <= u64::MAX,
        ensures
            final(self).wf(),
            final(self)@.n == old(self)@.n.insert(
                node_id@,
                (tget(old(self)@.n, node_id@) + amt) as u64,
            ),
            final(self)@.p == old(self)@.p,
    {
        tally_add(&mut self.n, &node_id, amt);
    }

    /// The current tally of increments recorded for `node_id`.
    pub fn tally_of_increments(&self, node_id: &String) -> (r: u64)
        requires
            self.wf(),
        ensures
            r == tget(self@.p, node_id@),
    {
        tally_get(&self.p, node_id)
    }

    /// The current tally of decrements recorded for `node_id`.
    pub fn tally_of_decrements(&self, node_id: &String) -> (r: u64)
        requires
            self.wf(),
        ensures
            r == tget(self@.n, node_id@),
    {
        tally_get(&self.n, node_id)
    }

    /// The observable value. The net value must lie within the signed
    /// 64-bit range; `try_value` checks that at run time.
    pub fn value(&self) -> (r: i64)
        requires
            self.wf(),
            -(i64::MAX as int) <= counter_value(self@) <= i64::MAX as int,
        ensures
            r == counter_value(self@),
    {
        match self.try_value() {
            Some(v) => v,
            None => {
                proof {
                    assert(false);
                }
                0
            },
        }
    }

    /// The observable value, or `None` when the net value leaves the signed
    /// 64-bit range. The tallies themselves may be arbitrarily large: both
    /// sides are summed exactly in 128 bits and only the net is bounded.
    pub fn try_value(&self) -> (r: Option<i64>)
        requires
            self.wf(),
        ensures
            r is Some <==> -(i64::MAX as int) <= counter_value(self@) <= i64::MAX as int,
            r is Some ==> r->0 == counter_value(self@),
    {
        proof {
            lemma_seq_sum_is_map_sum(self.p@);
            lemma_seq_sum_is_map_sum(self.n@);
        }
        let p_sum = tally_sum(&self.p);
        let n_sum = tally_sum(&self.n);
        if p_sum >= n_sum {
            let d = p_sum - n_sum;
            if d > i64::MAX as u128 {
                None
            } else {
                Some(d as i64)
            }
        } else {
            let d = n_sum - p_sum;
            if d > i64::MAX as u128 {
                None
            } else {
                Some(-(d as i64))
            }
        }
    }

    /// Merge another replica's state into this one: pointwise maximum on
    /// both sides, so every tally either side has seen is kept.
    pub fn merge(&mut self, other: &Self)
        requires
            old(self).wf(),
            other.wf(),
        ensures
            final(self).wf(),
            final(self)@ == counter_join(old(self)@, other@),
    {
        tally_merge(&mut self.p, &other.p);
        tally_merge(&mut self.n, &other.n);
    }

    /// Whether `other` is already dominated by this replica, in which case
    /// merging it in would change nothing.
    pub fn dominates(&self, other: &Self) -> (r: bool)
        requires
            self.wf(),
            other.wf(),
        ensures
            r == counter_le(other@, self@),
            r == (counter_join(self@, other@) == self@),
    {
        proof {
            lemma_tally_join_le(self@.p, other@.p);
            lemma_tally_join_le(self@.n, other@.n);
        }
        let r = tally_dominates(&self.p, &other.p) && tally_dominates(&self.n, &other.n);
        proof {
            if counter_join(self@, other@) == self@ {
                assert(tally_join(self@.p, other@.p) == self@.p);
                assert(tally_join(self@.n, other@.n) == self@.n);
            }
        }
        r
    }
}

/// Whether every entry of `src` is present in `dst` with at least the same
/// tally.
fn tally_dominates(dst: &Vec<(String, u64)>, src: &Vec<(String, u64)>) -> (r: bool)
    requires
        tally_keys_unique(dst@),
        tally_keys_unique(src@),
    ensures
        r == tally_le(tally_view(src@), tally_view(dst@)),
{
    proof {
        lemma_tally_view_props(dst@);
        lemma_tally_view_props(src@);
    }
    let mut j: usize = 0;
    while j < src.len()
        invariant
            j <= src@.len(),
            tally_keys_unique(dst@),
            tally_keys_unique(src@),
            forall|i: int|
                0 <= i < j ==> tally_view(dst@).contains_key((#[trigger] src@[i]).0@)
                    && src@[i].1 <= tally_view(dst@)[src@[i].0@],
        decreases src@.len() - j,
    {
        proof {
            lemma_tally_view_props(dst@);
            lemma_tally_view_props(src@);
            assert(tally_view(src@).contains_key(src@[j as int].0@));
            assert(tally_view(src@)[src@[j as int].0@] == src@[j as int].1);
        }
        match tally_find(dst, &src[j].0) {
            Some(i) => {
                proof {
                    assert(tally_view(dst@).contains_key(dst@[i as int].0@));
                    assert(tally_view(dst@)[dst@[i as int].0@] == dst@[i as int].1);
                }
                if src[j].1 > dst[i].1 {
                    return false;
                }
            },
            None => {
                proof {
                    let ghost k = src@[j as int].0@;
                    assert(!tally_view(dst@).contains_key(k)) by {
                        if tally_view(dst@).contains_key(k) {
                            let i = choose|i: int|
                                0 <= i < dst@.len() && (#[trigger] dst@[i]).0@ == k;
                        }
                    }
                }
                return false;
            },
        }
        j += 1;
    }
    proof {
        assert forall|k: Seq<char>| #[trigger]
            tally_view(src@).contains_key(k) implies tally_view(dst@).contains_key(k)
            && tally_view(src@)[k] <= tally_view(dst@)[k] by {
            let i = choose|i: int| 0 <= i < src@.len() && (#[trigger] src@[i]).0@ == k;
            assert(tally_view(src@)[k] == src@[i].1);
        }
    }
    true
}

/// Merging is commutative: both orders yield the same counter state.
pub proof fn lemma_counter_merge_comm(a: CounterView, b: CounterView)
    ensures
        counter_join(a, b) == counter_join(b, a),
{
    lemma_tally_join_comm(a.p, b.p);
    lemma_tally_join_comm(a.n, b.n);
}

/// Merging is associative: grouping does not matter.
pub proof fn lemma_counter_merge_assoc(a: CounterView, b: CounterView, c: CounterView)
    ensures
        counter_join(counter_join(a, b), c) == counter_join(a, counter_join(b, c)),
{
    lemma_tally_join_assoc(a.p, b.p, c.p);
    lemma_tally_join_assoc(a.n, b.n, c.n);
}

/// Merging is idempotent: a replica absorbed into itself is unchanged.
pub proof fn lemma_counter_merge_idem(a: CounterView)
    ensures
        counter_join(a, a) == a,
{
    lemma_tally_join_idem(a.p);
    lemma_tally_join_idem(a.n);
}

/// The sum of a disjoint join is the sum of the parts.
proof fn lemma_map_sum_disjoint_join(a: Map<Seq<char>, u64>, b: Map<Seq<char>, u64>)
    requires
        a.dom().finite(),
        b.dom().finite(),
        a.dom().disjoint(b.dom()),
    ensures
        tally_join(a, b).dom().finite(),
        map_sum(tally_join(a, b)) == map_sum(a) + map_sum(b),
    decreases b.dom().len(),
{
    assert(tally_join(a, b).dom() =~= a.dom().union(b.dom()));
    if b.dom().len() == 0 {
        assert(b.dom() =~= Set::<Seq<char>>::empty());
        assert(tally_join(a, b) =~= a);
    } else {
        let k = b.dom().choose();
        assert(b.dom().contains(k));
        lemma_map_sum_disjoint_join(a, b.remove(k));
        assert(tally_join(a, b) =~= tally_join(a, b.remove(k)).insert(k, b[k]));
        crate::tally::lemma_map_sum_insert(tally_join(a, b.remove(k)), k, b[k]);
        lemma_map_sum_remove(b, k);
    }
}

/// When two replicas hold tallies for disjoint sets of nodes — as when each
/// node has only ever recorded its own operations — the merged value is the
/// sum of the two values: no operation is counted twice or lost.
pub proof fn lemma_counter_merge_value_disjoint(a: CounterView, b: CounterView)
    requires
        a.p.dom().finite(),
        a.n.dom().finite(),
        b.p.dom().finite(),
        b.n.dom().finite(),
        a.p.dom().disjoint(b.p.dom()),
        a.n.dom().disjoint(b.n.dom()),
    ensures
        counter_value(counter_join(a, b)) == counter_value(a) + counter_value(b),
{
    lemma_map_sum_disjoint_join(a.p, b.p);
    lemma_map_sum_disjoint_join(a.n, b.n);
}

/// The merge of a whole family of replica states, in order.
pub open spec fn counter_join_all(s: Seq<CounterView>) -> CounterView
    decreases s.len(),
{
    if s.len() == 0 {
        CounterView { p: Map::empty(), n: Map::empty() }
    } else {
        counter_join(counter_join_all(s.drop_last()), s.last())
    }
}

/// The fold of the pointwise-maximum join over a family of tally maps.
pub open spec fn tally_join_all(s: Seq<Map<Seq<char>, u64>>) -> Map<Seq<char>, u64>
    decreases s.len(),
{
    if s.len() == 0 {
        Map::empty()
    } else {
        tally_join(tally_join_all(s.drop_last()), s.last())
    }
}

/// A family of tally maps, each below the totals `t` and jointly attaining
/// every entry of `t`, joins to exactly `t`.
proof fn lemma_tally_join_all_attains(s: Seq<Map<Seq<char>, u64>>, t: Map<Seq<char>, u64>)
    requires
        forall|i: int| 0 <= i < s.len() ==> tally_le(#[trigger] s[i], t),
        forall|k: Seq<char>| #[trigger]
            t.contains_key(k) ==> exists|i: int|
                0 <= i < s.len() && (#[trigger] s[i]).contains_key(k) && s[i][k] == t[k],
    ensures
        tally_join_all(s) == t,
{
    lemma_tally_join_all_below(s, t);
    assert forall|i: int| 0 <= i < s.len() implies tally_le(#[trigger] s[i], tally_join_all(s)) by {
        lemma_tally_join_all_upper(s, i);
    }
    assert(tally_join_all(s) =~= t) by {
        assert forall|k: Seq<char>| #[trigger] t.contains_key(k) implies tally_join_all(
            s,
        ).contains_key(k) && tally_join_all(s)[k] == t[k] by {
            let i = choose|i: int|
                0 <= i < s.len() && (#[trigger] s[i]).contains_key(k) && s[i][k] == t[k];
            assert(tally_le(s[i], tally_join_all(s)));
            assert(tally_join_all(s).contains_key(k) && s[i][k] <= tally_join_all(s)[k]);
            assert(tally_join_all(s)[k] <= t[k]);
        }
    }
}

/// The fold of joins stays below any common upper bound.
proof fn lemma_tally_join_all_below(s: Seq<Map<Seq<char>, u64>>, t: Map<Seq<char>, u64>)
    requires
        forall|i: int| 0 <= i < s.len() ==> tally_le(#[trigger] s[i], t),
    ensures
        tally_le(tally_join_all(s), t),
    decreases s.len(),
{
    if s.len() == 0 {
    } else {
        lemma_tally_join_all_below(s.drop_last(), t);
        lemma_tally_join_below(tally_join_all(s.drop_last()), s.last(), t);
    }
}

/// Every member of the family is below the fold of joins.
proof fn lemma_tally_join_all_upper(s: Seq<Map<Seq<char>, u64>>, i: int)
    requires
        0 <= i < s.len(),
    ensures
        tally_le(s[i], tally_join_all(s)),
    decreases s.len(),
{
    lemma_tally_join_upper(tally_join_all(s.drop_last()), s.last());
    if i < s.len() - 1 {
        lemma_tally_join_all_upper(s.drop_last(), i);
        lemma_tally_le_trans(
            s[i],
            tally_join_all(s.drop_last()),
            tally_join_all(s),
        );
    }
}

/// Counter convergence. Take any family of replica states reached by an
/// interleaving of local increments and decrements and merges: every
/// replica's tally for a node never exceeds that node's true total (`tp` of
/// increments, `tn` of decrements), and each total is attained — at least at
/// the node that owns it. Then the all-pairs merge of the family carries
/// exactly the totals, and its observable value is the sum of all increments
/// ever applied minus the sum of all decrements.
pub proof fn lemma_counter_convergence(
    s: Seq<CounterView>,
    tp: Map<Seq<char>, u64>,
    tn: Map<Seq<char>, u64>,
)
    requires
        forall|i: int|
            0 <= i < s.len() ==> tally_le((#[trigger] s[i]).p, tp) && tally_le(s[i].n, tn),
        forall|k: Seq<char>| #[trigger]
            tp.contains_key(k) ==> exists|i: int|
                0 <= i < s.len() && (#[trigger] s[i]).p.contains_key(k) && s[i].p[k] == tp[k],
        forall|k: Seq<char>| #[trigger]
            tn.contains_key(k) ==> exists|i: int|
                0 <= i < s.len() && (#[trigger] s[i]).n.contains_key(k) && s[i].n[k] == tn[k],
    ensures
        counter_join_all(s).p == tp,
        counter_join_all(s).n == tn,
        counter_value(counter_join_all(s)) == map_sum(tp) - map_sum(tn),
{
    let ps = Seq::new(s.len(), |i: int| s[i].p);
    let ns = Seq::new(s.len(), |i: int| s[i].n);
    lemma_counter_join_all_splits(s);
    assert forall|i: int| 0 <= i < ps.len() implies tally_le(#[trigger] ps[i], tp) by {
        assert(ps[i] == s[i].p);
    }
    assert forall|i: int| 0 <= i < ns.len() implies tally_le(#[trigger] ns[i], tn) by {
        assert(ns[i] == s[i].n);
    }
    assert forall|k: Seq<char>| #[trigger] tp.contains_key(k) implies exists|i: int|
        0 <= i < ps.len() && (#[trigger] ps[i]).contains_key(k) && ps[i][k] == tp[k] by {
        let i = choose|i: int|
            0 <= i < s.len() && (#[trigger] s[i]).p.contains_key(k) && s[i].p[k] == tp[k];
        assert(ps[i] == s[i].p);
        assert(ps[i].contains_key(k) && ps[i][k] == tp[k]);
    }
    assert forall|k: Seq<char>| #[trigger] tn.contains_key(k) implies exists|i: int|
        0 <= i < ns.len() && (#[trigger] ns[i]).contains_key(k) && ns[i][k] == tn[k] by {
        let i = choose|i: int|
            0 <= i < s.len() && (#[trigger] s[i]).n.contains_key(k) && s[i].n[k] == tn[k];
        assert(ns[i] == s[i].n);
        assert(ns[i].contains_key(k) && ns[i][k] == tn[k]);
    }
    lemma_tally_join_all_attains(ps, tp);
    lemma_tally_join_all_attains(ns, tn);
}

/// Joining a family of counters joins the two sides independently.
proof fn lemma_counter_join_all_splits(s: Seq<CounterView>)
    ensures
        counter_join_all(s).p == tally_join_all(Seq::new(s.len(), |i: int| s[i].p)),
        counter_join_all(s).n == tally_join_all(Seq::new(s.len(), |i: int| s[i].n)),
    decreases s.len(),
{
    let ps = Seq::new(s.len(), |i: int| s[i].p);
    let ns = Seq::new(s.len(), |i: int| s[i].n);
    if s.len() == 0 {
        assert(ps =~= Seq::<Map<Seq<char>, u64>>::empty());
        assert(ns =~= Seq::<Map<Seq<char>, u64>>::empty());
    } else {
        lemma_counter_join_all_splits(s.drop_last());
        assert(ps.drop_last() =~= Seq::new(s.drop_last().len(), |i: int| s.drop_last()[i].p));
        assert(ns.drop_last() =~= Seq::new(s.drop_last().len(), |i: int| s.drop_last()[i].n));
        assert(ps.last() == s.last().p);
        assert(ns.last() == s.last().n);
    }
}

} // verus!
