//! The add-wins observed-remove set over string elements. Every addition is
//! stamped with a fresh dot — a `(node_id, counter)` pair drawn from the
//! replica's logical clock — and a removal tombstones exactly the dots it has
//! observed. An element is visible while it has a dot that is not
//! tombstoned, so an addition concurrent with a removal survives the merge:
//! its fresh dot cannot have been observed by the remover.

use vstd::prelude::*;

use crate::NodeId;
use crate::tally::max_u64;
use crate::text::names_contain;

verus! {

/// A unique event identifier: which node performed an addition, and at which
/// tick of the set's logical clock.
#[derive(Debug, Clone)]
pub struct Dot {
    pub node_id: String,
    pub counter: u64,
}

/// The model of a dot: the pair of its fields.
pub open spec fn dot_view(d: Dot) -> (Seq<char>, u64) {
    (d.node_id@, d.counter)
}

/// The model of a list of dots: the set of their models.
pub open spec fn dots_view(s: Seq<Dot>) -> Set<(Seq<char>, u64)>
    decreases s.len(),
{
    if s.len() == 0 {
        Set::empty()
    } else {
        dots_view(s.drop_last()).insert(dot_view(s.last()))
    }
}

/// The model of a tag list: element to set of dots, later entries
/// overriding earlier ones (lists kept by this module never repeat a key).
pub open spec fn tags_view(s: Seq<(String, Vec<Dot>)>) -> Map<Seq<char>, Set<(Seq<char>, u64)>>
    decreases s.len(),
{
    if s.len() == 0 {
        Map::empty()
    } else {
        tags_view(s.drop_last()).insert(s.last().0@, dots_view(s.last().1@))
    }
}

/// No element occurs twice in the tag list.
pub open spec fn tags_keys_unique(s: Seq<(String, Vec<Dot>)>) -> bool {
    forall|i: int, j: int| 0 <= i < j < s.len() ==> s[i].0@ != s[j].0@
}

/// The dots recorded for `e`, counting an absent element as none.
pub open spec fn dget(m: Map<Seq<char>, Set<(Seq<char>, u64)>>, e: Seq<char>) -> Set<
    (Seq<char>, u64),
> {
    if m.contains_key(e) {
        m[e]
    } else {
        Set::empty()
    }
}

/// The join of two tag maps: the union of their domains, with the union of
/// the two dot sets at each element.
pub open spec fn tags_join(
    a: Map<Seq<char>, Set<(Seq<char>, u64)>>,
    b: Map<Seq<char>, Set<(Seq<char>, u64)>>,
) -> Map<Seq<char>, Set<(Seq<char>, u64)>> {
    Map::new(
        |e: Seq<char>| a.contains_key(e) || b.contains_key(e),
        |e: Seq<char>| dget(a, e).union(dget(b, e)),
    )
}

/// One tag map is below another; `tags_join(a, b) == a` exactly when `b` is
/// below `a`.
pub open spec fn tags_le(
    b: Map<Seq<char>, Set<(Seq<char>, u64)>>,
    a: Map<Seq<char>, Set<(Seq<char>, u64)>>,
) -> bool {
    forall|e: Seq<char>| #[trigger] b.contains_key(e) ==> a.contains_key(e) && b[e].subset_of(a[e])
}

/// The mathematical state of an add-wins set.
pub struct SetView {
    pub clock: u64,
    pub adds: Map<Seq<char>, Set<(Seq<char>, u64)>>,
    pub removes: Map<Seq<char>, Set<(Seq<char>, u64)>>,
}

/// The join of two set states: union both tag maps and keep the later clock.
pub open spec fn set_join(a: SetView, b: SetView) -> SetView {
    SetView {
        clock: max_u64(a.clock, b.clock),
        adds: tags_join(a.adds, b.adds),
        removes: tags_join(a.removes, b.removes),
    }
}

/// An element is visible while some dot of its additions is not tombstoned.
pub open spec fn element_visible(v: SetView, e: Seq<char>) -> bool {
    exists|d: (Seq<char>, u64)|
        #[trigger] dget(v.adds, e).contains(d) && !dget(v.removes, e).contains(d)
}

/// The set a reader observes.
pub open spec fn visible_elements(v: SetView) -> Set<Seq<char>> {
    Set::new(|e: Seq<char>| element_visible(v, e))
}

/// Every tombstone covers an observed addition.
pub open spec fn tombstones_covered(v: SetView) -> bool {
    forall|e: Seq<char>| #[trigger] dget(v.removes, e).subset_of(dget(v.adds, e))
}

/// Every recorded dot was drawn at or before the current clock, and after
/// tick zero.
pub open spec fn dots_bounded(v: SetView) -> bool {
    (forall|e: Seq<char>, d: (Seq<char>, u64)|
        #[trigger] dget(v.adds, e).contains(d) ==> 1 <= d.1 <= v.clock) && (forall|
        e: Seq<char>,
        d: (Seq<char>, u64),
    |
        #[trigger] dget(v.removes, e).contains(d) ==> 1 <= d.1 <= v.clock)
}

/// The state after an addition of `e` stamped by `id`.
pub open spec fn spec_add(v: SetView, e: Seq<char>, id: Seq<char>) -> SetView {
    SetView {
        clock: (v.clock + 1) as u64,
        adds: v.adds.insert(e, dget(v.adds, e).insert((id, (v.clock + 1) as u64))),
        removes: v.removes,
    }
}

/// The state after a removal of `e`: every currently observed addition of
/// `e` is tombstoned; an unknown element changes nothing.
pub open spec fn spec_remove(v: SetView, e: Seq<char>) -> SetView {
    if v.adds.contains_key(e) {
        SetView {
            clock: v.clock,
            adds: v.adds,
            removes: v.removes.insert(e, dget(v.removes, e).union(v.adds[e])),
        }
    } else {
        v
    }
}

#[derive(Debug, Clone)]
pub struct AWSet {
    pub clock: u64,
    pub add_tags: Vec<(String, Vec<Dot>)>,
    pub remove_tags: Vec<(String, Vec<Dot>)>,
}

impl View for AWSet {
    type V = SetView;

    open spec fn view(&self) -> SetView {
        SetView {
            clock: self.clock,
            adds: tags_view(self.add_tags@),
            removes: tags_view(self.remove_tags@),
        }
    }
}

impl AWSet {
    /// No element is listed twice in either tag list.
    pub open spec fn wf(&self) -> bool {
        tags_keys_unique(self.add_tags@) && tags_keys_unique(self.remove_tags@)
    }

    /// An empty set: clock zero, nothing added, nothing tombstoned.
    pub fn new() -> (r: Self)
        ensures
            r.wf(),
            r@.clock == 0,
            r@.adds == Map::<Seq<char>, Set<(Seq<char>, u64)>>::empty(),
            r@.removes == Map::<Seq<char>, Set<(Seq<char>, u64)>>::empty(),
            tombstones_covered(r@),
            dots_bounded(r@),
    {
        AWSet { clock: 0, add_tags: Vec::new(), remove_tags: Vec::new() }
    }

    /// Advance the clock and stamp a fresh dot for `id`.
    pub fn next_dot(&mut self, id: NodeId) -> (r: Dot)
        requires
            old(self).clock < u64::MAX,
        ensures
            final(self).clock == old(self).clock + 1,
            final(self).add_tags == old(self).add_tags,
            final(self).remove_tags == old(self).remove_tags,
            dot_view(r) == (id@, (old(self).clock + 1) as u64),
    {
        self.clock = self.clock + 1;
        Dot { node_id: id, counter: self.clock }
    }

    /// Add `tag`, stamped with a fresh dot drawn by `id`.
    pub fn add(&mut self, tag: String, id: NodeId)
        requires
            old(self).wf(),
            old(self).clock < u64::MAX,
        ensures
            final(self).wf(),
            final(self)@ == spec_add(old(self)@, tag@, id@),
    {
        let ghost pre = self@;
        let dot = self.next_dot(id);
        let ghost dv = dot_view(dot);
        match tags_find(&self.add_tags, &tag) {
            Some(i) => {
                let ghost s = self.add_tags@;
                proof {
                    lemma_tags_view_props(s);
                    assert(pre.adds[s[i as int].0@] == dots_view(s[i as int].1@));
                }
                self.add_tags[i].1.push(dot);
                proof {
                    lemma_dots_view_push(s[i as int].1@, dot);
                    assert(self.add_tags@ =~= s.update(i as int, self.add_tags@[i as int]));
                    lemma_tags_view_update(s, i as int, self.add_tags@[i as int]);
                    assert(dots_view(self.add_tags@[i as int].1@) == dget(pre.adds, tag@).insert(
                        dv,
                    ));
                }
            },
            None => {
                let ghost s = self.add_tags@;
                let mut dots: Vec<Dot> = Vec::new();
                dots.push(dot);
                proof {
                    assert(dots@ =~= Seq::<Dot>::empty().push(dots@[0]));
                    lemma_dots_view_push(Seq::<Dot>::empty(), dots@[0]);
                    assert(dots_view(Seq::<Dot>::empty()) =~= Set::<(Seq<char>, u64)>::empty());
                    assert(dots_view(dots@) == Set::<(Seq<char>, u64)>::empty().insert(dv));
                }
                self.add_tags.push((tag, dots));
                proof {
                    lemma_tags_view_push(s, self.add_tags@.last());
                    lemma_tags_view_props(s);
                    assert forall|a: int, b: int|
                        0 <= a < b < self.add_tags@.len() implies (#[trigger] self.add_tags@[a]).0@
                        != (#[trigger] self.add_tags@[b]).0@ by {
                        if b == self.add_tags@.len() - 1 {
                            assert(s[a].0@ != self.add_tags@[b].0@);
                        }
                    }
                    assert(!pre.adds.contains_key(self.add_tags@.last().0@)) by {
                        if pre.adds.contains_key(self.add_tags@.last().0@) {
                            let a = choose|a: int|
                                0 <= a < s.len() && (#[trigger] s[a]).0@
                                    == self.add_tags@.last().0@;
                        }
                    }
                    assert(dots_view(self.add_tags@.last().1@) =~= dget(pre.adds, tag@).insert(
                        dv,
                    ));
                }
            },
        }
        proof {
            assert(final(self)@.adds =~~= spec_add(pre, tag@, id@).adds);
        }
    }

    /// Tombstone every dot currently observed for `tag`. Dots added
    /// elsewhere and not yet seen here are untouched — that is what lets a
    /// concurrent addition win.
    pub fn remove(&mut self, tag: String)
        requires
            old(self).wf(),
        ensures
            final(self).wf(),
            final(self)@ == spec_remove(old(self)@, tag@),
    {
        let ghost pre = self@;
        proof {
            lemma_tags_view_props(self.add_tags@);
            lemma_tags_view_props(self.remove_tags@);
        }
        match tags_find(&self.add_tags, &tag) {
            Some(i) => {
                proof {
                    assert(pre.adds.contains_key(self.add_tags@[i as int].0@));
                    assert(pre.adds[self.add_tags@[i as int].0@] == dots_view(
                        self.add_tags@[i as int].1@,
                    ));
                }
                let observed = clone_dots(&self.add_tags[i].1);
                match tags_find(&self.remove_tags, &tag) {
                    Some(r) => {
                        let ghost s = self.remove_tags@;
                        proof {
                            assert(pre.removes[s[r as int].0@] == dots_view(s[r as int].1@));
                        }
                        dots_union(&mut self.remove_tags, r, &observed);
                        proof {
                            assert(self.remove_tags@ =~= s.update(
                                r as int,
                                self.remove_tags@[r as int],
                            ));
                            lemma_tags_view_update(s, r as int, self.remove_tags@[r as int]);
                        }
                    },
                    None => {
                        let ghost s = self.remove_tags@;
                        self.remove_tags.push((tag, observed));
                        proof {
                            lemma_tags_view_push(s, self.remove_tags@.last());
                            assert forall|a: int, b: int|
                                0 <= a < b < self.remove_tags@.len() implies (
                            #[trigger] self.remove_tags@[a]).0@ != (
                            #[trigger] self.remove_tags@[b]).0@ by {
                                if b == self.remove_tags@.len() - 1 {
                                    assert(s[a].0@ != self.remove_tags@[b].0@);
                                }
                            }
                            assert(!pre.removes.contains_key(self.remove_tags@.last().0@)) by {
                                if pre.removes.contains_key(self.remove_tags@.last().0@) {
                                    let a = choose|a: int|
                                        0 <= a < s.len() && (#[trigger] s[a]).0@
                                            == self.remove_tags@.last().0@;
                                }
                            }
                            assert(dots_view(observed@) =~= dget(pre.removes, tag@).union(
                                pre.adds[tag@],
                            ));
                        }
                    },
                }
                proof {
                    assert(final(self)@.removes =~~= spec_remove(pre, tag@).removes);
                }
            },
            None => {
                proof {
                    assert(!pre.adds.contains_key(tag@)) by {
                        if pre.adds.contains_key(tag@) {
                            let a = choose|a: int|
                                0 <= a < self.add_tags@.len() && (#[trigger] self.add_tags@[a]).0@
                                    == tag@;
                        }
                    }
                }
            },
        }
    }

    /// The visible elements: those with at least one addition that is not
    /// tombstoned. The result lists each visible element exactly once.
    #[verifier::loop_isolation(false)]
    pub fn read(&self) -> (r: Vec<String>)
        requires
            self.wf(),
        ensures
            forall|e: Seq<char>| element_visible(self@, e) <==> names_contain(r@, e),
            forall|i: int, j: int| 0 <= i < j < r@.len() ==> r@[i]@ != r@[j]@,
    {
        proof {
            lemma_tags_view_props(self.add_tags@);
            lemma_tags_view_props(self.remove_tags@);
        }
        let mut out: Vec<String> = Vec::new();
        let mut i: usize = 0;
        while i < self.add_tags.len()
            invariant
                i <= self.add_tags@.len(),
                forall|k: int|
                    0 <= k < out@.len() ==> element_visible(self@, (#[trigger] out@[k])@),
                forall|j: int|
                    0 <= j < i && element_visible(self@, (#[trigger] self.add_tags@[j]).0@)
                        ==> names_contain(out@, self.add_tags@[j].0@),
                forall|k: int|
                    0 <= k < out@.len() ==> exists|j: int|
                        0 <= j < i && (#[trigger] self.add_tags@[j]).0@ == (#[trigger] out@[k])@,
                forall|k: int, l: int| 0 <= k < l < out@.len() ==> out@[k]@ != out@[l]@,
            decreases self.add_tags@.len() - i,
        {
            let ghost e = self.add_tags@[i as int].0@;
            let tag = &self.add_tags[i].0;
            let removed_at = tags_find(&self.remove_tags, tag);
            let ghost removed: Set<(Seq<char>, u64)> = dget(self@.removes, e);
            proof {
                match removed_at {
                    Some(r) => {
                        assert(dots_view(self.remove_tags@[r as int].1@) == removed);
                    },
                    None => {
                        assert(!self@.removes.contains_key(e)) by {
                            if self@.removes.contains_key(e) {
                                let j = choose|j: int|
                                    0 <= j < self.remove_tags@.len() && (
                                    #[trigger] self.remove_tags@[j]).0@ == e;
                            }
                        }
                    },
                }
                lemma_dots_view_props(self.add_tags@[i as int].1@);
                assert(dget(self@.adds, e) == dots_view(self.add_tags@[i as int].1@));
            }
            let dots = &self.add_tags[i].1;
            let mut live = false;
            let mut k: usize = 0;
            while k < dots.len() && !live
                invariant
                    k <= dots@.len(),
                    live ==> exists|m: int|
                        0 <= m < dots@.len() && !removed.contains(dot_view(#[trigger] dots@[m])),
                    !live ==> forall|m: int|
                        0 <= m < k ==> removed.contains(dot_view(#[trigger] dots@[m])),
                decreases dots@.len() - k,
            {
                let tombstoned = match removed_at {
                    Some(r) => dots_contains(
                        &self.remove_tags[r].1,
                        &dots[k].node_id,
                        dots[k].counter,
                    ),
                    None => false,
                };
                if !tombstoned {
                    live = true;
                    proof {
                        assert(!removed.contains(dot_view(dots@[k as int])));
                    }
                }
                k += 1;
            }
            proof {
                assert(live <==> element_visible(self@, e)) by {
                    if live {
                        let m = choose|m: int|
                            0 <= m < dots@.len() && !removed.contains(dot_view(#[trigger] dots@[m]));
                        assert(dget(self@.adds, e).contains(dot_view(dots@[m])));
                    }
                    if element_visible(self@, e) {
                        let d = choose|d: (Seq<char>, u64)|
                            #[trigger] dget(self@.adds, e).contains(d) && !dget(
                                self@.removes,
                                e,
                            ).contains(d);
                        let m = choose|m: int|
                            0 <= m < dots@.len() && dot_view(#[trigger] dots@[m]) == d;
                    }
                }
            }
            if live {
                let ghost prev = out@;
                out.push(tag.clone());
                proof {
                    assert(out@[out@.len() - 1]@ == e);
                    // everything previously listed stays listed
                    assert forall|j: int|
                        0 <= j < i + 1 && element_visible(
                            self@,
                            (#[trigger] self.add_tags@[j]).0@,
                        ) implies names_contain(out@, self.add_tags@[j].0@) by {
                        if j < i {
                            let k2 = choose|k2: int|
                                0 <= k2 < prev.len() && (#[trigger] prev[k2])@
                                    == self.add_tags@[j].0@;
                            assert(out@[k2]@ == self.add_tags@[j].0@);
                        } else {
                            assert(out@[out@.len() - 1]@ == self.add_tags@[j].0@);
                        }
                    }
                    // the new tag is not a repeat: earlier entries come from
                    // earlier indices, whose keys all differ from this one
                    assert forall|k2: int, l: int|
                        0 <= k2 < l < out@.len() implies out@[k2]@ != out@[l]@ by {
                        if l == out@.len() - 1 {
                            let j = choose|j: int|
                                0 <= j < i && (#[trigger] self.add_tags@[j]).0@ == (
                                #[trigger] prev[k2])@;
                            assert(self.add_tags@[j].0@ != self.add_tags@[i as int].0@);
                        }
                    }
                }
            } else {
                proof {
                    assert forall|j: int|
                        0 <= j < i + 1 && element_visible(
                            self@,
                            (#[trigger] self.add_tags@[j]).0@,
                        ) implies names_contain(out@, self.add_tags@[j].0@) by {
                        assert(j != i);
                    }
                }
            }
            i += 1;
        }
        proof {
            assert forall|e: Seq<char>| element_visible(self@, e) implies names_contain(
                out@,
                e,
            ) by {
                let d = choose|d: (Seq<char>, u64)|
                    #[trigger] dget(self@.adds, e).contains(d) && !dget(self@.removes, e).contains(
                        d,
                    );
                assert(self@.adds.contains_key(e));
                let j = choose|j: int|
                    0 <= j < self.add_tags@.len() && (#[trigger] self.add_tags@[j]).0@ == e;
            }
        }
        out
    }

    /// Whether merging `other` into this replica would change nothing.
    pub fn dominates(&self, other: &Self) -> (r: bool)
        requires
            self.wf(),
            other.wf(),
        ensures
            r == (set_join(self@, other@) == self@),
    {
        proof {
            lemma_tags_join_le(self@.adds, other@.adds);
            lemma_tags_join_le(self@.removes, other@.removes);
        }
        let r = self.clock >= other.clock && tags_dominates(&self.add_tags, &other.add_tags)
            && tags_dominates(&self.remove_tags, &other.remove_tags);
        proof {
            if set_join(self@, other@) == self@ {
                assert(tags_join(self@.adds, other@.adds) == self@.adds);
                assert(tags_join(self@.removes, other@.removes) == self@.removes);
            }
        }
        r
    }

    /// Merge another replica's state into this one: union both tag maps and
    /// keep the later clock, so every event either side has seen is kept.
    pub fn merge(&mut self, other: &Self)
        requires
            old(self).wf(),
            other.wf(),
        ensures
            final(self).wf(),
            final(self)@ == set_join(old(self)@, other@),
    {
        let ghost pre = self@;
        tags_merge(&mut self.add_tags, &other.add_tags);
        tags_merge(&mut self.remove_tags, &other.remove_tags);
        if other.clock > self.clock {
            self.clock = other.clock;
        }
    }
}

/// A field-by-field copy of a dot list.
fn clone_dots(v: &Vec<Dot>) -> (r: Vec<Dot>)
    ensures
        r@.len() == v@.len(),
        forall|i: int| 0 <= i < v@.len() ==> dot_view(#[trigger] r@[i]) == dot_view(v@[i]),
        dots_view(r@) == dots_view(v@),
{
    let mut r: Vec<Dot> = Vec::new();
    let mut i: usize = 0;
    while i < v.len()
        invariant
            i <= v@.len(),
            r@.len() == i,
            forall|j: int| 0 <= j < i ==> dot_view(#[trigger] r@[j]) == dot_view(v@[j]),
        decreases v@.len() - i,
    {
        r.push(Dot { node_id: v[i].node_id.clone(), counter: v[i].counter });
        i += 1;
    }
    proof {
        lemma_dots_view_congruent(r@, v@);
    }
    r
}

/// Lists with pointwise equal dot models have the same model.
proof fn lemma_dots_view_congruent(a: Seq<Dot>, b: Seq<Dot>)
    requires
        a.len() == b.len(),
        forall|i: int| 0 <= i < a.len() ==> dot_view(#[trigger] a[i]) == dot_view(b[i]),
    ensures
        dots_view(a) == dots_view(b),
    decreases a.len(),
{
    if a.len() > 0 {
        assert(forall|i: int|
            0 <= i < a.len() - 1 ==> dot_view(#[trigger] a.drop_last()[i]) == dot_view(
                b.drop_last()[i],
            ));
        lemma_dots_view_congruent(a.drop_last(), b.drop_last());
    }
}

/// Membership in a dot list's model is witnessed by an index.
pub proof fn lemma_dots_view_props(s: Seq<Dot>)
    ensures
        forall|d: (Seq<char>, u64)|
            #[trigger] dots_view(s).contains(d) <==> exists|i: int|
                0 <= i < s.len() && dot_view(#[trigger] s[i]) == d,
    decreases s.len(),
{
    if s.len() > 0 {
        let t = s.drop_last();
        lemma_dots_view_props(t);
        assert forall|d: (Seq<char>, u64)| dots_view(s).contains(d) implies exists|i: int|
            0 <= i < s.len() && dot_view(#[trigger] s[i]) == d by {
            if d == dot_view(s.last()) {
                assert(dot_view(s[s.len() - 1]) == d);
            } else {
                assert(dots_view(t).contains(d));
                let i = choose|i: int| 0 <= i < t.len() && dot_view(#[trigger] t[i]) == d;
                assert(dot_view(s[i]) == d);
            }
        }
        assert forall|d: (Seq<char>, u64)|
            (exists|i: int| 0 <= i < s.len() && dot_view(#[trigger] s[i]) == d) implies dots_view(
            s,
        ).contains(d) by {
            let i = choose|i: int| 0 <= i < s.len() && dot_view(#[trigger] s[i]) == d;
            if i < s.len() - 1 {
                assert(dot_view(t[i]) == d);
                assert(dots_view(t).contains(d));
            }
        }
    }
}

pub proof fn lemma_dots_view_push(s: Seq<Dot>, d: Dot)
    ensures
        dots_view(s.push(d)) == dots_view(s).insert(dot_view(d)),
{
    assert(s.push(d).drop_last() =~= s);
    assert(s.push(d).last() == d);
}

/// Whether the list holds a dot with the given fields.
#[verifier::loop_isolation(false)]
fn dots_contains(v: &Vec<Dot>, node_id: &String, counter: u64) -> (r: bool)
    ensures
        r == dots_view(v@).contains((node_id@, counter)),
{
    proof {
        lemma_dots_view_props(v@);
    }
    let mut i: usize = 0;
    while i < v.len()
        invariant
            i <= v@.len(),
            forall|j: int| 0 <= j < i ==> dot_view(#[trigger] v@[j]) != (node_id@, counter),
        decreases v@.len() - i,
    {
        if v[i].node_id == *node_id && v[i].counter == counter {
            proof {
                assert(dot_view(v@[i as int]) == (node_id@, counter));
                assert(dots_view(v@).contains((node_id@, counter)));
            }
            return true;
        }
        i += 1;
    }
    proof {
        assert(!dots_view(v@).contains((node_id@, counter))) by {
            if dots_view(v@).contains((node_id@, counter)) {
                let j = choose|j: int|
                    0 <= j < v@.len() && dot_view(#[trigger] v@[j]) == (node_id@, counter);
            }
        }
    }
    false
}

/// Index of the entry holding `key`, if the tag list holds one.
fn tags_find(v: &Vec<(String, Vec<Dot>)>, key: &String) -> (r: Option<usize>)
    ensures
        match r {
            Some(i) => i < v@.len() && v@[i as int].0@ == key@,
            None => forall|i: int| 0 <= i < v@.len() ==> (#[trigger] v@[i]).0@ != key@,
        },
{
    let mut i: usize = 0;
    while i < v.len()
        invariant
            i <= v@.len(),
            forall|j: int| 0 <= j < i ==> (#[trigger] v@[j]).0@ != key@,
        decreases v@.len() - i,
    {
        if v[i].0 == *key {
            return Some(i);
        }
        i += 1;
    }
    None
}

/// The domain of a tag list's view is exactly its set of keys, and under
/// uniqueness each entry is mapped to its listed dots; the domain is finite.
pub proof fn lemma_tags_view_props(s: Seq<(String, Vec<Dot>)>)
    requires
        tags_keys_unique(s),
    ensures
        tags_view(s).dom().finite(),
        forall|k: Seq<char>|
            tags_view(s).contains_key(k) <==> exists|i: int|
                0 <= i < s.len() && (#[trigger] s[i]).0@ == k,
        forall|i: int|
            0 <= i < s.len() ==> tags_view(s)[(#[trigger] s[i]).0@] == dots_view(s[i].1@),
    decreases s.len(),
{
    if s.len() > 0 {
        let t = s.drop_last();
        lemma_tags_view_props(t);
        assert forall|k: Seq<char>| tags_view(s).contains_key(k) implies exists|i: int|
            0 <= i < s.len() && (#[trigger] s[i]).0@ == k by {
            if k == s.last().0@ {
                assert(s[s.len() - 1].0@ == k);
            } else {
                let i = choose|i: int| 0 <= i < t.len() && (#[trigger] t[i]).0@ == k;
                assert(s[i].0@ == k);
            }
        }
        assert forall|k: Seq<char>|
            (exists|i: int| 0 <= i < s.len() && (#[trigger] s[i]).0@ == k) implies tags_view(
            s,
        ).contains_key(k) by {
            let i = choose|i: int| 0 <= i < s.len() && (#[trigger] s[i]).0@ == k;
            if i < s.len() - 1 {
                assert(t[i].0@ == k);
            }
        }
        assert forall|i: int| 0 <= i < s.len() implies tags_view(s)[(#[trigger] s[i]).0@]
            == dots_view(s[i].1@) by {
            if i < s.len() - 1 {
                assert(t[i] == s[i]);
                assert(s[i].0@ != s.last().0@);
            }
        }
    }
}

pub proof fn lemma_tags_view_push(s: Seq<(String, Vec<Dot>)>, p: (String, Vec<Dot>))
    ensures
        tags_view(s.push(p)) == tags_view(s).insert(p.0@, dots_view(p.1@)),
{
    assert(s.push(p).drop_last() =~= s);
    assert(s.push(p).last() == p);
}

/// Overwriting the entry at `i` with the same key updates the view at that key.
pub proof fn lemma_tags_view_update(s: Seq<(String, Vec<Dot>)>, i: int, p: (String, Vec<Dot>))
    requires
        tags_keys_unique(s),
        0 <= i < s.len(),
        p.0@ == s[i].0@,
    ensures
        tags_view(s.update(i, p)) == tags_view(s).insert(p.0@, dots_view(p.1@)),
        tags_keys_unique(s.update(i, p)),
    decreases s.len(),
{
    let u = s.update(i, p);
    if i == s.len() - 1 {
        assert(u.drop_last() =~= s.drop_last());
        assert(u.last() == p);
        assert(tags_view(s.drop_last()).insert(s[i].0@, dots_view(s[i].1@)).insert(
            p.0@,
            dots_view(p.1@),
        ) =~= tags_view(s.drop_last()).insert(p.0@, dots_view(p.1@)));
    } else {
        assert(u.drop_last() =~= s.drop_last().update(i, p));
        assert(u.last() == s.last());
        lemma_tags_view_update(s.drop_last(), i, p);
        assert(s[i].0@ != s.last().0@);
        assert(tags_view(s.drop_last()).insert(p.0@, dots_view(p.1@)).insert(
            s.last().0@,
            dots_view(s.last().1@),
        ) =~= tags_view(s.drop_last()).insert(s.last().0@, dots_view(s.last().1@)).insert(
            p.0@,
            dots_view(p.1@),
        ));
    }
}

/// Push every dot of `src` that entry `i` of `dst` does not already hold.
fn dots_union(dst: &mut Vec<(String, Vec<Dot>)>, i: usize, src: &Vec<Dot>)
    requires
        i < old(dst)@.len(),
    ensures
        final(dst)@.len() == old(dst)@.len(),
        forall|j: int| 0 <= j < old(dst)@.len() && j != i ==> final(dst)@[j] == old(dst)@[j],
        final(dst)@[i as int].0 == old(dst)@[i as int].0,
        dots_view(final(dst)@[i as int].1@) == dots_view(old(dst)@[i as int].1@).union(
            dots_view(src@),
        ),
{
    proof {
        lemma_dots_view_props(src@);
    }
    let mut k: usize = 0;
    while k < src.len()
        invariant
            k <= src@.len(),
            i < dst@.len(),
            dst@.len() == old(dst)@.len(),
            forall|j: int| 0 <= j < old(dst)@.len() && j != i ==> dst@[j] == old(dst)@[j],
            dst@[i as int].0 == old(dst)@[i as int].0,
            dots_view(dst@[i as int].1@) == dots_view(old(dst)@[i as int].1@).union(
                dots_view(src@.take(k as int)),
            ),
        decreases src@.len() - k,
    {
        let ghost prefix = src@.take(k as int);
        proof {
            assert(src@.take(k + 1).drop_last() =~= prefix);
            assert(src@.take(k + 1).last() == src@[k as int]);
            lemma_dots_view_push(prefix, src@[k as int]);
        }
        let present = dots_contains(&dst[i].1, &src[k].node_id, src[k].counter);
        if !present {
            let ghost before = dst@[i as int].1@;
            let d = Dot { node_id: src[k].node_id.clone(), counter: src[k].counter };
            dst[i].1.push(d);
            proof {
                lemma_dots_view_push(before, dst@[i as int].1@.last());
                assert(dots_view(dst@[i as int].1@) =~= dots_view(old(dst)@[i as int].1@).union(
                    dots_view(src@.take(k + 1)),
                ));
            }
        } else {
            proof {
                assert(dots_view(dst@[i as int].1@) =~= dots_view(old(dst)@[i as int].1@).union(
                    dots_view(src@.take(k + 1)),
                ));
            }
        }
        k += 1;
    }
    proof {
        assert(src@.take(src@.len() as int) =~= src@);
    }
}

/// Record `dots` for `key`, inserting or overwriting.
pub fn tags_put(v: &mut Vec<(String, Vec<Dot>)>, key: &String, dots: Vec<Dot>)
    requires
        tags_keys_unique(old(v)@),
    ensures
        tags_keys_unique(final(v)@),
        tags_view(final(v)@) == tags_view(old(v)@).insert(key@, dots_view(dots@)),
{
    let ghost dv = dots_view(dots@);
    match tags_find(v, key) {
        Some(i) => {
            let ghost s = v@;
            let k = key.clone();
            v[i] = (k, dots);
            proof {
                lemma_tags_view_update(s, i as int, v@[i as int]);
            }
        },
        None => {
            let ghost s = v@;
            let k = key.clone();
            v.push((k, dots));
            proof {
                lemma_tags_view_push(s, v@.last());
                assert forall|a: int, b: int| 0 <= a < b < v@.len() implies (#[trigger] v@[a]).0@
                    != (#[trigger] v@[b]).0@ by {
                    if b == v@.len() - 1 {
                        assert(s[a].0@ != key@);
                    }
                }
            }
        },
    }
}

/// Merge `src` into `dst`, taking the union of the dot sets at each element.
fn tags_merge(dst: &mut Vec<(String, Vec<Dot>)>, src: &Vec<(String, Vec<Dot>)>)
    requires
        tags_keys_unique(old(dst)@),
        tags_keys_unique(src@),
    ensures
        tags_keys_unique(final(dst)@),
        tags_view(final(dst)@) == tags_join(tags_view(old(dst)@), tags_view(src@)),
{
    proof {
        lemma_tags_view_props(src@);
        assert(src@.take(0) =~= Seq::<(String, Vec<Dot>)>::empty());
        assert(tags_join(tags_view(old(dst)@), tags_view(src@.take(0))) =~~= tags_view(
            old(dst)@,
        ));
    }
    let mut j: usize = 0;
    while j < src.len()
        invariant
            j <= src@.len(),
            tags_keys_unique(src@),
            tags_keys_unique(dst@),
            tags_view(dst@) == tags_join(tags_view(old(dst)@), tags_view(src@.take(j as int))),
        decreases src@.len() - j,
    {
        let ghost pre = tags_view(dst@);
        let ghost prefix = src@.take(j as int);
        proof {
            assert(src@.take(j + 1).drop_last() =~= prefix);
            assert(src@.take(j + 1).last() == src@[j as int]);
            lemma_tags_view_push(prefix, src@[j as int]);
            assert(!tags_view(prefix).contains_key(src@[j as int].0@)) by {
                lemma_tags_view_props(prefix);
                if tags_view(prefix).contains_key(src@[j as int].0@) {
                    let i = choose|i: int|
                        0 <= i < prefix.len() && (#[trigger] prefix[i]).0@ == src@[j as int].0@;
                    assert(src@[i].0@ == src@[j as int].0@);
                }
            }
        }
        let key = &src[j].0;
        match tags_find(dst, key) {
            Some(i) => {
                let ghost s = dst@;
                proof {
                    lemma_tags_view_props(s);
                }
                dots_union(dst, i, &src[j].1);
                proof {
                    assert(dst@ =~= s.update(i as int, dst@[i as int]));
                    lemma_tags_view_update(s, i as int, dst@[i as int]);
                    assert(pre[s[i as int].0@] == dots_view(s[i as int].1@));
                    assert(tags_view(dst@) =~~= tags_join(
                        tags_view(old(dst)@),
                        tags_view(src@.take(j + 1)),
                    ));
                }
            },
            None => {
                let ghost s = dst@;
                let copied = clone_dots(&src[j].1);
                let k = key.clone();
                dst.push((k, copied));
                proof {
                    lemma_tags_view_push(s, dst@.last());
                    lemma_tags_view_props(s);
                    assert forall|a: int, b: int|
                        0 <= a < b < dst@.len() implies (#[trigger] dst@[a]).0@ != (
                    #[trigger] dst@[b]).0@ by {
                        if b == dst@.len() - 1 {
                            assert(s[a].0@ != dst@[b].0@);
                        }
                    }
                    assert(!pre.contains_key(dst@.last().0@)) by {
                        if pre.contains_key(dst@.last().0@) {
                            let a = choose|a: int|
                                0 <= a < s.len() && (#[trigger] s[a]).0@ == dst@.last().0@;
                        }
                    }
                    assert(tags_view(dst@) =~~= tags_join(
                        tags_view(old(dst)@),
                        tags_view(src@.take(j + 1)),
                    ));
                }
            },
        }
        j += 1;
    }
    proof {
        assert(src@.take(src@.len() as int) =~= src@);
    }
}

/// Joining something already dominated changes nothing, and vice versa.
pub proof fn lemma_tags_join_le(
    a: Map<Seq<char>, Set<(Seq<char>, u64)>>,
    b: Map<Seq<char>, Set<(Seq<char>, u64)>>,
)
    ensures
        tags_join(a, b) == a <==> tags_le(b, a),
{
    if tags_le(b, a) {
        assert(tags_join(a, b) =~~= a);
    }
    if tags_join(a, b) == a {
        assert forall|e: Seq<char>| #[trigger] b.contains_key(e) implies a.contains_key(e)
            && b[e].subset_of(a[e]) by {
            assert(tags_join(a, b).contains_key(e));
            assert(tags_join(a, b)[e] == dget(a, e).union(dget(b, e)));
        }
    }
}

/// Whether every entry of `src` is present in `dst` with at least the same
/// dots.
#[verifier::loop_isolation(false)]
fn tags_dominates(dst: &Vec<(String, Vec<Dot>)>, src: &Vec<(String, Vec<Dot>)>) -> (r: bool)
    requires
        tags_keys_unique(dst@),
        tags_keys_unique(src@),
    ensures
        r == tags_le(tags_view(src@), tags_view(dst@)),
{
    proof {
        lemma_tags_view_props(dst@);
        lemma_tags_view_props(src@);
    }
    let mut j: usize = 0;
    while j < src.len()
        invariant
            j <= src@.len(),
            forall|i: int|
                0 <= i < j ==> tags_view(dst@).contains_key((#[trigger] src@[i]).0@)
                    && dots_view(src@[i].1@).subset_of(tags_view(dst@)[src@[i].0@]),
        decreases src@.len() - j,
    {
        proof {
            assert(tags_view(src@).contains_key(src@[j as int].0@));
            assert(tags_view(src@)[src@[j as int].0@] == dots_view(src@[j as int].1@));
        }
        match tags_find(dst, &src[j].0) {
            Some(i) => {
                proof {
                    assert(tags_view(dst@).contains_key(dst@[i as int].0@));
                    assert(tags_view(dst@)[dst@[i as int].0@] == dots_view(dst@[i as int].1@));
                    lemma_dots_view_props(src@[j as int].1@);
                }
                let dots = &src[j].1;
                let mut k: usize = 0;
                while k < dots.len()
                    invariant
                        k <= dots@.len(),
                        forall|m: int|
                            0 <= m < k ==> dots_view(dst@[i as int].1@).contains(dot_view(
                                #[trigger] dots@[m],
                            )),
                    decreases dots@.len() - k,
                {
                    if !dots_contains(&dst[i].1, &dots[k].node_id, dots[k].counter) {
                        proof {
                            assert(dots_view(src@[j as int].1@).contains(dot_view(
                                dots@[k as int],
                            )));
                        }
                        return false;
                    }
                    k += 1;
                }
                proof {
                    assert forall|d: (Seq<char>, u64)| #[trigger]
                        dots_view(src@[j as int].1@).contains(d) implies dots_view(
                        dst@[i as int].1@,
                    ).contains(d) by {
                        let m = choose|m: int|
                            0 <= m < dots@.len() && dot_view(#[trigger] dots@[m]) == d;
                    }
                }
            },
            None => {
                proof {
                    assert(!tags_view(dst@).contains_key(src@[j as int].0@)) by {
                        if tags_view(dst@).contains_key(src@[j as int].0@) {
                            let a = choose|a: int|
                                0 <= a < dst@.len() && (#[trigger] dst@[a]).0@ == src@[
                                j as int].0@;
                        }
                    }
                }
                return false;
            },
        }
        j += 1;
    }
    proof {
        assert forall|e: Seq<char>| #[trigger]
            tags_view(src@).contains_key(e) implies tags_view(dst@).contains_key(e) && tags_view(
            src@,
        )[e].subset_of(tags_view(dst@)[e]) by {
            let i = choose|i: int| 0 <= i < src@.len() && (#[trigger] src@[i]).0@ == e;
            assert(tags_view(src@)[e] == dots_view(src@[i].1@));
        }
    }
    true
}

/// A locally performed addition keeps the set's invariants: every tombstone
/// still covers an observed addition, and every dot stays within the clock.
pub proof fn lemma_spec_add_preserves(v: SetView, e: Seq<char>, id: Seq<char>)
    requires
        v.clock < u64::MAX,
        tombstones_covered(v),
        dots_bounded(v),
    ensures
        tombstones_covered(spec_add(v, e, id)),
        dots_bounded(spec_add(v, e, id)),
{
    let w = spec_add(v, e, id);
    assert forall|e2: Seq<char>| #[trigger]
        dget(w.removes, e2).subset_of(dget(w.adds, e2)) by {
        assert(dget(v.removes, e2).subset_of(dget(v.adds, e2)));
        assert forall|d: (Seq<char>, u64)| #[trigger]
            dget(w.removes, e2).contains(d) implies dget(w.adds, e2).contains(d) by {
            assert(dget(v.removes, e2).contains(d));
            assert(dget(v.adds, e2).contains(d));
        }
    }
    assert forall|e2: Seq<char>, d: (Seq<char>, u64)| #[trigger]
        dget(w.adds, e2).contains(d) implies 1 <= d.1 <= w.clock by {
        if !(e2 == e && d == (id, (v.clock + 1) as u64)) {
            assert(dget(v.adds, e2).contains(d));
        }
    }
    assert forall|e2: Seq<char>, d: (Seq<char>, u64)| #[trigger]
        dget(w.removes, e2).contains(d) implies 1 <= d.1 <= w.clock by {
        assert(dget(v.removes, e2).contains(d));
    }
}

/// A locally performed removal keeps the set's invariants.
pub proof fn lemma_spec_remove_preserves(v: SetView, e: Seq<char>)
    requires
        tombstones_covered(v),
        dots_bounded(v),
    ensures
        tombstones_covered(spec_remove(v, e)),
        dots_bounded(spec_remove(v, e)),
{
    let w = spec_remove(v, e);
    assert forall|e2: Seq<char>| #[trigger]
        dget(w.removes, e2).subset_of(dget(w.adds, e2)) by {
        assert(dget(v.removes, e2).subset_of(dget(v.adds, e2)));
        assert forall|d: (Seq<char>, u64)| #[trigger]
            dget(w.removes, e2).contains(d) implies dget(w.adds, e2).contains(d) by {
            if !(v.adds.contains_key(e) && e2 == e) {
                assert(dget(v.removes, e2).contains(d));
            }
        }
    }
    assert forall|e2: Seq<char>, d: (Seq<char>, u64)| #[trigger]
        dget(w.adds, e2).contains(d) implies 1 <= d.1 <= w.clock by {
        assert(dget(v.adds, e2).contains(d));
    }
    assert forall|e2: Seq<char>, d: (Seq<char>, u64)| #[trigger]
        dget(w.removes, e2).contains(d) implies 1 <= d.1 <= w.clock by {
        if v.adds.contains_key(e) && e2 == e {
            if dget(v.removes, e2).contains(d) {
            } else {
                assert(dget(v.adds, e).contains(d));
            }
        } else {
            assert(dget(v.removes, e2).contains(d));
        }
    }
}

/// A merge of two states that each satisfy the set's invariants satisfies
/// them as well.
pub proof fn lemma_set_join_preserves(a: SetView, b: SetView)
    requires
        tombstones_covered(a),
        tombstones_covered(b),
        dots_bounded(a),
        dots_bounded(b),
    ensures
        tombstones_covered(set_join(a, b)),
        dots_bounded(set_join(a, b)),
{
    let w = set_join(a, b);
    assert forall|e: Seq<char>| #[trigger]
        dget(w.removes, e).subset_of(dget(w.adds, e)) by {
        assert(dget(a.removes, e).subset_of(dget(a.adds, e)));
        assert(dget(b.removes, e).subset_of(dget(b.adds, e)));
        assert(dget(w.removes, e) =~= dget(a.removes, e).union(dget(b.removes, e)));
        assert(dget(w.adds, e) =~= dget(a.adds, e).union(dget(b.adds, e)));
    }
    assert forall|e: Seq<char>, d: (Seq<char>, u64)| #[trigger]
        dget(w.adds, e).contains(d) implies 1 <= d.1 <= w.clock by {
        assert(dget(w.adds, e) =~= dget(a.adds, e).union(dget(b.adds, e)));
        if dget(a.adds, e).contains(d) {
            assert(1 <= d.1 <= a.clock);
        } else {
            assert(dget(b.adds, e).contains(d));
            assert(1 <= d.1 <= b.clock);
        }
    }
    assert forall|e: Seq<char>, d: (Seq<char>, u64)| #[trigger]
        dget(w.removes, e).contains(d) implies 1 <= d.1 <= w.clock by {
        assert(dget(w.removes, e) =~= dget(a.removes, e).union(dget(b.removes, e)));
        if dget(a.removes, e).contains(d) {
            assert(1 <= d.1 <= a.clock);
        } else {
            assert(dget(b.removes, e).contains(d));
            assert(1 <= d.1 <= b.clock);
        }
    }
}

/// Merging is commutative: both orders yield the same set state.
pub proof fn lemma_set_merge_comm(a: SetView, b: SetView)
    ensures
        set_join(a, b) == set_join(b, a),
{
    assert(tags_join(a.adds, b.adds) =~~= tags_join(b.adds, a.adds));
    assert(tags_join(a.removes, b.removes) =~~= tags_join(b.removes, a.removes));
}

/// Merging is associative: grouping does not matter.
pub proof fn lemma_set_merge_assoc(a: SetView, b: SetView, c: SetView)
    ensures
        set_join(set_join(a, b), c) == set_join(a, set_join(b, c)),
{
    assert(tags_join(tags_join(a.adds, b.adds), c.adds) =~~= tags_join(
        a.adds,
        tags_join(b.adds, c.adds),
    ));
    assert(tags_join(tags_join(a.removes, b.removes), c.removes) =~~= tags_join(
        a.removes,
        tags_join(b.removes, c.removes),
    ));
}

/// Merging is idempotent: a replica absorbed into itself is unchanged.
pub proof fn lemma_set_merge_idem(a: SetView)
    ensures
        set_join(a, a) == a,
{
    assert(tags_join(a.adds, a.adds) =~~= a.adds);
    assert(tags_join(a.removes, a.removes) =~~= a.removes);
}

/// Additions win over concurrent removals. Replica `b` adds `e` with a
/// fresh dot; replica `a` — which has not observed that dot — removes `e`
/// concurrently. After the merge, `e` is visible: the removal tombstoned
/// only dots it had observed, which the fresh dot is not among.
pub proof fn lemma_add_wins(a: SetView, b: SetView, e: Seq<char>, id: Seq<char>)
    requires
        b.clock < u64::MAX,
        tombstones_covered(a),
        dots_bounded(b),
        !dget(a.adds, e).contains((id, (b.clock + 1) as u64)),
    ensures
        element_visible(set_join(spec_remove(a, e), spec_add(b, e, id)), e),
{
    let d = (id, (b.clock + 1) as u64);
    let joined = set_join(spec_remove(a, e), spec_add(b, e, id));
    assert(dget(spec_add(b, e, id).adds, e).contains(d));
    assert(dget(joined.adds, e).contains(d));
    assert(!dget(b.removes, e).contains(d));
    assert(!dget(spec_remove(a, e).removes, e).contains(d)) by {
        assert(dget(a.removes, e).subset_of(dget(a.adds, e)));
    }
    assert(!dget(joined.removes, e).contains(d));
}

/// Removals propagate: once a replica has observed every addition of `e`
/// that another replica holds and then removes `e`, the merged state no
/// longer shows `e`.
pub proof fn lemma_remove_propagates(a: SetView, b: SetView, e: Seq<char>)
    requires
        dget(b.adds, e).subset_of(dget(a.adds, e)),
    ensures
        !element_visible(set_join(spec_remove(a, e), b), e),
{
    let joined = set_join(spec_remove(a, e), b);
    assert forall|d: (Seq<char>, u64)| #[trigger]
        dget(joined.adds, e).contains(d) implies dget(joined.removes, e).contains(d) by {
        assert(dget(a.adds, e).contains(d));
        assert(a.adds.contains_key(e));
        assert(dget(spec_remove(a, e).removes, e).contains(d));
    }
}

} // verus!
