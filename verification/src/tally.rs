//! Association lists from node identifiers to unsigned 64-bit tallies.
//!
//! A tally list is the executable representation behind both sides of the
//! PN-Counter (`p` and `n`) and behind the peer table. Its mathematical model
//! is a finite `Map<Seq<char>, u64>`; the pointwise-maximum join of two such
//! maps is the semilattice operation that makes counter merges commutative,
//! associative and idempotent.

use vstd::prelude::*;

verus! {

/// The model of a tally list: entries folded into a map, later entries
/// overriding earlier ones (lists kept by this module never repeat a key).
pub open spec fn tally_view(s: Seq<(String, u64)>) -> Map<Seq<char>, u64>
    decreases s.len(),
{
    if s.len() == 0 {
        Map::empty()
    } else {
        tally_view(s.drop_last()).insert(s.last().0@, s.last().1)
    }
}

/// No key occurs twice in the list.
pub open spec fn tally_keys_unique(s: Seq<(String, u64)>) -> bool {
    forall|i: int, j: int| 0 <= i < j < s.len() ==> s[i].0@ != s[j].0@
}

/// The tally recorded for `k`, counting an absent key as zero.
pub open spec fn tget(m: Map<Seq<char>, u64>, k: Seq<char>) -> u64 {
    if m.contains_key(k) {
        m[k]
    } else {
        0u64
    }
}

pub open spec fn max_u64(a: u64, b: u64) -> u64 {
    if a >= b {
        a
    } else {
        b
    }
}

/// The join of two tally maps: the union of their domains, with the
/// pointwise maximum of the two tallies.
pub open spec fn tally_join(
    a: Map<Seq<char>, u64>,
    b: Map<Seq<char>, u64>,
) -> Map<Seq<char>, u64> {
    Map::new(
        |k: Seq<char>| a.contains_key(k) || b.contains_key(k),
        |k: Seq<char>| max_u64(tget(a, k), tget(b, k)),
    )
}

/// One map is pointwise below another; `tally_join(a, b) == a` exactly when
/// `b` is below `a`.
pub open spec fn tally_le(b: Map<Seq<char>, u64>, a: Map<Seq<char>, u64>) -> bool {
    forall|k: Seq<char>| #[trigger] b.contains_key(k) ==> a.contains_key(k) && b[k] <= a[k]
}

pub proof fn lemma_tally_join_comm(a: Map<Seq<char>, u64>, b: Map<Seq<char>, u64>)
    ensures
        tally_join(a, b) == tally_join(b, a),
{
    assert(tally_join(a, b) =~= tally_join(b, a));
}

pub proof fn lemma_tally_join_assoc(
    a: Map<Seq<char>, u64>,
    b: Map<Seq<char>, u64>,
    c: Map<Seq<char>, u64>,
)
    ensures
        tally_join(tally_join(a, b), c) == tally_join(a, tally_join(b, c)),
{
    assert(tally_join(tally_join(a, b), c) =~= tally_join(a, tally_join(b, c)));
}

pub proof fn lemma_tally_join_idem(a: Map<Seq<char>, u64>)
    ensures
        tally_join(a, a) == a,
{
    assert(tally_join(a, a) =~= a);
}

/// Joining something already dominated changes nothing, and vice versa.
pub proof fn lemma_tally_join_le(a: Map<Seq<char>, u64>, b: Map<Seq<char>, u64>)
    ensures
        tally_join(a, b) == a <==> tally_le(b, a),
{
    if tally_le(b, a) {
        assert(tally_join(a, b) =~= a);
    }
    if tally_join(a, b) == a {
        assert forall|k: Seq<char>| #[trigger] b.contains_key(k) implies a.contains_key(k)
            && b[k] <= a[k] by {
            assert(tally_join(a, b).contains_key(k));
        }
    }
}

/// Both sides of a join are below it.
pub proof fn lemma_tally_join_upper(a: Map<Seq<char>, u64>, b: Map<Seq<char>, u64>)
    ensures
        tally_le(a, tally_join(a, b)),
        tally_le(b, tally_join(a, b)),
{
}

/// A join of two maps below `t` stays below `t`.
pub proof fn lemma_tally_join_below(
    a: Map<Seq<char>, u64>,
    b: Map<Seq<char>, u64>,
    t: Map<Seq<char>, u64>,
)
    requires
        tally_le(a, t),
        tally_le(b, t),
    ensures
        tally_le(tally_join(a, b), t),
{
    assert forall|k: Seq<char>| #[trigger]
        tally_join(a, b).contains_key(k) implies t.contains_key(k) && tally_join(a, b)[k]
        <= t[k] by {
        assert(a.contains_key(k) || b.contains_key(k));
    }
}

pub proof fn lemma_tally_le_trans(
    a: Map<Seq<char>, u64>,
    b: Map<Seq<char>, u64>,
    c: Map<Seq<char>, u64>,
)
    requires
        tally_le(a, b),
        tally_le(b, c),
    ensures
        tally_le(a, c),
{
}

/// The domain of a tally list's view is exactly its set of keys, and under
/// uniqueness each entry is mapped to its listed tally; the domain is finite.
pub proof fn lemma_tally_view_props(s: Seq<(String, u64)>)
    requires
        tally_keys_unique(s),
    ensures
        tally_view(s).dom().finite(),
        forall|k: Seq<char>|
            tally_view(s).contains_key(k) <==> exists|i: int| 0 <= i < s.len() && (#[trigger] s[i]).0@ == k,
        forall|i: int|
            0 <= i < s.len() ==> tally_view(s)[(#[trigger] s[i]).0@] == s[i].1,
    decreases s.len(),
{
    if s.len() > 0 {
        let t = s.drop_last();
        lemma_tally_view_props(t);
        assert forall|k: Seq<char>|
            tally_view(s).contains_key(k) implies exists|i: int|
            0 <= i < s.len() && (#[trigger] s[i]).0@ == k by {
            if k == s.last().0@ {
                assert(s[s.len() - 1].0@ == k);
            } else {
                let i = choose|i: int| 0 <= i < t.len() && (#[trigger] t[i]).0@ == k;
                assert(s[i].0@ == k);
            }
        }
        assert forall|k: Seq<char>|
            (exists|i: int| 0 <= i < s.len() && (#[trigger] s[i]).0@ == k) implies tally_view(
            s,
        ).contains_key(k) by {
            let i = choose|i: int| 0 <= i < s.len() && (#[trigger] s[i]).0@ == k;
            if i < s.len() - 1 {
                assert(t[i].0@ == k);
            }
        }
        assert forall|i: int| 0 <= i < s.len() implies tally_view(s)[(#[trigger] s[i]).0@]
            == s[i].1 by {
            if i < s.len() - 1 {
                assert(t[i] == s[i]);
                // the last key differs from s[i].0@ by uniqueness
                assert(s[i].0@ != s.last().0@);
            }
        }
    }
}

/// Appending a fresh entry inserts it into the view.
pub proof fn lemma_tally_view_push(s: Seq<(String, u64)>, p: (String, u64))
    ensures
        tally_view(s.push(p)) == tally_view(s).insert(p.0@, p.1),
{
    assert(s.push(p).drop_last() =~= s);
    assert(s.push(p).last() == p);
}

/// Overwriting the entry at `i` with the same key updates the view at that key.
pub proof fn lemma_tally_view_update(s: Seq<(String, u64)>, i: int, p: (String, u64))
    requires
        tally_keys_unique(s),
        0 <= i < s.len(),
        p.0@ == s[i].0@,
    ensures
        tally_view(s.update(i, p)) == tally_view(s).insert(p.0@, p.1),
        tally_keys_unique(s.update(i, p)),
    decreases s.len(),
{
    let u = s.update(i, p);
    if i == s.len() - 1 {
        assert(u.drop_last() =~= s.drop_last());
        assert(u.last() == p);
        assert(tally_view(s.drop_last()).insert(s[i].0@, s[i].1).insert(p.0@, p.1)
            =~= tally_view(s.drop_last()).insert(p.0@, p.1));
    } else {
        assert(u.drop_last() =~= s.drop_last().update(i, p));
        assert(u.last() == s.last());
        lemma_tally_view_update(s.drop_last(), i, p);
        // the two inserted keys differ, so the inserts commute
        assert(s[i].0@ != s.last().0@);
        assert(tally_view(s.drop_last()).insert(p.0@, p.1).insert(s.last().0@, s.last().1)
            =~= tally_view(s.drop_last()).insert(s.last().0@, s.last().1).insert(p.0@, p.1));
    }
}

/// Sum of the tallies of a list, in list order.
pub open spec fn seq_sum(s: Seq<(String, u64)>) -> int
    decreases s.len(),
{
    if s.len() == 0 {
        0
    } else {
        seq_sum(s.drop_last()) + s.last().1
    }
}

/// Sum of the tallies of a finite map, independent of any order.
pub open spec fn map_sum(m: Map<Seq<char>, u64>) -> int
    decreases m.dom().len() when m.dom().finite()
{
    if m.dom().finite() && m.dom().len() > 0 {
        let k = m.dom().choose();
        m[k] + map_sum(m.remove(k))
    } else {
        0
    }
}

/// `map_sum` can be peeled off at any key, not only at the chosen one.
pub proof fn lemma_map_sum_remove(m: Map<Seq<char>, u64>, k: Seq<char>)
    requires
        m.dom().finite(),
        m.contains_key(k),
    ensures
        map_sum(m) == m[k] + map_sum(m.remove(k)),
    decreases m.dom().len(),
{
    let k0 = m.dom().choose();
    assert(m.dom().contains(k0));
    if k0 == k {
        // the definition already peels at k
    } else {
        lemma_map_sum_remove(m.remove(k0), k);
        lemma_map_sum_remove(m.remove(k), k0);
        assert(m.remove(k0).remove(k) =~= m.remove(k).remove(k0));
    }
}

pub proof fn lemma_map_sum_insert(m: Map<Seq<char>, u64>, k: Seq<char>, v: u64)
    requires
        m.dom().finite(),
        !m.contains_key(k),
    ensures
        map_sum(m.insert(k, v)) == map_sum(m) + v,
{
    lemma_map_sum_remove(m.insert(k, v), k);
    assert(m.insert(k, v).remove(k) =~= m);
}

pub proof fn lemma_map_sum_nonneg(m: Map<Seq<char>, u64>)
    requires
        m.dom().finite(),
    ensures
        map_sum(m) >= 0,
    decreases (if m.dom().finite() { m.dom().len() } else { 0 }),
{
    if m.dom().finite() && m.dom().len() > 0 {
        lemma_map_sum_nonneg(m.remove(m.dom().choose()));
    }
}

/// On lists without repeated keys the two sums agree.
pub proof fn lemma_seq_sum_is_map_sum(s: Seq<(String, u64)>)
    requires
        tally_keys_unique(s),
    ensures
        seq_sum(s) == map_sum(tally_view(s)),
    decreases s.len(),
{
    if s.len() > 0 {
        let t = s.drop_last();
        lemma_seq_sum_is_map_sum(t);
        lemma_tally_view_props(t);
        assert(!tally_view(t).contains_key(s.last().0@)) by {
            if tally_view(t).contains_key(s.last().0@) {
                let i = choose|i: int|
                    0 <= i < t.len() && (#[trigger] t[i]).0@ == s.last().0@;
                assert(s[i].0@ == s[s.len() - 1].0@);
            }
        }
        lemma_map_sum_insert(tally_view(t), s.last().0@, s.last().1);
    }
}

/// A list of at most `usize::MAX` entries, each at most `u64::MAX`, sums to
/// less than the unsigned 128-bit limit.
pub proof fn lemma_seq_sum_bound(s: Seq<(String, u64)>)
    ensures
        0 <= seq_sum(s) <= s.len() * (u64::MAX as int),
    decreases s.len(),
{
    if s.len() > 0 {
        lemma_seq_sum_bound(s.drop_last());
    }
}

/// Index of the entry holding `key`, if the list holds one.
pub fn tally_find(v: &Vec<(String, u64)>, key: &String) -> (r: Option<usize>)
    ensures
        match r {
            Some(i) => i < v@.len() && v@[i as int].0@ == key@,
            None => forall|i: int| 0 <= i < v@.len() ==> (#[trigger] v@[i]).0@ != key@,
        },
{
    let mut i: usize = 0;
    while i < v.len()
        invariant
            i <= v@.len(),
            forall|j: int| 0 <= j < i ==> (#[trigger] v@[j]).0@ != key@,
        decreases v@.len() - i,
    {
        if v[i].0 == *key {
            return Some(i);
        }
        i += 1;
    }
    None
}

/// The tally recorded for `key`, zero when absent.
pub fn tally_get(v: &Vec<(String, u64)>, key: &String) -> (r: u64)
    requires
        tally_keys_unique(v@),
    ensures
        r == tget(tally_view(v@), key@),
{
    proof {
        lemma_tally_view_props(v@);
    }
    match tally_find(v, key) {
        Some(i) => v[i].1,
        None => 0,
    }
}

/// Record `val` for `key`, inserting or overwriting.
pub fn tally_put(v: &mut Vec<(String, u64)>, key: &String, val: u64)
    requires
        tally_keys_unique(old(v)@),
    ensures
        tally_keys_unique(final(v)@),
        tally_view(final(v)@) == tally_view(old(v)@).insert(key@, val),
{
    match tally_find(v, key) {
        Some(i) => {
            let ghost s = v@;
            let k = key.clone();
            v[i] = (k, val);
            proof {
                lemma_tally_view_update(s, i as int, v@[i as int]);
            }
        },
        None => {
            let ghost s = v@;
            let k = key.clone();
            v.push((k, val));
            proof {
                lemma_tally_view_push(s, v@.last());
                assert forall|i: int, j: int| 0 <= i < j < v@.len() implies (#[trigger] v@[i]).0@
                    != (#[trigger] v@[j]).0@ by {
                    if j == v@.len() - 1 {
                        assert(s[i].0@ != key@);
                    }
                }
            }
        },
    }
}

/// Raise the tally for `key` by `amt`.
pub fn tally_add(v: &mut Vec<(String, u64)>, key: &String, amt: u64)
    requires
        tally_keys_unique(old(v)@),
        tget(tally_view(old(v)@), key@) + amt <= u64::MAX,
    ensures
        tally_keys_unique(final(v)@),
        tally_view(final(v)@) == tally_view(old(v)@).insert(
            key@,
            (tget(tally_view(old(v)@), key@) + amt) as u64,
        ),
{
    let cur = tally_get(v, key);
    tally_put(v, key, cur + amt);
}

/// Merge `src` into `dst`, taking the pointwise maximum.
pub fn tally_merge(dst: &mut Vec<(String, u64)>, src: &Vec<(String, u64)>)
    requires
        tally_keys_unique(old(dst)@),
        tally_keys_unique(src@),
    ensures
        tally_keys_unique(final(dst)@),
        tally_view(final(dst)@) == tally_join(tally_view(old(dst)@), tally_view(src@)),
{
    proof {
        lemma_tally_view_props(src@);
    }
    let mut j: usize = 0;
    while j < src.len()
        invariant
            j <= src@.len(),
            tally_keys_unique(src@),
            tally_keys_unique(dst@),
            tally_view(dst@) == tally_join(tally_view(old(dst)@), tally_view(src@.take(j as int))),
        decreases src@.len() - j,
    {
        let ghost pre = tally_view(dst@);
        let ghost prefix = src@.take(j as int);
        let key = &src[j].0;
        let amt = src[j].1;
        let cur = tally_get(dst, key);
        let raised = if amt > cur {
            amt
        } else {
            cur
        };
        tally_put(dst, key, raised);
        proof {
            assert(src@.take(j + 1).drop_last() =~= prefix);
            assert(src@.take(j + 1).last() == src@[j as int]);
            lemma_tally_view_push(prefix, src@[j as int]);
            assert(src@.take(j + 1) =~= prefix.push(src@[j as int]));
            // the key is fresh in the prefix, so its old joined tally is dst's own
            assert(!tally_view(prefix).contains_key(key@)) by {
                lemma_tally_view_props(prefix);
                if tally_view(prefix).contains_key(key@) {
                    let i = choose|i: int|
                        0 <= i < prefix.len() && (#[trigger] prefix[i]).0@ == key@;
                    assert(src@[i].0@ == src@[j as int].0@);
                }
            }
            assert(tally_view(dst@) =~= tally_join(
                tally_view(old(dst)@),
                tally_view(src@.take(j + 1)),
            )) by {
                assert(tally_view(dst@) == pre.insert(key@, max_u64(cur, amt)));
                assert(cur == tget(pre, key@));
            }
        }
        j += 1;
    }
    proof {
        assert(src@.take(src@.len() as int) =~= src@);
    }
}

/// Sum all tallies. A list holds fewer than 2^64 entries of at most
/// `u64::MAX` each, so the exact sum always fits 128 bits.
pub fn tally_sum(v: &Vec<(String, u64)>) -> (r: u128)
    ensures
        r == seq_sum(v@),
{
    let mut acc: u128 = 0;
    let mut i: usize = 0;
    while i < v.len()
        invariant
            i <= v@.len(),
            acc == seq_sum(v@.take(i as int)),
        decreases v@.len() - i,
    {
        let ghost n = i as int;
        proof {
            assert(v@.take(n + 1).drop_last() =~= v@.take(n));
            assert(v@.take(n + 1).last() == v@[n]);
            lemma_seq_sum_bound(v@.take(n));
            assert(v@.take(n).len() * (u64::MAX as int) <= (usize::MAX as int) * (
            u64::MAX as int)) by (nonlinear_arith)
                requires
                    0 <= v@.take(n).len() <= usize::MAX as int,
            ;
        }
        acc = acc + (v[i].1 as u128);
        i += 1;
    }
    proof {
        assert(v@.take(v@.len() as int) =~= v@);
    }
    acc
}

} // verus!
