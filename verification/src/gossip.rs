//! Dissemination bookkeeping: the peer table that drives anti-entropy, and
//! the random selection of push targets. The table maps each peer address to
//! the wall clock of the last anti-entropy round aimed at it; peers not
//! contacted for longer than the gossip period are due another round.

use vstd::prelude::*;

use crate::tally::{
    lemma_tally_view_props, tally_keys_unique, tally_put, tally_view, tget,
};
use crate::text::names_contain;
use vstd::string::{StrSliceExecFns, StringExecFns};

verus! {

/// How many peers a reactive push targets.
pub const K: usize = 3;

/// The anti-entropy period, in milliseconds.
pub const GOSSIP_PERIOD_MS: u64 = 2000;

/// The most entries one gossip batch carries.
pub const BATCH_SIZE: usize = 1000;

/// A peer is due another anti-entropy round once its last contact lies
/// further back than the gossip period.
pub open spec fn peer_stale(last_contacted: u64, now: u64) -> bool {
    now > last_contacted && now - last_contacted > GOSSIP_PERIOD_MS
}

/// A store entry is worth batching while its last update lies within the
/// gossip period; a timestamp ahead of the clock counts as fresh.
pub open spec fn recently_updated(last_updated: u64, now: u64) -> bool {
    now <= last_updated || now - last_updated < GOSSIP_PERIOD_MS
}

/// The peer table: each known peer address, with the wall clock of the last
/// anti-entropy round aimed at it, in milliseconds.
pub struct PeerTable {
    pub entries: Vec<(String, u64)>,
}

impl View for PeerTable {
    type V = Map<Seq<char>, u64>;

    open spec fn view(&self) -> Map<Seq<char>, u64> {
        tally_view(self.entries@)
    }
}

impl PeerTable {
    pub open spec fn wf(&self) -> bool {
        tally_keys_unique(self.entries@)
    }

    /// A table holding exactly the configured peers, each marked as last
    /// contacted at time zero, so every peer is immediately due a round.
    pub fn new(peers: &Vec<String>) -> (r: Self)
        ensures
            r.wf(),
            forall|a: Seq<char>| r@.contains_key(a) <==> names_contain(peers@, a),
            forall|a: Seq<char>| #[trigger] r@.contains_key(a) ==> r@[a] == 0,
    {
        let mut entries: Vec<(String, u64)> = Vec::new();
        let mut i: usize = 0;
        while i < peers.len()
            invariant
                i <= peers@.len(),
                tally_keys_unique(entries@),
                forall|a: Seq<char>|
                    tally_view(entries@).contains_key(a) <==> names_contain(
                        peers@.take(i as int),
                        a,
                    ),
                forall|a: Seq<char>| #[trigger]
                    tally_view(entries@).contains_key(a) ==> tally_view(entries@)[a] == 0,
            decreases peers@.len() - i,
        {
            let ghost pre = tally_view(entries@);
            tally_put(&mut entries, &peers[i], 0);
            proof {
                assert forall|a: Seq<char>|
                    tally_view(entries@).contains_key(a) implies names_contain(
                    peers@.take(i + 1),
                    a,
                ) by {
                    if a == peers@[i as int]@ {
                        assert(peers@.take(i + 1)[i as int]@ == a);
                    } else {
                        let k = choose|k: int|
                            0 <= k < i && (#[trigger] peers@.take(i as int)[k])@ == a;
                        assert(peers@.take(i + 1)[k]@ == a);
                    }
                }
                assert forall|a: Seq<char>|
                    names_contain(peers@.take(i + 1), a) implies tally_view(
                    entries@,
                ).contains_key(a) by {
                    let k = choose|k: int|
                        0 <= k < i + 1 && (#[trigger] peers@.take(i + 1)[k])@ == a;
                    if k < i {
                        assert(peers@.take(i as int)[k]@ == a);
                    }
                }
            }
            i += 1;
        }
        proof {
            assert(peers@.take(peers@.len() as int) =~= peers@);
        }
        PeerTable { entries }
    }

    /// Record that an anti-entropy round was aimed at `addr` at time `now`,
    /// whatever came of it.
    pub fn mark_contacted(&mut self, addr: &String, now: u64)
        requires
            old(self).wf(),
        ensures
            final(self).wf(),
            final(self)@ == old(self)@.insert(addr@, now),
    {
        tally_put(&mut self.entries, addr, now);
    }

    /// The peers due another anti-entropy round at time `now`, each listed
    /// once.
    #[verifier::loop_isolation(false)]
    pub fn stale_peers(&self, now: u64) -> (r: Vec<String>)
        requires
            self.wf(),
        ensures
            forall|k: int|
                0 <= k < r@.len() ==> self@.contains_key((#[trigger] r@[k])@) && peer_stale(
                    self@[r@[k]@],
                    now,
                ),
            forall|a: Seq<char>| #[trigger]
                self@.contains_key(a) && peer_stale(self@[a], now) ==> names_contain(r@, a),
            forall|k: int, l: int| 0 <= k < l < r@.len() ==> r@[k]@ != r@[l]@,
    {
        proof {
            lemma_tally_view_props(self.entries@);
        }
        let mut out: Vec<String> = Vec::new();
        let ghost mut src: Seq<int> = Seq::empty();
        let mut i: usize = 0;
        while i < self.entries.len()
            invariant
                i <= self.entries@.len(),
                src.len() == out@.len(),
                forall|k: int| 0 <= k < out@.len() ==> 0 <= #[trigger] src[k] < i,
                forall|k: int|
                    0 <= k < out@.len() ==> (#[trigger] out@[k])@ == self.entries@[src[k]].0@
                        && peer_stale(self.entries@[src[k]].1, now),
                forall|k: int, l: int| 0 <= k < l < src.len() ==> src[k] < src[l],
                forall|j: int|
                    0 <= j < i && peer_stale((#[trigger] self.entries@[j]).1, now)
                        ==> names_contain(out@, self.entries@[j].0@),
            decreases self.entries@.len() - i,
        {
            let last = self.entries[i].1;
            if now > last && now - last > GOSSIP_PERIOD_MS {
                let ghost prev = out@;
                out.push(self.entries[i].0.clone());
                proof {
                    src = src.push(i as int);
                    assert(out@[out@.len() - 1]@ == self.entries@[i as int].0@);
                    assert forall|j: int|
                        0 <= j < i + 1 && peer_stale((#[trigger] self.entries@[j]).1, now)
                            implies names_contain(out@, self.entries@[j].0@) by {
                        if j < i {
                            let k = choose|k: int|
                                0 <= k < prev.len() && (#[trigger] prev[k])@
                                    == self.entries@[j].0@;
                            assert(out@[k]@ == self.entries@[j].0@);
                        } else {
                            assert(out@[out@.len() - 1]@ == self.entries@[j].0@);
                        }
                    }
                }
            } else {
                proof {
                    assert forall|j: int|
                        0 <= j < i + 1 && peer_stale((#[trigger] self.entries@[j]).1, now)
                            implies names_contain(out@, self.entries@[j].0@) by {
                        assert(j != i);
                    }
                }
            }
            i += 1;
        }
        proof {
            assert forall|a: Seq<char>| #[trigger]
                self@.contains_key(a) && peer_stale(self@[a], now) implies names_contain(
                out@,
                a,
            ) by {
                let j = choose|j: int|
                    0 <= j < self.entries@.len() && (#[trigger] self.entries@[j]).0@ == a;
                assert(self@[a] == self.entries@[j].1);
            }
            assert forall|k: int|
                0 <= k < out@.len() implies self@.contains_key((#[trigger] out@[k])@)
                && peer_stale(self@[out@[k]@], now) by {
                assert(out@[k]@ == self.entries@[src[k]].0@);
                assert(self@[self.entries@[src[k]].0@] == self.entries@[src[k]].1);
            }
            assert forall|k: int, l: int| 0 <= k < l < out@.len() implies out@[k]@
                != out@[l]@ by {
                assert(out@[k]@ == self.entries@[src[k]].0@);
                assert(out@[l]@ == self.entries@[src[l]].0@);
                assert(src[k] < src[l]);
            }
        }
        out
    }

    /// Select up to `K` distinct peers, uniformly at random, as the targets
    /// of a reactive push; with fewer candidates than `K`, all of them. The
    /// node's own address is never a target, even when it is configured as a
    /// peer.
    pub fn select_push_targets(&self, excluding: &String) -> (r: Vec<String>)
        requires
            self.wf(),
        ensures
            count_excluding(self.entries@, excluding@) >= K ==> r@.len() == K,
            count_excluding(self.entries@, excluding@) < K ==> r@.len() == count_excluding(
                self.entries@,
                excluding@,
            ),
            forall|k: int|
                0 <= k < r@.len() ==> self@.contains_key((#[trigger] r@[k])@) && r@[k]@
                    != excluding@,
            forall|k: int, l: int| 0 <= k < l < r@.len() ==> r@[k]@ != r@[l]@,
    {
        proof {
            lemma_tally_view_props(self.entries@);
        }
        let mut candidates: Vec<String> = Vec::new();
        let ghost mut src: Seq<int> = Seq::empty();
        let mut i: usize = 0;
        while i < self.entries.len()
            invariant
                i <= self.entries@.len(),
                src.len() == candidates@.len(),
                candidates@.len() == count_excluding(self.entries@.take(i as int), excluding@),
                forall|k: int| 0 <= k < candidates@.len() ==> 0 <= #[trigger] src[k] < i,
                forall|k: int|
                    0 <= k < candidates@.len() ==> (#[trigger] candidates@[k])@
                        == self.entries@[src[k]].0@ && candidates@[k]@ != excluding@,
                forall|k: int, l: int| 0 <= k < l < src.len() ==> src[k] < src[l],
            decreases self.entries@.len() - i,
        {
            proof {
                assert(self.entries@.take(i + 1).drop_last() =~= self.entries@.take(i as int));
                assert(self.entries@.take(i + 1).last() == self.entries@[i as int]);
            }
            if self.entries[i].0 != *excluding {
                candidates.push(self.entries[i].0.clone());
                proof {
                    src = src.push(i as int);
                    assert(candidates@[candidates@.len() - 1]@ == self.entries@[i as int].0@);
                }
            }
            i += 1;
        }
        proof {
            assert(self.entries@.take(self.entries@.len() as int) =~= self.entries@);
        }
        let n = candidates.len();
        let amount = if n < K {
            n
        } else {
            K
        };
        let mut rng = rng_new();
        let idxs = sample_indices(&mut rng, n, amount);
        let mut out: Vec<String> = Vec::new();
        let mut m: usize = 0;
        while m < idxs.len()
            invariant
                m <= idxs@.len(),
                out@.len() == m,
                n == candidates@.len(),
                self.wf(),
                src.len() == candidates@.len(),
                forall|k: int| 0 <= k < candidates@.len() ==> 0 <= #[trigger] src[k]
                    < self.entries@.len(),
                forall|k: int|
                    0 <= k < candidates@.len() ==> (#[trigger] candidates@[k])@
                        == self.entries@[src[k]].0@ && candidates@[k]@ != excluding@,
                forall|k: int, l: int| 0 <= k < l < src.len() ==> src[k] < src[l],
                forall|x: int| 0 <= x < idxs@.len() ==> (#[trigger] idxs@[x]) < n,
                forall|x: int, y: int| 0 <= x < y < idxs@.len() ==> idxs@[x] != idxs@[y],
                forall|k: int|
                    0 <= k < m ==> (#[trigger] out@[k])@ == candidates@[idxs@[k] as int]@,
            decreases idxs@.len() - m,
        {
            out.push(candidates[idxs[m]].clone());
            m += 1;
        }
        proof {
            lemma_tally_view_props(self.entries@);
            assert forall|k: int|
                0 <= k < out@.len() implies self@.contains_key((#[trigger] out@[k])@) && out@[k]@
                != excluding@ by {
                let c = idxs@[k] as int;
                assert(out@[k]@ == candidates@[c]@);
                assert(candidates@[c]@ == self.entries@[src[c]].0@);
            }
            assert forall|k: int, l: int| 0 <= k < l < out@.len() implies out@[k]@
                != out@[l]@ by {
                let ck = idxs@[k] as int;
                let cl = idxs@[l] as int;
                assert(out@[k]@ == self.entries@[src[ck]].0@);
                assert(out@[l]@ == self.entries@[src[cl]].0@);
                assert(ck != cl);
                assert(src[ck] != src[cl]);
            }
        }
        out
    }
}

/// How many entries carry a key other than `me`.
pub open spec fn count_excluding(s: Seq<(String, u64)>, me: Seq<char>) -> nat
    decreases s.len(),
{
    if s.len() == 0 {
        0
    } else {
        count_excluding(s.drop_last(), me) + if s.last().0@ != me {
            1nat
        } else {
            0nat
        }
    }
}

/// Whether the address already names a scheme.
pub open spec fn starts_with_http(s: Seq<char>) -> bool {
    s.len() >= 4 && s[0] == 'h' && s[1] == 't' && s[2] == 't' && s[3] == 'p'
}

/// The endpoint to dial for a peer address: the address itself when it
/// already carries a scheme, otherwise the address behind `http://`.
pub fn ensure_http_scheme(addr: &String) -> (r: String)
    ensures
        starts_with_http(addr@) ==> r@ == addr@,
        !starts_with_http(addr@) ==> r@ == "http://"@ + addr@,
{
    let a = addr.as_str();
    let is_http = a.unicode_len() >= 4 && a.get_char(0) == 'h' && a.get_char(1) == 't'
        && a.get_char(2) == 't' && a.get_char(3) == 'p';
    if is_http {
        addr.clone()
    } else {
        let mut endpoint = String::from_str("http://");
        endpoint.append(a);
        endpoint
    }
}

#[verifier::external_type_specification]
#[verifier::external_body]
pub struct ExSmallRng(rand::rngs::SmallRng);

/// Relies on SmallRng::from_os_rng: a small generator seeded from the
/// operating system's random source. Nothing is promised of its output;
/// it aborts only if that source is unavailable.
#[verifier::external_body]
fn rng_new() -> rand::rngs::SmallRng {
    <rand::rngs::SmallRng as rand::SeedableRng>::from_os_rng()
}

/// Relies on rand::seq::index::sample: exactly `amount` distinct indices
/// drawn uniformly from `0..length`; it panics only when `amount > length`,
/// which the precondition forbids.
#[verifier::external_body]
fn sample_indices(rng: &mut rand::rngs::SmallRng, length: usize, amount: usize) -> (r: Vec<usize>)
    requires
        amount <= length,
    ensures
        r@.len() == amount,
        forall|i: int| 0 <= i < r@.len() ==> (#[trigger] r@[i]) < length,
        forall|i: int, j: int| 0 <= i < j < r@.len() ==> r@[i] != r@[j],
{
    rand::seq::index::sample(rng, length, amount).into_vec()
}

} // verus!
