//! The sampled cost set: key hashes with their costs, the running total of
//! those costs, the budget, and samples of live entries for victim selection.
use std::collections::hash_map::RandomState;
use std::collections::HashMap;
use vstd::prelude::*;
use vstd::std_specs::hash::spec_hash_map_iter;
use vstd::std_specs::iter::IteratorSpec;

verus! {

broadcast use vstd::std_specs::hash::group_hash_axioms;

/// Number of entries sampled when looking for an eviction victim.
pub const DEFAULT_SAMPLES: usize = 5;

/// A key hash with its cost.
#[derive(Clone, Copy, Debug, PartialEq, Eq, Structural, Hash)]
pub struct PolicyPair {
    pub key: u64,
    pub cost: i64,
}

impl PolicyPair {
    pub fn new(k: u64, c: i64) -> (p: Self)
        ensures
            p.key == k,
            p.cost == c,
    {
        PolicyPair { key: k, cost: c }
    }
}

impl From<(u64, i64)> for PolicyPair {
    fn from(pair: (u64, i64)) -> (p: Self) {
        PolicyPair { key: pair.0, cost: pair.1 }
    }
}

impl vstd::std_specs::convert::FromSpecImpl<(u64, i64)> for PolicyPair {
    open spec fn obeys_from_spec() -> bool {
        true
    }

    open spec fn from_spec(pair: (u64, i64)) -> Self {
        PolicyPair { key: pair.0, cost: pair.1 }
    }
}

/// Sum of the values of a finite map.
pub open spec fn total_cost(m: Map<u64, i64>) -> int
    decreases m.dom().len(),
{
    if m.dom().finite() && m.dom().len() > 0 {
        let k = m.dom().choose();
        m[k] + total_cost(m.remove(k))
    } else {
        0
    }
}

/// Sum of the costs of a sequence of pairs.
pub open spec fn pairs_cost(s: Seq<PolicyPair>) -> int
    decreases s.len(),
{
    if s.len() == 0 {
        0
    } else {
        pairs_cost(s.drop_last()) + s.last().cost
    }
}

/// Whether some pair of `s` has key `k`.
pub open spec fn has_key(s: Seq<PolicyPair>, k: u64) -> bool {
    exists|i: int| 0 <= i < s.len() && #[trigger] s[i].key == k
}

/// The keys of `s`.
pub open spec fn key_set(s: Seq<PolicyPair>) -> Set<u64> {
    Set::new(|k: u64| has_key(s, k))
}

/// Every pair of `s` from index `from` on is an entry of `m`, and its key
/// occurs nowhere else in `s`.
pub open spec fn live_distinct_from(s: Seq<PolicyPair>, m: Map<u64, i64>, from: int) -> bool {
    &&& forall|i: int|
        #![trigger s[i]]
        from <= i < s.len() ==> m.contains_key(s[i].key) && m[s[i].key] == s[i].cost
    &&& forall|i: int, j: int|
        #![trigger s[i], s[j]]
        0 <= i < j < s.len() && from <= j ==> s[i].key != s[j].key
}

/// Every pair of `s` from index `from` on is an entry of `m`.
pub open spec fn live_from(s: Seq<PolicyPair>, m: Map<u64, i64>, from: int) -> bool {
    forall|i: int|
        #![trigger s[i]]
        from <= i < s.len() ==> m.contains_key(s[i].key) && m[s[i].key] == s[i].cost
}

/// The pairs of `s` from index `from` on have pairwise different keys.
pub open spec fn distinct_from(s: Seq<PolicyPair>, from: int) -> bool {
    forall|i: int, j: int| #![trigger s[i], s[j]] from <= i < j < s.len() ==> s[i].key != s[j].key
}

/// Every value of `m` is a valid cost.
pub open spec fn costs_valid(m: Map<u64, i64>) -> bool {
    forall|k: u64| #[trigger] m.contains_key(k) ==> m[k] >= 0
}

/// The total of a finite map is any one value plus the total of the rest.
pub proof fn lemma_total_cost_remove(m: Map<u64, i64>, k: u64)
    requires
        m.dom().finite(),
        m.contains_key(k),
    ensures
        total_cost(m) == m[k] + total_cost(m.remove(k)),
    decreases m.dom().len(),
{
    let c = m.dom().choose();
    if c != k {
        lemma_total_cost_remove(m.remove(c), k);
        lemma_total_cost_remove(m.remove(k), c);
        assert(m.remove(c).remove(k) =~= m.remove(k).remove(c));
    }
}

/// Adding a key adds its value to the total.
pub proof fn lemma_total_cost_insert(m: Map<u64, i64>, k: u64, v: i64)
    requires
        m.dom().finite(),
    ensures
        total_cost(m.insert(k, v)) == v + total_cost(m.remove(k)),
{
    lemma_total_cost_remove(m.insert(k, v), k);
    assert(m.insert(k, v).remove(k) =~= m.remove(k));
}

/// With no negative value, the total is at least any one value.
pub proof fn lemma_total_cost_bounds(m: Map<u64, i64>)
    requires
        m.dom().finite(),
        costs_valid(m),
    ensures
        total_cost(m) >= 0,
        forall|k: u64| #[trigger] m.contains_key(k) ==> m[k] <= total_cost(m),
    decreases m.dom().len(),
{
    if m.dom().len() > 0 {
        let c = m.dom().choose();
        lemma_total_cost_bounds(m.remove(c));
        assert forall|k: u64| #[trigger] m.contains_key(k) implies m[k] <= total_cost(m) by {
            lemma_total_cost_remove(m, k);
            lemma_total_cost_bounds(m.remove(k));
        }
    }
}

/// The map with no entry.
pub open spec fn no_costs() -> Map<u64, i64> {
    Map::empty()
}

/// Relies on `HashMap::with_hasher`: the new map is empty.
#[verifier::external_body]
fn empty_map_with_hasher(hasher: RandomState) -> (r: HashMap<u64, i64>)
    ensures
        r@ == no_costs(),
{
    HashMap::with_hasher(hasher)
}

/// Key hashes with their costs; `used` is the sum of the costs.
pub struct SampledLFU {
    samples: usize,
    max_cost: i64,
    used: i64,
    key_costs: HashMap<u64, i64>,
}

impl SampledLFU {
    /// The entries.
    pub closed spec fn costs(&self) -> Map<u64, i64> {
        self.key_costs@
    }

    /// Sum of the costs of the entries.
    pub closed spec fn used_spec(&self) -> int {
        self.used as int
    }

    /// The budget.
    pub closed spec fn max_cost_spec(&self) -> int {
        self.max_cost as int
    }

    /// How many entries a full sample holds.
    pub closed spec fn samples_spec(&self) -> nat {
        self.samples as nat
    }

    pub closed spec fn wf(&self) -> bool {
        &&& self.key_costs@.dom().finite()
        &&& costs_valid(self.key_costs@)
        &&& self.used == total_cost(self.key_costs@)
        &&& self.samples >= 1
        &&& self.max_cost >= 0
    }

    /// What well-formedness gives callers.
    pub proof fn lemma_wf_facts(&self)
        requires
            self.wf(),
        ensures
            self.costs().dom().finite(),
            costs_valid(self.costs()),
            self.used_spec() == total_cost(self.costs()),
            self.used_spec() >= 0,
            self.samples_spec() >= 1,
            self.max_cost_spec() >= 0,
    {
        lemma_total_cost_bounds(self.key_costs@);
    }

    /// Room left after adding `cost` to what is used.
    pub open spec fn room_left_spec(&self, cost: int) -> int {
        self.max_cost_spec() - (self.used_spec() + cost)
    }

    /// An empty set that may use `max_cost` and samples
    /// `DEFAULT_SAMPLES` entries.
    pub fn new(max_cost: i64) -> (s: Self)
        requires
            max_cost >= 0,
        ensures
            s.wf(),
            s.costs() == Map::<u64, i64>::empty(),
            s.used_spec() == 0,
            s.max_cost_spec() == max_cost,
            s.samples_spec() == DEFAULT_SAMPLES,
    {
        Self::with_samples(max_cost, DEFAULT_SAMPLES)
    }

    /// An empty set that may use `max_cost` and samples `samples` entries.
    pub fn with_samples(max_cost: i64, samples: usize) -> (s: Self)
        requires
            max_cost >= 0,
            samples >= 1,
        ensures
            s.wf(),
            s.costs() == Map::<u64, i64>::empty(),
            s.used_spec() == 0,
            s.max_cost_spec() == max_cost,
            s.samples_spec() == samples,
    {
        let s = SampledLFU { samples, max_cost, used: 0, key_costs: HashMap::new() };
        assert(s.key_costs@.dom() =~= Set::<u64>::empty());
        s
    }

    /// As `new`, with the map's hasher given.
    pub fn with_hasher(max_cost: i64, hasher: RandomState) -> (s: Self)
        requires
            max_cost >= 0,
        ensures
            s.wf(),
            s.costs() == Map::<u64, i64>::empty(),
            s.used_spec() == 0,
            s.max_cost_spec() == max_cost,
            s.samples_spec() == DEFAULT_SAMPLES,
    {
        Self::with_samples_and_hasher(max_cost, DEFAULT_SAMPLES, hasher)
    }

    /// As `with_samples`, with the map's hasher given.
    pub fn with_samples_and_hasher(max_cost: i64, samples: usize, hasher: RandomState) -> (s: Self)
        requires
            max_cost >= 0,
            samples >= 1,
        ensures
            s.wf(),
            s.costs() == Map::<u64, i64>::empty(),
            s.used_spec() == 0,
            s.max_cost_spec() == max_cost,
            s.samples_spec() == samples,
    {
        let s = SampledLFU { samples, max_cost, used: 0, key_costs: empty_map_with_hasher(hasher) };
        assert(s.key_costs@.dom() =~= Set::<u64>::empty());
        s
    }

    /// Sets the budget.
    pub fn update_max_cost(&mut self, mc: i64)
        requires
            old(self).wf(),
            mc >= 0,
        ensures
            final(self).wf(),
            final(self).max_cost_spec() == mc,
            final(self).costs() == old(self).costs(),
            final(self).used_spec() == old(self).used_spec(),
            final(self).samples_spec() == old(self).samples_spec(),
    {
        self.max_cost = mc;
    }

    /// The budget.
    pub fn get_max_cost(&self) -> (r: i64)
        ensures
            r == self.max_cost_spec(),
    {
        self.max_cost
    }

    /// Sum of the costs of the entries.
    pub fn used(&self) -> (r: i64)
        ensures
            r == self.used_spec(),
    {
        self.used
    }

    /// `max_cost - (used + cost)`.
    pub fn room_left(&self, cost: i64) -> (r: i64)
        requires
            self.wf(),
            cost >= 0,
            self.used_spec() + cost <= i64::MAX,
        ensures
            r == self.room_left_spec(cost as int),
    {
        proof {
            lemma_total_cost_bounds(self.key_costs@);
        }
        self.max_cost - (self.used + cost)
    }

    /// Tops `pairs` up with entries of the set: unless it already holds
    /// `samples` pairs, appends entries in the map's iteration order until it
    /// holds `samples` pairs or every entry has been appended once.
    pub fn fill_sample(&mut self, pairs: Vec<PolicyPair>) -> (r: Vec<PolicyPair>)
        requires
            old(self).wf(),
        ensures
            *final(self) == *old(self),
            pairs@.len() >= old(self).samples_spec() ==> r@ == pairs@,
            pairs@.len() < old(self).samples_spec() ==> {
                &&& r@.len() == if pairs@.len() + old(self).costs().dom().len()
                    <= old(self).samples_spec() {
                    pairs@.len() + old(self).costs().dom().len()
                } else {
                    old(self).samples_spec()
                }
                &&& r@.subrange(0, pairs@.len() as int) == pairs@
                &&& live_from(r@, old(self).costs(), pairs@.len() as int)
                &&& distinct_from(r@, pairs@.len() as int)
                &&& pairs@.len() + old(self).costs().dom().len() <= old(self).samples_spec()
                    ==> forall|k: u64|
                    #[trigger] old(self).costs().contains_key(k) ==> has_key(r@, k)
            },
    {
        let mut buf = pairs;
        if buf.len() >= self.samples {
            return buf;
        }
        let ghost start = buf@;
        let ghost n = buf@.len() as int;
        let ghost m = self.key_costs@;
        let ghost all = spec_hash_map_iter(&self.key_costs).remaining();
        for (k, v) in it: self.key_costs.iter()
            invariant
                self.wf(),
                m == self.key_costs@,
                start == pairs@,
                n == start.len(),
                *self == *old(self),
                all == spec_hash_map_iter(&self.key_costs).remaining(),
                it.seq() == all,
                all.no_duplicates(),
                all.len() == m.dom().len(),
                forall|j: int|
                    #![trigger all[j]]
                    0 <= j < all.len() ==> m.contains_key(*all[j].0) && m[*all[j].0] == *all[j].1,
                forall|q: u64| #[trigger] m.contains_key(q) ==> all.contains((&q, &m[q])),
                buf@.len() == n + it.index(),
                buf@.len() < self.samples,
                buf@.subrange(0, n) == start,
                forall|j: int|
                    #![trigger all[j]]
                    0 <= j < it.index() ==> buf@[n + j].key == *all[j].0 && buf@[n + j].cost
                        == *all[j].1,
        {
            buf.push(PolicyPair::new(*k, *v));
            proof {
                assert(buf@.subrange(0, n) =~= start);
            }
            if buf.len() >= self.samples {
                proof {
                    self.lemma_appended(buf@, n, all, it.index() + 1);
                }
                return buf;
            }
        }
        proof {
            self.lemma_appended(buf@, n, all, all.len() as int);
        }
        buf
    }

    proof fn lemma_appended(&self, buf: Seq<PolicyPair>, n: int, all: Seq<(&u64, &i64)>, c: int)
        requires
            self.wf(),
            0 <= n,
            0 <= c <= all.len(),
            buf.len() == n + c,
            all.no_duplicates(),
            all.len() == self.costs().dom().len(),
            forall|j: int|
                #![trigger all[j]]
                0 <= j < all.len() ==> self.costs().contains_key(*all[j].0) && self.costs()[*all[j].0]
                    == *all[j].1,
            forall|q: u64| #[trigger] self.costs().contains_key(q) ==> all.contains((&q, &self.costs()[q])),
            forall|j: int|
                #![trigger all[j]]
                0 <= j < c ==> buf[n + j].key == *all[j].0 && buf[n + j].cost == *all[j].1,
        ensures
            live_from(buf, self.costs(), n),
            distinct_from(buf, n),
            c == all.len() ==> forall|k: u64| #[trigger] self.costs().contains_key(k) ==> has_key(buf, k),
    {
        let m = self.costs();
        assert forall|i: int| #![trigger buf[i]] n <= i < buf.len() implies m.contains_key(buf[i].key)
            && m[buf[i].key] == buf[i].cost by {
            assert(buf[n + (i - n)] == buf[i]);
            let _ = all[i - n];
        }
        assert forall|i: int, j: int|
            #![trigger buf[i], buf[j]]
            n <= i < j < buf.len() implies buf[i].key != buf[j].key by {
            let a = all[i - n];
            let b = all[j - n];
            assert(buf[n + (i - n)] == buf[i]);
            assert(buf[n + (j - n)] == buf[j]);
            if buf[i].key == buf[j].key {
                assert(*a.1 == m[*a.0]);
                assert(*b.1 == m[*b.0]);
                assert(a == b);
            }
        }
        if c == all.len() {
            assert forall|k: u64| #[trigger] m.contains_key(k) implies has_key(buf, k) by {
                let j = choose|j: int| 0 <= j < all.len() && all[j] == (&k, &m[k]);
                assert(buf[n + j].key == k);
            }
        }
    }

    /// Adds the entry `(key, cost)`.
    pub fn increment(&mut self, key: u64, cost: i64)
        requires
            old(self).wf(),
            !old(self).costs().contains_key(key),
            cost >= 0,
            old(self).used_spec() + cost <= i64::MAX,
        ensures
            final(self).wf(),
            final(self).used_spec() == total_cost(final(self).costs()),
            final(self).costs() == old(self).costs().insert(key, cost),
            final(self).used_spec() == old(self).used_spec() + cost,
            final(self).max_cost_spec() == old(self).max_cost_spec(),
            final(self).samples_spec() == old(self).samples_spec(),
    {
        proof {
            lemma_total_cost_insert(self.key_costs@, key, cost);
            assert(self.key_costs@.remove(key) =~= self.key_costs@);
        }
        self.key_costs.insert(key, cost);
        self.used = self.used + cost;
    }

    /// Removes the entry of `kh`, and returns its cost if there was one.
    pub fn remove(&mut self, kh: &u64) -> (r: Option<i64>)
        requires
            old(self).wf(),
        ensures
            final(self).wf(),
            final(self).used_spec() == total_cost(final(self).costs()),
            final(self).costs() == old(self).costs().remove(*kh),
            r == (if old(self).costs().contains_key(*kh) {
                Some(old(self).costs()[*kh])
            } else {
                None::<i64>
            }),
            final(self).used_spec() == old(self).used_spec() - match r {
                Some(c) => c as int,
                None => 0,
            },
            final(self).max_cost_spec() == old(self).max_cost_spec(),
            final(self).samples_spec() == old(self).samples_spec(),
    {
        proof {
            if self.key_costs@.contains_key(*kh) {
                lemma_total_cost_remove(self.key_costs@, *kh);
                lemma_total_cost_bounds(self.key_costs@.remove(*kh));
            } else {
                assert(self.key_costs@.remove(*kh) =~= self.key_costs@);
            }
        }
        match self.key_costs.remove(kh) {
            Some(cost) => {
                self.used = self.used - cost;
                Some(cost)
            },
            None => None,
        }
    }

    /// Whether `k` has an entry.
    pub fn contains(&self, k: &u64) -> (r: bool)
        requires
            self.wf(),
        ensures
            r == self.costs().contains_key(*k),
    {
        self.key_costs.contains_key(k)
    }

    /// The cost of `k`, or -1 when it has no entry.
    pub fn cost(&self, k: &u64) -> (r: i64)
        requires
            self.wf(),
        ensures
            r == (if self.costs().contains_key(*k) {
                self.costs()[*k]
            } else {
                -1i64
            }),
            self.costs().contains_key(*k) ==> r >= 0,
    {
        match self.key_costs.get(k) {
            Some(c) => *c,
            None => -1,
        }
    }

    /// Removes every entry.
    pub fn clear(&mut self)
        requires
            old(self).wf(),
        ensures
            final(self).wf(),
            final(self).used_spec() == total_cost(final(self).costs()),
            final(self).costs() == Map::<u64, i64>::empty(),
            final(self).used_spec() == 0,
            final(self).max_cost_spec() == old(self).max_cost_spec(),
            final(self).samples_spec() == old(self).samples_spec(),
    {
        self.used = 0;
        self.key_costs.clear();
        assert(self.key_costs@.dom() =~= Set::<u64>::empty());
    }

    /// Replaces the cost of `k` if it has an entry, and reports whether it
    /// had one.
    pub fn update(&mut self, k: &u64, cost: i64) -> (r: bool)
        requires
            old(self).wf(),
            cost >= 0,
            old(self).costs().contains_key(*k) ==> old(self).used_spec() - old(self).costs()[*k]
                + cost <= i64::MAX,
        ensures
            final(self).wf(),
            final(self).used_spec() == total_cost(final(self).costs()),
            r == old(self).costs().contains_key(*k),
            r ==> final(self).costs() == old(self).costs().insert(*k, cost),
            r ==> final(self).used_spec() == old(self).used_spec() - old(self).costs()[*k] + cost,
            !r ==> *final(self) == *old(self),
            final(self).max_cost_spec() == old(self).max_cost_spec(),
            final(self).samples_spec() == old(self).samples_spec(),
    {
        match self.key_costs.get(k) {
            None => false,
            Some(prev) => {
                let prev_val = *prev;
                proof {
                    lemma_total_cost_bounds(self.key_costs@);
                    lemma_total_cost_insert(self.key_costs@, *k, cost);
                    lemma_total_cost_remove(self.key_costs@, *k);
                }
                self.key_costs.insert(*k, cost);
                self.used = self.used - prev_val + cost;
                true
            },
        }
    }
}

} // verus!
