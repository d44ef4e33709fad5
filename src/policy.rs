//! The policy core: admission through TinyLFU and eviction by sampled LFU
//! over the cost set.
use crate::sampled::{
    has_key, key_set, live_distinct_from, live_from, pairs_cost, total_cost, PolicyPair,
    SampledLFU, DEFAULT_SAMPLES,
};
use crate::sketch::PolicyError;
use crate::tinylfu::TinyLFU;
use std::collections::hash_map::RandomState;
use vstd::prelude::*;

verus! {

/// Every key of `m` is the key of some pair of `s`.
pub open spec fn covers(s: Seq<PolicyPair>, m: Map<u64, i64>) -> bool {
    forall|k: u64| #[trigger] m.contains_key(k) ==> has_key(s, k)
}

proof fn lemma_fill_keeps_live(before: Seq<PolicyPair>, after: Seq<PolicyPair>, m: Map<u64, i64>)
    requires
        live_from(before, m, 0),
        before.len() <= after.len(),
        after.subrange(0, before.len() as int) == before,
        live_from(after, m, before.len() as int),
    ensures
        live_from(after, m, 0),
{
    assert forall|i: int| #![trigger after[i]] 0 <= i < before.len() implies after[i] == before[i] by {
        assert(after.subrange(0, before.len() as int)[i] == after[i]);
    }
}

proof fn lemma_fill_keeps_cover(before: Seq<PolicyPair>, after: Seq<PolicyPair>, m: Map<u64, i64>)
    requires
        covers(before, m),
        before.len() <= after.len(),
        after.subrange(0, before.len() as int) == before,
    ensures
        covers(after, m),
{
    assert forall|k: u64| #[trigger] m.contains_key(k) implies has_key(after, k) by {
        let i = choose|i: int| 0 <= i < before.len() && #[trigger] before[i].key == k;
        assert(after.subrange(0, before.len() as int)[i] == after[i]);
    }
}

/// The pairs of `s` whose key is not `k`, in order.
fn without_key(s: Vec<PolicyPair>, k: u64) -> (r: Vec<PolicyPair>)
    ensures
        forall|i: int| #![trigger r@[i]] 0 <= i < r@.len() ==> r@[i].key != k && s@.contains(r@[i]),
        forall|j: int| #![trigger s@[j]] 0 <= j < s@.len() && s@[j].key != k ==> r@.contains(s@[j]),
{
    let mut r: Vec<PolicyPair> = Vec::new();
    let mut j: usize = 0;
    while j < s.len()
        invariant
            j <= s@.len(),
            forall|i: int|
                #![trigger r@[i]]
                0 <= i < r@.len() ==> r@[i].key != k && s@.contains(r@[i]),
            forall|q: int| #![trigger s@[q]] 0 <= q < j && s@[q].key != k ==> r@.contains(s@[q]),
        decreases s@.len() - j,
    {
        let p = s[j];
        if p.key != k {
            let ghost before = r@;
            r.push(p);
            proof {
                assert(r@[before.len() as int] == s@[j as int]);
                assert forall|q: int| #![trigger s@[q]] 0 <= q < j && s@[q].key != k implies r@.contains(s@[q]) by {
                    let i = choose|i: int| 0 <= i < before.len() && before[i] == s@[q];
                    assert(r@[i] == before[i]);
                }
                assert forall|i: int| #![trigger r@[i]] 0 <= i < r@.len() implies r@[i].key != k && s@.contains(r@[i]) by {
                    if i < before.len() {
                        assert(r@[i] == before[i]);
                    }
                }
            }
        }
        j += 1;
    }
    r
}

proof fn lemma_key_set_push(v: Seq<PolicyPair>, p: PolicyPair)
    ensures
        key_set(v.push(p)) == key_set(v).insert(p.key),
{
    let w = v.push(p);
    assert forall|k: u64| (has_key(v, k) || k == p.key) implies has_key(w, k) by {
        if has_key(v, k) {
            let i = choose|i: int| 0 <= i < v.len() && #[trigger] v[i].key == k;
            assert(w[i] == v[i]);
        } else if k == p.key {
            assert(w[v.len() as int] == p);
        }
    }
    assert forall|k: u64| has_key(w, k) implies (has_key(v, k) || k == p.key) by {
        let i = choose|i: int| 0 <= i < w.len() && #[trigger] w[i].key == k;
        if i < v.len() {
            assert(w[i] == v[i]);
        }
    }
    assert(key_set(w) =~= key_set(v).insert(p.key));
}

/// TinyLFU admission and a sampled cost set, updated together.
pub struct PolicyInner {
    filter: TinyLFU,
    costs: SampledLFU,
}

impl PolicyInner {
    /// The admission filter.
    pub closed spec fn filter_spec(&self) -> TinyLFU {
        self.filter
    }

    /// The cost set.
    pub closed spec fn costs_spec(&self) -> SampledLFU {
        self.costs
    }

    /// The entries.
    pub open spec fn entries(&self) -> Map<u64, i64> {
        self.costs_spec().costs()
    }

    /// Sum of the costs of the entries.
    pub open spec fn used_spec(&self) -> int {
        self.costs_spec().used_spec()
    }

    /// The budget.
    pub open spec fn max_cost_spec(&self) -> int {
        self.costs_spec().max_cost_spec()
    }

    /// Estimated access frequency of `kh`.
    pub open spec fn freq(&self, kh: u64) -> int {
        self.filter_spec().freq(kh)
    }

    pub closed spec fn wf(&self) -> bool {
        self.filter.wf() && self.costs.wf()
    }

    /// What well-formedness gives callers: the used cost is the sum of the
    /// entries' costs, none of which is negative.
    pub proof fn lemma_wf_facts(&self)
        requires
            self.wf(),
        ensures
            self.entries().dom().finite(),
            forall|k: u64| #[trigger] self.entries().contains_key(k) ==> self.entries()[k] >= 0,
            self.used_spec() == total_cost(self.entries()),
            self.used_spec() >= 0,
            self.max_cost_spec() >= 0,
    {
        self.costs.lemma_wf_facts();
    }

    /// A policy with `ctrs` frequency counters and budget `max_cost`.
    pub fn new(ctrs: usize, max_cost: i64) -> (res: Result<Self, PolicyError>)
        requires
            max_cost >= 0,
        ensures
            res is Err <==> (ctrs == 0 || ctrs > crate::sketch::MAX_COUNTERS),
            res is Err ==> res == Err::<Self, PolicyError>(PolicyError::InvalidCounterCount),
            res matches Ok(p) ==> {
                &&& p.wf()
                &&& p.entries() == Map::<u64, i64>::empty()
                &&& p.used_spec() == 0
                &&& p.max_cost_spec() == max_cost
                &&& p.costs_spec().samples_spec() == DEFAULT_SAMPLES
                &&& p.filter_spec().window() == 0
                &&& p.filter_spec().window_len() == ctrs
                &&& forall|kh: u64| !#[trigger] p.filter_spec().door().contains_spec(kh)
                &&& forall|kh: u64| #[trigger] p.freq(kh) == 0
            },
    {
        let filter = match TinyLFU::new(ctrs) {
            Ok(t) => t,
            Err(e) => {
                return Err(e);
            },
        };
        let costs = SampledLFU::new(max_cost);
        Ok(PolicyInner { filter, costs })
    }

    /// As `new`, with the cost map's hasher given.
    pub fn with_hasher(ctrs: usize, max_cost: i64, hasher: RandomState) -> (res: Result<
        Self,
        PolicyError,
    >)
        requires
            max_cost >= 0,
        ensures
            res is Err <==> (ctrs == 0 || ctrs > crate::sketch::MAX_COUNTERS),
            res is Err ==> res == Err::<Self, PolicyError>(PolicyError::InvalidCounterCount),
            res matches Ok(p) ==> {
                &&& p.wf()
                &&& p.entries() == Map::<u64, i64>::empty()
                &&& p.used_spec() == 0
                &&& p.max_cost_spec() == max_cost
                &&& p.costs_spec().samples_spec() == DEFAULT_SAMPLES
                &&& p.filter_spec().window() == 0
                &&& p.filter_spec().window_len() == ctrs
                &&& forall|kh: u64| !#[trigger] p.filter_spec().door().contains_spec(kh)
                &&& forall|kh: u64| #[trigger] p.freq(kh) == 0
            },
    {
        let filter = match TinyLFU::new(ctrs) {
            Ok(t) => t,
            Err(e) => {
                return Err(e);
            },
        };
        let costs = SampledLFU::with_hasher(max_cost, hasher);
        Ok(PolicyInner { filter, costs })
    }

    /// Index and estimate of the least frequent pair of `sample`; the first
    /// one among equals.
    fn select_min(&self, sample: &Vec<PolicyPair>) -> (res: (usize, i64))
        requires
            self.wf(),
            sample@.len() > 0,
        ensures
            res.0 < sample@.len(),
            res.1 == self.freq(sample@[res.0 as int].key),
            forall|j: int| 0 <= j < sample@.len() ==> res.1 <= self.freq(#[trigger] sample@[j].key),
            forall|j: int| 0 <= j < res.0 ==> res.1 < self.freq(#[trigger] sample@[j].key),
    {
        let mut best: usize = 0;
        let mut best_hits = self.filter.estimate(sample[0].key);
        let mut i: usize = 1;
        while i < sample.len()
            invariant
                self.wf(),
                1 <= i <= sample@.len(),
                best < i,
                best_hits == self.freq(sample@[best as int].key),
                forall|j: int| 0 <= j < i ==> best_hits <= self.freq(#[trigger] sample@[j].key),
                forall|j: int| 0 <= j < best ==> best_hits < self.freq(#[trigger] sample@[j].key),
            decreases sample@.len() - i,
        {
            let h = self.filter.estimate(sample[i].key);
            if h < best_hits {
                best = i;
                best_hits = h;
            }
            i += 1;
        }
        (best, best_hits)
    }

    /// Offers the entry `(key, cost)`. Returns the entries evicted to make
    /// room, if eviction was tried, and whether the entry was admitted.
    ///
    /// An entry costlier than the budget is refused; an entry whose key is
    /// present updates that entry and is not an admission. When the entry
    /// fits, it is admitted. Otherwise entries are sampled and the least
    /// frequent one evicted, until the entry fits or the least frequent
    /// sampled entry is more frequent than the new key; then the new entry
    /// is refused, and those already evicted stay evicted.
    #[verifier::rlimit(60)]
    pub fn add(&mut self, key: u64, cost: i64) -> (res: (Option<Vec<PolicyPair>>, bool))
        requires
            old(self).wf(),
            cost >= 0,
            cost <= old(self).max_cost_spec() ==> old(self).used_spec() + cost <= i64::MAX,
        ensures
            final(self).wf(),
            final(self).used_spec() == total_cost(final(self).entries()),
            final(self).filter_spec() == old(self).filter_spec(),
            final(self).max_cost_spec() == old(self).max_cost_spec(),
            res.1 && !old(self).entries().contains_key(key) ==> {
                &&& final(self).entries().contains_key(key)
                &&& final(self).entries()[key] == cost
            },
            res.1 ==> final(self).used_spec() <= final(self).max_cost_spec(),
            res.1 && res.0 is Some ==> pairs_cost(res.0.unwrap()@) >= old(self).used_spec() + cost
                - old(self).max_cost_spec(),
            !res.1 && cost <= old(self).max_cost_spec() && !old(self).entries().contains_key(key)
                ==> {
                &&& res.0 is Some
                &&& final(self).used_spec() == old(self).used_spec() - pairs_cost(res.0.unwrap()@)
                &&& !final(self).entries().contains_key(key)
            },
            cost > old(self).max_cost_spec() ==> {
                &&& res == (None::<Vec<PolicyPair>>, false)
                &&& *final(self) == *old(self)
            },
            cost <= old(self).max_cost_spec() && old(self).entries().contains_key(key) ==> {
                &&& res == (None::<Vec<PolicyPair>>, false)
                &&& final(self).entries() == old(self).entries().insert(key, cost)
                &&& final(self).used_spec() == old(self).used_spec() - old(self).entries()[key]
                    + cost
            },
            cost <= old(self).max_cost_spec() && !old(self).entries().contains_key(key)
                && old(self).used_spec() + cost <= old(self).max_cost_spec() ==> {
                &&& res == (None::<Vec<PolicyPair>>, true)
                &&& final(self).entries() == old(self).entries().insert(key, cost)
                &&& final(self).used_spec() == old(self).used_spec() + cost
            },
            cost <= old(self).max_cost_spec() && !old(self).entries().contains_key(key)
                && old(self).used_spec() + cost > old(self).max_cost_spec() ==> {
                &&& res.0 is Some
                &&& live_distinct_from(res.0.unwrap()@, old(self).entries(), 0)
                &&& forall|i: int|
                    0 <= i < res.0.unwrap()@.len() ==> old(self).freq(
                        #[trigger] res.0.unwrap()@[i].key,
                    ) <= old(self).freq(key)
                &&& res.1 ==> {
                    &&& final(self).entries() == old(self).entries().remove_keys(
                        key_set(res.0.unwrap()@),
                    ).insert(key, cost)
                    &&& final(self).used_spec() == old(self).used_spec() - pairs_cost(
                        res.0.unwrap()@,
                    ) + cost
                    &&& final(self).used_spec() <= final(self).max_cost_spec()
                }
                &&& !res.1 ==> {
                    &&& final(self).entries() == old(self).entries().remove_keys(
                        key_set(res.0.unwrap()@),
                    )
                    &&& final(self).used_spec() == old(self).used_spec() - pairs_cost(
                        res.0.unwrap()@,
                    )
                    &&& exists|k: u64|
                        #[trigger] final(self).entries().contains_key(k) && final(self).freq(k)
                            > final(self).freq(key)
                    &&& old(self).entries().dom().len() <= old(self).costs_spec().samples_spec()
                        ==> forall|k: u64|
                        #[trigger] final(self).entries().contains_key(k) ==> final(self).freq(k)
                            > final(self).freq(key)
                }
            },
    {
        proof {
            self.costs.lemma_wf_facts();
        }
        let max_cost = self.costs.get_max_cost();
        if cost > max_cost {
            return (None, false);
        }
        if self.costs.contains(&key) {
            self.costs.update(&key, cost);
            return (None, false);
        }
        let mut room = self.costs.room_left(cost);
        if room >= 0 {
            self.costs.increment(key, cost);
            return (None, true);
        }
        let inc_hits = self.filter.estimate(key);
        let mut sample: Vec<PolicyPair> = Vec::new();
        let mut victims: Vec<PolicyPair> = Vec::new();
        let ghost m0 = self.costs.costs();
        let ghost u0 = self.costs.used_spec();
        proof {
            assert(key_set(victims@) =~= Set::<u64>::empty());
            assert(m0.remove_keys(key_set(victims@)) =~= m0);
        }
        while room < 0
            invariant
                self.wf(),
                self.filter == old(self).filter,
                self.costs.max_cost_spec() == old(self).costs.max_cost_spec(),
                self.costs.samples_spec() == old(self).costs.samples_spec(),
                0 <= cost <= self.costs.max_cost_spec(),
                u0 == old(self).costs.used_spec(),
                m0 == old(self).costs.costs(),
                u0 + cost <= i64::MAX,
                inc_hits == self.freq(key),
                !m0.contains_key(key),
                self.costs.costs() == m0.remove_keys(key_set(victims@)),
                live_distinct_from(victims@, m0, 0),
                forall|i: int|
                    0 <= i < victims@.len() ==> self.freq(#[trigger] victims@[i].key) <= inc_hits,
                self.costs.used_spec() + pairs_cost(victims@) == u0,
                self.costs.used_spec() <= u0,
                live_from(sample@, self.costs.costs(), 0),
                victims@.len() == 0 ==> sample@.len() == 0,
                m0.dom().finite(),
                m0.dom().len() <= self.costs.samples_spec() && victims@.len() > 0 ==> covers(
                    sample@,
                    self.costs.costs(),
                ),
                room == self.costs.room_left_spec(cost as int),
            decreases self.costs.costs().dom().len(),
        {
            proof {
                self.costs.lemma_wf_facts();
                if self.costs.costs().dom().len() == 0 {
                    assert(self.costs.costs().dom() =~= Set::<u64>::empty());
                }
            }
            let ghost before = sample@;
            sample = self.costs.fill_sample(sample);
            proof {
                if before.len() < self.costs.samples_spec() {
                    lemma_fill_keeps_live(before, sample@, self.costs.costs());
                    if sample@.len() == 0 {
                        let k = self.costs.costs().dom().choose();
                        assert(self.costs.costs().contains_key(k));
                    }
                }
                if m0.dom().len() <= self.costs.samples_spec() {
                    if victims@.len() == 0 {
                        assert(self.costs.costs() =~= m0);
                    } else if before.len() < self.costs.samples_spec() {
                        lemma_fill_keeps_cover(before, sample@, self.costs.costs());
                    }
                }
            }
            let (mi, min_hits) = self.select_min(&sample);
            let min_pair = sample[mi];
            if inc_hits < min_hits {
                proof {
                    assert(sample@[mi as int] == min_pair);
                    assert(self.entries().contains_key(min_pair.key));
                    assert(self.freq(min_pair.key) > self.freq(key));
                }
                return (Some(victims), false);
            }
            let ghost costs_before = self.costs.costs();
            let ghost v_before = victims@;
            self.costs.remove(&min_pair.key);
            victims.push(min_pair);
            proof {
                lemma_key_set_push(v_before, min_pair);
                assert(self.costs.costs() =~= m0.remove_keys(key_set(victims@)));
                assert(victims@.drop_last() =~= v_before);
                assert forall|i: int| #![trigger victims@[i]] 0 <= i < victims@.len() implies m0.contains_key(victims@[i].key) && m0[victims@[i].key] == victims@[i].cost by {
                    if i < v_before.len() {
                        assert(victims@[i] == v_before[i]);
                    }
                }
                assert forall|i: int, j: int|
                    #![trigger victims@[i], victims@[j]]
                    0 <= i < j < victims@.len() implies victims@[i].key != victims@[j].key by {
                    assert(victims@[i] == v_before[i]);
                    if j < v_before.len() {
                        assert(victims@[j] == v_before[j]);
                    } else {
                        assert(has_key(v_before, victims@[i].key));
                        assert(!key_set(v_before).contains(min_pair.key));
                    }
                }
                assert forall|i: int| 0 <= i < victims@.len() implies self.freq(#[trigger] victims@[i].key) <= inc_hits by {
                    if i < v_before.len() {
                        assert(victims@[i] == v_before[i]);
                    }
                }
            }
            let ghost s_before = sample@;
            sample = without_key(sample, min_pair.key);
            proof {
                assert forall|i: int| #![trigger sample@[i]] 0 <= i < sample@.len() implies self.costs.costs().contains_key(sample@[i].key) && self.costs.costs()[sample@[i].key] == sample@[i].cost by {
                    assert(s_before.contains(sample@[i]));
                }
                if m0.dom().len() <= self.costs.samples_spec() {
                    assert forall|k: u64| #[trigger] self.costs.costs().contains_key(k) implies has_key(sample@, k) by {
                        let j = choose|j: int| 0 <= j < s_before.len() && #[trigger] s_before[j].key == k;
                        assert(sample@.contains(s_before[j]));
                    }
                }
            }
            room = self.costs.room_left(cost);
        }
        self.costs.increment(key, cost);
        (Some(victims), true)
    }

    /// Whether `k` has an entry.
    pub fn contains(&self, k: &u64) -> (r: bool)
        requires
            self.wf(),
        ensures
            r == self.entries().contains_key(*k),
    {
        self.costs.contains(k)
    }

    /// Removes the entry of `k`, if any.
    pub fn remove(&mut self, k: &u64)
        requires
            old(self).wf(),
        ensures
            final(self).wf(),
            final(self).used_spec() == total_cost(final(self).entries()),
            final(self).filter_spec() == old(self).filter_spec(),
            final(self).max_cost_spec() == old(self).max_cost_spec(),
            final(self).entries() == old(self).entries().remove(*k),
            final(self).used_spec() == old(self).used_spec() - if old(self).entries().contains_key(
                *k,
            ) {
                old(self).entries()[*k] as int
            } else {
                0int
            },
    {
        self.costs.remove(k);
    }

    /// Room left in the budget: `max_cost - used`.
    pub fn cap(&self) -> (r: i64)
        requires
            self.wf(),
        ensures
            r == self.max_cost_spec() - self.used_spec(),
    {
        proof {
            self.costs.lemma_wf_facts();
        }
        self.costs.get_max_cost() - self.costs.used()
    }

    /// Replaces the cost of `k` if it has an entry; no eviction follows.
    pub fn update(&mut self, k: &u64, cost: i64)
        requires
            old(self).wf(),
            cost >= 0,
            old(self).entries().contains_key(*k) ==> old(self).used_spec() - old(self).entries()[*k]
                + cost <= i64::MAX,
        ensures
            final(self).wf(),
            final(self).used_spec() == total_cost(final(self).entries()),
            final(self).filter_spec() == old(self).filter_spec(),
            final(self).max_cost_spec() == old(self).max_cost_spec(),
            old(self).entries().contains_key(*k) ==> {
                &&& final(self).entries() == old(self).entries().insert(*k, cost)
                &&& final(self).used_spec() == old(self).used_spec() - old(self).entries()[*k]
                    + cost
            },
            !old(self).entries().contains_key(*k) ==> *final(self) == *old(self),
    {
        self.costs.update(k, cost);
    }

    /// The cost of `k`, or -1 when it has no entry.
    pub fn cost(&self, k: &u64) -> (r: i64)
        requires
            self.wf(),
        ensures
            self.entries().contains_key(*k) ==> r == self.entries()[*k] && r >= 0,
            !self.entries().contains_key(*k) ==> r == -1,
    {
        self.costs.cost(k)
    }

    /// Forgets every entry and every recorded access; the budget stays.
    pub fn clear(&mut self)
        requires
            old(self).wf(),
        ensures
            final(self).wf(),
            final(self).used_spec() == total_cost(final(self).entries()),
            final(self).entries() == Map::<u64, i64>::empty(),
            final(self).used_spec() == 0,
            final(self).max_cost_spec() == old(self).max_cost_spec(),
            forall|kh: u64| #[trigger] final(self).freq(kh) == 0,
    {
        self.filter.clear();
        self.costs.clear();
    }

    /// The budget.
    pub fn max_cost(&self) -> (r: i64)
        ensures
            r == self.max_cost_spec(),
    {
        self.costs.get_max_cost()
    }

    /// Sets the budget; no eviction follows.
    pub fn update_max_cost(&mut self, mc: i64)
        requires
            old(self).wf(),
            mc >= 0,
        ensures
            final(self).wf(),
            final(self).max_cost_spec() == mc,
            final(self).entries() == old(self).entries(),
            final(self).used_spec() == old(self).used_spec(),
            final(self).filter_spec() == old(self).filter_spec(),
    {
        self.costs.update_max_cost(mc)
    }

    /// Sum of the costs of the entries.
    pub fn used(&self) -> (r: i64)
        ensures
            r == self.used_spec(),
    {
        self.costs.used()
    }

    /// Estimated access frequency of `kh`.
    pub fn estimate(&self, kh: u64) -> (r: i64)
        requires
            self.wf(),
        ensures
            r == self.freq(kh),
    {
        self.filter.estimate(kh)
    }

    /// Records one access of each of `khs`, in order; the entries do not
    /// change.
    pub fn record_accesses(&mut self, khs: Vec<u64>)
        requires
            old(self).wf(),
        ensures
            final(self).wf(),
            TinyLFU::increments_chain(old(self).filter_spec(), final(self).filter_spec(), khs@),
            final(self).costs_spec() == old(self).costs_spec(),
    {
        self.filter.increments(khs);
    }
}

} // verus!
