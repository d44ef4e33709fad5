use lfu_policy::policy::PolicyInner;
use lfu_policy::sampled::{PolicyPair, SampledLFU, DEFAULT_SAMPLES};
use lfu_policy::sketch::PolicyError;

#[test]
fn fit_without_eviction() {
    let mut p = PolicyInner::new(100, 16).unwrap();
    assert_eq!(p.add(1, 4), (None, true));
    assert_eq!(p.cap(), 12);
    assert!(p.contains(&1));
    assert_eq!(p.cost(&1), 4);
}

#[test]
fn update_path() {
    let mut p = PolicyInner::new(100, 16).unwrap();
    assert_eq!(p.add(1, 4), (None, true));
    assert_eq!(p.add(1, 6), (None, false));
    assert_eq!(p.cost(&1), 6);
    assert_eq!(p.cap(), 10);
}

#[test]
fn rejection_by_size() {
    let mut p = PolicyInner::new(100, 4).unwrap();
    assert_eq!(p.add(7, 5), (None, false));
    assert!(!p.contains(&7));
    assert_eq!(p.used(), 0);
    assert_eq!(p.cap(), 4);
}

#[test]
fn eviction_with_admission() {
    let mut p = PolicyInner::new(100, 4).unwrap();
    p.record_accesses(vec![1, 1, 1, 2, 2, 3]);
    for k in 1..=4u64 {
        assert_eq!(p.add(k, 1), (None, true));
    }
    assert_eq!(p.estimate(5), 0);
    assert_eq!(p.estimate(4), 0);
    assert_eq!(p.estimate(3), 1);
    assert_eq!(p.estimate(2), 2);
    assert_eq!(p.estimate(1), 3);
    // Key 4 is the least frequent; a tie with the newcomer does not reject.
    assert_eq!(p.add(5, 1), (Some(vec![PolicyPair::new(4, 1)]), true));
    assert!(p.contains(&5));
    assert!(!p.contains(&4));
    assert_eq!(p.used(), 4);
    assert_eq!(p.cap(), 0);
}

#[test]
fn eviction_after_raising_frequency() {
    let mut p = PolicyInner::new(100, 4).unwrap();
    p.record_accesses(vec![1, 1, 1, 2, 2, 3, 4]);
    for k in 1..=4u64 {
        assert_eq!(p.add(k, 1), (None, true));
    }
    // Key 5 is less frequent than every entry: refused.
    assert_eq!(p.add(5, 1), (Some(vec![]), false));
    p.record_accesses(vec![5, 5]);
    assert_eq!(p.estimate(5), 2);
    let (victims, admitted) = p.add(5, 1);
    assert!(admitted);
    let victims = victims.unwrap();
    assert_eq!(victims.len(), 1);
    assert!(victims[0].key == 3 || victims[0].key == 4);
    assert!(p.contains(&5));
    assert_eq!(p.used(), 4);
}

#[test]
fn eviction_with_rejection() {
    let mut p = PolicyInner::new(100, 4).unwrap();
    let mut hits = Vec::new();
    for k in 1..=4u64 {
        for _ in 0..10 {
            hits.push(k);
        }
    }
    p.record_accesses(hits);
    for k in 1..=4u64 {
        assert_eq!(p.add(k, 1), (None, true));
    }
    assert_eq!(p.estimate(99), 0);
    assert_eq!(p.add(99, 1), (Some(vec![]), false));
    assert!(!p.contains(&99));
    assert_eq!(p.used(), 4);
    for k in 1..=4u64 {
        assert!(p.contains(&k));
    }
}

#[test]
fn eviction_frees_enough_cost() {
    let mut p = PolicyInner::new(100, 10).unwrap();
    assert_eq!(p.add(1, 4), (None, true));
    assert_eq!(p.add(2, 4), (None, true));
    assert_eq!(p.add(3, 2), (None, true));
    p.record_accesses(vec![9, 9, 9]);
    let before = p.used();
    let (victims, admitted) = p.add(9, 7);
    assert!(admitted);
    let victims = victims.unwrap();
    let freed: i64 = victims.iter().map(|v| v.cost).sum();
    assert!(freed >= before + 7 - 10);
    assert!(p.used() <= p.max_cost());
    assert_eq!(p.cost(&9), 7);
    assert_eq!(p.used(), before - freed + 7);
    for v in &victims {
        assert!(!p.contains(&v.key));
    }
}

#[test]
fn cost_of_absent_key_is_minus_one() {
    let mut p = PolicyInner::new(100, 16).unwrap();
    assert_eq!(p.cost(&3), -1);
    p.add(3, 0);
    assert_eq!(p.cost(&3), 0);
    p.remove(&3);
    assert_eq!(p.cost(&3), -1);
}

#[test]
fn remove_update_and_clear_keep_used_in_step() {
    let mut p = PolicyInner::new(100, 16).unwrap();
    p.add(1, 3);
    p.add(2, 5);
    assert_eq!(p.used(), 8);
    p.update(&2, 1);
    assert_eq!(p.used(), 4);
    p.update(&7, 9);
    assert_eq!(p.used(), 4);
    assert!(!p.contains(&7));
    p.remove(&1);
    assert_eq!(p.used(), 1);
    p.remove(&1);
    assert_eq!(p.used(), 1);
    p.record_accesses(vec![2, 2]);
    p.clear();
    assert_eq!(p.used(), 0);
    assert!(!p.contains(&2));
    assert_eq!(p.estimate(2), 0);
    assert_eq!(p.max_cost(), 16);
}

#[test]
fn max_cost_can_change() {
    let mut p = PolicyInner::new(100, 16).unwrap();
    p.add(1, 10);
    p.update_max_cost(8);
    assert_eq!(p.max_cost(), 8);
    assert_eq!(p.cap(), -2);
    assert_eq!(p.add(2, 9), (None, false));
}

#[test]
fn invalid_counter_count() {
    assert_eq!(PolicyInner::new(0, 10).err(), Some(PolicyError::InvalidCounterCount));
    assert_eq!(
        PolicyInner::new(0x1000_0001, 10).err(),
        Some(PolicyError::InvalidCounterCount)
    );
}

#[test]
fn room_accounting() {
    let mut s = SampledLFU::new(16);
    s.increment(1, 1);
    s.increment(2, 2);
    s.increment(3, 3);
    assert_eq!(s.room_left(4), 6);
    assert_eq!(s.used(), 6);
    assert_eq!(s.get_max_cost(), 16);
}

#[test]
fn sampled_set_operations() {
    let mut s = SampledLFU::with_samples(10, 2);
    s.increment(1, 4);
    assert!(s.contains(&1));
    assert!(s.update(&1, 6));
    assert!(!s.update(&2, 6));
    assert_eq!(s.cost(&1), 6);
    assert_eq!(s.remove(&1), Some(6));
    assert_eq!(s.remove(&1), None);
    assert_eq!(s.used(), 0);
    s.increment(5, 5);
    s.update_max_cost(3);
    assert_eq!(s.get_max_cost(), 3);
    assert_eq!(s.room_left(0), -2);
    s.clear();
    assert!(!s.contains(&5));
    assert_eq!(s.used(), 0);
}

#[test]
fn sampled_set_with_hasher_starts_empty() {
    let s = SampledLFU::with_hasher(7, std::collections::hash_map::RandomState::new());
    assert_eq!(s.used(), 0);
    assert!(!s.contains(&0));
    assert_eq!(s.get_max_cost(), 7);
    let mut t = SampledLFU::with_samples_and_hasher(7, 3, std::collections::hash_map::RandomState::new());
    t.increment(1, 1);
    t.increment(2, 1);
    t.increment(3, 1);
    t.increment(4, 1);
    let sample = t.fill_sample(Vec::new());
    assert_eq!(sample.len(), 3);
}

#[test]
fn fill_sample_tops_up() {
    let mut s = SampledLFU::new(100);
    for k in 1..=8u64 {
        s.increment(k, k as i64);
    }
    let sample = s.fill_sample(Vec::new());
    assert_eq!(sample.len(), DEFAULT_SAMPLES);
    for pair in &sample {
        assert_eq!(s.cost(&pair.key), pair.cost);
    }
    let mut keys: Vec<u64> = sample.iter().map(|p| p.key).collect();
    keys.sort();
    keys.dedup();
    assert_eq!(keys.len(), DEFAULT_SAMPLES);
    // A full sample comes back unchanged.
    let again = s.fill_sample(sample.clone());
    assert_eq!(again, sample);
    // A partial sample keeps its pairs and is topped up with live entries.
    let partial = vec![sample[0], sample[1]];
    let topped = s.fill_sample(partial.clone());
    assert_eq!(topped.len(), DEFAULT_SAMPLES);
    assert_eq!(&topped[..2], &partial[..]);
    for pair in &topped[2..] {
        assert_eq!(s.cost(&pair.key), pair.cost);
    }
    let mut added: Vec<u64> = topped[2..].iter().map(|p| p.key).collect();
    added.sort();
    added.dedup();
    assert_eq!(added.len(), DEFAULT_SAMPLES - 2);
}

#[test]
fn fill_sample_appends_keys_already_held() {
    let mut s = SampledLFU::new(100);
    s.increment(1, 1);
    let topped = s.fill_sample(vec![PolicyPair::new(1, 1)]);
    assert_eq!(topped, vec![PolicyPair::new(1, 1), PolicyPair::new(1, 1)]);
}

#[test]
fn rejection_when_every_entry_is_more_frequent() {
    let mut p = PolicyInner::new(100, 3).unwrap();
    p.record_accesses(vec![1, 1, 2, 2, 3, 3]);
    for k in 1..=3u64 {
        assert_eq!(p.add(k, 1), (None, true));
    }
    p.record_accesses(vec![4]);
    assert_eq!(p.add(4, 1), (Some(vec![]), false));
    for k in 1..=3u64 {
        assert!(p.contains(&k));
        assert!(p.estimate(k) > p.estimate(4));
    }
}

#[test]
fn eviction_of_several_victims_has_no_repeats() {
    let mut p = PolicyInner::new(100, 6).unwrap();
    for k in 1..=6u64 {
        assert_eq!(p.add(k, 1), (None, true));
    }
    p.record_accesses(vec![9, 9]);
    let (victims, admitted) = p.add(9, 4);
    assert!(admitted);
    let victims = victims.unwrap();
    let mut keys: Vec<u64> = victims.iter().map(|v| v.key).collect();
    keys.sort();
    keys.dedup();
    assert_eq!(keys.len(), victims.len());
    assert_eq!(victims.len(), 4);
    assert_eq!(p.used(), 6);
}

#[test]
fn fill_sample_stops_when_exhausted() {
    let mut s = SampledLFU::new(100);
    s.increment(1, 1);
    s.increment(2, 2);
    let sample = s.fill_sample(Vec::new());
    assert_eq!(sample.len(), 2);
    let mut keys: Vec<u64> = sample.iter().map(|p| p.key).collect();
    keys.sort();
    assert_eq!(keys, vec![1, 2]);
    let empty = SampledLFU::new(100).fill_sample(Vec::new());
    assert!(empty.is_empty());
}

#[test]
fn policy_pair_from_tuple() {
    let p = PolicyPair::from((3u64, 9i64));
    assert_eq!(p, PolicyPair::new(3, 9));
    assert_eq!(p.key, 3);
    assert_eq!(p.cost, 9);
}
