use lfu_policy::bloom::Bloom;
use lfu_policy::sketch::{CountMinSketch, PolicyError};
use lfu_policy::tinylfu::TinyLFU;

#[test]
fn sketch_halving_through_window() {
    let mut t = TinyLFU::new(4).unwrap();
    t.increment(1);
    assert_eq!(t.estimate(1), 1);
    assert!(t.contains(1));
    t.increment(1);
    assert_eq!(t.estimate(1), 2);
    t.increment(1);
    assert_eq!(t.estimate(1), 3);
    // The fourth increment closes the window: counter 3 halves to 1 and the
    // doorkeeper is cleared.
    t.increment(1);
    assert!(!t.contains(1));
    assert_eq!(t.estimate(1), 1);
}

#[test]
fn estimate_grows_within_window() {
    let mut t = TinyLFU::new(1000).unwrap();
    let mut last = t.estimate(42);
    for _ in 0..20 {
        t.increment(42);
        let now = t.estimate(42);
        assert!(now >= last);
        last = now;
    }
    // Saturated sketch (15) plus the doorkeeper bit.
    assert_eq!(last, 16);
}

#[test]
fn estimate_shrinks_on_reset() {
    let mut t = TinyLFU::new(10).unwrap();
    t.increments(vec![7, 7, 7, 7, 7, 8, 8, 8, 8]);
    assert_eq!(t.estimate(7), 5);
    assert_eq!(t.estimate(8), 4);
    // The tenth increment closes the window.
    t.try_reset();
    assert!(t.estimate(7) <= 5);
    assert!(t.estimate(8) <= 4);
    assert_eq!(t.estimate(7), 2);
    assert_eq!(t.estimate(8), 1);
}

#[test]
fn try_reset_before_window_end_changes_nothing() {
    let mut t = TinyLFU::new(10).unwrap();
    t.increments(vec![7, 7, 7]);
    t.try_reset();
    assert_eq!(t.estimate(7), 3);
}

#[test]
fn tinylfu_reset_and_clear() {
    let mut t = TinyLFU::new(100).unwrap();
    t.increments(vec![5, 5, 5, 5, 5, 5, 5]);
    assert_eq!(t.estimate(5), 7);
    t.reset();
    assert!(!t.contains(5));
    assert_eq!(t.estimate(5), 3);
    t.clear();
    assert_eq!(t.estimate(5), 0);
}

#[test]
fn tinylfu_rejects_bad_counter_counts() {
    assert_eq!(TinyLFU::new(0).err(), Some(PolicyError::InvalidCounterCount));
    assert!(TinyLFU::new(1).is_ok());
}

#[test]
fn sketch_counts_saturate_and_halve() {
    let mut s = CountMinSketch::new(16).unwrap();
    assert_eq!(s.estimate(3), 0);
    for _ in 0..20 {
        s.increment(3);
    }
    assert_eq!(s.estimate(3), 15);
    s.reset();
    assert_eq!(s.estimate(3), 7);
    s.reset();
    assert_eq!(s.estimate(3), 3);
    s.clear();
    assert_eq!(s.estimate(3), 0);
}

#[test]
fn sketch_rejects_bad_sizes() {
    assert_eq!(CountMinSketch::new(0).err(), Some(PolicyError::InvalidCounterCount));
    assert_eq!(
        CountMinSketch::new(0x1000_0001).err(),
        Some(PolicyError::InvalidCounterCount)
    );
    assert!(CountMinSketch::new(1).is_ok());
    assert!(CountMinSketch::new(0x1000_0000).is_ok());
}

#[test]
fn doorkeeper_remembers_until_reset() {
    let mut b = Bloom::new(100);
    assert!(!b.contains(11));
    assert!(!b.contains_or_add(11));
    assert!(b.contains(11));
    assert!(b.contains_or_add(11));
    b.reset();
    assert!(!b.contains(11));
    b.contains_or_add(12);
    b.clear();
    assert!(!b.contains(12));
}

#[test]
fn doorkeeper_holds_many_keys() {
    let mut b = Bloom::new(1000);
    for k in 0..1000u64 {
        b.contains_or_add(k.wrapping_mul(0x9E37_79B9_7F4A_7C15));
    }
    for k in 0..1000u64 {
        assert!(b.contains(k.wrapping_mul(0x9E37_79B9_7F4A_7C15)));
    }
}
