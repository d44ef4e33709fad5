//! TinyLFU admission filter: a doorkeeper in front of a count-min sketch,
//! with windowed decay.
use crate::bloom::Bloom;
use crate::sketch::{is_power_of_two, slot, CountMinSketch, PolicyError, COUNTER_MAX};
use vstd::prelude::*;

verus! {

/// A counter after one increment step: `c + 1` when `hit` and not saturated.
pub open spec fn bumped(c: int, hit: bool) -> int {
    if hit && c < COUNTER_MAX {
        c + 1
    } else {
        c
    }
}

/// Keeps access frequencies of key hashes in 4-bit counters; keys enter the
/// sketch only once the doorkeeper has seen them in the current window.
pub struct TinyLFU {
    ctr: CountMinSketch,
    doorkeeper: Bloom,
    samples: usize,
    w: usize,
}

impl TinyLFU {
    pub closed spec fn sketch(&self) -> CountMinSketch {
        self.ctr
    }

    pub closed spec fn door(&self) -> Bloom {
        self.doorkeeper
    }

    /// Increments after which the window closes.
    pub closed spec fn window_len(&self) -> nat {
        self.samples as nat
    }

    /// Increments since the window opened.
    pub closed spec fn window(&self) -> nat {
        self.w as nat
    }

    /// The parts are well formed; the window count may have reached its end.
    pub closed spec fn parts_wf(&self) -> bool {
        &&& self.ctr.wf()
        &&& self.doorkeeper.wf()
        &&& self.samples >= 1
    }

    pub closed spec fn wf(&self) -> bool {
        &&& self.parts_wf()
        &&& self.w < self.samples
    }

    /// Estimated frequency of `kh`: the sketch's estimate, plus one when the
    /// doorkeeper holds it.
    pub open spec fn freq(&self, kh: u64) -> int {
        self.sketch().estimate_spec(kh) + if self.door().contains_spec(kh) {
            1int
        } else {
            0int
        }
    }

    /// `b` and `a` have the same shape.
    pub open spec fn same_shape(a: &Self, b: &Self) -> bool {
        &&& b.window_len() == a.window_len()
        &&& b.sketch().row_mask() == a.sketch().row_mask()
        &&& b.door().bit_mask() == a.door().bit_mask()
        &&& b.door().probes() == a.door().probes()
    }

    /// `b` is `a` after the window counter advanced by one, and the window
    /// closed (doorkeeper cleared, counters halved) if it was full.
    pub open spec fn try_reset_step(a: &Self, b: &Self) -> bool {
        let fire = a.window() + 1 >= a.window_len();
        &&& Self::same_shape(a, b)
        &&& b.window() == if fire {
            0
        } else {
            a.window() + 1
        }
        &&& forall|r: int, i: int|
            #![trigger b.sketch().counter(r, i)]
            a.sketch().in_range(r, i) ==> b.sketch().counter(r, i) == if fire {
                a.sketch().counter(r, i) / 2
            } else {
                a.sketch().counter(r, i)
            }
        &&& forall|j: int|
            #![trigger b.door().bit(j)]
            0 <= j < a.door().width() ==> b.door().bit(j) == (!fire && a.door().bit(j))
        &&& fire ==> forall|kh: u64| !#[trigger] b.door().contains_spec(kh)
        &&& !fire ==> b.door() == a.door() && b.sketch() == a.sketch()
    }

    /// `b` is `a` after one `increment(kh)`: the doorkeeper takes `kh`; the
    /// sketch counts it only if the doorkeeper already held it; then the
    /// window advances as in `try_reset_step`.
    pub open spec fn increment_step(a: &Self, b: &Self, kh: u64) -> bool {
        let had = a.door().contains_spec(kh);
        let fire = a.window() + 1 >= a.window_len();
        &&& Self::same_shape(a, b)
        &&& b.window() == if fire {
            0
        } else {
            a.window() + 1
        }
        &&& forall|r: int, i: int|
            #![trigger b.sketch().counter(r, i)]
            a.sketch().in_range(r, i) ==> b.sketch().counter(r, i) == if fire {
                bumped(
                    a.sketch().counter(r, i),
                    had && i == slot(kh, r, a.sketch().row_mask()),
                ) / 2
            } else {
                bumped(
                    a.sketch().counter(r, i),
                    had && i == slot(kh, r, a.sketch().row_mask()),
                )
            }
        &&& forall|j: int|
            #![trigger b.door().bit(j)]
            0 <= j < a.door().width() ==> b.door().bit(j) == (!fire && (a.door().bit(j)
                || a.door().probed(kh, j)))
        &&& fire ==> forall|q: u64| !#[trigger] b.door().contains_spec(q)
        &&& !fire ==> b.door().contains_spec(kh)
    }

    /// `b` is `a` after `increment` of each of `khs` in order.
    pub open spec fn increments_chain(a: Self, b: Self, khs: Seq<u64>) -> bool
        decreases khs.len(),
    {
        if khs.len() == 0 {
            a == b
        } else {
            exists|m: Self|
                #![trigger Self::increment_step(&m, &b, khs.last())]
                Self::increments_chain(a, m, khs.drop_last()) && Self::increment_step(
                    &m,
                    &b,
                    khs.last(),
                )
        }
    }

    /// What well-formedness gives callers: the window is not yet full and
    /// every counter lies in `0..=COUNTER_MAX`.
    pub proof fn lemma_wf_facts(&self)
        requires
            self.wf(),
        ensures
            self.window_len() >= 1,
            self.window() < self.window_len(),
            forall|r: int, i: int|
                #![trigger self.sketch().counter(r, i)]
                self.sketch().in_range(r, i) ==> 0 <= self.sketch().counter(r, i) <= COUNTER_MAX,
            forall|kh: u64| 0 <= #[trigger] self.freq(kh) <= COUNTER_MAX + 1,
    {
        self.ctr.lemma_counters_bounded();
        assert forall|kh: u64| 0 <= #[trigger] self.freq(kh) <= COUNTER_MAX + 1 by {
            self.ctr.lemma_slot_in_range(kh, 0);
            self.ctr.lemma_slot_in_range(kh, 1);
            self.ctr.lemma_slot_in_range(kh, 2);
            self.ctr.lemma_slot_in_range(kh, 3);
        }
    }

    /// Within a window, an increment of any key never lowers the estimate
    /// of any key.
    pub proof fn lemma_estimate_grows_within_window(a: Self, b: Self, kh: u64, k: u64)
        requires
            a.wf(),
            Self::increment_step(&a, &b, kh),
            a.window() + 1 < a.window_len(),
        ensures
            b.freq(k) >= a.freq(k),
    {
        a.ctr.lemma_slot_in_range(k, 0);
        a.ctr.lemma_slot_in_range(k, 1);
        a.ctr.lemma_slot_in_range(k, 2);
        a.ctr.lemma_slot_in_range(k, 3);
        if a.door().contains_spec(k) {
            Bloom::lemma_contains_grows(&a.doorkeeper, &b.doorkeeper, k);
        }
    }

    /// When the window closes, no estimate rises: counters are halved and
    /// the doorkeeper is emptied.
    pub proof fn lemma_estimate_shrinks_on_reset(a: Self, b: Self, k: u64)
        requires
            a.wf(),
            Self::try_reset_step(&a, &b),
            a.window() + 1 >= a.window_len(),
        ensures
            b.freq(k) <= a.freq(k),
    {
        a.ctr.lemma_slot_in_range(k, 0);
        a.ctr.lemma_slot_in_range(k, 1);
        a.ctr.lemma_slot_in_range(k, 2);
        a.ctr.lemma_slot_in_range(k, 3);
        a.ctr.lemma_counters_bounded();
        Bloom::lemma_cleared_contains_nothing(&a.doorkeeper, &b.doorkeeper, k);
    }

    proof fn lemma_chain_extend(a: Self, m: Self, b: Self, khs: Seq<u64>, kh: u64)
        requires
            Self::increments_chain(a, m, khs),
            Self::increment_step(&m, &b, kh),
        ensures
            Self::increments_chain(a, b, khs.push(kh)),
    {
        let s = khs.push(kh);
        assert(s.drop_last() =~= khs);
        assert(Self::increment_step(&m, &b, s.last()));
    }

    /// A filter with `num_ctrs` counters per sketch row, a doorkeeper sized
    /// for `num_ctrs` keys, and a window of `num_ctrs` increments.
    pub fn new(num_ctrs: usize) -> (res: Result<Self, PolicyError>)
        ensures
            res is Err <==> (num_ctrs == 0 || num_ctrs > crate::sketch::MAX_COUNTERS),
            res is Err ==> res == Err::<Self, PolicyError>(PolicyError::InvalidCounterCount),
            res matches Ok(t) ==> {
                &&& t.wf()
                &&& t.window_len() == num_ctrs
                &&& t.window() == 0
                &&& t.sketch().width() >= num_ctrs
                &&& (t.sketch().width() == 2 || t.sketch().width() < 2 * num_ctrs)
                &&& is_power_of_two(t.sketch().width())
                &&& forall|r: int, i: int|
                    #![trigger t.sketch().counter(r, i)]
                    t.sketch().in_range(r, i) ==> t.sketch().counter(r, i) == 0
                &&& t.door().is_empty()
                &&& forall|kh: u64| !#[trigger] t.door().contains_spec(kh)
                &&& forall|kh: u64| #[trigger] t.freq(kh) == 0
            },
    {
        let ctr = match CountMinSketch::new(num_ctrs as u64) {
            Ok(c) => c,
            Err(e) => {
                return Err(e);
            },
        };
        let doorkeeper = Bloom::new(num_ctrs as u64);
        let t = TinyLFU { ctr, doorkeeper, samples: num_ctrs, w: 0 };
        assert forall|kh: u64| #[trigger] t.freq(kh) == 0 by {
            t.ctr.lemma_slot_in_range(kh, 0);
            t.ctr.lemma_slot_in_range(kh, 1);
            t.ctr.lemma_slot_in_range(kh, 2);
            t.ctr.lemma_slot_in_range(kh, 3);
        }
        Ok(t)
    }

    /// The estimated frequency of `kh`, in `0..=16`.
    pub fn estimate(&self, kh: u64) -> (e: i64)
        requires
            self.wf(),
        ensures
            e == self.freq(kh),
            0 <= e <= COUNTER_MAX + 1,
    {
        let mut hits = self.ctr.estimate(kh);
        if self.doorkeeper.contains(kh) {
            hits += 1;
        }
        hits
    }

    /// Applies `increment` to each of `khs`, in order.
    pub fn increments(&mut self, khs: Vec<u64>)
        requires
            old(self).wf(),
        ensures
            final(self).wf(),
            Self::increments_chain(*old(self), *final(self), khs@),
    {
        let ghost start = *self;
        let mut i: usize = 0;
        assert(khs@.subrange(0, 0) =~= Seq::<u64>::empty());
        while i < khs.len()
            invariant
                self.wf(),
                i <= khs@.len(),
                Self::increments_chain(start, *self, khs@.subrange(0, i as int)),
            decreases khs@.len() - i,
        {
            let ghost before = *self;
            self.increment(khs[i]);
            proof {
                Self::lemma_chain_extend(start, before, *self, khs@.subrange(0, i as int), khs@[i as int]);
                assert(khs@.subrange(0, i as int).push(khs@[i as int]) =~= khs@.subrange(0, i + 1));
            }
            i += 1;
        }
        assert(khs@.subrange(0, khs@.len() as int) =~= khs@);
    }

    /// Records one access of `kh`: the first in a window only sets the
    /// doorkeeper; later ones count in the sketch. Then advances the window.
    pub fn increment(&mut self, kh: u64)
        requires
            old(self).wf(),
        ensures
            final(self).wf(),
            Self::increment_step(old(self), final(self), kh),
    {
        let had = self.doorkeeper.contains_or_add(kh);
        if had {
            self.ctr.increment(kh);
        }
        self.try_reset();
    }

    /// Advances the window by one increment; when it is full, closes it with
    /// `reset`.
    pub fn try_reset(&mut self)
        requires
            old(self).wf(),
        ensures
            final(self).wf(),
            Self::try_reset_step(old(self), final(self)),
    {
        self.w += 1;
        if self.w >= self.samples {
            self.reset();
        }
    }

    /// Closes the window: zeroes the window count, clears the doorkeeper and
    /// halves every sketch counter.
    pub fn reset(&mut self)
        requires
            old(self).parts_wf(),
        ensures
            final(self).wf(),
            Self::same_shape(old(self), final(self)),
            final(self).window() == 0,
            forall|r: int, i: int|
                #![trigger final(self).sketch().counter(r, i)]
                old(self).sketch().in_range(r, i) ==> final(self).sketch().counter(r, i) == old(
                    self,
                ).sketch().counter(r, i) / 2,
            final(self).door().is_empty(),
            forall|kh: u64| !#[trigger] final(self).door().contains_spec(kh),
            forall|kh: u64| #[trigger] final(self).freq(kh) == old(self).sketch().estimate_spec(kh) / 2,
    {
        self.w = 0;
        self.doorkeeper.reset();
        self.ctr.reset();
        assert forall|kh: u64| #[trigger] self.freq(kh) == old(self).sketch().estimate_spec(kh) / 2 by {
            old(self).ctr.lemma_slot_in_range(kh, 0);
            old(self).ctr.lemma_slot_in_range(kh, 1);
            old(self).ctr.lemma_slot_in_range(kh, 2);
            old(self).ctr.lemma_slot_in_range(kh, 3);
            assert(!self.door().contains_spec(kh));
        }
    }

    /// Zeroes the window count, the doorkeeper and every sketch counter.
    pub fn clear(&mut self)
        requires
            old(self).wf(),
        ensures
            final(self).wf(),
            Self::same_shape(old(self), final(self)),
            final(self).window() == 0,
            forall|r: int, i: int|
                #![trigger final(self).sketch().counter(r, i)]
                old(self).sketch().in_range(r, i) ==> final(self).sketch().counter(r, i) == 0,
            final(self).door().is_empty(),
            forall|kh: u64| !#[trigger] final(self).door().contains_spec(kh),
            forall|kh: u64| #[trigger] final(self).freq(kh) == 0,
    {
        self.w = 0;
        self.doorkeeper.clear();
        self.ctr.clear();
        assert forall|kh: u64| #[trigger] self.freq(kh) == 0 by {
            self.ctr.lemma_slot_in_range(kh, 0);
            self.ctr.lemma_slot_in_range(kh, 1);
            self.ctr.lemma_slot_in_range(kh, 2);
            self.ctr.lemma_slot_in_range(kh, 3);
        }
    }

    /// Whether the doorkeeper holds `kh`.
    pub fn contains(&self, kh: u64) -> (r: bool)
        requires
            self.wf(),
        ensures
            r == self.door().contains_spec(kh),
    {
        self.doorkeeper.contains(kh)
    }
}

} // verus!
