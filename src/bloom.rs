//! The doorkeeper: a single-bit bloom filter over 64-bit key hashes.
use crate::sketch::MAX_COUNTERS;
use vstd::arithmetic::power2::{lemma2_to64, lemma_pow2_strictly_increases, lemma_pow2_unfold, pow2};
use vstd::prelude::*;

verus! {

/// Number of bits probed per key; optimal for a 1% false-positive rate.
pub const BLOOM_PROBES: u64 = 7;

/// Bits per expected entry for a 1% false-positive rate, in thousandths
/// (`-ln(0.01) / ln(2)^2`, rounded up).
pub const BITS_PER_ENTRY_MILLI: u64 = 9586;

/// Fewest bits a filter is built with.
pub const MIN_BLOOM_BITS: u64 = 512;

/// Most bits a filter is built with.
pub const MAX_BLOOM_BITS: u64 = 0x1_0000_0000;

/// Stride of the double hashing of `kh`; always odd.
pub open spec fn stride(kh: u64) -> u64 {
    (kh >> 32u64) | 1u64
}

/// Bit probed for `kh` by its `i`-th hash function, in a filter of `mask + 1` bits.
pub open spec fn probe(kh: u64, i: u64, mask: u64) -> u64 {
    kh.wrapping_add(i.wrapping_mul(stride(kh))) & mask
}

proof fn lemma_set_bit(w: u64, s: u64)
    requires
        s < 64,
    ensures
        forall|t: u64|
            #![trigger ((w | (1u64 << s)) >> t)]
            t < 64 ==> ((((w | (1u64 << s)) >> t) & 1u64 == 1u64) == (((w >> t) & 1u64 == 1u64)
                || t == s)),
{
    assert forall|t: u64| #![trigger ((w | (1u64 << s)) >> t)] t < 64 implies ((((w | (1u64 << s))
        >> t) & 1u64 == 1u64) == (((w >> t) & 1u64 == 1u64) || t == s)) by {
        assert(s < 64 && t < 64 ==> ((((w | (1u64 << s)) >> t) & 1u64 == 1u64) == (((w >> t) & 1u64
            == 1u64) || t == s))) by (bit_vector);
    }
}

proof fn lemma_zero_word(t: u64)
    ensures
        (0u64 >> t) & 1u64 != 1u64,
{
    assert((0u64 >> t) & 1u64 != 1u64) by (bit_vector);
}

proof fn lemma_probe_bound(kh: u64, i: u64, mask: u64)
    ensures
        probe(kh, i, mask) <= mask,
{
    let x = kh.wrapping_add(i.wrapping_mul(stride(kh)));
    assert(x & mask <= mask) by (bit_vector);
}

/// Bit array of `mask + 1` bits held in 64-bit words; bit `j` is bit
/// `j % 64` of word `j / 64`.
pub struct Bloom {
    words: Vec<u64>,
    mask: u64,
    locs: u64,
}

impl Bloom {
    /// Number of bits.
    pub open spec fn width(&self) -> nat {
        self.bit_mask() as nat + 1
    }

    /// Mask that reduces a hash to a bit position.
    pub closed spec fn bit_mask(&self) -> u64 {
        self.mask
    }

    /// Number of hash functions.
    pub closed spec fn probes(&self) -> u64 {
        self.locs
    }

    pub closed spec fn wf(&self) -> bool {
        &&& MIN_BLOOM_BITS <= self.width() <= MAX_BLOOM_BITS
        &&& self.width() == 64 * self.words@.len()
        &&& self.locs >= 1
    }

    /// Whether bit `j` is set.
    pub closed spec fn bit(&self, j: int) -> bool {
        (self.words@[j / 64] >> ((j % 64) as u64)) & 1u64 == 1u64
    }

    /// Whether every bit that `kh` probes is set.
    pub open spec fn contains_spec(&self, kh: u64) -> bool {
        forall|i: u64|
            #![trigger probe(kh, i, self.bit_mask())]
            i < self.probes() ==> self.bit(probe(kh, i, self.bit_mask()) as int)
    }

    /// Whether `kh` probes bit `j`.
    pub open spec fn probed(&self, kh: u64, j: int) -> bool {
        exists|i: u64|
            #![trigger probe(kh, i, self.bit_mask())]
            i < self.probes() && probe(kh, i, self.bit_mask()) == j
    }

    /// Whether no bit is set.
    pub open spec fn is_empty(&self) -> bool {
        forall|j: int| #![trigger self.bit(j)] 0 <= j < self.width() ==> !self.bit(j)
    }

    /// Setting bits never makes a contained key drop out.
    pub proof fn lemma_contains_grows(a: &Self, b: &Self, kh: u64)
        requires
            a.wf(),
            b.bit_mask() == a.bit_mask(),
            b.probes() == a.probes(),
            forall|j: int| #![trigger b.bit(j)] 0 <= j < a.width() && a.bit(j) ==> b.bit(j),
            a.contains_spec(kh),
        ensures
            b.contains_spec(kh),
    {
        assert forall|i: u64|
            #![trigger probe(kh, i, b.bit_mask())]
            i < b.probes() implies b.bit(probe(kh, i, b.bit_mask()) as int) by {
            lemma_probe_bound(kh, i, a.mask);
        }
    }

    /// A filter of the same shape with no bit set contains no key.
    pub proof fn lemma_cleared_contains_nothing(a: &Self, b: &Self, kh: u64)
        requires
            a.wf(),
            b.bit_mask() == a.bit_mask(),
            b.probes() == a.probes(),
            forall|j: int| #![trigger b.bit(j)] 0 <= j < a.width() ==> !b.bit(j),
        ensures
            !b.contains_spec(kh),
    {
        lemma_probe_bound(kh, 0, a.mask);
        assert(!b.bit(probe(kh, 0, b.bit_mask()) as int));
    }

    /// An empty filter sized for `cap` entries at a 1% false-positive rate:
    /// `cap * 9.586` bits, rounded up to a power of two of at least 512.
    pub fn new(cap: u64) -> (b: Self)
        requires
            cap <= MAX_COUNTERS,
        ensures
            b.wf(),
            b.probes() == BLOOM_PROBES,
            b.width() >= MIN_BLOOM_BITS,
            b.width() >= cap * BITS_PER_ENTRY_MILLI / 1000,
            exists|e: nat| pow2(e) == b.width(),
            b.is_empty(),
            forall|kh: u64| !b.contains_spec(kh),
    {
        let entries: u64 = cap * BITS_PER_ENTRY_MILLI / 1000;
        let mut width: u64 = MIN_BLOOM_BITS;
        let ghost e: nat = 9;
        proof {
            lemma2_to64();
            assert(entries <= MAX_BLOOM_BITS) by (nonlinear_arith)
                requires
                    entries == cap * 9586 / 1000,
                    cap <= 0x1000_0000,
            ;
        }
        while width < entries
            invariant
                MIN_BLOOM_BITS <= width <= MAX_BLOOM_BITS,
                entries <= MAX_BLOOM_BITS,
                width == pow2(e),
                e >= 9,
                MAX_BLOOM_BITS == pow2(32),
            decreases MAX_BLOOM_BITS - width,
        {
            proof {
                if e > 32 {
                    lemma_pow2_strictly_increases(32, e);
                }
                lemma_pow2_unfold(e + 1);
                if e + 1 < 32 {
                    lemma_pow2_strictly_increases(e + 1, 32);
                }
                e = e + 1;
            }
            width = width * 2;
        }
        proof {
            assert(width % 64 == 0) by {
                lemma_pow2_unfold(e);
                lemma_pow2_unfold((e - 1) as nat);
                lemma_pow2_unfold((e - 2) as nat);
                lemma_pow2_unfold((e - 3) as nat);
                lemma_pow2_unfold((e - 4) as nat);
                lemma_pow2_unfold((e - 5) as nat);
            }
        }
        let n: usize = (width / 64) as usize;
        let words: Vec<u64> = vec![0u64; n];
        let b = Bloom { words, mask: width - 1, locs: BLOOM_PROBES };
        assert forall|j: int| #![trigger b.bit(j)] 0 <= j < b.width() implies !b.bit(j) by {
            lemma_zero_word((j % 64) as u64);
        }
        assert forall|kh: u64| !b.contains_spec(kh) by {
            lemma_probe_bound(kh, 0, b.mask);
            assert(!b.bit(probe(kh, 0, b.bit_mask()) as int));
        }
        b
    }

    fn get(&self, j: u64) -> (r: bool)
        requires
            self.wf(),
            j < self.width(),
        ensures
            r == self.bit(j as int),
    {
        (self.words[(j / 64) as usize] >> (j % 64)) & 1 == 1
    }

    fn set(&mut self, j: u64)
        requires
            old(self).wf(),
            j < old(self).width(),
        ensures
            final(self).wf(),
            final(self).mask == old(self).mask,
            final(self).locs == old(self).locs,
            forall|q: int|
                #![trigger final(self).bit(q)]
                0 <= q < old(self).width() ==> final(self).bit(q) == (old(self).bit(q) || q == j),
    {
        let w = self.words[(j / 64) as usize];
        proof {
            lemma_set_bit(w, j % 64);
        }
        self.words.set((j / 64) as usize, w | (1u64 << (j % 64)));
        assert forall|q: int|
            #![trigger self.bit(q)]
            0 <= q < old(self).width() implies self.bit(q) == (old(self).bit(q) || q == j) by {
            if q / 64 == j / 64 {
                assert(((w | (1u64 << (j % 64))) >> ((q % 64) as u64)) & 1u64 == 1u64 <==> ((w >> ((
                q % 64) as u64)) & 1u64 == 1u64 || (q % 64) as u64 == j % 64));
            }
        }
    }

    fn probe_of(&self, kh: u64, i: u64) -> (j: u64)
        requires
            self.wf(),
        ensures
            j == probe(kh, i, self.bit_mask()),
            j < self.width(),
    {
        proof {
            lemma_probe_bound(kh, i, self.mask);
        }
        kh.wrapping_add(i.wrapping_mul((kh >> 32) | 1)) & self.mask
    }

    /// Whether every bit of `kh` is set.
    pub fn contains(&self, kh: u64) -> (r: bool)
        requires
            self.wf(),
        ensures
            r == self.contains_spec(kh),
    {
        let mut i: u64 = 0;
        while i < self.locs
            invariant
                self.wf(),
                i <= self.locs,
                forall|q: u64|
                    #![trigger probe(kh, q, self.bit_mask())]
                    q < i ==> self.bit(probe(kh, q, self.bit_mask()) as int),
            decreases self.locs - i,
        {
            let j = self.probe_of(kh, i);
            if !self.get(j) {
                return false;
            }
            i += 1;
        }
        true
    }

    /// Reports whether `kh` was contained, then sets all of its bits.
    pub fn contains_or_add(&mut self, kh: u64) -> (r: bool)
        requires
            old(self).wf(),
        ensures
            final(self).wf(),
            r == old(self).contains_spec(kh),
            final(self).contains_spec(kh),
            final(self).bit_mask() == old(self).bit_mask(),
            final(self).probes() == old(self).probes(),
            forall|q: int|
                #![trigger final(self).bit(q)]
                0 <= q < old(self).width() ==> final(self).bit(q) == (old(self).bit(q)
                    || old(self).probed(kh, q)),
    {
        let had = self.contains(kh);
        let ghost start = *self;
        let mut i: u64 = 0;
        while i < self.locs
            invariant
                self.wf(),
                start.wf(),
                self.mask == start.mask,
                self.locs == start.locs,
                i <= self.locs,
                forall|q: u64|
                    #![trigger probe(kh, q, self.bit_mask())]
                    q < i ==> self.bit(probe(kh, q, self.bit_mask()) as int),
                forall|q: int|
                    #![trigger self.bit(q)]
                    0 <= q < start.width() ==> self.bit(q) == (start.bit(q) || exists|p: u64|
                        #![trigger probe(kh, p, start.bit_mask())]
                        p < i && probe(kh, p, start.bit_mask()) == q),
            decreases self.locs - i,
        {
            let j = self.probe_of(kh, i);
            self.set(j);
            assert forall|q: int|
                #![trigger self.bit(q)]
                0 <= q < start.width() implies self.bit(q) == (start.bit(q) || exists|p: u64|
                    #![trigger probe(kh, p, start.bit_mask())]
                    p < i + 1 && probe(kh, p, start.bit_mask()) == q) by {
                if q == j {
                    assert(probe(kh, i, start.bit_mask()) == q);
                }
            }
            assert forall|q: u64|
                #![trigger probe(kh, q, self.bit_mask())]
                q < i + 1 implies self.bit(probe(kh, q, self.bit_mask()) as int) by {
                lemma_probe_bound(kh, q, self.mask);
            }
            i += 1;
        }
        had
    }

    /// Clears every bit.
    pub fn reset(&mut self)
        requires
            old(self).wf(),
        ensures
            final(self).wf(),
            final(self).bit_mask() == old(self).bit_mask(),
            final(self).probes() == old(self).probes(),
            final(self).is_empty(),
            forall|kh: u64| !final(self).contains_spec(kh),
    {
        let mut p: usize = 0;
        while p < self.words.len()
            invariant
                self.wf(),
                self.mask == old(self).mask,
                self.locs == old(self).locs,
                p <= self.words@.len(),
                forall|q: int| 0 <= q < p ==> self.words@[q] == 0u64,
            decreases self.words@.len() - p,
        {
            self.words.set(p, 0);
            p += 1;
        }
        assert forall|j: int| #![trigger self.bit(j)] 0 <= j < self.width() implies !self.bit(j) by {
            lemma_zero_word((j % 64) as u64);
        }
        assert forall|kh: u64| !self.contains_spec(kh) by {
            lemma_probe_bound(kh, 0, self.mask);
            assert(!self.bit(probe(kh, 0, self.bit_mask()) as int));
        }
    }

    /// Clears every bit; the same as `reset`.
    pub fn clear(&mut self)
        requires
            old(self).wf(),
        ensures
            final(self).wf(),
            final(self).bit_mask() == old(self).bit_mask(),
            final(self).probes() == old(self).probes(),
            final(self).is_empty(),
            forall|kh: u64| !final(self).contains_spec(kh),
    {
        self.reset();
    }
}

} // verus!
