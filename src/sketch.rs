//! A count-min sketch of 4-bit saturating counters, packed two per byte.
use vstd::arithmetic::power2::{
    lemma2_to64, lemma_pow2_strictly_increases, lemma_pow2_unfold, pow2,
};
use vstd::prelude::*;

verus! {

/// Number of counter rows.
pub const SKETCH_DEPTH: usize = 4;

/// Largest value a counter can hold.
pub const COUNTER_MAX: u8 = 15;

/// Largest number of counters per row that a sketch accepts.
pub const MAX_COUNTERS: u64 = 0x1000_0000;

/// Odd multiplier of the row hash mixers.
pub const MIX: u64 = 0x9E37_79B9_7F4A_7C15;

/// Seed of the hash mixer of row `r`.
pub open spec fn row_seed(r: int) -> u64 {
    if r == 0 {
        0x243F_6A88_85A3_08D3u64
    } else if r == 1 {
        0x1319_8A2E_0370_7344u64
    } else if r == 2 {
        0xA409_3822_299F_31D0u64
    } else {
        0x082E_FA98_EC4E_6C89u64
    }
}

/// Column addressed by key hash `kh` in row `r` of rows `mask + 1` wide.
pub open spec fn slot(kh: u64, r: int, mask: u64) -> u64 {
    (((kh ^ row_seed(r)).wrapping_mul(MIX)) >> 32u64) & mask
}

/// The 4-bit counter stored in byte `b`: the low half when `hi` is false.
pub open spec fn nibble(b: u8, hi: bool) -> u8 {
    if hi {
        b >> 4u8
    } else {
        b & 0xfu8
    }
}

/// Both counters of `b` halved, rounding toward zero.
pub open spec fn halve_byte(b: u8) -> u8 {
    (b >> 1u8) & 0x77u8
}

pub open spec fn min4(a: int, b: int, c: int, d: int) -> int {
    let x = if a <= b { a } else { b };
    let y = if c <= d { c } else { d };
    if x <= y { x } else { y }
}

proof fn lemma_nibble_bound(b: u8)
    ensures
        nibble(b, false) <= 15,
        nibble(b, true) <= 15,
{
    assert(b & 0xfu8 <= 15) by (bit_vector);
    assert(b >> 4u8 <= 15) by (bit_vector);
}

proof fn lemma_halve_byte(b: u8)
    ensures
        nibble(halve_byte(b), false) == nibble(b, false) / 2,
        nibble(halve_byte(b), true) == nibble(b, true) / 2,
{
    assert(((b >> 1u8) & 0x77u8) & 0xfu8 == (b & 0xfu8) / 2) by (bit_vector);
    assert(((b >> 1u8) & 0x77u8) >> 4u8 == (b >> 4u8) / 2) by (bit_vector);
}

proof fn lemma_bump_low(b: u8)
    requires
        b & 0xfu8 < 15,
    ensures
        b + 1 <= 255,
        nibble((b + 1) as u8, false) == nibble(b, false) + 1,
        nibble((b + 1) as u8, true) == nibble(b, true),
{
    assert(b & 0xfu8 < 15 ==> b + 1 <= 255) by (bit_vector);
    assert(b & 0xfu8 < 15 ==> ((b + 1) as u8) & 0xfu8 == (b & 0xfu8) + 1) by (bit_vector);
    assert(b & 0xfu8 < 15 ==> ((b + 1) as u8) >> 4u8 == b >> 4u8) by (bit_vector);
}

proof fn lemma_bump_high(b: u8)
    requires
        b >> 4u8 < 15,
    ensures
        b + 16 <= 255,
        nibble((b + 16) as u8, true) == nibble(b, true) + 1,
        nibble((b + 16) as u8, false) == nibble(b, false),
{
    assert(b >> 4u8 < 15 ==> b + 16 <= 255) by (bit_vector);
    assert(b >> 4u8 < 15 ==> ((b + 16) as u8) >> 4u8 == (b >> 4u8) + 1) by (bit_vector);
    assert(b >> 4u8 < 15 ==> ((b + 16) as u8) & 0xfu8 == b & 0xfu8) by (bit_vector);
}

proof fn lemma_zero_byte()
    ensures
        nibble(0u8, false) == 0,
        nibble(0u8, true) == 0,
{
    assert(0u8 & 0xfu8 == 0) by (bit_vector);
    assert(0u8 >> 4u8 == 0) by (bit_vector);
}

proof fn lemma_mask_bound(x: u64, m: u64)
    ensures
        x & m <= m,
{
    assert(x & m <= m) by (bit_vector);
}

fn seed_of(r: usize) -> (s: u64)
    requires
        r < SKETCH_DEPTH,
    ensures
        s == row_seed(r as int),
{
    if r == 0 {
        0x243F_6A88_85A3_08D3
    } else if r == 1 {
        0x1319_8A2E_0370_7344
    } else if r == 2 {
        0xA409_3822_299F_31D0
    } else {
        0x082E_FA98_EC4E_6C89
    }
}

fn slot_of(kh: u64, r: usize, mask: u64) -> (i: u64)
    requires
        r < SKETCH_DEPTH,
    ensures
        i == slot(kh, r as int, mask),
        i <= mask,
{
    proof {
        lemma_mask_bound(((kh ^ row_seed(r as int)).wrapping_mul(MIX)) >> 32u64, mask);
    }
    ((kh ^ seed_of(r)).wrapping_mul(MIX) >> 32) & mask
}

/// Four rows of `mask + 1` counters. Counter `i` of row `r` lives in byte
/// `4 * (i / 2) + r`, in the high half when `i` is odd.
pub struct CountMinSketch {
    cells: Vec<u8>,
    mask: u64,
}

/// Errors raised when building the frequency structures.
#[derive(Clone, Copy, Debug, PartialEq, Eq, Structural)]
pub enum PolicyError {
    /// A counter count of zero, or above `MAX_COUNTERS`.
    InvalidCounterCount,
}

impl CountMinSketch {
    /// Number of counters per row.
    pub open spec fn width(&self) -> nat {
        self.row_mask() as nat + 1
    }

    /// Mask that reduces a hash to a column.
    pub closed spec fn row_mask(&self) -> u64 {
        self.mask
    }

    pub closed spec fn wf(&self) -> bool {
        &&& 2 <= self.width() <= MAX_COUNTERS
        &&& self.width() % 2 == 0
        &&& self.cells@.len() == 2 * self.width()
    }

    /// Value of counter `i` of row `r`.
    pub closed spec fn counter(&self, r: int, i: int) -> int {
        nibble(self.cells@[4 * (i / 2) + r], i % 2 == 1) as int
    }

    /// The counter that key hash `kh` addresses in row `r`.
    pub open spec fn addressed(&self, kh: u64, r: int) -> int {
        self.counter(r, slot(kh, r, self.row_mask()) as int)
    }

    /// The sketch's estimate for `kh`: the least of its four counters.
    pub open spec fn estimate_spec(&self, kh: u64) -> int {
        min4(
            self.addressed(kh, 0),
            self.addressed(kh, 1),
            self.addressed(kh, 2),
            self.addressed(kh, 3),
        )
    }

    pub open spec fn in_range(&self, r: int, i: int) -> bool {
        0 <= r < SKETCH_DEPTH && 0 <= i < self.width()
    }

    proof fn lemma_counter_bound(&self, r: int, i: int)
        requires
            self.wf(),
            self.in_range(r, i),
        ensures
            0 <= self.counter(r, i) <= COUNTER_MAX,
    {
        lemma_nibble_bound(self.cells@[4 * (i / 2) + r]);
    }

    /// The counter that `kh` addresses in a row exists.
    pub proof fn lemma_slot_in_range(&self, kh: u64, r: int)
        requires
            0 <= r < SKETCH_DEPTH,
        ensures
            self.in_range(r, slot(kh, r, self.row_mask()) as int),
    {
        lemma_mask_bound(((kh ^ row_seed(r)).wrapping_mul(MIX)) >> 32u64, self.mask);
    }

    /// Every counter lies in `0..=COUNTER_MAX`.
    pub proof fn lemma_counters_bounded(&self)
        requires
            self.wf(),
        ensures
            forall|r: int, i: int|
                #![trigger self.counter(r, i)]
                self.in_range(r, i) ==> 0 <= self.counter(r, i) <= COUNTER_MAX,
    {
        assert forall|r: int, i: int| #![trigger self.counter(r, i)] self.in_range(r, i) implies 0
            <= self.counter(r, i) <= COUNTER_MAX by {
            self.lemma_counter_bound(r, i);
        }
    }

    /// Builds a sketch of `n` counters per row, rounded up to a power of two
    /// (at least two), all zero.
    pub fn new(n: u64) -> (res: Result<Self, PolicyError>)
        ensures
            res is Err <==> (n == 0 || n > MAX_COUNTERS),
            res is Err ==> res == Err::<Self, PolicyError>(PolicyError::InvalidCounterCount),
            res matches Ok(s) ==> {
                &&& s.wf()
                &&& n <= s.width()
                &&& (s.width() == 2 || s.width() < 2 * n)
                &&& is_power_of_two(s.width())
                &&& forall|r: int, i: int|
                    #![trigger s.counter(r, i)]
                    s.in_range(r, i) ==> s.counter(r, i) == 0
            },
    {
        if n == 0 || n > MAX_COUNTERS {
            return Err(PolicyError::InvalidCounterCount);
        }
        let mut width: u64 = 2;
        let ghost e: nat = 1;
        proof {
            lemma2_to64();
        }
        while width < n
            invariant
                2 <= width <= MAX_COUNTERS,
                n <= MAX_COUNTERS,
                width == 2 || width < 2 * n,
                width == pow2(e),
                e >= 1,
                MAX_COUNTERS == pow2(28),
            decreases MAX_COUNTERS - width,
        {
            proof {
                if e >= 28 {
                    if e > 28 {
                        lemma_pow2_strictly_increases(28, e);
                    }
                }
                lemma_pow2_unfold(e + 1);
                if e + 1 < 28 {
                    lemma_pow2_strictly_increases(e + 1, 28);
                }
                e = e + 1;
            }
            width = width * 2;
        }
        let len: usize = (2 * width) as usize;
        let cells: Vec<u8> = vec![0u8; len];
        let s = CountMinSketch { cells, mask: width - 1 };
        proof {
            lemma_zero_byte();
            lemma_pow2_unfold(e);
            assert(width % 2 == 0);
            assert(pow2(e) == width);
        }
        Ok(s)
    }

    /// Estimate of the frequency of `kh`, in `0..=COUNTER_MAX`.
    pub fn estimate(&self, kh: u64) -> (e: i64)
        requires
            self.wf(),
        ensures
            e == self.estimate_spec(kh),
            0 <= e <= COUNTER_MAX,
    {
        let mut best: u8 = COUNTER_MAX;
        let mut r: usize = 0;
        proof {
            self.lemma_counters_bounded();
        }
        while r < SKETCH_DEPTH
            invariant
                self.wf(),
                r <= SKETCH_DEPTH,
                best <= COUNTER_MAX,
                best == min4(
                    if r > 0 { self.addressed(kh, 0) } else { 15 },
                    if r > 1 { self.addressed(kh, 1) } else { 15 },
                    if r > 2 { self.addressed(kh, 2) } else { 15 },
                    if r > 3 { self.addressed(kh, 3) } else { 15 },
                ),
                forall|r: int, i: int|
                    #![trigger self.counter(r, i)]
                    self.in_range(r, i) ==> 0 <= self.counter(r, i) <= COUNTER_MAX,
            decreases SKETCH_DEPTH - r,
        {
            let c = self.get(r, slot_of(kh, r, self.mask));
            if c < best {
                best = c;
            }
            r += 1;
        }
        best as i64
    }

    fn get(&self, r: usize, i: u64) -> (c: u8)
        requires
            self.wf(),
            r < SKETCH_DEPTH,
            i < self.width(),
        ensures
            c == self.counter(r as int, i as int),
    {
        let pos: usize = 4 * ((i / 2) as usize) + r;
        let b = self.cells[pos];
        if i % 2 == 1 {
            b >> 4
        } else {
            b & 0xf
        }
    }

    /// Adds one to each of the four counters that `kh` addresses, unless
    /// that counter already holds `COUNTER_MAX`.
    pub fn increment(&mut self, kh: u64)
        requires
            old(self).wf(),
        ensures
            final(self).wf(),
            final(self).row_mask() == old(self).row_mask(),
            forall|r: int, i: int|
                #![trigger final(self).counter(r, i)]
                old(self).in_range(r, i) ==> final(self).counter(r, i) == if i == slot(
                    kh,
                    r,
                    old(self).row_mask(),
                ) && old(self).counter(r, i) < COUNTER_MAX {
                    old(self).counter(r, i) + 1
                } else {
                    old(self).counter(r, i)
                },
    {
        let ghost start = *self;
        let mut r: usize = 0;
        while r < SKETCH_DEPTH
            invariant
                self.wf(),
                start.wf(),
                self.mask == start.mask,
                r <= SKETCH_DEPTH,
                forall|q: int, i: int|
                    #![trigger self.counter(q, i)]
                    start.in_range(q, i) ==> self.counter(q, i) == if q < r && i == slot(
                        kh,
                        q,
                        start.mask,
                    ) && start.counter(q, i) < COUNTER_MAX {
                        start.counter(q, i) + 1
                    } else {
                        start.counter(q, i)
                    },
            decreases SKETCH_DEPTH - r,
        {
            let i = slot_of(kh, r, self.mask);
            self.bump(r, i);
            r += 1;
        }
    }

    /// Adds one to counter `i` of row `r` unless it is saturated.
    fn bump(&mut self, r: usize, i: u64)
        requires
            old(self).wf(),
            r < SKETCH_DEPTH,
            i < old(self).width(),
        ensures
            final(self).wf(),
            final(self).mask == old(self).mask,
            forall|q: int, j: int|
                #![trigger final(self).counter(q, j)]
                old(self).in_range(q, j) ==> final(self).counter(q, j) == if q == r && j == i
                    && old(self).counter(q, j) < COUNTER_MAX {
                    old(self).counter(q, j) + 1
                } else {
                    old(self).counter(q, j)
                },
    {
        let pos: usize = 4 * ((i / 2) as usize) + r;
        let b = self.cells[pos];
        if i % 2 == 1 {
            if (b >> 4) < COUNTER_MAX {
                proof {
                    lemma_bump_high(b);
                }
                self.cells.set(pos, b + 16);
            }
        } else {
            if (b & 0xf) < COUNTER_MAX {
                proof {
                    lemma_bump_low(b);
                }
                self.cells.set(pos, b + 1);
            }
        }
        assert forall|q: int, j: int|
            #![trigger self.counter(q, j)]
            old(self).in_range(q, j) && 4 * (j / 2) + q != pos implies self.counter(q, j) == old(
            self,
        ).counter(q, j) by {}
        assert forall|q: int, j: int|
            #![trigger self.counter(q, j)]
            old(self).in_range(q, j) && 4 * (j / 2) + q == pos implies (q == r && j / 2 == i / 2) by {}
    }

    /// Halves every counter, rounding toward zero.
    pub fn reset(&mut self)
        requires
            old(self).wf(),
        ensures
            final(self).wf(),
            final(self).row_mask() == old(self).row_mask(),
            forall|r: int, i: int|
                #![trigger final(self).counter(r, i)]
                old(self).in_range(r, i) ==> final(self).counter(r, i) == old(self).counter(r, i)
                    / 2,
    {
        let ghost start = *self;
        let mut p: usize = 0;
        while p < self.cells.len()
            invariant
                self.wf(),
                self.mask == start.mask,
                self.cells@.len() == start.cells@.len(),
                p <= self.cells@.len(),
                forall|q: int| 0 <= q < p ==> self.cells@[q] == halve_byte(start.cells@[q]),
                forall|q: int| p <= q < self.cells@.len() ==> self.cells@[q] == start.cells@[q],
            decreases self.cells@.len() - p,
        {
            let b = self.cells[p];
            self.cells.set(p, (b >> 1) & 0x77);
            p += 1;
        }
        assert forall|r: int, i: int|
            #![trigger self.counter(r, i)]
            start.in_range(r, i) implies self.counter(r, i) == start.counter(r, i) / 2 by {
            lemma_halve_byte(start.cells@[4 * (i / 2) + r]);
        }
    }

    /// Sets every counter to zero.
    pub fn clear(&mut self)
        requires
            old(self).wf(),
        ensures
            final(self).wf(),
            final(self).row_mask() == old(self).row_mask(),
            forall|r: int, i: int|
                #![trigger final(self).counter(r, i)]
                old(self).in_range(r, i) ==> final(self).counter(r, i) == 0,
    {
        let mut p: usize = 0;
        while p < self.cells.len()
            invariant
                self.wf(),
                self.mask == old(self).mask,
                p <= self.cells@.len(),
                forall|q: int| 0 <= q < p ==> self.cells@[q] == 0u8,
            decreases self.cells@.len() - p,
        {
            self.cells.set(p, 0);
            p += 1;
        }
        proof {
            lemma_zero_byte();
        }
    }
}

/// `x` is a power of two.
pub open spec fn is_power_of_two(x: nat) -> bool {
    exists|e: nat| pow2(e) == x
}

} // verus!
