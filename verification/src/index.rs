//! The index schedule of an item: the strictly increasing sequence of cells
//! that the item contributes to, derived from its checksum alone.
//!
//! From index `i` and a fresh 64-bit draw `r` the next index is `i + d`, where
//! `d` is the ceiling of `(i + 1.5) * (2^32 / sqrt(r) - 1)`. The ceiling is
//! taken of the exact real number: `d` is the least integer with
//! `(2d + 2i + 3)^2 * r >= ((2i + 3) * 2^32)^2`.

use vstd::prelude::*;
use crate::rng::Xoroshiro128Plus;
use crate::wide::{limb, Wide};

verus! {

/// With `a = 2i + 3`: whether `d >= (i + 1.5) * (2^32 / sqrt(r) - 1)`, stated
/// over the integers.
pub open spec fn reached(a: int, r: int, d: int) -> bool {
    (2 * d + a) * (2 * d + a) * r >= (a * 0x1_0000_0000) * (a * 0x1_0000_0000)
}

/// Twice `i + 1.5`.
pub open spec fn slope(i: nat) -> int {
    2 * (i as int) + 3
}

/// The draw that the gap is computed from: a draw of zero counts as one.
pub open spec fn effective(r: u64) -> int {
    if r == 0 {
        1
    } else {
        r as int
    }
}

/// Whether `d` reaches the bound and `d - 1` does not.
pub open spec fn first_reached(a: int, r: int, d: int) -> bool {
    reached(a, r, d) && !reached(a, r, d - 1)
}

/// Whether `d` is the gap that follows index `i` on draw `r`: the least
/// integer that reaches the bound.
pub open spec fn is_gap(i: nat, r: u64, d: int) -> bool {
    d >= 1 && first_reached(slope(i), effective(r), d)
}

/// The gap that follows index `i` on draw `r`.
pub open spec fn gap(i: nat, r: u64) -> nat {
    choose|d: nat| is_gap(i, r, d as int)
}

/// The index after `n` steps of the schedule seeded with `seed`.
pub open spec fn index_at(seed: Seq<u8>, n: nat) -> nat
    decreases n,
{
    if n == 0 {
        0
    } else {
        let i = index_at(seed, (n - 1) as nat);
        i + gap(i, Xoroshiro128Plus::after(seed, (n - 1) as nat).output())
    }
}

/// Whether the schedule seeded with `seed` contains the cell `k`.
pub open spec fn hits(seed: Seq<u8>, k: nat) -> bool {
    exists|n: nat| index_at(seed, n) == k
}

/// An index as a generator reports it: indices beyond the 64-bit range are
/// all reported as `u64::MAX`.
pub open spec fn clamp(i: nat) -> u64 {
    if i >= u64::MAX {
        u64::MAX
    } else {
        i as u64
    }
}

proof fn lemma_square_monotone(x: int, y: int, r: int)
    by (nonlinear_arith)
    requires
        0 <= x <= y,
        0 <= r,
    ensures
        x * x * r <= y * y * r,
{
}

/// Once reached, the bound stays reached.
pub proof fn lemma_reached_monotone(a: int, r: int, d1: int, d2: int)
    requires
        0 <= 2 * d1 + a,
        d1 <= d2,
        0 <= r,
        reached(a, r, d1),
    ensures
        reached(a, r, d2),
{
    lemma_square_monotone(2 * d1 + a, 2 * d2 + a, r);
}

/// A gap of zero never reaches the bound: every draw is below 2^64.
pub proof fn lemma_zero_not_reached(a: int, r: int)
    requires
        1 <= a,
        1 <= r < limb(),
    ensures
        !reached(a, r, 0),
{
    assert(a * a >= 1) by (nonlinear_arith)
        requires
            1 <= a,
    ;
    let s = a * a;
    assert(s * r < s * 0x1_0000_0000_0000_0000) by (nonlinear_arith)
        requires
            s >= 1,
            r < 0x1_0000_0000_0000_0000,
    ;
    assert((a * 0x1_0000_0000) * (a * 0x1_0000_0000) == (a * a) * 0x1_0000_0000_0000_0000)
        by (nonlinear_arith);
}

proof fn lemma_far_reached(a: int, r: int)
    requires
        1 <= a,
        1 <= r,
    ensures
        reached(a, r, a * 0x8000_0000),
{
    let d = a * 0x8000_0000;
    let x = 2 * d + a;
    let y = a * 0x1_0000_0000;
    assert(x >= y);
    lemma_square_monotone(y, x, 1);
    assert(x * x * r >= x * x * 1) by (nonlinear_arith)
        requires
            r >= 1,
            x * x >= 0,
    ;
}

proof fn lemma_least_reached(a: int, r: int, lo: int, hi: int)
    requires
        0 <= lo < hi,
        !reached(a, r, lo),
        reached(a, r, hi),
    ensures
        exists|d: int| lo < d <= hi && #[trigger] first_reached(a, r, d),
    decreases hi - lo,
{
    if reached(a, r, hi - 1) {
        lemma_least_reached(a, r, lo, hi - 1);
    } else {
        assert(first_reached(a, r, hi));
    }
}

/// No two integers are the gap of one index and draw.
pub proof fn lemma_gap_unique(i: nat, r: u64, d1: int, d2: int)
    requires
        is_gap(i, r, d1),
        is_gap(i, r, d2),
    ensures
        d1 == d2,
{
    let a = slope(i);
    if d1 < d2 {
        lemma_reached_monotone(a, effective(r), d1, d2 - 1);
    } else if d2 < d1 {
        lemma_reached_monotone(a, effective(r), d2, d1 - 1);
    }
}

/// An integer that is a gap is the gap.
pub proof fn lemma_gap_is(i: nat, r: u64, d: int)
    requires
        is_gap(i, r, d),
    ensures
        gap(i, r) == d,
{
    assert(is_gap(i, r, (d as nat) as int));
    lemma_gap_unique(i, r, d, gap(i, r) as int);
}

/// Every index and draw has a gap; it is at least 1, and larger than every
/// integer that does not reach the bound.
pub proof fn lemma_gap_exists(i: nat, r: u64, lo: int)
    requires
        0 <= lo,
        !reached(slope(i), effective(r), lo),
    ensures
        is_gap(i, r, gap(i, r) as int),
        gap(i, r) > lo,
{
    let a = slope(i);
    let e = effective(r);
    let hi = a * 0x8000_0000;
    lemma_far_reached(a, e);
    if hi <= lo {
        lemma_reached_monotone(a, e, hi, lo);
    }
    lemma_least_reached(a, e, lo, hi);
    let d = choose|d: int| lo < d <= hi && #[trigger] first_reached(a, e, d);
    assert(is_gap(i, r, d));
    lemma_gap_is(i, r, d);
}

/// The gap is at least 1.
pub proof fn lemma_gap_positive(i: nat, r: u64)
    ensures
        gap(i, r) >= 1,
        is_gap(i, r, gap(i, r) as int),
{
    lemma_zero_not_reached(slope(i), effective(r));
    lemma_gap_exists(i, r, 0);
}

/// A schedule is strictly increasing.
pub proof fn lemma_index_increasing(seed: Seq<u8>, m: nat, n: nat)
    requires
        m < n,
    ensures
        index_at(seed, m) < index_at(seed, n),
    decreases n,
{
    let i = index_at(seed, (n - 1) as nat);
    lemma_gap_positive(i, Xoroshiro128Plus::after(seed, (n - 1) as nat).output());
    if m < n - 1 {
        lemma_index_increasing(seed, m, (n - 1) as nat);
    }
}

/// Every schedule starts at cell 0.
pub proof fn lemma_hits_zero(seed: Seq<u8>)
    ensures
        hits(seed, 0),
{
    assert(index_at(seed, 0) == 0);
}

/// A cell strictly between two consecutive indices of a schedule, or before
/// the next index and not among the earlier ones, is not in the schedule; a
/// cell that is an index of the schedule is in it.
pub proof fn lemma_hits_at(seed: Seq<u8>, n: nat, k: nat)
    requires
        n == 0 || index_at(seed, (n - 1) as nat) < k,
        k <= index_at(seed, n),
    ensures
        hits(seed, k) == (k == index_at(seed, n)),
{
    if hits(seed, k) {
        let m = choose|m: nat| index_at(seed, m) == k;
        if m < n {
            if m < n - 1 {
                lemma_index_increasing(seed, m, (n - 1) as nat);
            }
        } else if m > n {
            lemma_index_increasing(seed, n, m);
        }
    }
}

/// Whether gap `d` reaches the bound, for `a = 2i + 3` and `target = (a * 2^32)^2`.
fn reaches(a: u128, r: u64, d: u64, target: &Wide) -> (b: bool)
    requires
        a <= 0x2_0000_0000_0000_0001,
        target.value() == (a * 0x1_0000_0000) * (a * 0x1_0000_0000),
    ensures
        b == reached(a as int, r as int, d as int),
{
    let x: u128 = 2 * (d as u128) + a;
    let square = Wide::product(x, x);
    proof {
        assert(x * x < 0x8_0000_0000_0000_0000 * 0x8_0000_0000_0000_0000) by (nonlinear_arith)
            requires
                0 <= x < 0x8_0000_0000_0000_0000,
        ;
        assert(square.hi < limb()) by (nonlinear_arith)
            requires
                square.hi * (0x1_0000_0000_0000_0000 * 0x1_0000_0000_0000_0000) + square.lo < 0x8_0000_0000_0000_0000
                    * 0x8_0000_0000_0000_0000,
                square.lo >= 0,
                square.hi >= 0,
                limb() == 0x1_0000_0000_0000_0000,
        ;
    }
    let lhs = square.times(r);
    lhs.ge(target)
}

/// The index that follows `i` on draw `r`.
pub fn next_index(i: u64, r: u64) -> (j: u64)
    ensures
        j == clamp(i as nat + gap(i as nat, r)),
{
    let e: u64 = if r == 0 { 1 } else { r };
    proof {
        lemma_zero_not_reached(slope(i as nat), e as int);
    }
    if i >= u64::MAX - 1 {
        proof {
            lemma_gap_positive(i as nat, r);
        }
        return u64::MAX;
    }
    let a: u128 = 2 * (i as u128) + 3;
    let scaled: u128 = a * 0x1_0000_0000;
    let target = Wide::product(scaled, scaled);
    let limit: u64 = u64::MAX - i - 1;
    if !reaches(a, e, limit, &target) {
        proof {
            lemma_gap_exists(i as nat, r, limit as int);
        }
        return u64::MAX;
    }
    let mut lo: u64 = 0;
    let mut hi: u64 = 1;
    while hi < limit && !reaches(a, e, hi, &target)
        invariant
            a == 2 * i + 3,
            e == effective(r),
            target.value() == (a * 0x1_0000_0000) * (a * 0x1_0000_0000),
            lo < hi <= limit,
            limit == u64::MAX - i - 1,
            !reached(a as int, e as int, lo as int),
            reached(a as int, e as int, limit as int),
        decreases limit - hi,
    {
        lo = hi;
        hi = if hi <= limit / 2 { 2 * hi } else { limit };
    }
    proof {
        if hi >= limit {
            assert(hi == limit);
        }
    }
    while hi - lo > 1
        invariant
            a == 2 * i + 3,
            e == effective(r),
            target.value() == (a * 0x1_0000_0000) * (a * 0x1_0000_0000),
            lo < hi <= limit,
            limit == u64::MAX - i - 1,
            !reached(a as int, e as int, lo as int),
            reached(a as int, e as int, hi as int),
        decreases hi - lo,
    {
        let mid: u64 = lo + (hi - lo) / 2;
        if reaches(a, e, mid, &target) {
            hi = mid;
        } else {
            lo = mid;
        }
    }
    proof {
        assert(is_gap(i as nat, r, hi as int));
        lemma_gap_is(i as nat, r, hi as int);
    }
    i + hi
}

/// The position of one item in its index schedule.
#[derive(Clone, Copy)]
pub struct IndexGenerator {
    rng: Xoroshiro128Plus,
    index: u64,
    seed: Ghost<Seq<u8>>,
    draws: Ghost<nat>,
}

impl IndexGenerator {
    /// The checksum that the schedule was seeded with.
    pub closed spec fn seed(&self) -> Seq<u8> {
        self.seed@
    }

    /// The number of steps taken so far.
    pub closed spec fn draws(&self) -> nat {
        self.draws@
    }

    /// The index that the generator reports.
    pub closed spec fn index(&self) -> u64 {
        self.index
    }

    /// The generator stands where its seed and its number of steps put it.
    pub closed spec fn wf(&self) -> bool {
        &&& self.rng == Xoroshiro128Plus::after(self.seed@, self.draws@)
        &&& self.index == clamp(index_at(self.seed@, self.draws@))
    }

    /// The schedule has not yet passed cell `k`: the current index is the
    /// first of the schedule at or after `k`.
    pub open spec fn at_or_after(&self, k: nat) -> bool {
        &&& self.draws() == 0 || index_at(self.seed(), (self.draws() - 1) as nat) < k
        &&& k <= index_at(self.seed(), self.draws())
    }

    /// The schedule has just left cell `k`: the index before the current one
    /// is `k`.
    pub open spec fn just_past(&self, k: nat) -> bool {
        self.draws() >= 1 && index_at(self.seed(), (self.draws() - 1) as nat) == k
    }

    /// What `wf` says of the reported index.
    pub proof fn lemma_index(&self)
        requires
            self.wf(),
        ensures
            self.index() == clamp(index_at(self.seed(), self.draws())),
    {
    }

    /// A generator at the start of the schedule of `checksum`: at cell 0.
    pub fn new(checksum: [u8; 16]) -> (g: IndexGenerator)
        ensures
            g.wf(),
            g.seed() == checksum@,
            g.draws() == 0,
            g.index() == 0,
    {
        IndexGenerator {
            rng: Xoroshiro128Plus::from_seed(checksum),
            index: 0,
            seed: Ghost(checksum@),
            draws: Ghost(0),
        }
    }

    /// The current index of the schedule.
    pub fn current(&self) -> (i: u64)
        ensures
            i == self.index(),
            self.wf() ==> i == clamp(index_at(self.seed(), self.draws())),
    {
        self.index
    }

    /// Moves on to the next index of the schedule.
    pub fn next(&mut self)
        requires
            old(self).wf(),
        ensures
            final(self).wf(),
            final(self).seed() == old(self).seed(),
            final(self).draws() == old(self).draws() + 1,
    {
        let r = self.rng.next_u64();
        proof {
            lemma_index_increasing(self.seed@, self.draws@, self.draws@ + 1);
        }
        if self.index < u64::MAX {
            self.index = next_index(self.index, r);
        }
        proof {
            self.draws@ = self.draws@ + 1;
        }
    }
}

} // verus!
