//! Unsigned 256-bit products, as far as the index generator needs them.

use vstd::prelude::*;

verus! {

/// 2^64.
pub open spec fn limb() -> int {
    0x1_0000_0000_0000_0000
}

/// An unsigned integer below 2^256, held as two halves of 128 bits.
#[derive(Clone, Copy, Debug)]
pub struct Wide {
    pub hi: u128,
    pub lo: u128,
}

impl Wide {
    /// The number that the two halves stand for.
    pub open spec fn value(self) -> int {
        self.hi * (limb() * limb()) + self.lo
    }

    /// The full product of two 128-bit numbers.
    pub fn product(x: u128, y: u128) -> (p: Wide)
        ensures
            p.value() == x * y,
    {
        let b: u128 = 0x1_0000_0000_0000_0000;
        let x0: u128 = x % b;
        let x1: u128 = x / b;
        let y0: u128 = y % b;
        let y1: u128 = y / b;
        proof {
            lemma_limb_product(x0 as int, y0 as int);
            lemma_limb_product(x0 as int, y1 as int);
            lemma_limb_product(x1 as int, y0 as int);
            lemma_limb_product(x1 as int, y1 as int);
        }
        let p00: u128 = x0 * y0;
        let p01: u128 = x0 * y1;
        let p10: u128 = x1 * y0;
        let p11: u128 = x1 * y1;
        let carry: u128 = p00 / b + p01 % b + p10 % b;
        let lo: u128 = p00 % b + (carry % b) * b;
        let hi: u128 = p11 + p01 / b + p10 / b + carry / b;
        proof {
            lemma_schoolbook(
                x as int,
                y as int,
                p00 as int,
                p01 as int,
                p10 as int,
                p11 as int,
                hi as int,
                lo as int,
            );
        }
        Wide { hi, lo }
    }

    /// The product of a number below 2^192 and a 64-bit number.
    pub fn times(self, r: u64) -> (p: Wide)
        requires
            self.hi < limb(),
        ensures
            p.value() == self.value() * r,
    {
        let low = Wide::product(self.lo, r as u128);
        proof {
            lemma_limb_product(self.hi as int, r as int);
            lemma_times(self.hi as int, self.lo as int, r as int, low.hi as int, low.lo as int);
        }
        Wide { hi: self.hi * (r as u128) + low.hi, lo: low.lo }
    }

    /// Whether `self` is at least `other`.
    pub fn ge(&self, other: &Wide) -> (b: bool)
        ensures
            b == (self.value() >= other.value()),
    {
        proof {
            lemma_order(self.hi as int, self.lo as int, other.hi as int, other.lo as int);
        }
        self.hi > other.hi || (self.hi == other.hi && self.lo >= other.lo)
    }
}

/// The product of two numbers below 2^64 is at most (2^64 - 1)^2.
pub proof fn lemma_limb_product(x: int, y: int)
    by (nonlinear_arith)
    requires
        0 <= x < 0x1_0000_0000_0000_0000,
        0 <= y < 0x1_0000_0000_0000_0000,
    ensures
        0 <= x * y <= 0xffff_ffff_ffff_ffff * 0xffff_ffff_ffff_ffff,
{
}

/// Multiplying by limbs: the four partial products, with their carries
/// gathered into two halves, add up to the product.
proof fn lemma_schoolbook(x: int, y: int, p00: int, p01: int, p10: int, p11: int, hi: int, lo: int)
    requires
        0 <= x,
        0 <= y,
        p00 == (x % limb()) * (y % limb()),
        p01 == (x % limb()) * (y / limb()),
        p10 == (x / limb()) * (y % limb()),
        p11 == (x / limb()) * (y / limb()),
        lo == p00 % limb() + ((p00 / limb() + p01 % limb() + p10 % limb()) % limb()) * limb(),
        hi == p11 + p01 / limb() + p10 / limb() + (p00 / limb() + p01 % limb() + p10 % limb())
            / limb(),
    ensures
        hi * (limb() * limb()) + lo == x * y,
{
    let b = limb();
    let x0 = x % b;
    let x1 = x / b;
    let y0 = y % b;
    let y1 = y / b;
    assert(x == x1 * b + x0 && y == y1 * b + y0);
    lemma_expand(x0, x1, y0, y1, b);
    assert(x * y == p11 * (b * b) + (p01 + p10) * b + p00);
    let carry = p00 / b + p01 % b + p10 % b;
    lemma_gather(
        b,
        p00 / b,
        p00 % b,
        p01 / b,
        p01 % b,
        p10 / b,
        p10 % b,
        p11,
        carry / b,
        carry % b,
    );
}

proof fn lemma_expand(x0: int, x1: int, y0: int, y1: int, b: int)
    ensures
        (x1 * b + x0) * (y1 * b + y0) == (x1 * y1) * (b * b) + (x0 * y1 + x1 * y0) * b + x0 * y0,
{
    let xh = x1 * b;
    let yh = y1 * b;
    let y = yh + y0;
    assert((xh + x0) * y == xh * y + x0 * y) by (nonlinear_arith);
    assert(xh * (yh + y0) == xh * yh + xh * y0) by (nonlinear_arith);
    assert(x0 * (yh + y0) == x0 * yh + x0 * y0) by (nonlinear_arith);
    assert((x1 * b) * (y1 * b) == (x1 * y1) * (b * b)) by (nonlinear_arith);
    assert((x1 * b) * y0 == (x1 * y0) * b) by (nonlinear_arith);
    assert(x0 * (y1 * b) == (x0 * y1) * b) by (nonlinear_arith);
    let m = x0 * y1;
    let n = x1 * y0;
    assert((m + n) * b == m * b + n * b) by (nonlinear_arith);
}

proof fn lemma_gather(
    b: int,
    q00: int,
    r00: int,
    q01: int,
    r01: int,
    q10: int,
    r10: int,
    p11: int,
    qc: int,
    rc: int,
)
    requires
        q00 + r01 + r10 == qc * b + rc,
    ensures
        (p11 + q01 + q10 + qc) * (b * b) + (r00 + rc * b) == p11 * (b * b) + ((q01 * b + r01) + (q10
            * b + r10)) * b + (q00 * b + r00),
{
    let bb = b * b;
    let h = q01 + q10 + qc;
    assert((p11 + h) * bb == p11 * bb + h * bb) by (nonlinear_arith);
    assert((q01 + q10 + qc) * bb == q01 * bb + q10 * bb + qc * bb) by (nonlinear_arith);
    let u = q01 * b + r01;
    let v = q10 * b + r10;
    assert((u + v) * b == u * b + v * b) by (nonlinear_arith);
    assert((q01 * b + r01) * b == q01 * (b * b) + r01 * b) by (nonlinear_arith);
    assert((q10 * b + r10) * b == q10 * (b * b) + r10 * b) by (nonlinear_arith);
    assert((qc * b + rc) * b == qc * (b * b) + rc * b) by (nonlinear_arith);
    let w = q00 + r01 + r10;
    assert(w * b == q00 * b + r01 * b + r10 * b) by (nonlinear_arith)
        requires
            w == q00 + r01 + r10,
    ;
}

proof fn lemma_times(hi: int, lo: int, r: int, low_hi: int, low_lo: int)
    by (nonlinear_arith)
    requires
        0 <= hi < 0x1_0000_0000_0000_0000,
        0 <= lo < 0x1_0000_0000_0000_0000_0000_0000_0000_0000,
        0 <= r < 0x1_0000_0000_0000_0000,
        0 <= low_lo,
        0 <= low_hi,
        low_hi * (0x1_0000_0000_0000_0000 * 0x1_0000_0000_0000_0000) + low_lo == lo * r,
    ensures
        low_hi < 0x1_0000_0000_0000_0000,
        (hi * (0x1_0000_0000_0000_0000 * 0x1_0000_0000_0000_0000) + lo) * r == (hi * r + low_hi)
            * (0x1_0000_0000_0000_0000 * 0x1_0000_0000_0000_0000) + low_lo,
{
}

proof fn lemma_order(h1: int, l1: int, h2: int, l2: int)
    by (nonlinear_arith)
    requires
        0 <= l1 < 0x1_0000_0000_0000_0000_0000_0000_0000_0000,
        0 <= l2 < 0x1_0000_0000_0000_0000_0000_0000_0000_0000,
    ensures
        (h1 * (0x1_0000_0000_0000_0000 * 0x1_0000_0000_0000_0000) + l1 >= h2 * (
        0x1_0000_0000_0000_0000 * 0x1_0000_0000_0000_0000) + l2) == (h1 > h2 || (h1 == h2 && l1
            >= l2)),
{
}

} // verus!
