//! Unsigned integers of 192 and 384 bits.
//!
//! Squared distances between points with 64-bit coordinates need up to 258
//! bits before the final division. These two types carry exactly the
//! operations that computation uses; each is specified by the mathematical
//! integer that the limbs stand for.

use vstd::arithmetic::div_mod::lemma_fundamental_div_mod_converse;
use vstd::prelude::*;

verus! {

/// The weight of one limb: 2^64.
pub const LIMB: u128 = 0x1_0000_0000_0000_0000;

/// An unsigned integer of three 64-bit limbs, least significant first.
#[derive(Clone, Copy, Debug)]
pub struct U192 {
    pub lo: u64,
    pub mid: u64,
    pub hi: u64,
}

/// An unsigned integer of six 64-bit limbs, least significant first.
#[derive(Clone, Copy, Debug)]
pub struct U384 {
    pub l0: u64,
    pub l1: u64,
    pub l2: u64,
    pub l3: u64,
    pub l4: u64,
    pub l5: u64,
}

/// `low + LIMB * high`, the step of a positional number.
pub open spec fn limb_cons(low: int, high: int) -> int {
    low + 0x1_0000_0000_0000_0000 * high
}

/// Computes `a * b + acc + carry` as a two-limb number.
fn mul_add(a: u64, b: u64, acc: u64, carry: u64) -> (r: (u64, u64))
    ensures
        limb_cons(r.0 as int, r.1 as int) == a as int * b as int + acc as int + carry as int,
{
    assert(a as int * b as int <= 0xFFFF_FFFF_FFFF_FFFF * 0xFFFF_FFFF_FFFF_FFFF) by (nonlinear_arith)
        requires
            0 <= a as int <= 0xFFFF_FFFF_FFFF_FFFF,
            0 <= b as int <= 0xFFFF_FFFF_FFFF_FFFF,
    ;
    assert(0 <= a as int * b as int) by (nonlinear_arith)
        requires
            0 <= a as int,
            0 <= b as int,
    ;
    let t: u128 = (a as u128) * (b as u128) + (acc as u128) + (carry as u128);
    ((t % LIMB) as u64, (t / LIMB) as u64)
}

impl U192 {
    /// The integer that the limbs stand for.
    pub open spec fn value(self) -> int {
        limb_cons(self.lo as int, limb_cons(self.mid as int, self.hi as int))
    }

    /// The number `v`.
    pub fn from_u128(v: u128) -> (r: U192)
        ensures
            r.value() == v,
    {
        U192 { lo: (v % LIMB) as u64, mid: (v / LIMB) as u64, hi: 0 }
    }

    /// `self + other`, where the sum fits.
    pub fn plus(&self, other: &U192) -> (r: U192)
        requires
            self.value() + other.value() < 0x1_0000_0000_0000_0000_0000_0000_0000_0000_0000_0000_0000_0000int,
        ensures
            r.value() == self.value() + other.value(),
    {
        let s0: u128 = self.lo as u128 + other.lo as u128;
        let s1: u128 = self.mid as u128 + other.mid as u128 + s0 / LIMB;
        let s2: u128 = self.hi as u128 + other.hi as u128 + s1 / LIMB;
        U192 { lo: (s0 % LIMB) as u64, mid: (s1 % LIMB) as u64, hi: s2 as u64 }
    }

    /// `self - other`, where `other` is not the larger.
    pub fn minus(&self, other: &U192) -> (r: U192)
        requires
            other.value() <= self.value(),
        ensures
            r.value() == self.value() - other.value(),
    {
        let d0: u128 = LIMB + self.lo as u128 - other.lo as u128;
        let d1: u128 = LIMB + self.mid as u128 - other.mid as u128 - (1 - d0 / LIMB);
        let d2: u128 = LIMB + self.hi as u128 - other.hi as u128 - (1 - d1 / LIMB);
        U192 { lo: (d0 % LIMB) as u64, mid: (d1 % LIMB) as u64, hi: (d2 % LIMB) as u64 }
    }

    /// `self / 2`, rounded down.
    pub fn halved(&self) -> (r: U192)
        ensures
            r.value() == self.value() / 2,
    {
        U192 {
            lo: self.lo / 2 + (self.mid % 2) * 0x8000_0000_0000_0000,
            mid: self.mid / 2 + (self.hi % 2) * 0x8000_0000_0000_0000,
            hi: self.hi / 2,
        }
    }

    /// Whether `self < other`.
    pub fn less(&self, other: &U192) -> (r: bool)
        ensures
            r == (self.value() < other.value()),
    {
        if self.hi != other.hi {
            self.hi < other.hi
        } else if self.mid != other.mid {
            self.mid < other.mid
        } else {
            self.lo < other.lo
        }
    }

    /// `self * other`, which always fits six limbs.
    pub fn times(&self, other: &U192) -> (r: U384)
        ensures
            r.value() == self.value() * other.value(),
    {
        let (low0, c) = mul_add(self.lo, other.lo, 0, 0);
        let (low1, c) = mul_add(self.lo, other.mid, 0, c);
        let (low2, low3) = mul_add(self.lo, other.hi, 0, c);
        let (mid1, c) = mul_add(self.mid, other.lo, low1, 0);
        let (mid2, c) = mul_add(self.mid, other.mid, low2, c);
        let (mid3, mid4) = mul_add(self.mid, other.hi, low3, c);
        let (top2, c) = mul_add(self.hi, other.lo, mid2, 0);
        let (top3, c) = mul_add(self.hi, other.mid, mid3, c);
        let (top4, top5) = mul_add(self.hi, other.hi, mid4, c);
        proof {
            lemma_product_by_limbs(
                self.lo as int,
                self.mid as int,
                self.hi as int,
                other.lo as int,
                other.mid as int,
                other.hi as int,
            );
        }
        U384 { l0: low0, l1: mid1, l2: top2, l3: top3, l4: top4, l5: top5 }
    }
}

/// The product of two three-limb numbers, limb product by limb product.
proof fn lemma_product_by_limbs(a0: int, a1: int, a2: int, b0: int, b1: int, b2: int)
    ensures
        limb_cons(a0, limb_cons(a1, a2)) * limb_cons(b0, limb_cons(b1, b2)) == limb_cons(
            a0 * b0,
            limb_cons(
                a0 * b1 + a1 * b0,
                limb_cons(a0 * b2 + a1 * b1 + a2 * b0, limb_cons(a1 * b2 + a2 * b1, a2 * b2)),
            ),
        ),
{
    assert((a0 + 0x1_0000_0000_0000_0000 * (a1 + 0x1_0000_0000_0000_0000 * a2)) * (b0
        + 0x1_0000_0000_0000_0000 * (b1 + 0x1_0000_0000_0000_0000 * b2)) == a0 * b0
        + 0x1_0000_0000_0000_0000 * ((a0 * b1 + a1 * b0) + 0x1_0000_0000_0000_0000 * ((a0 * b2 + a1
        * b1 + a2 * b0) + 0x1_0000_0000_0000_0000 * ((a1 * b2 + a2 * b1) + 0x1_0000_0000_0000_0000
        * (a2 * b2))))) by (nonlinear_arith);
}

impl U384 {
    /// The integer that the limbs stand for.
    pub open spec fn value(self) -> int {
        limb_cons(
            self.l0 as int,
            limb_cons(
                self.l1 as int,
                limb_cons(
                    self.l2 as int,
                    limb_cons(self.l3 as int, limb_cons(self.l4 as int, self.l5 as int)),
                ),
            ),
        )
    }

    /// Whether `self <= other`.
    pub fn at_most(&self, other: &U384) -> (r: bool)
        ensures
            r == (self.value() <= other.value()),
    {
        if self.l5 != other.l5 {
            self.l5 < other.l5
        } else if self.l4 != other.l4 {
            self.l4 < other.l4
        } else if self.l3 != other.l3 {
            self.l3 < other.l3
        } else if self.l2 != other.l2 {
            self.l2 < other.l2
        } else if self.l1 != other.l1 {
            self.l1 < other.l1
        } else {
            self.l0 <= other.l0
        }
    }

    /// `self / divisor`, rounded down, found by bisection below `bound`.
    pub fn quotient(&self, divisor: &U192, bound: &U192) -> (q: U192)
        requires
            divisor.value() > 0,
            self.value() < bound.value() * divisor.value(),
        ensures
            q.value() == self.value() / divisor.value(),
    {
        let ghost n = self.value();
        let ghost d = divisor.value();
        let mut low = U192 { lo: 0, mid: 0, hi: 0 };
        let mut high = *bound;
        assert(low.value() * d == 0) by (nonlinear_arith)
            requires
                low.value() == 0,
        ;
        let mut gap = high.minus(&low);
        while gap.hi != 0 || gap.mid != 0 || gap.lo > 1
            invariant
                d == divisor.value(),
                n == self.value(),
                d > 0,
                low.value() < high.value(),
                gap.value() == high.value() - low.value(),
                low.value() * d <= n < high.value() * d,
            decreases high.value() - low.value(),
        {
            let middle = low.plus(&gap.halved());
            let product = middle.times(divisor);
            if product.at_most(self) {
                low = middle;
            } else {
                high = middle;
            }
            gap = high.minus(&low);
        }
        proof {
            assert(high.value() == low.value() + 1);
            assert((low.value() + 1) * d == low.value() * d + d) by (nonlinear_arith);
            lemma_fundamental_div_mod_converse(n, d, low.value(), n - low.value() * d);
        }
        low
    }
}

} // verus!
