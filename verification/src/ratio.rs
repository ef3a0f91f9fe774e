//! Scores as exact ratios of integers.
//!
//! A score is a quotient of two counts. It is kept as the pair of the two, so
//! that every statement about it is exact; dividing is left to the caller.

use vstd::prelude::*;

verus! {

/// The ratio `num / den` of two counts.
#[derive(Clone, Copy, Debug, PartialEq, Eq, Structural)]
pub struct Ratio {
    pub num: u64,
    pub den: u64,
}

/// The ratio `num / den`, wide enough for a product of two `Ratio`s.
#[derive(Clone, Copy, Debug, PartialEq, Eq, Structural)]
pub struct WideRatio {
    pub num: u128,
    pub den: u128,
}

impl WideRatio {
    /// Whether this ratio is the product of `a` and `b`: numerator by
    /// numerator, denominator by denominator, with nothing reduced.
    pub open spec fn is_product_of(self, a: Ratio, b: Ratio) -> bool {
        &&& self.num == a.num * b.num
        &&& self.den == a.den * b.den
    }
}

impl Ratio {
    /// Whether the ratio is at least the whole number `n`.
    pub open spec fn at_least(self, n: nat) -> bool {
        self.den > 0 && n * self.den <= self.num
    }

    /// Whether the ratio is at most the whole number `n`.
    pub open spec fn at_most(self, n: nat) -> bool {
        self.den > 0 && self.num <= n * self.den
    }

    /// Whether the ratio is the whole number `n`.
    pub open spec fn is_whole(self, n: nat) -> bool {
        self.den > 0 && self.num == n * self.den
    }

    /// Whether the ratio is greater than zero.
    pub open spec fn is_positive(self) -> bool {
        self.den > 0 && self.num > 0
    }

    /// Multiplies two ratios. Nothing is reduced.
    pub fn times(self, other: Ratio) -> (wide: WideRatio)
        ensures
            wide.is_product_of(self, other),
    {
        proof {
            lemma_product_fits(self.num, other.num);
            lemma_product_fits(self.den, other.den);
        }
        let num: u128 = (self.num as u128) * (other.num as u128);
        let den: u128 = (self.den as u128) * (other.den as u128);
        WideRatio { num, den }
    }
}

/// The product of two 64-bit numbers fits in 128 bits.
pub proof fn lemma_product_fits(a: u64, b: u64)
    ensures
        a * b <= u128::MAX,
{
    assert(a * b <= 0xffff_ffff_ffff_ffff * 0xffff_ffff_ffff_ffff) by (nonlinear_arith)
        requires
            0 <= a <= 0xffff_ffff_ffff_ffff,
            0 <= b <= 0xffff_ffff_ffff_ffff,
    ;
}

} // verus!
