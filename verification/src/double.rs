//! Double-precision numbers, held as their bit patterns.
//!
//! The library never computes with floating-point numbers. It carries them as
//! the 64 bits of their IEEE 754 encoding, which is enough to tell missing from
//! finite values and to compare them; what has to be computed is written down
//! as a [`Program`](crate::program::Program).

use vstd::prelude::*;

verus! {

/// The weight of the sign bit.
pub const SIGN: u64 = 0x8000_0000_0000_0000;

/// The encoding of positive infinity: the least magnitude that is not finite.
pub const INFINITE: u64 = 0x7ff0_0000_0000_0000;

/// The encoding of negative infinity.
pub const NEGATIVE_INFINITE: u64 = 0xfff0_0000_0000_0000;

/// The encoding of `1.0`.
pub const ONE: u64 = 0x3ff0_0000_0000_0000;

/// The encoding of `0.5`.
pub const HALF: u64 = 0x3fe0_0000_0000_0000;

/// The encoding of `2.0`.
pub const TWO: u64 = 0x4000_0000_0000_0000;

/// The encoding of `100.0`.
pub const HUNDRED: u64 = 0x4059_0000_0000_0000;

/// The encoding of NaN.
pub const QUIET_NAN: u64 = 0x7ff8_0000_0000_0000;

/// The number of values that one exponent has.
pub const FRACTIONS: u64 = 0x10_0000_0000_0000;

/// A double-precision number, by its bits.
#[derive(Clone, Copy, Debug, PartialEq, Eq, Structural)]
pub struct Double {
    pub bits: u64,
}

impl Double {
    /// The bits below the sign bit: larger means further from zero.
    pub open spec fn magnitude(self) -> int {
        if self.bits < SIGN {
            self.bits as int
        } else {
            self.bits - SIGN
        }
    }

    pub open spec fn nan(self) -> bool {
        self.magnitude() > INFINITE
    }

    pub open spec fn finite(self) -> bool {
        self.magnitude() < INFINITE
    }

    /// The position of a number on the real line; `-0.0` and `0.0` share one.
    /// Only meaningful for numbers other than NaN.
    pub open spec fn rank(self) -> int {
        if self.bits < SIGN {
            self.magnitude()
        } else {
            -self.magnitude()
        }
    }

    /// The position of a number in the total order of all encodings, in which
    /// `-0.0` comes just before `0.0`, and NaN beyond the infinity of its sign.
    pub open spec fn total_rank(self) -> int {
        if self.bits < SIGN {
            self.magnitude()
        } else {
            -self.magnitude() - 1
        }
    }

    /// The exponent field of a number.
    pub open spec fn exponent(self) -> int {
        self.magnitude() / (FRACTIONS as int)
    }

    /// The significand of a normal number: it is this integer, times the power
    /// of two by its exponent less 1075.
    pub open spec fn significand(self) -> int {
        FRACTIONS + self.magnitude() % (FRACTIONS as int)
    }

    /// The least natural number that is not less; zero for NaN and below zero,
    /// and `2^1024` for infinity.
    pub open spec fn ceiling(self) -> int {
        if self.nan() || self.bits >= SIGN || self.bits == 0 {
            0
        } else if self.exponent() < 1023 {
            1
        } else if self.exponent() <= 1075 {
            let unit = vstd::arithmetic::power2::pow2((1075 - self.exponent()) as nat) as int;
            (self.significand() + unit - 1) / unit
        } else {
            self.significand() * vstd::arithmetic::power2::pow2((self.exponent() - 1075) as nat)
        }
    }

    /// `self < other` as real numbers; false where either is NaN.
    pub open spec fn below(self, other: Double) -> bool {
        !self.nan() && !other.nan() && self.rank() < other.rank()
    }

    /// `self == other` as real numbers; false where either is NaN.
    pub open spec fn equals(self, other: Double) -> bool {
        !self.nan() && !other.nan() && self.rank() == other.rank()
    }

    /// The number with the sign of another.
    pub open spec fn signed_like(self, other: Double) -> Double {
        if other.bits < SIGN {
            Double { bits: self.magnitude() as u64 }
        } else {
            Double { bits: (self.magnitude() + SIGN) as u64 }
        }
    }

    /// `0.0`.
    pub fn zero() -> (r: Double)
        ensures
            r == (Double { bits: 0 }),
    {
        Double { bits: 0 }
    }

    /// `1.0`.
    pub fn one() -> (r: Double)
        ensures
            r == (Double { bits: ONE }),
    {
        Double { bits: ONE }
    }

    /// The number with the sign of another.
    pub fn copysign(self, other: Double) -> (r: Double)
        ensures
            r == self.signed_like(other),
    {
        let magnitude: u64 = if self.bits < SIGN {
            self.bits
        } else {
            self.bits - SIGN
        };
        if other.bits < SIGN {
            Double { bits: magnitude }
        } else {
            Double { bits: magnitude + SIGN }
        }
    }

    /// Whether the number is NaN.
    pub fn is_nan(self) -> (r: bool)
        ensures
            r == self.nan(),
    {
        if self.bits < SIGN {
            self.bits > INFINITE
        } else {
            self.bits - SIGN > INFINITE
        }
    }

    /// Whether the number is neither infinite nor NaN.
    pub fn is_finite(self) -> (r: bool)
        ensures
            r == self.finite(),
    {
        if self.bits < SIGN {
            self.bits < INFINITE
        } else {
            self.bits - SIGN < INFINITE
        }
    }

    /// The ceiling, or `limit` where it is greater.
    pub fn ceiling_at_most(self, limit: usize) -> (r: usize)
        ensures
            r == if self.ceiling() < limit {
                self.ceiling()
            } else {
                limit as int
            },
    {
        if self.is_nan() || self.bits >= SIGN || self.bits == 0 {
            return 0;
        }
        let exponent: u64 = self.bits / FRACTIONS;
        let significand: u64 = FRACTIONS + self.bits % FRACTIONS;
        proof {
            assert(exponent == self.exponent());
            assert(significand == self.significand());
        }
        if exponent < 1023 {
            return if limit < 1 {
                limit
            } else {
                1
            };
        }
        if exponent <= 1075 {
            let mut unit: u64 = 1;
            let mut k: u64 = 0;
            let n: u64 = 1075 - exponent;
            proof {
                vstd::arithmetic::power2::lemma2_to64();
            }
            while k < n
                invariant
                    k <= n <= 52,
                    unit == vstd::arithmetic::power2::pow2(k as nat),
                decreases n - k,
            {
                proof {
                    vstd::arithmetic::power2::lemma2_to64_rest();
                    vstd::arithmetic::power2::lemma_pow2_unfold((k + 1) as nat);
                    if k < 51 {
                        vstd::arithmetic::power2::lemma_pow2_strictly_increases(k as nat, 51);
                    }
                }
                unit = unit * 2;
                k += 1;
            }
            proof {
                vstd::arithmetic::power2::lemma2_to64_rest();
                vstd::arithmetic::power2::lemma_pow2_pos(n as nat);
                if n < 52 {
                    vstd::arithmetic::power2::lemma_pow2_strictly_increases(n as nat, 52);
                }
            }
            let c: u64 = (significand + unit - 1) / unit;
            return if c < limit as u64 {
                c as usize
            } else {
                limit
            };
        }
        let mut value: u128 = significand as u128;
        let mut k: u64 = 0;
        let n: u64 = exponent - 1075;
        proof {
            vstd::arithmetic::power2::lemma2_to64();
            assert(significand * 1 == significand) by (nonlinear_arith);
        }
        while k < n && value < limit as u128
            invariant
                k <= n,
                limit <= u64::MAX,
                significand < 2 * FRACTIONS,
                value == significand * vstd::arithmetic::power2::pow2(k as nat),
                value < 2 * (u64::MAX as u128 + 1),
            decreases n - k,
        {
            proof {
                vstd::arithmetic::power2::lemma_pow2_unfold((k + 1) as nat);
                let p = vstd::arithmetic::power2::pow2(k as nat) as int;
                assert(significand * (2 * p) == 2 * (significand * p)) by (nonlinear_arith);
            }
            value = value * 2;
            k += 1;
        }
        proof {
            if k < n {
                vstd::arithmetic::power2::lemma_pow2_strictly_increases(k as nat, n as nat);
                let p = vstd::arithmetic::power2::pow2(k as nat) as int;
                let q = vstd::arithmetic::power2::pow2(n as nat) as int;
                assert(significand * p <= significand * q) by (nonlinear_arith)
                    requires
                        p < q,
                        significand >= 0,
                ;
            }
        }
        if value < limit as u128 {
            value as usize
        } else {
            limit
        }
    }

    /// Whether `self < other`.
    pub fn is_below(self, other: Double) -> (r: bool)
        ensures
            r == self.below(other),
    {
        if self.is_nan() || other.is_nan() {
            false
        } else if self.bits < SIGN {
            other.bits < SIGN && self.bits < other.bits
        } else if other.bits < SIGN {
            self.bits > SIGN || other.bits > 0
        } else {
            self.bits > other.bits
        }
    }

    /// Whether `self == other`.
    pub fn is_equal(self, other: Double) -> (r: bool)
        ensures
            r == self.equals(other),
    {
        if self.is_nan() || other.is_nan() {
            false
        } else if self.bits == other.bits {
            true
        } else {
            (self.bits == 0 || self.bits == SIGN) && (other.bits == 0 || other.bits == SIGN)
        }
    }

    /// Whether `self` comes strictly before `other` in the total order.
    pub fn is_before(self, other: Double) -> (r: bool)
        ensures
            r == (self.total_rank() < other.total_rank()),
    {
        if self.bits < SIGN {
            other.bits < SIGN && self.bits < other.bits
        } else {
            other.bits < SIGN || self.bits > other.bits
        }
    }
}

/// Two encodings at the same place of the total order are the same encoding.
pub proof fn law_total_rank_identifies(a: Double, b: Double)
    requires
        a.total_rank() == b.total_rank(),
    ensures
        a == b,
{
    assert(a.bits == b.bits);
}

/// On numbers other than NaN, coming before in the real order implies coming
/// before in the total order.
pub proof fn law_total_order_refines_real_order(a: Double, b: Double)
    requires
        a.below(b),
    ensures
        a.total_rank() < b.total_rank(),
{
}

/// The ceiling of a number with a fraction part is the least natural number
/// that is not less: a number of at least one is its significand over a power
/// of two.
pub proof fn law_ceiling(d: Double)
    requires
        !d.nan(),
        d.bits < SIGN,
        1023 <= d.exponent() <= 1075,
    ensures
        d.ceiling() * vstd::arithmetic::power2::pow2((1075 - d.exponent()) as nat) >= d.significand(),
        (d.ceiling() - 1) * vstd::arithmetic::power2::pow2((1075 - d.exponent()) as nat) < d.significand(),
{
    let n = (1075 - d.exponent()) as nat;
    let u = vstd::arithmetic::power2::pow2(n) as int;
    let m = d.significand();
    let c = d.ceiling();
    vstd::arithmetic::power2::lemma_pow2_pos(n);
    assert(d.bits > 0);
    vstd::arithmetic::div_mod::lemma_fundamental_div_mod(m + u - 1, u);
    assert(c * u == u * c) by (nonlinear_arith);
    assert((c - 1) * u == c * u - u) by (nonlinear_arith);
}

} // verus!
