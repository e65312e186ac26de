//! The order of IEEE 754 numbers, read off their bit patterns.
//!
//! Arithmetic on such numbers is done elsewhere; the rules that only compare them are here.
//! A pattern is a sign, an exponent field and a fraction field, in this order from the
//! top. Without the sign, patterns of numbers stand in the order of their values, infinity
//! is above all of them, and what is above infinity is not a number.
use vstd::arithmetic::power2::{lemma_pow2_pos, lemma_pow2_strictly_increases, pow2};
use vstd::bits::{lemma_u32_shr_is_div, lemma_u64_shl_is_mul};
use vstd::prelude::*;

verus! {

pub const DOUBLE_SIGN: u64 = 0x8000_0000_0000_0000;

pub const DOUBLE_INFINITY: u64 = 0x7ff0_0000_0000_0000;

pub const DOUBLE_ZERO: u64 = 0;

pub const DOUBLE_ONE: u64 = 0x3ff0_0000_0000_0000;

pub const DOUBLE_MINUS_ONE: u64 = 0xbff0_0000_0000_0000;

pub const DOUBLE_HALF: u64 = 0x3fe0_0000_0000_0000;

pub const SINGLE_SIGN: u32 = 0x8000_0000;

pub const SINGLE_INFINITY: u32 = 0x7f80_0000;

/// The hidden bit of a binary32 significand.
pub const SINGLE_HIDDEN: u32 = 0x80_0000;

/// A binary64 number by its bit pattern.
#[derive(Clone, Copy, Debug, PartialEq, Eq, Structural)]
pub struct Double {
    pub bits: u64,
}

impl Double {
    pub open spec fn magnitude(self) -> int {
        if self.bits >= DOUBLE_SIGN {
            self.bits - DOUBLE_SIGN
        } else {
            self.bits as int
        }
    }

    pub open spec fn nan(self) -> bool {
        self.magnitude() > DOUBLE_INFINITY
    }

    pub open spec fn finite(self) -> bool {
        self.magnitude() < DOUBLE_INFINITY
    }

    /// Where the number stands in the order of numbers; both zeros stand at 0.
    pub open spec fn rank(self) -> int {
        if self.bits >= DOUBLE_SIGN {
            -self.magnitude()
        } else {
            self.magnitude()
        }
    }

    /// Less than, which holds of nothing that is not a number.
    pub open spec fn less(self, other: Double) -> bool {
        !self.nan() && !other.nan() && self.rank() < other.rank()
    }

    /// The larger one; the other one where one is not a number.
    pub open spec fn larger(self, other: Double) -> Double {
        if self.nan() || self.less(other) {
            other
        } else {
            self
        }
    }

    /// The number held between 0 and 1.
    pub open spec fn in_unit(self) -> Double {
        if self.less(Double { bits: DOUBLE_ZERO }) {
            Double { bits: DOUBLE_ZERO }
        } else if (Double { bits: DOUBLE_ONE }).less(self) {
            Double { bits: DOUBLE_ONE }
        } else {
            self
        }
    }

    /// Whether this is neither infinite nor not a number.
    pub fn is_finite(self) -> (r: bool)
        ensures
            r == self.finite(),
    {
        let magnitude: u64 = if self.bits >= DOUBLE_SIGN {
            self.bits - DOUBLE_SIGN
        } else {
            self.bits
        };
        magnitude < DOUBLE_INFINITY
    }

    /// Whether this is not a number.
    pub fn is_nan(self) -> (r: bool)
        ensures
            r == self.nan(),
    {
        let magnitude: u64 = if self.bits >= DOUBLE_SIGN {
            self.bits - DOUBLE_SIGN
        } else {
            self.bits
        };
        magnitude > DOUBLE_INFINITY
    }

    /// Less than.
    pub fn lt(self, other: Double) -> (r: bool)
        ensures
            r == self.less(other),
    {
        if self.is_nan() || other.is_nan() {
            return false;
        }
        if self.bits >= DOUBLE_SIGN {
            if other.bits >= DOUBLE_SIGN {
                self.bits > other.bits
            } else {
                self.bits > DOUBLE_SIGN || other.bits > 0
            }
        } else {
            other.bits < DOUBLE_SIGN && self.bits < other.bits
        }
    }

    /// The larger one.
    pub fn max(self, other: Double) -> (r: Double)
        ensures
            r == self.larger(other),
    {
        if self.is_nan() || self.lt(other) {
            other
        } else {
            self
        }
    }

    /// The number held between 0 and 1.
    pub fn clamp_unit(self) -> (r: Double)
        ensures
            r == self.in_unit(),
    {
        let zero = Double { bits: DOUBLE_ZERO };
        let one = Double { bits: DOUBLE_ONE };
        if self.lt(zero) {
            zero
        } else if one.lt(self) {
            one
        } else {
            self
        }
    }
}

/// A binary32 number by its bit pattern.
#[derive(Clone, Copy, Debug, PartialEq, Eq, Structural)]
pub struct Single {
    pub bits: u32,
}

impl Single {
    pub open spec fn magnitude(self) -> int {
        if self.bits >= SINGLE_SIGN {
            self.bits - SINGLE_SIGN
        } else {
            self.bits as int
        }
    }

    pub open spec fn nan(self) -> bool {
        self.magnitude() > SINGLE_INFINITY
    }

    /// Where the number stands in the order of numbers; both zeros stand at 0.
    pub open spec fn rank(self) -> int {
        if self.bits >= SINGLE_SIGN {
            -self.magnitude()
        } else {
            self.magnitude()
        }
    }

    /// Less than, which holds of nothing that is not a number.
    pub open spec fn less(self, other: Single) -> bool {
        !self.nan() && !other.nan() && self.rank() < other.rank()
    }

    /// At least, which holds of nothing that is not a number.
    pub open spec fn no_less(self, other: Single) -> bool {
        !self.nan() && !other.nan() && self.rank() >= other.rank()
    }

    /// The significand as an integer, the hidden bit with it.
    pub open spec fn significand(self) -> int {
        let fraction = self.magnitude() % SINGLE_HIDDEN as int;
        if self.magnitude() >= SINGLE_HIDDEN {
            fraction + SINGLE_HIDDEN
        } else {
            fraction
        }
    }

    /// The exponent field; a number without the hidden bit has the least exponent too.
    pub open spec fn exponent(self) -> int {
        let field = self.magnitude() / SINGLE_HIDDEN as int;
        if field == 0 {
            1
        } else {
            field
        }
    }

    /// The value is at least the integer `n`. A finite value is its significand times two
    /// to the power of its exponent field less 150.
    pub open spec fn reaches(self, n: nat) -> bool {
        if self.nan() || self.rank() < 0 {
            false
        } else if self.rank() == SINGLE_INFINITY {
            true
        } else if self.exponent() >= 150 {
            self.significand() * pow2((self.exponent() - 150) as nat) >= n
        } else {
            self.significand() >= n * pow2((150 - self.exponent()) as nat)
        }
    }

    /// Whether this is not a number.
    pub fn is_nan(self) -> (r: bool)
        ensures
            r == self.nan(),
    {
        let magnitude: u32 = if self.bits >= SINGLE_SIGN {
            self.bits - SINGLE_SIGN
        } else {
            self.bits
        };
        magnitude > SINGLE_INFINITY
    }

    /// Less than.
    pub fn lt(self, other: Single) -> (r: bool)
        ensures
            r == self.less(other),
    {
        if self.is_nan() || other.is_nan() {
            return false;
        }
        if self.bits >= SINGLE_SIGN {
            if other.bits >= SINGLE_SIGN {
                self.bits > other.bits
            } else {
                self.bits > SINGLE_SIGN || other.bits > 0
            }
        } else {
            other.bits < SINGLE_SIGN && self.bits < other.bits
        }
    }

    /// At least.
    pub fn ge(self, other: Single) -> (r: bool)
        ensures
            r == self.no_less(other),
    {
        !self.is_nan() && !other.is_nan() && !self.lt(other)
    }

    /// Whether the value is at least the integer `n`.
    pub fn at_least(self, n: u64) -> (r: bool)
        ensures
            r == self.reaches(n as nat),
    {
        if self.is_nan() || self.bits > SINGLE_SIGN {
            return false;
        }
        let magnitude: u32 = if self.bits == SINGLE_SIGN {
            0
        } else {
            self.bits
        };
        if magnitude == SINGLE_INFINITY {
            return true;
        }
        let field: u32 = magnitude / SINGLE_HIDDEN;
        let fraction: u32 = magnitude % SINGLE_HIDDEN;
        let significand: u32 = if field == 0 {
            fraction
        } else {
            fraction + SINGLE_HIDDEN
        };
        let exponent: u32 = if field == 0 {
            1
        } else {
            field
        };
        assert(significand == self.significand() && exponent == self.exponent());
        if exponent >= 150 {
            let up: u32 = exponent - 150;
            if up > 40 {
                proof {
                    lemma_far_up(significand as int, up as nat, n as int);
                }
                return true;
            }
            proof {
                lemma_near_up(significand as int, up as nat);
                lemma_u64_shl_is_mul(significand as u64, up as u64);
            }
            ((significand as u64) << (up as u64)) >= n
        } else {
            let down: u32 = 150 - exponent;
            if down >= 24 {
                proof {
                    lemma_far_down(significand as int, down as nat, n as int);
                }
                return n == 0;
            }
            proof {
                lemma_u32_shr_is_div(significand, down);
                lemma_near_down(significand as int, down as nat, n as int);
            }
            ((significand >> down) as u64) >= n
        }
    }

    /// What is at least an integer is at least every smaller one.
    pub proof fn law_reaches_below(self, a: nat, b: nat)
        requires
            self.reaches(a),
            b <= a,
        ensures
            self.reaches(b),
    {
        if self.exponent() < 150 {
            let scale = pow2((150 - self.exponent()) as nat);
            assert(b * scale <= a * scale) by (nonlinear_arith)
                requires
                    b <= a,
                    0 <= scale,
            ;
        }
    }
}

proof fn lemma_far_up(significand: int, up: nat, n: int)
    requires
        significand >= SINGLE_HIDDEN,
        up > 40,
        n <= u64::MAX,
    ensures
        significand * pow2(up) >= n,
{
    vstd::arithmetic::power2::lemma2_to64();
    vstd::arithmetic::power2::lemma2_to64_rest();
    if up > 41 {
        lemma_pow2_strictly_increases(41, up);
    }
    let scale = pow2(up);
    assert(scale >= 0x200_0000_0000);
    assert(significand * scale >= 0x80_0000 * 0x200_0000_0000) by (nonlinear_arith)
        requires
            significand >= 0x80_0000,
            scale >= 0x200_0000_0000,
    ;
}

proof fn lemma_near_up(significand: int, up: nat)
    requires
        0 <= significand < 0x100_0000,
        up <= 40,
    ensures
        significand * pow2(up) <= u64::MAX,
{
    vstd::arithmetic::power2::lemma2_to64();
    vstd::arithmetic::power2::lemma2_to64_rest();
    if up < 40 {
        lemma_pow2_strictly_increases(up, 40);
    }
    let scale = pow2(up) as int;
    assert(0 <= scale <= 0x100_0000_0000);
    assert(significand * scale <= 0xff_ffff * 0x100_0000_0000) by (nonlinear_arith)
        requires
            0 <= significand <= 0xff_ffff,
            0 <= scale <= 0x100_0000_0000,
    ;
}

proof fn lemma_far_down(significand: int, down: nat, n: int)
    requires
        0 <= significand < 0x100_0000,
        down >= 24,
        n >= 0,
    ensures
        (significand >= n * pow2(down)) == (n == 0),
{
    vstd::arithmetic::power2::lemma2_to64();
    if down > 24 {
        lemma_pow2_strictly_increases(24, down);
    }
    let scale = pow2(down) as int;
    if n > 0 {
        assert(n * scale >= 0x100_0000) by (nonlinear_arith)
            requires
                n >= 1,
                scale >= 0x100_0000,
        ;
    } else {
        assert(n * scale == 0) by (nonlinear_arith)
            requires
                n == 0,
        ;
    }
}

proof fn lemma_near_down(significand: int, down: nat, n: int)
    requires
        0 <= significand,
        n >= 0,
    ensures
        (significand / (pow2(down) as int) >= n) == (significand >= n * pow2(down)),
{
    lemma_pow2_pos(down);
    let scale = pow2(down) as int;
    let q = significand / scale;
    assert(q * scale <= significand < (q + 1) * scale) by (nonlinear_arith)
        requires
            q == significand / scale,
            scale > 0,
    ;
    if q >= n {
        assert(n * scale <= q * scale) by (nonlinear_arith)
            requires
                n <= q,
                scale > 0,
        ;
    } else {
        assert((q + 1) * scale <= n * scale) by (nonlinear_arith)
            requires
                q + 1 <= n,
                scale > 0,
        ;
    }
}

} // verus!
