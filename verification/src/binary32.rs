//! IEEE 754 binary32 numbers, modelled on integers.
//!
//! A `Binary32` is the 32-bit pattern of a single-precision number. Every
//! finite binary32 value is a whole multiple of 2^-149, so the model counts
//! values in that unit: `mag_units` maps a magnitude pattern to an integer, and
//! rounding is stated as a choice among those integers.

use vstd::prelude::*;
use vstd::arithmetic::power2::*;

verus! {

/// The magnitude pattern of infinity; larger magnitudes are NaN.
pub open spec fn infinity_pattern() -> int {
    0x7f80_0000
}

/// The significand of the magnitude pattern `p`, hidden bit included.
pub open spec fn significand(p: int) -> int {
    if p / 0x80_0000 == 0 {
        p
    } else {
        0x80_0000 + p % 0x80_0000
    }
}

/// The binary exponent, in units of 2^-149, of the last place of the
/// magnitude pattern `p`.
pub open spec fn grid_exponent(p: int) -> nat {
    if p / 0x80_0000 <= 1 {
        0
    } else {
        (p / 0x80_0000 - 1) as nat
    }
}

/// The value of the magnitude pattern `p`, counted in units of 2^-149.
/// The pattern of infinity stands for 2^128 here, the first value out of range.
pub open spec fn mag_units(p: int) -> int {
    significand(p) * pow2(grid_exponent(p))
}

/// Whether the magnitude pattern `p` is the one that `num / den`, a
/// non-negative quantity in units of 2^-149, rounds to: the nearest pattern,
/// the even one of two that are equally near, infinity from the midpoint
/// between the largest finite value and 2^128 on.
pub open spec fn nearest_even(num: int, den: int, p: int) -> bool {
    &&& 0 <= p <= infinity_pattern()
    &&& p > 0 ==> {
        let twice_mid = mag_units(p - 1) + mag_units(p);
        if p % 2 == 0 {
            twice_mid * den <= 2 * num
        } else {
            twice_mid * den < 2 * num
        }
    }
    &&& p < infinity_pattern() ==> {
        let twice_mid = mag_units(p) + mag_units(p + 1);
        if p % 2 == 0 {
            2 * num <= twice_mid * den
        } else {
            2 * num < twice_mid * den
        }
    }
}

/// The magnitude pattern that `num / den` rounds to.
pub open spec fn round_mag(num: int, den: int) -> int {
    choose|p: int| nearest_even(num, den, p)
}

/// Each magnitude pattern lies one step of its own grid below the next.
pub proof fn lemma_units_step(p: int)
    requires
        0 <= p < infinity_pattern(),
    ensures
        mag_units(p + 1) == mag_units(p) + pow2(grid_exponent(p)),
        pow2(grid_exponent(p)) > 0,
{
    let e = p / 0x80_0000;
    let m = p % 0x80_0000;
    let g = pow2(grid_exponent(p));
    lemma_pow2_pos(grid_exponent(p));
    if m + 1 < 0x80_0000 {
        assert((p + 1) / 0x80_0000 == e);
        assert((p + 1) % 0x80_0000 == m + 1);
        assert(significand(p + 1) == significand(p) + 1);
        assert((significand(p) + 1) * g == significand(p) * g + g) by (nonlinear_arith);
    } else {
        assert((p + 1) / 0x80_0000 == e + 1);
        assert((p + 1) % 0x80_0000 == 0);
        if e == 0 {
            assert(grid_exponent(p + 1) == 0);
            assert(significand(p + 1) == significand(p) + 1);
            assert((significand(p) + 1) * g == significand(p) * g + g) by (nonlinear_arith);
        } else {
            lemma_pow2_unfold(e as nat);
            assert(grid_exponent(p + 1) == e);
            assert(grid_exponent(p) == e - 1);
            assert(significand(p) == 0xff_ffff);
            assert(significand(p + 1) == 0x80_0000);
            assert(0x80_0000 * (2 * g) == 0xff_ffff * g + g) by (nonlinear_arith);
        }
    }
}

/// Larger magnitude patterns have larger values.
pub proof fn lemma_units_increasing(p: int, q: int)
    requires
        0 <= p < q <= infinity_pattern(),
    ensures
        mag_units(p) < mag_units(q),
    decreases q - p,
{
    lemma_units_step(q - 1);
    if p < q - 1 {
        lemma_units_increasing(p, q - 1);
    }
}

/// No magnitude pattern has a negative value.
pub proof fn lemma_units_nonnegative(p: int)
    requires
        0 <= p <= infinity_pattern(),
    ensures
        mag_units(p) >= 0,
        mag_units(p) == 0 <==> p == 0,
{
    assert(mag_units(0) == 0) by {
        assert(significand(0) == 0);
        assert(0 * pow2(grid_exponent(0)) == 0);
    }
    if p > 0 {
        lemma_units_increasing(0, p);
    }
}

/// Rounding is a function: at most one pattern is the nearest.
pub proof fn lemma_nearest_even_unique(num: int, den: int, p: int, q: int)
    requires
        den > 0,
        nearest_even(num, den, p),
        nearest_even(num, den, q),
    ensures
        p == q,
{
    if p < q {
        lemma_nearest_even_not_below(num, den, p, q);
    } else if q < p {
        lemma_nearest_even_not_below(num, den, q, p);
    }
}

proof fn lemma_nearest_even_not_below(num: int, den: int, p: int, q: int)
    requires
        den > 0,
        nearest_even(num, den, p),
        nearest_even(num, den, q),
        p <= q,
    ensures
        p == q,
{
    if p == q {
        return ;
    }
    let above_p = mag_units(p) + mag_units(p + 1);
    let below_q = mag_units(q - 1) + mag_units(q);
    assert(2 * num <= above_p * den);
    assert(below_q * den <= 2 * num);
    if q == p + 1 {
        assert(above_p == below_q);
        if p % 2 == 0 {
            assert(q % 2 == 1);
            assert(below_q * den < 2 * num);
        } else {
            assert(2 * num < above_p * den);
        }
    } else {
        lemma_units_increasing(p, q - 1);
        lemma_units_increasing(p + 1, q);
        assert(above_p * den < below_q * den) by (nonlinear_arith)
            requires
                above_p < below_q,
                den > 0,
        ;
    }
}

/// What rounds to `p` is what `round_mag` names.
pub proof fn lemma_round_mag_is(num: int, den: int, p: int)
    requires
        den > 0,
        nearest_even(num, den, p),
    ensures
        round_mag(num, den) == p,
{
    lemma_nearest_even_unique(num, den, p, round_mag(num, den));
}

/// A value that a pattern holds exactly rounds to that pattern.
pub proof fn lemma_exact_rounds_to_itself(p: int, den: int)
    requires
        0 <= p <= infinity_pattern(),
        den > 0,
    ensures
        nearest_even(mag_units(p) * den, den, p),
        round_mag(mag_units(p) * den, den) == p,
{
    let u = mag_units(p);
    if p > 0 {
        lemma_units_increasing(p - 1, p);
        let below = mag_units(p - 1) + u;
        assert(below * den < 2 * (u * den)) by (nonlinear_arith)
            requires
                below < 2 * u,
                den > 0,
        ;
    }
    if p < infinity_pattern() {
        lemma_units_increasing(p, p + 1);
        let above = u + mag_units(p + 1);
        assert(2 * (u * den) < above * den) by (nonlinear_arith)
            requires
                2 * u < above,
                den > 0,
        ;
    }
    lemma_round_mag_is(u * den, den, p);
}

/// A binary32 number, held as its bit pattern: one sign bit, eight exponent
/// bits, twenty-three fraction bits.
#[derive(Clone, Copy, Debug)]
pub struct Binary32 {
    pub bits: u32,
}

impl Binary32 {
    /// The pattern without its sign bit.
    pub open spec fn magnitude(self) -> int {
        self.bits as int % 0x8000_0000
    }

    /// Whether the sign bit is set.
    pub open spec fn is_negative(self) -> bool {
        self.bits >= 0x8000_0000
    }

    pub open spec fn is_nan(self) -> bool {
        self.magnitude() > infinity_pattern()
    }

    pub open spec fn is_infinite(self) -> bool {
        self.magnitude() == infinity_pattern()
    }

    pub open spec fn is_finite(self) -> bool {
        self.magnitude() < infinity_pattern()
    }

    pub open spec fn is_zero(self) -> bool {
        self.magnitude() == 0
    }

    /// The value in units of 2^-149, for a finite number.
    pub open spec fn units(self) -> int {
        if self.is_negative() {
            -mag_units(self.magnitude())
        } else {
            mag_units(self.magnitude())
        }
    }

    /// The magnitude pattern with the sign before it: a whole number that
    /// grows with the value.
    pub open spec fn rank(self) -> int {
        if self.is_negative() {
            -self.magnitude()
        } else {
            self.magnitude()
        }
    }

    /// The number with the given sign and magnitude pattern.
    pub open spec fn compose(negative: bool, magnitude: int) -> Binary32 {
        Binary32 { bits: (if negative { magnitude + 0x8000_0000 } else { magnitude }) as u32 }
    }

    /// The NaN that arithmetic produces.
    pub open spec fn nan() -> Binary32 {
        Binary32 { bits: 0x7fc0_0000 }
    }

    /// The same number with the opposite sign; NaN stays the NaN of arithmetic.
    pub open spec fn negated(self) -> Binary32 {
        if self.is_nan() {
            Self::nan()
        } else {
            Self::compose(!self.is_negative(), self.magnitude())
        }
    }

    /// The sum, rounded once. Opposite infinities give NaN; an exact zero
    /// is negative only when both terms are.
    pub open spec fn sum(self, other: Binary32) -> Binary32 {
        if self.is_nan() || other.is_nan() {
            Self::nan()
        } else if self.is_infinite() {
            if other.is_infinite() && self.is_negative() != other.is_negative() {
                Self::nan()
            } else {
                self
            }
        } else if other.is_infinite() {
            other
        } else {
            let exact = self.units() + other.units();
            if exact == 0 {
                Self::compose(self.is_negative() && other.is_negative(), 0)
            } else if exact > 0 {
                Self::compose(false, round_mag(exact, 1))
            } else {
                Self::compose(true, round_mag(-exact, 1))
            }
        }
    }

    /// The difference: the sum with the subtrahend negated.
    pub open spec fn difference(self, other: Binary32) -> Binary32 {
        self.sum(other.negated())
    }

    /// The product, rounded once. Zero times infinity is NaN; the sign is
    /// negative when exactly one factor's is.
    pub open spec fn product(self, other: Binary32) -> Binary32 {
        let negative = self.is_negative() != other.is_negative();
        if self.is_nan() || other.is_nan() {
            Self::nan()
        } else if self.is_infinite() || other.is_infinite() {
            if self.is_zero() || other.is_zero() {
                Self::nan()
            } else {
                Self::compose(negative, infinity_pattern())
            }
        } else {
            Self::compose(
                negative,
                round_mag(mag_units(self.magnitude()) * mag_units(other.magnitude()), pow2(149) as int),
            )
        }
    }

    /// The quotient, rounded once. Zero by zero and infinity by infinity are
    /// NaN; any other number by zero is infinite.
    pub open spec fn quotient(self, other: Binary32) -> Binary32 {
        let negative = self.is_negative() != other.is_negative();
        if self.is_nan() || other.is_nan() {
            Self::nan()
        } else if self.is_infinite() {
            if other.is_infinite() {
                Self::nan()
            } else {
                Self::compose(negative, infinity_pattern())
            }
        } else if other.is_infinite() {
            Self::compose(negative, 0)
        } else if other.is_zero() {
            if self.is_zero() {
                Self::nan()
            } else {
                Self::compose(negative, infinity_pattern())
            }
        } else {
            Self::compose(
                negative,
                round_mag(mag_units(self.magnitude()) * pow2(149), mag_units(other.magnitude())),
            )
        }
    }

    /// The whole number `n`, rounded to the nearest binary32.
    pub open spec fn of_int(n: int) -> Binary32 {
        Self::compose(false, round_mag(n * pow2(149), 1))
    }

    /// The number with the bit pattern `bits`.
    pub fn from_bits(bits: u32) -> (r: Binary32)
        ensures
            r.bits == bits,
    {
        Binary32 { bits }
    }

    /// The bit pattern.
    pub fn to_bits(self) -> (r: u32)
        ensures
            r == self.bits,
    {
        self.bits
    }

    /// The magnitude pattern, as a machine word.
    pub fn magnitude_bits(self) -> (r: u32)
        ensures
            r == self.magnitude(),
    {
        self.bits % 0x8000_0000
    }

    /// Whether the sign bit is set.
    pub fn sign_bit(self) -> (r: bool)
        ensures
            r == self.is_negative(),
    {
        self.bits >= 0x8000_0000
    }

    /// The magnitude pattern with the sign before it.
    pub fn rank_of(self) -> (r: i64)
        ensures
            r == self.rank(),
    {
        let p = self.magnitude_bits() as i64;
        if self.sign_bit() {
            -p
        } else {
            p
        }
    }

    /// Puts a sign and a magnitude pattern together.
    pub fn with_sign(negative: bool, magnitude: u32) -> (r: Binary32)
        requires
            magnitude < 0x8000_0000,
        ensures
            r == Self::compose(negative, magnitude as int),
            r.magnitude() == magnitude,
            r.is_negative() == negative,
    {
        if negative {
            Binary32 { bits: magnitude + 0x8000_0000 }
        } else {
            Binary32 { bits: magnitude }
        }
    }
}

} // verus!
