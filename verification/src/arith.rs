//! Binary32 arithmetic, correctly rounded.
//!
//! Each operation forms its exact result as a ratio of wide integers and
//! rounds it once, to the nearest value, ties to even.

use vstd::prelude::*;
use vstd::arithmetic::power2::*;
use crate::binary32::{
    Binary32, grid_exponent, lemma_round_mag_is, lemma_units_increasing,
    lemma_units_nonnegative, lemma_units_step, mag_units, nearest_even, round_mag, significand,
};
use crate::wide::Wide;

verus! {

/// The significand of a magnitude pattern.
pub(crate) fn significand_bits(p: u32) -> (r: u32)
    requires
        p <= 0x7f80_0000,
    ensures
        r == significand(p as int),
        r < 0x100_0000,
        p > 0 ==> r > 0,
{
    if p / 0x80_0000 == 0 {
        p
    } else {
        0x80_0000 + p % 0x80_0000
    }
}

/// The grid exponent of a magnitude pattern.
pub(crate) fn grid_exponent_bits(p: u32) -> (r: u32)
    requires
        p <= 0x7f80_0000,
    ensures
        r == grid_exponent(p as int),
        r <= 254,
{
    if p / 0x80_0000 <= 1 {
        0
    } else {
        p / 0x80_0000 - 1
    }
}

/// `sig * 2^exp * den`.
fn scaled(sig: u32, exp: u32, den: &Wide) -> (r: Wide)
    ensures
        r@ == (sig * pow2(exp as nat)) * den@,
{
    let r = den.mul_small(sig).shl(exp);
    proof {
        let d = den@;
        let g = pow2(exp as nat);
        assert((d * sig) * g == (sig * g) * d) by (nonlinear_arith);
    }
    r
}

/// Rounds the ratio `num / den`, in units of 2^-149, to a magnitude pattern.
pub(crate) fn round_ratio(num: &Wide, den: &Wide) -> (p: u32)
    requires
        den@ > 0,
    ensures
        nearest_even(num@ as int, den@ as int, p as int),
        p == round_mag(num@ as int, den@ as int),
        p <= 0x7f80_0000,
{
    let mut lo: u32 = 0;
    let mut hi: u32 = 0x7f80_0001;
    proof {
        lemma_units_nonnegative(0);
        assert(mag_units(0) * den@ == 0);
    }
    while hi - lo > 1
        invariant
            lo < hi <= 0x7f80_0001,
            den@ > 0,
            mag_units(lo as int) * den@ <= num@,
            hi <= 0x7f80_0000 ==> num@ < mag_units(hi as int) * den@,
        decreases hi - lo,
    {
        let mid: u32 = lo + (hi - lo) / 2;
        let at_mid = scaled(significand_bits(mid), grid_exponent_bits(mid), den);
        if at_mid.le(num) {
            lo = mid;
        } else {
            hi = mid;
        }
    }
    let ghost n = num@ as int;
    let ghost d = den@ as int;
    let ghost below = mag_units(lo as int);
    if lo == 0x7f80_0000 {
        proof {
            lemma_units_increasing(lo - 1, lo as int);
            let prev = mag_units(lo - 1);
            assert((prev + below) * d < 2 * n) by (nonlinear_arith)
                requires
                    prev < below,
                    below * d <= n,
                    d > 0,
            ;
            lemma_round_mag_is(n, d, lo as int);
        }
        return lo;
    }
    let sig = significand_bits(lo);
    let exp = grid_exponent_bits(lo);
    let twice_mid = scaled(2 * sig + 1, exp, den);
    let twice_num = num.mul_small(2);
    let ghost above = mag_units(lo + 1);
    proof {
        lemma_units_step(lo as int);
        let g = pow2(exp as nat);
        assert((2 * sig + 1) * g == sig * g + (sig * g + g)) by (nonlinear_arith);
        assert(twice_mid@ == (below + above) * d);
        assert(n < above * d);
        if lo > 0 {
            lemma_units_increasing(lo - 1, lo as int);
            let prev = mag_units(lo - 1);
            assert((prev + below) * d < 2 * n) by (nonlinear_arith)
                requires
                    prev < below,
                    below * d <= n,
                    d > 0,
            ;
        }
        if lo + 1 < 0x7f80_0000 {
            lemma_units_increasing(lo + 1, lo + 2);
            let next = mag_units(lo + 2);
            assert(2 * n < (above + next) * d) by (nonlinear_arith)
                requires
                    above < next,
                    n < above * d,
                    d > 0,
            ;
        }
    }
    let down = if !twice_mid.le(&twice_num) {
        true
    } else if !twice_num.le(&twice_mid) {
        false
    } else {
        lo % 2 == 0
    };
    let p = if down { lo } else { lo + 1 };
    proof {
        lemma_round_mag_is(n, d, p as int);
    }
    p
}

impl Binary32 {
    /// Converts a whole number, rounding where it has more than 24 bits.
    pub fn from_u32(n: u32) -> (r: Binary32)
        ensures
            r == Binary32::of_int(n as int),
    {
        let num = Wide::from_u64(n as u64).shl(149);
        let one = Wide::from_u64(1);
        let p = round_ratio(&num, &one);
        Binary32::with_sign(false, p)
    }

    /// Adds two numbers.
    pub fn add(self, other: Binary32) -> (r: Binary32)
        ensures
            r == self.sum(other),
    {
        let pa = self.magnitude_bits();
        let pb = other.magnitude_bits();
        let na = self.sign_bit();
        let nb = other.sign_bit();
        if pa > 0x7f80_0000 || pb > 0x7f80_0000 {
            return Binary32::from_bits(0x7fc0_0000);
        }
        if pa == 0x7f80_0000 {
            if pb == 0x7f80_0000 && na != nb {
                return Binary32::from_bits(0x7fc0_0000);
            }
            return self;
        }
        if pb == 0x7f80_0000 {
            return other;
        }
        let a_is_big = pa >= pb;
        let big: u32 = if a_is_big { pa } else { pb };
        let small: u32 = if a_is_big { pb } else { pa };
        let big_negative = if a_is_big { na } else { nb };
        let sig_big = significand_bits(big);
        let sig_small = significand_bits(small);
        let exp_big = grid_exponent_bits(big);
        let exp_small = grid_exponent_bits(small);
        let gap: u32 = exp_big - exp_small;
        let lifted = Wide::from_u64(sig_big as u64).shl(gap);
        let ghost ub = mag_units(big as int);
        let ghost us = mag_units(small as int);
        proof {
            lemma_units_nonnegative(big as int);
            lemma_units_nonnegative(small as int);
            if small < big {
                lemma_units_increasing(small as int, big as int);
            }
            lemma_pow2_adds(gap as nat, exp_small as nat);
            lemma_pow2_pos(exp_small as nat);
            let g = pow2(gap as nat);
            let l = pow2(exp_small as nat);
            assert((sig_big * g) * l == sig_big * (g * l)) by (nonlinear_arith);
            assert(lifted@ * l == ub);
            if lifted@ < sig_small {
                assert(lifted@ * l < sig_small * l) by (nonlinear_arith)
                    requires
                        lifted@ < sig_small,
                        l > 0,
                ;
            }
            assert(lifted@ >= sig_small);
        }
        let same_sign = na == nb;
        let merged = if same_sign {
            lifted.add_small(sig_small)
        } else {
            lifted.sub_small(sig_small)
        };
        let num = merged.shl(exp_small);
        let ghost exact = self.units() + other.units();
        proof {
            let l = pow2(exp_small as nat);
            if same_sign {
                assert((lifted@ + sig_small) * l == lifted@ * l + sig_small * l)
                    by (nonlinear_arith);
                assert(num@ == ub + us);
            } else {
                assert((lifted@ - sig_small) * l == lifted@ * l - sig_small * l)
                    by (nonlinear_arith);
                assert(num@ == ub - us);
            }
            assert(num@ == if exact < 0 { -exact } else { exact });
            assert(exact != 0 ==> (exact < 0 <==> big_negative));
        }
        if num.is_zero() {
            return Binary32::with_sign(na && nb, 0);
        }
        let one = Wide::from_u64(1);
        let p = round_ratio(&num, &one);
        Binary32::with_sign(big_negative, p)
    }

    /// Negates a number.
    pub fn neg(self) -> (r: Binary32)
        ensures
            r == self.negated(),
    {
        let p = self.magnitude_bits();
        if p > 0x7f80_0000 {
            Binary32::from_bits(0x7fc0_0000)
        } else {
            Binary32::with_sign(!self.sign_bit(), p)
        }
    }

    /// Subtracts `other` from `self`.
    pub fn sub(self, other: Binary32) -> (r: Binary32)
        ensures
            r == self.difference(other),
    {
        self.add(other.neg())
    }

    /// Multiplies two numbers.
    pub fn mul(self, other: Binary32) -> (r: Binary32)
        ensures
            r == self.product(other),
    {
        let pa = self.magnitude_bits();
        let pb = other.magnitude_bits();
        let negative = self.sign_bit() != other.sign_bit();
        if pa > 0x7f80_0000 || pb > 0x7f80_0000 {
            return Binary32::from_bits(0x7fc0_0000);
        }
        if pa == 0x7f80_0000 || pb == 0x7f80_0000 {
            if pa == 0 || pb == 0 {
                return Binary32::from_bits(0x7fc0_0000);
            }
            return Binary32::with_sign(negative, 0x7f80_0000);
        }
        let sig_a = significand_bits(pa);
        let sig_b = significand_bits(pb);
        let exp_a = grid_exponent_bits(pa);
        let exp_b = grid_exponent_bits(pb);
        assert(sig_a as u64 * sig_b as u64 <= 0xffff_ffff_ffff) by (nonlinear_arith)
            requires
                sig_a < 0x100_0000,
                sig_b < 0x100_0000,
        ;
        let num = Wide::from_u64(sig_a as u64 * sig_b as u64).shl(exp_a + exp_b);
        let den = Wide::from_u64(1).shl(149);
        proof {
            lemma_pow2_adds(exp_a as nat, exp_b as nat);
            lemma_pow2_pos(149);
            let ga = pow2(exp_a as nat);
            let gb = pow2(exp_b as nat);
            assert((sig_a * sig_b) * (ga * gb) == (sig_a * ga) * (sig_b * gb))
                by (nonlinear_arith);
        }
        let p = round_ratio(&num, &den);
        Binary32::with_sign(negative, p)
    }

    /// Divides `self` by `other`.
    pub fn div(self, other: Binary32) -> (r: Binary32)
        ensures
            r == self.quotient(other),
    {
        let pa = self.magnitude_bits();
        let pb = other.magnitude_bits();
        let negative = self.sign_bit() != other.sign_bit();
        if pa > 0x7f80_0000 || pb > 0x7f80_0000 {
            return Binary32::from_bits(0x7fc0_0000);
        }
        if pa == 0x7f80_0000 {
            if pb == 0x7f80_0000 {
                return Binary32::from_bits(0x7fc0_0000);
            }
            return Binary32::with_sign(negative, 0x7f80_0000);
        }
        if pb == 0x7f80_0000 {
            return Binary32::with_sign(negative, 0);
        }
        if pb == 0 {
            if pa == 0 {
                return Binary32::from_bits(0x7fc0_0000);
            }
            return Binary32::with_sign(negative, 0x7f80_0000);
        }
        let sig_a = significand_bits(pa);
        let sig_b = significand_bits(pb);
        let exp_a = grid_exponent_bits(pa);
        let exp_b = grid_exponent_bits(pb);
        let num = Wide::from_u64(sig_a as u64).shl(exp_a + 149);
        let den = Wide::from_u64(sig_b as u64).shl(exp_b);
        proof {
            lemma_pow2_adds(exp_a as nat, 149);
            lemma_pow2_pos(exp_b as nat);
            let ga = pow2(exp_a as nat);
            let gb = pow2(exp_b as nat);
            let h = pow2(149);
            assert(sig_a * (ga * h) == (sig_a * ga) * h) by (nonlinear_arith);
            assert(sig_b * gb > 0) by (nonlinear_arith)
                requires
                    sig_b > 0,
                    gb > 0,
            ;
        }
        let p = round_ratio(&num, &den);
        Binary32::with_sign(negative, p)
    }
}

} // verus!
