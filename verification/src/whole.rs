//! Whole numbers in binary32.
//!
//! Every whole number up to 2^24 is a binary32 value, and sums and products
//! of such numbers are exact as long as they stay in that range.

use vstd::prelude::*;
use vstd::arithmetic::power2::*;
use crate::binary32::{
    Binary32, grid_exponent, infinity_pattern, lemma_exact_rounds_to_itself, lemma_round_mag_is,
    lemma_units_increasing, lemma_units_nonnegative, mag_units, nearest_even,
    round_mag, significand,
};

verus! {

/// The largest whole number below which every whole number is a binary32
/// value: 2^24.
pub open spec fn exact_limit() -> int {
    0x100_0000
}

/// The magnitude pattern with the full significand `m` and the grid
/// exponent `e`.
pub open spec fn normal_pattern(m: int, e: int) -> int {
    (e + 1) * 0x80_0000 + (m - 0x80_0000)
}

/// A full significand and a grid exponent in range make a finite pattern
/// of just that value.
pub proof fn lemma_normal_pattern(m: int, e: int)
    requires
        0x80_0000 <= m < 0x100_0000,
        0 <= e <= 253,
    ensures
        0 < normal_pattern(m, e) < infinity_pattern(),
        significand(normal_pattern(m, e)) == m,
        grid_exponent(normal_pattern(m, e)) == e,
        mag_units(normal_pattern(m, e)) == m * pow2(e as nat),
{
    let p = normal_pattern(m, e);
    assert(p / 0x80_0000 == e + 1 && p % 0x80_0000 == m - 0x80_0000) by {
        vstd::arithmetic::div_mod::lemma_fundamental_div_mod_converse(
            p,
            0x80_0000,
            e + 1,
            m - 0x80_0000,
        );
    }
}

/// A power of two that lifts `n` to a full significand.
proof fn lemma_normalize(n: int) -> (s: nat)
    requires
        1 <= n < 0x100_0000,
    ensures
        s <= 23,
        0x80_0000 <= n * pow2(s) < 0x100_0000,
    decreases 0x100_0000 - n,
{
    lemma2_to64();
    if n >= 0x80_0000 {
        assert(n * pow2(0) == n);
        0
    } else {
        let t = lemma_normalize(2 * n);
        lemma_pow2_unfold(t + 1);
        assert(n * (2 * pow2(t)) == (2 * n) * pow2(t)) by (nonlinear_arith);
        if t + 1 > 23 {
            if t + 1 > 24 {
                lemma_pow2_strictly_increases(24, t + 1);
            }
            assert(n * pow2(t + 1) >= pow2(t + 1)) by (nonlinear_arith)
                requires
                    n >= 1,
                    pow2(t + 1) >= 0,
            ;
        }
        t + 1
    }
}

/// Every whole number up to 2^24 is the value of a magnitude pattern, and
/// converting it gives that pattern.
pub proof fn lemma_whole_is_representable(n: int) -> (p: int)
    requires
        0 <= n <= exact_limit(),
    ensures
        0 <= p < infinity_pattern(),
        mag_units(p) == n * pow2(149),
        Binary32::of_int(n) == Binary32::compose(false, p),
        n == 0 <==> p == 0,
{
    let p = if n == 0 {
        lemma_units_nonnegative(0);
        assert(0 * pow2(149) == 0);
        0
    } else if n == 0x100_0000 {
        lemma_normal_pattern(0x80_0000, 150);
        lemma_pow2_unfold(150);
        assert(0x80_0000 * (2 * pow2(149)) == 0x100_0000 * pow2(149)) by (nonlinear_arith);
        normal_pattern(0x80_0000, 150)
    } else {
        let s = lemma_normalize(n);
        let m = n * pow2(s);
        let e = (149 - s) as nat;
        lemma_normal_pattern(m, e as int);
        lemma_pow2_adds(s, e);
        assert((n * pow2(s)) * pow2(e) == n * (pow2(s) * pow2(e))) by (nonlinear_arith);
        normal_pattern(m, e as int)
    };
    lemma_exact_rounds_to_itself(p, 1);
    assert(mag_units(p) * 1 == n * pow2(149));
    p
}

/// Every ratio that is not negative rounds to some magnitude pattern.
pub proof fn lemma_rounding_exists(num: int, den: int) -> (p: int)
    requires
        num >= 0,
        den > 0,
    ensures
        nearest_even(num, den, p),
        round_mag(num, den) == p,
{
    lemma_units_nonnegative(0);
    assert(mag_units(0) * den == 0);
    let lo = lemma_pattern_below(num, den, infinity_pattern());
    let below = mag_units(lo);
    if lo > 0 {
        lemma_units_increasing(lo - 1, lo);
        let prev = mag_units(lo - 1);
        assert((prev + below) * den < 2 * num) by (nonlinear_arith)
            requires
                prev < below,
                below * den <= num,
                den > 0,
        ;
    }
    let p = if lo == infinity_pattern() {
        lo
    } else {
        let above = mag_units(lo + 1);
        lemma_units_increasing(lo, lo + 1);
        if lo + 1 < infinity_pattern() {
            lemma_units_increasing(lo + 1, lo + 2);
            let next = mag_units(lo + 2);
            assert(2 * num < (above + next) * den) by (nonlinear_arith)
                requires
                    above < next,
                    num < above * den,
                    den > 0,
            ;
        }
        let twice_mid = (below + above) * den;
        if 2 * num < twice_mid || (2 * num == twice_mid && lo % 2 == 0) {
            lo
        } else {
            lo + 1
        }
    };
    lemma_round_mag_is(num, den, p);
    p
}

/// The largest pattern up to `top` whose value is at most `num / den`.
proof fn lemma_pattern_below(num: int, den: int, top: int) -> (p: int)
    requires
        num >= 0,
        den > 0,
        0 <= top <= infinity_pattern(),
        top < infinity_pattern() ==> num < mag_units(top + 1) * den,
    ensures
        0 <= p <= top,
        mag_units(p) * den <= num,
        p < infinity_pattern() ==> num < mag_units(p + 1) * den,
    decreases top,
{
    if mag_units(top) * den <= num {
        top
    } else {
        if top == 0 {
            lemma_units_nonnegative(0);
            assert(mag_units(0) * den == 0);
        }
        lemma_pattern_below(num, den, top - 1)
    }
}

/// Rounding looks at the ratio alone: a common factor changes nothing.
pub proof fn lemma_rounding_ignores_scale(num: int, den: int, c: int)
    requires
        num >= 0,
        den > 0,
        c > 0,
    ensures
        round_mag(num * c, den * c) == round_mag(num, den),
{
    let p = lemma_rounding_exists(num, den);
    assert(den * c > 0) by (nonlinear_arith)
        requires
            den > 0,
            c > 0,
    ;
    if p > 0 {
        let mid = mag_units(p - 1) + mag_units(p);
        assert(mid * den <= 2 * num ==> mid * (den * c) <= 2 * (num * c)) by (nonlinear_arith)
            requires
                c > 0,
        ;
        assert(mid * den < 2 * num ==> mid * (den * c) < 2 * (num * c)) by (nonlinear_arith)
            requires
                c > 0,
        ;
    }
    if p < infinity_pattern() {
        let mid = mag_units(p) + mag_units(p + 1);
        assert(2 * num <= mid * den ==> 2 * (num * c) <= mid * (den * c)) by (nonlinear_arith)
            requires
                c > 0,
        ;
        assert(2 * num < mid * den ==> 2 * (num * c) < mid * (den * c)) by (nonlinear_arith)
            requires
                c > 0,
        ;
    }
    lemma_round_mag_is(num * c, den * c, p);
}

/// The sum of two whole numbers up to 2^24 is their sum as whole numbers,
/// rounded once.
pub proof fn lemma_whole_sum(m: int, n: int)
    requires
        0 <= m <= exact_limit(),
        0 <= n <= exact_limit(),
    ensures
        Binary32::of_int(m).sum(Binary32::of_int(n)) == Binary32::of_int(m + n),
{
    let pm = lemma_whole_is_representable(m);
    let pn = lemma_whole_is_representable(n);
    let a = Binary32::of_int(m);
    let b = Binary32::of_int(n);
    assert(a.magnitude() == pm && !a.is_negative());
    assert(b.magnitude() == pn && !b.is_negative());
    assert(m * pow2(149) + n * pow2(149) == (m + n) * pow2(149)) by (nonlinear_arith);
    lemma_pow2_pos(149);
    if m + n == 0 {
        let z = lemma_whole_is_representable(0);
        assert((m + n) * pow2(149) == 0);
    } else {
        assert((m + n) * pow2(149) > 0) by (nonlinear_arith)
            requires
                m + n > 0,
                pow2(149) > 0,
        ;
    }
}

/// The product of two whole numbers up to 2^24 is their product as whole
/// numbers, rounded once.
pub proof fn lemma_whole_product(m: int, n: int)
    requires
        0 <= m <= exact_limit(),
        0 <= n <= exact_limit(),
    ensures
        Binary32::of_int(m).product(Binary32::of_int(n)) == Binary32::of_int(m * n),
{
    let pm = lemma_whole_is_representable(m);
    let pn = lemma_whole_is_representable(n);
    let a = Binary32::of_int(m);
    let b = Binary32::of_int(n);
    assert(a.magnitude() == pm && !a.is_negative());
    assert(b.magnitude() == pn && !b.is_negative());
    let h = pow2(149) as int;
    lemma_pow2_pos(149);
    assert(m * n >= 0) by (nonlinear_arith)
        requires
            m >= 0,
            n >= 0,
    ;
    assert((m * n) * h >= 0) by (nonlinear_arith)
        requires
            m * n >= 0,
            h > 0,
    ;
    assert((m * h) * (n * h) == ((m * n) * h) * h) by (nonlinear_arith);
    assert(1 * h == h);
    lemma_rounding_ignores_scale((m * n) * h, 1, h);
}

} // verus!
