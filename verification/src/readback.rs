//! The decimal that a number is written as reads back as that number, and
//! no shorter one does.

use vstd::prelude::*;
use vstd::arithmetic::power2::*;
use vstd::arithmetic::div_mod::*;
use crate::binary32::{
    Binary32, infinity_pattern, lemma_exact_rounds_to_itself, lemma_units_increasing,
    lemma_units_nonnegative, mag_units, };
use crate::display::{
    decimal, digits_at, floor_scaled, found_at, pow10, reads_back,
    shortest_scale_from,
};
use crate::whole::{exact_limit, lemma_whole_is_representable};

verus! {

/// Five to the power `j`.
pub open spec fn pow5(j: nat) -> nat
    decreases j,
{
    if j == 0 {
        1
    } else {
        5 * pow5((j - 1) as nat)
    }
}

/// Ten to a power is two to that power times five to that power.
pub proof fn lemma_pow10_splits(j: nat)
    ensures
        pow10(j) == pow2(j) * pow5(j),
        pow10(j) > 0,
    decreases j,
{
    lemma2_to64();
    if j > 0 {
        lemma_pow10_splits((j - 1) as nat);
        lemma_pow2_unfold(j);
        let a = pow2((j - 1) as nat);
        let b = pow5((j - 1) as nat);
        assert(10 * (a * b) == (2 * a) * (5 * b)) by (nonlinear_arith);
    }
}

/// A decimal at a scale that reads back as `p` brings one of the two
/// decimals nearest to the value of `p` to read back as well.
pub proof fn lemma_nearest_decimals_read_back(d: int, j: nat, p: int)
    requires
        0 < p < infinity_pattern(),
        reads_back(d, j, p),
    ensures
        found_at(p, j),
{
    let u = mag_units(p);
    let t = pow10(j) as int;
    let h = pow2(149) as int;
    let below = floor_scaled(p, j);
    lemma_pow2_pos(149);
    lemma_pow10_splits(j);
    lemma_units_increasing(p - 1, p);
    lemma_units_increasing(p, p + 1);
    lemma_fundamental_div_mod(u * t, h);
    lemma_mod_bound(u * t, h);
    assert(h * below == below * h) by (nonlinear_arith);
    assert(below * h <= u * t < (below + 1) * h) by (nonlinear_arith)
        requires
            u * t == below * h + (u * t) % h,
            0 <= (u * t) % h < h,
    ;
    let low = mag_units(p - 1) + u;
    let high = u + mag_units(p + 1);
    assert(low * t < 2 * (u * t)) by (nonlinear_arith)
        requires
            low < 2 * u,
            t > 0,
    ;
    assert(2 * (u * t) < high * t) by (nonlinear_arith)
        requires
            2 * u < high,
            t > 0,
    ;
    if d <= below {
        assert(d * h <= below * h) by (nonlinear_arith)
            requires
                d <= below,
                h > 0,
        ;
        assert(reads_back(below, j, p));
    } else {
        assert((below + 1) * h <= d * h) by (nonlinear_arith)
            requires
                below + 1 <= d,
                h > 0,
        ;
        assert(reads_back(below + 1, j, p));
    }
}

/// With 149 digits after the point the value of `p` itself is a decimal.
pub proof fn lemma_found_at_last(p: int)
    requires
        0 < p < infinity_pattern(),
    ensures
        found_at(p, 149),
{
    let u = mag_units(p);
    let t = pow10(149) as int;
    let h = pow2(149) as int;
    let f = pow5(149) as int;
    lemma_pow2_pos(149);
    lemma_pow10_splits(149);
    assert(u * t == (u * f) * h) by (nonlinear_arith)
        requires
            t == h * f,
    ;
    lemma_fundamental_div_mod_converse(u * t, h, u * f, 0);
    assert(floor_scaled(p, 149) == u * f);
    lemma_exact_rounds_to_itself(p, t);
}

/// The scale that the search from `j` settles on has a decimal that reads
/// back, and no scale from `j` up to it has one.
pub proof fn lemma_scale_is_least(p: int, j: nat, k: nat)
    requires
        0 < p < infinity_pattern(),
        j <= 149,
        j <= k < shortest_scale_from(p, j),
    ensures
        !found_at(p, k),
        found_at(p, shortest_scale_from(p, j)),
        shortest_scale_from(p, j) <= 149,
    decreases 149 - j,
{
    if j >= 149 || found_at(p, j) {
    } else {
        if k > j {
            lemma_scale_is_least(p, j + 1, k);
        } else {
            lemma_scale_found(p, j + 1);
        }
    }
}

/// The scale that the search from `j` settles on has a decimal that reads
/// back.
pub proof fn lemma_scale_found(p: int, j: nat)
    requires
        0 < p < infinity_pattern(),
        j <= 149,
    ensures
        found_at(p, shortest_scale_from(p, j)),
        j <= shortest_scale_from(p, j) <= 149,
    decreases 149 - j,
{
    if j >= 149 {
        lemma_found_at_last(p);
    } else if !found_at(p, j) {
        lemma_scale_found(p, j + 1);
    }
}

/// What is written reads back. The digits chosen for a finite number other
/// than zero, at the scale chosen for it, are a decimal that rounds to
/// that number.
pub proof fn lemma_written_reads_back(p: int)
    requires
        0 < p < infinity_pattern(),
    ensures
        reads_back(digits_at(p, shortest_scale_from(p, 0)), shortest_scale_from(p, 0), p),
        digits_at(p, shortest_scale_from(p, 0)) >= 0,
{
    lemma_scale_found(p, 0);
    let j = shortest_scale_from(p, 0);
    let u = mag_units(p);
    let t = pow10(j) as int;
    let h = pow2(149) as int;
    lemma_pow2_pos(149);
    lemma_pow10_splits(j);
    lemma_units_nonnegative(p);
    assert(u * t >= 0) by (nonlinear_arith)
        requires
            u >= 0,
            t > 0,
    ;
    lemma_div_pos_is_pos(u * t, h);
}

/// Nothing shorter reads back. No decimal with fewer digits after the
/// point than the one written rounds to the number.
pub proof fn lemma_no_shorter_reads_back(p: int, d: int, k: nat)
    requires
        0 < p < infinity_pattern(),
        k < shortest_scale_from(p, 0),
    ensures
        !reads_back(d, k, p),
{
    lemma_scale_is_least(p, 0, k);
    if reads_back(d, k, p) {
        lemma_nearest_decimals_read_back(d, k, p);
    }
}

/// Nothing of the same length is nearer. Among the decimals with as many
/// digits after the point that round to the number, the one written lies
/// nearest to it: `d`, any of them, is at least as far from the value.
pub proof fn lemma_written_is_nearest(p: int, d: int)
    requires
        0 < p < infinity_pattern(),
        reads_back(d, shortest_scale_from(p, 0), p),
    ensures
        ({
            let j = shortest_scale_from(p, 0);
            let exact = mag_units(p) * pow10(j);
            let written = digits_at(p, j) * pow2(149);
            let other = d * pow2(149);
            let gap = if written >= exact {
                written - exact
            } else {
                exact - written
            };
            let other_gap = if other >= exact {
                other - exact
            } else {
                exact - other
            };
            gap <= other_gap
        }),
{
    let j = shortest_scale_from(p, 0);
    let u = mag_units(p);
    let t = pow10(j) as int;
    let h = pow2(149) as int;
    let below = floor_scaled(p, j);
    lemma_pow2_pos(149);
    lemma_pow10_splits(j);
    lemma_fundamental_div_mod(u * t, h);
    lemma_mod_bound(u * t, h);
    assert(h * below == below * h) by (nonlinear_arith);
    assert(below * h <= u * t < (below + 1) * h) by (nonlinear_arith)
        requires
            u * t == below * h + (u * t) % h,
            0 <= (u * t) % h < h,
    ;
    lemma_nearest_decimals_read_back(d, j, p);
    lemma_units_increasing(p - 1, p);
    lemma_units_increasing(p, p + 1);
    let low = mag_units(p - 1) + u;
    let high = u + mag_units(p + 1);
    assert(low * t < 2 * (u * t)) by (nonlinear_arith)
        requires
            low < 2 * u,
            t > 0,
    ;
    assert(2 * (u * t) < high * t) by (nonlinear_arith)
        requires
            2 * u < high,
            t > 0,
    ;
    if d <= below {
        assert(d * h <= below * h) by (nonlinear_arith)
            requires
                d <= below,
                h > 0,
        ;
        assert(reads_back(below, j, p));
    } else {
        assert((below + 1) * h <= d * h) by (nonlinear_arith)
            requires
                below + 1 <= d,
                h > 0,
        ;
        assert(reads_back(below + 1, j, p));
    }
    assert((below + 1) * h == below * h + h) by (nonlinear_arith);
    assert((2 * below + 1) * h == 2 * (below * h) + h) by (nonlinear_arith);
}

/// A whole number has no fraction, and its magnitude is itself.
pub proof fn lemma_whole_number_is_whole(n: int)
    requires
        0 <= n <= exact_limit(),
    ensures
        Binary32::of_int(n).is_whole(),
        Binary32::of_int(n).whole_magnitude() == n,
        Binary32::of_int(n).text() == decimal(n as nat),
{
    let p = lemma_whole_is_representable(n);
    let h = pow2(149) as int;
    lemma_pow2_pos(149);
    let x = Binary32::of_int(n);
    assert(x.magnitude() == p && !x.is_negative());
    lemma_fundamental_div_mod_converse(n * h, h, n, 0);
}

/// Dividing by zero is no failure. A finite number other than zero divided
/// by a zero is infinite, negative where just one of the two is, and is
/// written as `inf` behind its sign.
pub proof fn lemma_division_by_zero(x: Binary32, zero: Binary32)
    requires
        x.is_finite(),
        !x.is_zero(),
        zero.is_zero(),
    ensures
        x.quotient(zero).is_infinite(),
        x.quotient(zero).is_negative() == (x.is_negative() != zero.is_negative()),
        x.quotient(zero).text() == if x.is_negative() != zero.is_negative() {
            seq!['-', 'i', 'n', 'f']
        } else {
            seq!['i', 'n', 'f']
        },
{
    let q = x.quotient(zero);
    assert(q.magnitude() == infinity_pattern());
    if x.is_negative() != zero.is_negative() {
        assert(seq!['-'] + seq!['i', 'n', 'f'] =~= seq!['-', 'i', 'n', 'f']);
    }
}

} // verus!
