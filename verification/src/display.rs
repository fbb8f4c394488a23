//! Decimal text for binary32 numbers.
//!
//! A whole number is written with all its digits and no point. Any other
//! finite number is written with the fewest digits that still read back as
//! the same binary32, in positional form or, below one ten-thousandth, with
//! an exponent.

use vstd::prelude::*;
use vstd::arithmetic::power2::*;
use vstd::arithmetic::div_mod::*;
use crate::arith::{grid_exponent_bits, significand_bits};
use crate::binary32::{
    Binary32, grid_exponent, lemma_units_step, mag_units, nearest_even, significand,
};
use crate::text::push_char;
use crate::wide::Wide;

verus! {

/// Ten to the power `j`.
pub open spec fn pow10(j: nat) -> nat
    decreases j,
{
    if j == 0 {
        1
    } else {
        10 * pow10((j - 1) as nat)
    }
}

/// The character of the decimal digit `d`.
pub open spec fn digit_char(d: int) -> char {
    ((48 + d) as u8) as char
}

/// The decimal digits of `n`, most significant first, without leading zeros.
pub open spec fn decimal(n: nat) -> Seq<char>
    decreases n,
{
    if n < 10 {
        seq![digit_char(n as int)]
    } else {
        decimal(n / 10).push(digit_char((n % 10) as int))
    }
}

/// `count` zeros.
pub open spec fn zeros(count: nat) -> Seq<char> {
    Seq::new(count, |i: int| '0')
}

/// Whether the decimal `d / 10^j` reads back as the magnitude pattern `p`.
pub open spec fn reads_back(d: int, j: nat, p: int) -> bool {
    nearest_even(d * pow2(149), pow10(j) as int, p)
}

/// The value of the magnitude pattern `p`, scaled by `10^j` and rounded down.
pub open spec fn floor_scaled(p: int, j: nat) -> int {
    (mag_units(p) * pow10(j)) / (pow2(149) as int)
}

/// Whether a decimal with `j` digits after the point reads back as `p`:
/// the nearest one below the value or the nearest one above it.
pub open spec fn found_at(p: int, j: nat) -> bool {
    reads_back(floor_scaled(p, j), j, p) || reads_back(floor_scaled(p, j) + 1, j, p)
}

/// The least number of digits after the point, from `j` on, with which a
/// decimal reads back as `p`. The value itself has no more than 149.
pub open spec fn shortest_scale_from(p: int, j: nat) -> nat
    decreases 149 - j,
{
    if j >= 149 || found_at(p, j) {
        j
    } else {
        shortest_scale_from(p, j + 1)
    }
}

/// The digits, as one number, of the decimal with `j` digits after the
/// point that stands for `p`: of the two nearest, the one that reads back,
/// the nearer where both do, the upper where they are equally near.
pub open spec fn digits_at(p: int, j: nat) -> int {
    let below = floor_scaled(p, j);
    let upper_nearer = (2 * below + 1) * pow2(149) <= 2 * (mag_units(p) * pow10(j));
    if reads_back(below + 1, j, p) && (!reads_back(below, j, p) || upper_nearer) {
        below + 1
    } else {
        below
    }
}

/// The digits `digits` with the point `j` places from the right, after a
/// zero and as many further zeros as there are places but no digits for.
pub open spec fn positional(digits: Seq<char>, j: nat) -> Seq<char> {
    if digits.len() > j {
        digits.take(digits.len() - j) + seq!['.'] + digits.skip(digits.len() - j)
    } else {
        seq!['0', '.'] + zeros((j - digits.len()) as nat) + digits
    }
}

/// The digits `digits` with the point after the first, and the power of
/// ten that makes up for moving the point there from `j` places from the
/// right.
pub open spec fn scientific(digits: Seq<char>, j: nat) -> Seq<char> {
    let mantissa = if digits.len() > 1 {
        digits.take(1) + seq!['.'] + digits.skip(1)
    } else {
        digits
    };
    let exponent = digits.len() - 1 - j;
    if exponent < 0 {
        mantissa + seq!['e', '-'] + decimal((-exponent) as nat)
    } else {
        mantissa + seq!['e'] + decimal(exponent as nat)
    }
}

/// The magnitude pattern of one ten-thousandth, rounded: smaller numbers
/// are written with an exponent.
pub open spec fn exponent_threshold() -> int {
    0x38d1_b717
}

impl Binary32 {
    /// Whether the number is finite and has no fractional part.
    pub open spec fn is_whole(self) -> bool {
        self.is_finite() && mag_units(self.magnitude()) % (pow2(149) as int) == 0
    }

    /// The absolute value of a whole number.
    pub open spec fn whole_magnitude(self) -> nat {
        (mag_units(self.magnitude()) / (pow2(149) as int)) as nat
    }

    /// The text of the magnitude: `inf`, all digits of a whole number, or
    /// the shortest decimal that reads back.
    pub open spec fn magnitude_text(self) -> Seq<char> {
        let p = self.magnitude();
        if self.is_infinite() {
            seq!['i', 'n', 'f']
        } else if self.is_whole() {
            decimal(self.whole_magnitude())
        } else {
            let j = shortest_scale_from(p, 0);
            let digits = decimal(digits_at(p, j) as nat);
            if p < exponent_threshold() {
                scientific(digits, j)
            } else {
                positional(digits, j)
            }
        }
    }

    /// The text of the number: `NaN`, or a minus sign where the sign bit is
    /// set, then the text of the magnitude.
    pub open spec fn text(self) -> Seq<char> {
        if self.is_nan() {
            seq!['N', 'a', 'N']
        } else if self.is_negative() {
            seq!['-'] + self.magnitude_text()
        } else {
            self.magnitude_text()
        }
    }
}

/// The character of a decimal digit.
fn digit_to_char(d: u32) -> (c: char)
    requires
        d < 10,
    ensures
        c == digit_char(d as int),
{
    ((48 + d) as u8) as char
}

/// The decimal digits of `n`.
fn decimal_digits(n: &Wide) -> (r: Vec<char>)
    ensures
        r@ == decimal(n@),
    decreases n@,
{
    let (rest, last) = n.divmod_small(10);
    if rest.is_zero() {
        proof {
            lemma_fundamental_div_mod(n@ as int, 10);
        }
        let mut digits: Vec<char> = Vec::new();
        digits.push(digit_to_char(last));
        digits
    } else {
        proof {
            lemma_fundamental_div_mod(n@ as int, 10);
        }
        let mut digits = decimal_digits(&rest);
        digits.push(digit_to_char(last));
        digits
    }
}

/// Whether `c`, twice a decimal's value in units of 2^-149 scaled by a
/// power of ten, lies between the scaled midpoints `low` and `high`, the
/// ends included when `closed`.
fn between(c: &Wide, low: &Wide, high: &Wide, closed: bool) -> (r: bool)
    ensures
        r == if closed {
            low@ <= c@ <= high@
        } else {
            low@ < c@ < high@
        },
{
    if closed {
        low.le(c) && c.le(high)
    } else {
        !c.le(low) && !high.le(c)
    }
}

/// The shortest decimal that reads back as the magnitude pattern `p`: its
/// digits as one number, and how many of them stand after the point.
fn shortest_decimal(p: u32) -> (r: (Wide, u32))
    requires
        0 < p < 0x7f80_0000,
    ensures
        r.1 == shortest_scale_from(p as int, 0),
        r.0@ == digits_at(p as int, r.1 as nat),
        r.1 <= 149,
{
    let closed = p % 2 == 0;
    let sig = significand_bits(p);
    let exp = grid_exponent_bits(p);
    let sig_below = significand_bits(p - 1);
    let exp_below = grid_exponent_bits(p - 1);
    let mut value = Wide::from_u64(sig as u64).shl(exp);
    let mut low = Wide::from_u64(2 * sig_below as u64 + 1).shl(exp_below);
    let mut high = Wide::from_u64(2 * sig as u64 + 1).shl(exp);
    let ghost u = mag_units(p as int);
    let ghost low2 = mag_units(p - 1) + u;
    let ghost high2 = u + mag_units(p + 1);
    proof {
        lemma_units_step(p as int);
        lemma_units_step(p - 1);
        let g = pow2(exp as nat);
        let h = pow2(exp_below as nat);
        assert((2 * sig + 1) * g == sig * g + (sig * g + g)) by (nonlinear_arith);
        assert((2 * sig_below + 1) * h == sig_below * h + (sig_below * h + h))
            by (nonlinear_arith);
        assert(pow10(0) == 1);
        assert(u * pow10(0) == u);
        assert(low2 * pow10(0) == low2);
        assert(high2 * pow10(0) == high2);
        lemma_pow2_pos(149);
        lemma_pow2_unfold(150);
    }
    let mut j: u32 = 0;
    loop
        invariant
            0 < p < 0x7f80_0000,
            closed == (p % 2 == 0),
            j <= 149,
            u == mag_units(p as int),
            low2 == mag_units(p - 1) + u,
            high2 == u + mag_units(p + 1),
            value@ == u * pow10(j as nat),
            low@ == low2 * pow10(j as nat),
            high@ == high2 * pow10(j as nat),
            shortest_scale_from(p as int, j as nat) == shortest_scale_from(p as int, 0),
            pow2(149) > 0,
            pow2(150) == 2 * pow2(149),
        decreases 149 - j,
    {
        let below = value.shr(149);
        let above = below.add_small(1);
        let twice_below = below.shl(150);
        let twice_above = above.shl(150);
        let below_reads = between(&twice_below, &low, &high, closed);
        let above_reads = between(&twice_above, &low, &high, closed);
        proof {
            let h = pow2(149);
            let t = pow10(j as nat);
            assert(below@ == floor_scaled(p as int, j as nat));
            assert(below@ * (2 * h) == 2 * (below@ * h)) by (nonlinear_arith);
            assert(above@ * (2 * h) == 2 * (above@ * h)) by (nonlinear_arith);
            assert(below_reads == reads_back(below@ as int, j as nat, p as int));
            assert(above_reads == reads_back(above@ as int, j as nat, p as int));
        }
        if below_reads || above_reads || j == 149 {
            let twice_value = value.mul_small(2);
            let odd = below.mul_small(2).add_small(1).shl(149);
            let upper_nearer = odd.le(&twice_value);
            if above_reads && (!below_reads || upper_nearer) {
                return (above, j);
            }
            return (below, j);
        }
        value = value.mul_small(10);
        low = low.mul_small(10);
        high = high.mul_small(10);
        proof {
            let t = pow10(j as nat);
            assert(pow10((j + 1) as nat) == 10 * t);
            assert((u * t) * 10 == u * (10 * t)) by (nonlinear_arith);
            assert((low2 * t) * 10 == low2 * (10 * t)) by (nonlinear_arith);
            assert((high2 * t) * 10 == high2 * (10 * t)) by (nonlinear_arith);
        }
        j += 1;
    }
}

/// Appends the characters `chars[from..to]` to `s`.
fn push_chars(s: &mut String, chars: &Vec<char>, from: usize, to: usize)
    requires
        from <= to <= chars.len(),
    ensures
        final(s)@ == old(s)@ + chars@.subrange(from as int, to as int),
{
    let mut i: usize = from;
    proof {
        assert(s@ =~= old(s)@ + chars@.subrange(from as int, from as int));
    }
    while i < to
        invariant
            from <= i <= to <= chars.len(),
            s@ == old(s)@ + chars@.subrange(from as int, i as int),
        decreases to - i,
    {
        push_char(s, chars[i]);
        proof {
            assert(chars@.subrange(from as int, i + 1) =~= chars@.subrange(from as int, i as int).push(
                chars[i as int],
            ));
            assert(s@ =~= old(s)@ + chars@.subrange(from as int, i + 1));
        }
        i += 1;
    }
}

/// Appends `count` zeros to `s`.
fn push_zeros(s: &mut String, count: usize)
    ensures
        final(s)@ == old(s)@ + zeros(count as nat),
{
    let mut i: usize = 0;
    proof {
        assert(s@ =~= old(s)@ + zeros(0));
    }
    while i < count
        invariant
            i <= count,
            s@ == old(s)@ + zeros(i as nat),
        decreases count - i,
    {
        push_char(s, '0');
        proof {
            assert(zeros((i + 1) as nat) =~= zeros(i as nat).push('0'));
            assert(s@ =~= old(s)@ + zeros((i + 1) as nat));
        }
        i += 1;
    }
}

/// Appends `digits` in positional form, the point `places` from the right.
fn push_positional(s: &mut String, digits: &Vec<char>, places: usize)
    ensures
        final(s)@ == old(s)@ + positional(digits@, places as nat),
{
    let count = digits.len();
    if count > places {
        push_chars(s, digits, 0, count - places);
        push_char(s, '.');
        push_chars(s, digits, count - places, count);
        proof {
            assert(digits@.subrange(0, count - places) =~= digits@.take(count - places));
            assert(digits@.subrange(count - places, count as int) =~= digits@.skip(count - places));
            assert(s@ =~= old(s)@ + positional(digits@, places as nat));
        }
    } else {
        push_char(s, '0');
        push_char(s, '.');
        push_zeros(s, places - count);
        push_chars(s, digits, 0, count);
        proof {
            assert(digits@.subrange(0, count as int) =~= digits@);
            assert(s@ =~= old(s)@ + positional(digits@, places as nat));
        }
    }
}

/// Appends `digits` in exponent form, for a point `places` from the right.
fn push_scientific(s: &mut String, digits: &Vec<char>, places: usize)
    requires
        digits.len() >= 1,
        places <= 149,
    ensures
        final(s)@ == old(s)@ + scientific(digits@, places as nat),
{
    let count = digits.len();
    push_chars(s, digits, 0, 1);
    if count > 1 {
        push_char(s, '.');
        push_chars(s, digits, 1, count);
    }
    push_char(s, 'e');
    let ghost mantissa = if count > 1 {
        digits@.take(1) + seq!['.'] + digits@.skip(1)
    } else {
        digits@
    };
    proof {
        assert(digits@.subrange(0, 1) =~= digits@.take(1));
        assert(digits@.subrange(1, count as int) =~= digits@.skip(1));
        if count == 1 {
            assert(digits@.take(1) =~= digits@);
        }
        assert(s@ =~= old(s)@ + mantissa + seq!['e']);
    }
    if count <= places {
        push_char(s, '-');
        let exponent = decimal_digits(&Wide::from_u64((places + 1 - count) as u64));
        push_chars(s, &exponent, 0, exponent.len());
        proof {
            assert(exponent@.subrange(0, exponent.len() as int) =~= exponent@);
            assert(s@ =~= old(s)@ + (mantissa + seq!['e', '-'] + exponent@));
        }
    } else {
        let exponent = decimal_digits(&Wide::from_u64((count - 1 - places) as u64));
        push_chars(s, &exponent, 0, exponent.len());
        proof {
            assert(exponent@.subrange(0, exponent.len() as int) =~= exponent@);
            assert(s@ =~= old(s)@ + (mantissa + seq!['e'] + exponent@));
        }
    }
}

/// The absolute value of the finite magnitude pattern `p`, if it is whole.
fn whole_part(p: u32) -> (r: Option<Wide>)
    requires
        p < 0x7f80_0000,
    ensures
        r is Some <==> mag_units(p as int) % (pow2(149) as int) == 0,
        r matches Some(w) ==> w@ == mag_units(p as int) / (pow2(149) as int),
{
    let units = Wide::from_u64(significand_bits(p) as u64).shl(grid_exponent_bits(p));
    let whole = units.shr(149);
    proof {
        lemma_pow2_pos(149);
        lemma_fundamental_div_mod(units@ as int, pow2(149) as int);
        let h = pow2(149);
        assert(whole@ * h == h * whole@) by (nonlinear_arith);
    }
    if units.le(&whole.shl(149)) {
        Some(whole)
    } else {
        None
    }
}

impl Binary32 {
    /// Writes the number as text.
    pub fn to_text(self) -> (s: String)
        ensures
            s@ == self.text(),
    {
        let p = self.magnitude_bits();
        let mut s = String::new();
        if p > 0x7f80_0000 {
            push_char(&mut s, 'N');
            push_char(&mut s, 'a');
            push_char(&mut s, 'N');
            proof {
                assert(s@ =~= seq!['N', 'a', 'N']);
            }
            return s;
        }
        if self.sign_bit() {
            push_char(&mut s, '-');
        }
        let ghost sign = s@;
        proof {
            assert(sign =~= if self.is_negative() {
                seq!['-']
            } else {
                Seq::<char>::empty()
            });
        }
        if p == 0x7f80_0000 {
            push_char(&mut s, 'i');
            push_char(&mut s, 'n');
            push_char(&mut s, 'f');
            proof {
                assert(s@ =~= sign + seq!['i', 'n', 'f']);
            }
            return s;
        }
        match whole_part(p) {
            Some(whole) => {
                let digits = decimal_digits(&whole);
                push_chars(&mut s, &digits, 0, digits.len());
                proof {
                    assert(digits@.subrange(0, digits.len() as int) =~= digits@);
                }
            },
            None => {
                proof {
                    assert(p != 0) by {
                        assert(significand(0) == 0);
                        assert(0 * pow2(grid_exponent(0)) == 0);
                        lemma_pow2_pos(149);
                    }
                }
                let (number, scale) = shortest_decimal(p);
                let digits = decimal_digits(&number);
                proof {
                    lemma_decimal_not_empty(number@);
                }
                if p < 0x38d1_b717 {
                    push_scientific(&mut s, &digits, scale as usize);
                } else {
                    push_positional(&mut s, &digits, scale as usize);
                }
            },
        }
        s
    }
}

/// Every number has at least one decimal digit.
pub proof fn lemma_decimal_not_empty(n: nat)
    ensures
        decimal(n).len() >= 1,
    decreases n,
{
    if n >= 10 {
        lemma_decimal_not_empty(n / 10);
    }
}

} // verus!
