//! Equality and order of binary32 numbers.
//!
//! Both go by the numbers, not by the patterns: NaN equals nothing and has
//! no place in the order, and the two zeros are one number.

use core::cmp::Ordering;
use vstd::prelude::*;
use vstd::std_specs::cmp::PartialEqSpecImpl;
use vstd::std_specs::cmp::PartialOrdSpecImpl;
use crate::binary32::{lemma_units_increasing, lemma_units_nonnegative, Binary32};

verus! {

impl PartialEq for Binary32 {
    /// Numeric equality: NaN equals nothing, and the two zeros are equal.
    fn eq(&self, other: &Binary32) -> (r: bool) {
        let p = self.magnitude_bits();
        let q = other.magnitude_bits();
        p <= 0x7f80_0000 && q <= 0x7f80_0000 && (self.bits == other.bits || (p == 0 && q == 0))
    }
}

impl PartialEqSpecImpl for Binary32 {
    open spec fn obeys_eq_spec() -> bool {
        true
    }

    open spec fn eq_spec(&self, other: &Binary32) -> bool {
        &&& !self.is_nan()
        &&& !other.is_nan()
        &&& (self.bits == other.bits || (self.is_zero() && other.is_zero()))
    }
}

impl PartialOrd for Binary32 {
    /// Numeric order: none where either side is NaN, else that of the
    /// values, infinities at the ends.
    fn partial_cmp(&self, other: &Binary32) -> (r: Option<Ordering>) {
        if self.magnitude_bits() > 0x7f80_0000 || other.magnitude_bits() > 0x7f80_0000 {
            return None;
        }
        let a = self.rank_of();
        let b = other.rank_of();
        if a < b {
            Some(Ordering::Less)
        } else if a > b {
            Some(Ordering::Greater)
        } else {
            Some(Ordering::Equal)
        }
    }
}

impl PartialOrdSpecImpl for Binary32 {
    open spec fn obeys_partial_cmp_spec() -> bool {
        true
    }

    open spec fn partial_cmp_spec(&self, other: &Binary32) -> Option<Ordering> {
        if self.is_nan() || other.is_nan() {
            None
        } else if self.rank() < other.rank() {
            Some(Ordering::Less)
        } else if self.rank() > other.rank() {
            Some(Ordering::Greater)
        } else {
            Some(Ordering::Equal)
        }
    }
}

/// Numbers that are not NaN stand in the order of their ranks as their
/// values do: the rank grows with the value.
pub proof fn lemma_rank_follows_value(a: Binary32, b: Binary32)
    requires
        !a.is_nan(),
        !b.is_nan(),
    ensures
        a.rank() < b.rank() <==> a.units() < b.units(),
        a.rank() == b.rank() <==> a.units() == b.units(),
{
    let p = a.magnitude();
    let q = b.magnitude();
    lemma_units_nonnegative(p);
    lemma_units_nonnegative(q);
    if p < q {
        lemma_units_increasing(p, q);
    } else if q < p {
        lemma_units_increasing(q, p);
    }
}

} // verus!
