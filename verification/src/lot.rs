//! Checked 128-bit amount type used for every balance and supply quantity.
//!
//! All arithmetic is checked: overflow or underflow yields `None` instead of
//! wrapping, so a caller must decide explicitly what to do. Zero is the
//! additive identity and the default value.

use vstd::prelude::*;

verus! {

/// An amount of some token. Wraps a `u128`; every operation is checked.
#[derive(Clone, Copy, Debug, PartialEq, Eq, Structural)]
pub struct Lot {
    pub value: u128,
}

impl Lot {
    /// The zero amount.
    pub fn zero() -> (r: Lot)
        ensures
            r.value == 0,
    {
        Lot { value: 0 }
    }

    /// Checked addition: `None` exactly when the mathematical sum exceeds `u128::MAX`.
    pub fn checked_add(self, other: Lot) -> (r: Option<Lot>)
        ensures
            self.value + other.value <= u128::MAX ==> r == Some(
                Lot { value: (self.value + other.value) as u128 },
            ),
            self.value + other.value > u128::MAX ==> r is None,
    {
        if self.value <= u128::MAX - other.value {
            Some(Lot { value: self.value + other.value })
        } else {
            None
        }
    }

    /// Checked subtraction: `None` exactly when `other` exceeds `self`.
    pub fn checked_sub(self, other: Lot) -> (r: Option<Lot>)
        ensures
            other.value <= self.value ==> r == Some(
                Lot { value: (self.value - other.value) as u128 },
            ),
            other.value > self.value ==> r is None,
    {
        if other.value <= self.value {
            Some(Lot { value: self.value - other.value })
        } else {
            None
        }
    }

    /// Checked scaling by a plain factor: `None` exactly when the product
    /// exceeds `u128::MAX`.
    pub fn checked_mul(self, factor: u128) -> (r: Option<Lot>)
        ensures
            self.value * factor <= u128::MAX ==> r == Some(
                Lot { value: (self.value * factor) as u128 },
            ),
            self.value * factor > u128::MAX ==> r is None,
    {
        if factor == 0 {
            Some(Lot { value: 0 })
        } else {
            let limit: u128 = u128::MAX / factor;
            proof {
                assert(self.value <= limit ==> self.value * factor <= u128::MAX) by (nonlinear_arith)
                    requires
                        factor > 0,
                        limit == u128::MAX as int / factor as int,
                ;
                assert(self.value > limit ==> self.value * factor > u128::MAX) by (nonlinear_arith)
                    requires
                        factor > 0,
                        limit == u128::MAX as int / factor as int,
                ;
            }
            if self.value <= limit {
                Some(Lot { value: self.value * factor })
            } else {
                None
            }
        }
    }

    /// The smaller of two amounts.
    pub fn min(self, other: Lot) -> (r: Lot)
        ensures
            r.value == if self.value <= other.value {
                self.value
            } else {
                other.value
            },
    {
        if self.value <= other.value {
            self
        } else {
            other
        }
    }
}

impl Default for Lot {
    /// The default amount is zero.
    fn default() -> (r: Lot)
        ensures
            r.value == 0,
    {
        Lot { value: 0 }
    }
}

} // verus!
