//! Fixed-point money values.
//!
//! An amount of money is a whole number of minor units, where one currency
//! unit is `UNITS_PER_WHOLE` minor units (four decimal places). Addition,
//! subtraction and comparison are exact integer operations; there is no
//! floating-point drift anywhere.

use vstd::prelude::*;

verus! {

/// Minor units per whole currency unit: amounts carry four decimal places.
pub const UNITS_PER_WHOLE: u64 = 10_000;

/// A non-negative fixed-point amount of money, stored as minor units.
#[derive(Clone, Copy, Debug, PartialEq, Eq, Structural, Hash)]
pub struct Money {
    pub units: u64,
}

impl Money {
    /// The zero amount.
    pub fn zero() -> (r: Money)
        ensures
            r.units == 0,
    {
        Money { units: 0 }
    }

    /// An amount given directly in minor units (ten-thousandths of a whole).
    pub fn from_units(units: u64) -> (r: Money)
        ensures
            r.units == units,
    {
        Money { units }
    }

    /// The amount in minor units.
    pub fn as_units(&self) -> (r: u64)
        ensures
            r == self.units,
    {
        self.units
    }

    /// Exact addition.
    pub fn add_money(self, other: Money) -> (r: Money)
        requires
            self.units + other.units <= u64::MAX,
        ensures
            r.units == self.units + other.units,
    {
        Money { units: self.units + other.units }
    }

    /// Exact subtraction.
    pub fn sub_money(self, other: Money) -> (r: Money)
        requires
            other.units <= self.units,
        ensures
            r.units == self.units - other.units,
    {
        Money { units: self.units - other.units }
    }

    /// Whether `self` is at least `other`.
    pub fn ge(self, other: Money) -> (r: bool)
        ensures
            r == (self.units >= other.units),
    {
        self.units >= other.units
    }

    /// Whether this is the zero amount.
    pub fn is_zero(&self) -> (r: bool)
        ensures
            r == (self.units == 0),
    {
        self.units == 0
    }
}

} // verus!
