//! Exact decimal numbers with eighteen fractional digits.

use vstd::prelude::*;

verus! {

/// How many units make one whole.
pub const UNITS_PER_ONE: i128 = 1_000_000_000_000_000_000;

/// A decimal number with eighteen fractional digits, held exactly as a count
/// of units of 10^-18.
#[derive(Clone, Copy, Debug, PartialEq, Eq, Structural)]
pub struct Decimal {
    pub units: i128,
}

impl Decimal {
    /// The whole number `n`.
    pub fn from_integer(n: i64) -> (r: Decimal)
        ensures
            r.units == n * UNITS_PER_ONE,
    {
        let wide: i128 = n as i128;
        Decimal { units: wide * UNITS_PER_ONE }
    }

    /// The number made of `units` units of 10^-18.
    pub fn from_units(units: i128) -> (r: Decimal)
        ensures
            r.units == units,
    {
        Decimal { units }
    }

    /// The whole part of the number, cut off towards zero and held to the
    /// range of a byte: nothing below 0, nothing above 255.
    pub open spec fn byte_value(self) -> int {
        if self.units <= 0 {
            0
        } else if (self.units as int) / (UNITS_PER_ONE as int) >= 255 {
            255
        } else {
            (self.units as int) / (UNITS_PER_ONE as int)
        }
    }

    /// Converts to a byte, saturating at both ends.
    pub fn to_byte(&self) -> (r: u8)
        ensures
            r == self.byte_value(),
    {
        if self.units <= 0 {
            0
        } else {
            let whole: i128 = self.units / UNITS_PER_ONE;
            if whole >= 255 {
                255
            } else {
                whole as u8
            }
        }
    }
}

/// `a - b` for `a >= b`, which always fits the unsigned type.
pub fn gap(a: i128, b: i128) -> (r: u128)
    requires
        b <= a,
    ensures
        r == a - b,
{
    if b >= 0 || a < 0 {
        (a - b) as u128
    } else {
        let up: u128 = a as u128;
        let down: u128 = (-(b + 1)) as u128;
        up + down + 1
    }
}

} // verus!
