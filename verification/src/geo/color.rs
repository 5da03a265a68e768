//! Colors, and the two ways in which an entity gets one.

use crate::decimal::{Decimal, UNITS_PER_ONE};
use vstd::prelude::*;

verus! {

#[derive(Clone, Copy, Debug, PartialEq, Eq, PartialOrd, Ord, Structural)]
pub struct Color {
    pub r: u8,
    pub g: u8,
    pub b: u8,
    pub a: u8,
}

/// A place on a gradient: the fraction `num / den`, which lies between 0 and
/// 1 inclusive.
#[derive(Clone, Copy, Debug, PartialEq, Eq, Structural)]
pub struct Position {
    pub num: u128,
    pub den: u128,
}

impl Position {
    /// The fraction has a positive denominator and is at most 1.
    pub open spec fn wf(self) -> bool {
        0 < self.den && self.num <= self.den
    }
}

/// Whether `generator` may be asked for the color at every place of a
/// gradient.
pub open spec fn accepts_all<G: Fn(Position) -> Color>(generator: G) -> bool {
    forall|p: Position| p.wf() ==> #[trigger] call_requires(generator, (p,))
}

/// How the color of a new entity is found: given outright, or read off a
/// gradient at the place where the entity's scalar falls between `min` and
/// `max`.
pub enum ColorType<G> {
    RGB,
    Gradient { generator: G, min: Decimal, max: Decimal },
}

impl<G> Default for ColorType<G> {
    fn default() -> (r: Self)
        ensures
            r is RGB,
    {
        ColorType::RGB
    }
}

impl<G: Fn(Position) -> Color> ColorType<G> {
    /// Whether the generator of a gradient answers for every place on it.
    pub open spec fn answers(&self) -> bool {
        match self {
            ColorType::RGB => true,
            ColorType::Gradient { generator, .. } => accepts_all(*generator),
        }
    }

    /// A gradient needs two distinct ends, and a generator that answers for
    /// every place between them.
    pub open spec fn wf(&self) -> bool {
        match self {
            ColorType::RGB => true,
            ColorType::Gradient { generator, min, max } => min != max && accepts_all(*generator),
        }
    }

    /// Whether colors come from a gradient.
    pub fn is_graded(&self) -> (r: bool)
        ensures
            r == (self is Gradient),
    {
        match self {
            ColorType::RGB => false,
            ColorType::Gradient { .. } => true,
        }
    }

    /// Whether the two ends of the gradient differ, as they must.
    pub fn has_range(&self) -> (r: bool)
        ensures
            r == match self {
                ColorType::RGB => true,
                ColorType::Gradient { min, max, .. } => min != max,
            },
    {
        match self {
            ColorType::RGB => true,
            ColorType::Gradient { min, max, .. } => min.units != max.units,
        }
    }
}

/// The place of `gradient` on the unit interval: the number itself, held to
/// the range from 0 to 1.
pub open spec fn unit_place(gradient: Decimal) -> Position {
    Position {
        num: if gradient.units <= 0 {
            0
        } else if gradient.units >= UNITS_PER_ONE {
            UNITS_PER_ONE as u128
        } else {
            gradient.units as u128
        },
        den: UNITS_PER_ONE as u128,
    }
}

impl Color {
    /// The color that `color_grad` gives at `gradient`, once `gradient` is
    /// held to the range from 0 to 1.
    pub fn from_grad<G: Fn(Position) -> Color>(gradient: Decimal, color_grad: &G) -> (r: Self)
        requires
            accepts_all(*color_grad),
        ensures
            call_ensures(*color_grad, (unit_place(gradient),), r),
    {
        let num: u128 = if gradient.units <= 0 {
            0
        } else if gradient.units >= UNITS_PER_ONE {
            UNITS_PER_ONE as u128
        } else {
            gradient.units as u128
        };
        let place = Position { num, den: UNITS_PER_ONE as u128 };
        assert(place.wf());
        color_grad(place)
    }
}

} // verus!
