//! Scalars that are shown as colors on a gradient.

use super::color::{accepts_all, Color, Position};
use crate::decimal::{gap, Decimal};
use vstd::prelude::*;

verus! {

/// A scalar that is to be shown as a color.
#[derive(Clone, Copy, Debug, PartialEq, Eq, Structural)]
pub struct Criticality(pub Decimal);

/// Where `value` falls between `min` and `max`: the fraction
/// `(value - min) / (max - min)`, held to the range from 0 to 1. The
/// fraction is written with a positive denominator, whichever end is the
/// larger one. Nothing is defined for `min == max`.
pub open spec fn place_between(value: Decimal, min: Decimal, max: Decimal) -> Option<Position> {
    if min == max {
        None
    } else {
        let den: int = if min.units < max.units {
            max.units - min.units
        } else {
            min.units - max.units
        };
        let raw: int = if min.units < max.units {
            value.units - min.units
        } else {
            min.units - value.units
        };
        let num: int = if raw <= 0 {
            0
        } else if raw >= den {
            den
        } else {
            raw
        };
        Some(Position { num: num as u128, den: den as u128 })
    }
}

pub proof fn lemma_place_between_wf(value: Decimal, min: Decimal, max: Decimal)
    requires
        min != max,
    ensures
        place_between(value, min, max) is Some,
        place_between(value, min, max).unwrap().wf(),
{
}

impl Criticality {
    /// The place of this scalar between `min` and `max`; `None` where the two
    /// ends coincide.
    pub fn position(&self, min: Decimal, max: Decimal) -> (r: Option<Position>)
        ensures
            r == place_between(self.0, min, max),
            r is Some <==> min != max,
            r matches Some(p) ==> p.wf(),
    {
        if min.units == max.units {
            return None;
        }
        let v: i128 = self.0.units;
        let (den, num): (u128, u128) = if min.units < max.units {
            let den: u128 = gap(max.units, min.units);
            let num: u128 = if v <= min.units {
                0
            } else if v >= max.units {
                den
            } else {
                gap(v, min.units)
            };
            (den, num)
        } else {
            let den: u128 = gap(min.units, max.units);
            let num: u128 = if v >= min.units {
                0
            } else if v <= max.units {
                den
            } else {
                gap(min.units, v)
            };
            (den, num)
        };
        Some(Position { num, den })
    }

    /// The color that `colorgrad` gives for this scalar between `min` and
    /// `max`; `None` where the two ends coincide, in which case the generator
    /// is not asked.
    pub fn color<G: Fn(Position) -> Color>(&self, min: Decimal, max: Decimal, colorgrad: &G) -> (r:
        Option<Color>)
        requires
            accepts_all(*colorgrad),
        ensures
            r is Some <==> min != max,
            r matches Some(c) ==> call_ensures(
                *colorgrad,
                (place_between(self.0, min, max).unwrap(),),
                c,
            ),
    {
        match self.position(min, max) {
            Some(place) => Some(colorgrad(place)),
            None => None,
        }
    }
}

/// Colors the members of a collection of scalars by where each stands between
/// the least and the greatest of them.
pub struct ColorGenerator<G> {
    pub min: Decimal,
    pub max: Decimal,
    pub grad: G,
}

/// Whether `m` is the least member of `values`.
pub open spec fn is_least(values: Seq<Decimal>, m: Decimal) -> bool {
    &&& values.contains(m)
    &&& forall|i: int| 0 <= i < values.len() ==> m.units <= (#[trigger] values[i]).units
}

/// Whether `m` is the greatest member of `values`.
pub open spec fn is_greatest(values: Seq<Decimal>, m: Decimal) -> bool {
    &&& values.contains(m)
    &&& forall|i: int| 0 <= i < values.len() ==> (#[trigger] values[i]).units <= m.units
}

impl<G: Fn(Position) -> Color> ColorGenerator<G> {
    /// A generator over the range that `values` span; `None` for an empty
    /// collection, which spans nothing.
    pub fn build(values: &Vec<Decimal>, grad: G) -> (r: Option<Self>)
        ensures
            r is Some <==> values@.len() > 0,
            r matches Some(g) ==> is_least(values@, g.min) && is_greatest(values@, g.max) && g.grad
                == grad,
    {
        if values.len() == 0 {
            return None;
        }
        let mut min: Decimal = values[0];
        let mut max: Decimal = values[0];
        let mut i: usize = 1;
        proof {
            assert(values@.subrange(0, 1)[0] == values@[0]);
        }
        while i < values.len()
            invariant
                1 <= i <= values.len(),
                is_least(values@.subrange(0, i as int), min),
                is_greatest(values@.subrange(0, i as int), max),
            decreases values.len() - i,
        {
            let v: Decimal = values[i];
            let ghost before = values@.subrange(0, i as int);
            let ghost after = values@.subrange(0, i + 1);
            proof {
                assert(after =~= before.push(v));
                assert(forall|j: int| 0 <= j < before.len() ==> after[j] == before[j]);
                let wmin = choose|j: int| 0 <= j < before.len() && before[j] == min;
                let wmax = choose|j: int| 0 <= j < before.len() && before[j] == max;
                assert(after[wmin] == min);
                assert(after[wmax] == max);
                assert(after[i as int] == v);
            }
            if v.units < min.units {
                min = v;
            }
            if v.units > max.units {
                max = v;
            }
            i += 1;
        }
        proof {
            assert(values@.subrange(0, i as int) =~= values@);
        }
        Some(ColorGenerator { min, max, grad })
    }

    /// The color of `value` within the generator's range; `None` where the
    /// range is a single point.
    pub fn get_color(&self, value: Decimal) -> (r: Option<Color>)
        requires
            accepts_all(self.grad),
        ensures
            r is Some <==> self.min != self.max,
            r matches Some(c) ==> call_ensures(
                self.grad,
                (place_between(value, self.min, self.max).unwrap(),),
                c,
            ),
    {
        let v = Criticality(value);
        v.color(self.min, self.max, &self.grad)
    }
}

} // verus!
