use super::point::Point;
use vstd::prelude::*;

verus! {

/// An axis-parallel rectangle, given by its lower-left and upper-right
/// corners.
#[derive(Clone, Copy, Debug, PartialEq, Eq, Structural)]
pub struct Rect {
    pub ll: Point,
    pub ur: Point,
}

} // verus!
