use super::point::Point;
use vstd::prelude::*;

verus! {

/// A line segment, given by its two endpoints.
#[derive(Clone, Copy, Debug, PartialEq, Eq, Structural)]
pub struct Line {
    pub ll: Point,
    pub ur: Point,
}

} // verus!
