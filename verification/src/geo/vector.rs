use super::point::Point;
use vstd::prelude::*;

verus! {

/// An arrow from `init` to `term`.
#[derive(Clone, Copy, Debug, PartialEq, Eq, Structural)]
pub struct Vector {
    pub init: Point,
    pub term: Point,
}

} // verus!
