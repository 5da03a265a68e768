use super::line::Line;
use super::rect::Rect;
use vstd::prelude::*;

verus! {

/// The geometry that an action carries, if any.
#[derive(Clone, Copy, Debug, PartialEq, Eq, Structural)]
pub enum Shape {
    Rect(Rect),
    Line(Line),
    /// No geometry is carried.
    Absent,
}

} // verus!
