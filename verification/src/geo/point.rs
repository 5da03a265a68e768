use crate::decimal::Decimal;
use vstd::prelude::*;

verus! {

#[derive(Clone, Copy, Debug, PartialEq, Eq, Structural)]
pub struct Point {
    pub x: Decimal,
    pub y: Decimal,
}

} // verus!
