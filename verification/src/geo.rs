pub mod color;
pub mod criticality;
pub mod line;
pub mod point;
pub mod rect;
pub mod shape;
pub mod vector;
