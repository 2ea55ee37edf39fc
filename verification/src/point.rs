use vstd::prelude::*;

verus! {

/// An immutable pair of integer coordinates. A point has no identity beyond
/// its coordinates: two points with equal coordinates are indistinguishable,
/// and deletion treats them as equal.
#[derive(Clone, Copy, Debug, PartialEq, Eq, Structural)]
pub struct Point {
    pub x: i64,
    pub y: i64,
}

} // verus!
