use vstd::prelude::*;

verus! {

/// A point or an extent in world units.
#[derive(Debug, Copy, Clone, PartialEq, Eq, Structural)]
pub struct Point {
    pub x: i64,
    pub y: i64,
}

/// A position in world units, with a depth for drawing order.
#[derive(Debug, Copy, Clone, PartialEq, Eq, Structural)]
pub struct Point3 {
    pub x: i64,
    pub y: i64,
    pub z: i64,
}

/// An axis-aligned rectangle in world units: lower corner and size.
#[derive(Debug, Copy, Clone, PartialEq, Eq, Structural)]
pub struct Bounds {
    pub mins: Point,
    pub size: Point,
}

/// `p` lies in the rectangle `b`, edges included; `p` is given at twice its scale, so
/// that half units are exact.
pub open spec fn contains_doubled(b: Bounds, px2: int, py2: int) -> bool {
    &&& 2 * b.mins.x <= px2 <= 2 * (b.mins.x + b.size.x)
    &&& 2 * b.mins.y <= py2 <= 2 * (b.mins.y + b.size.y)
}

impl Bounds {
    pub fn new(mins: Point, size: Point) -> (r: Self)
        ensures
            r.mins == mins,
            r.size == size,
    {
        Bounds { mins, size }
    }

    /// Whether `coords` lies in the rectangle, edges included.
    pub fn in_bounds(&self, coords: Point) -> (r: bool)
        ensures
            r == contains_doubled(*self, 2 * coords.x, 2 * coords.y),
    {
        let x: i128 = coords.x as i128;
        let y: i128 = coords.y as i128;
        x >= self.mins.x as i128 && y >= self.mins.y as i128 && x <= self.mins.x as i128
            + self.size.x as i128 && y <= self.mins.y as i128 + self.size.y as i128
    }
}

} // verus!
