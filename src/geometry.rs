use vstd::prelude::*;

verus! {

/// Side length of one tile, in world units.
pub const TILE_WIDTH: i64 = 28;

/// A point in world coordinates.
#[derive(Clone, Copy, Debug, PartialEq, Eq, Structural)]
pub struct Point {
    pub x: i64,
    pub y: i64,
}

/// An oriented blocking line. Its normal is perpendicular to `begin -> end`;
/// `normal_reversed` flips which side counts as the blocking one.
#[derive(Clone, Copy, Debug, PartialEq, Eq, Structural)]
pub struct Segment {
    pub begin: Point,
    pub end: Point,
    pub normal_reversed: bool,
}

pub open spec fn pt(x: int, y: int) -> Point {
    Point { x: x as i64, y: y as i64 }
}

pub open spec fn seg(b: Point, e: Point) -> Segment {
    Segment { begin: b, end: e, normal_reversed: false }
}

impl Segment {
    /// A segment from `begin` to `end` with the usual normal.
    pub fn new(begin: Point, end: Point) -> (r: Segment)
        ensures
            r == seg(begin, end),
    {
        Segment { begin, end, normal_reversed: false }
    }

    /// The same segment with its normal pointing the other way.
    pub fn reverse_normal(self) -> (r: Segment)
        ensures
            r.begin == self.begin,
            r.end == self.end,
            r.normal_reversed == !self.normal_reversed,
    {
        Segment { begin: self.begin, end: self.end, normal_reversed: !self.normal_reversed }
    }
}

} // verus!
