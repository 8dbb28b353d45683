use vstd::prelude::*;

verus! {

/// Largest absolute coordinate, in fixed-point units, that the library handles.
pub const COORD_BOUND: i64 = 1048576;

/// Largest absolute field value that a well-formed field produces.
pub const VAL_BOUND: i64 = 8388608;

/// A point (or displacement) of the plane, in fixed-point units.
#[derive(Clone, Copy, Debug, PartialEq, Eq, Structural)]
pub struct Point2 {
    pub x: i64,
    pub y: i64,
}

/// A line segment; as a tangent constraint it stands for the whole line through it.
#[derive(Clone, Copy, Debug, PartialEq, Eq, Structural)]
pub struct Line2 {
    pub start: Point2,
    pub end: Point2,
}

/// An axis-aligned square given by its center and half side length.
#[derive(Clone, Copy, Debug, PartialEq, Eq, Structural)]
pub struct Square2 {
    pub center: Point2,
    pub extent: i64,
}

#[derive(Clone, Copy, Debug, PartialEq, Eq, Structural)]
pub struct Triangle2 {
    pub p1: Point2,
    pub p2: Point2,
    pub p3: Point2,
}

pub open spec fn abs_int(v: int) -> int {
    if v < 0 { -v } else { v }
}

/// Both coordinates lie within `bound` of the origin.
pub open spec fn within(p: Point2, bound: int) -> bool {
    abs_int(p.x as int) <= bound && abs_int(p.y as int) <= bound
}

pub open spec fn pt_ok(p: Point2) -> bool {
    within(p, COORD_BOUND as int)
}

pub open spec fn pt(x: int, y: int) -> Point2 {
    Point2 { x: x as i64, y: y as i64 }
}

impl Point2 {
    pub fn new(x: i64, y: i64) -> (r: Point2)
        ensures
            r.x == x,
            r.y == y,
    {
        Point2 { x, y }
    }
}

} // verus!
