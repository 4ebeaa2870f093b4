use vstd::prelude::*;

verus! {

/// A position in the plane, in fixed-point units: ten units per pixel.
///
/// Pixel `(i, j)` owns the square `[10 * i, 10 * (i + 1)) x [10 * j, 10 * (j + 1))`
/// and is sampled at its center `(10 * i + 5, 10 * j + 5)`.
#[derive(Copy, Clone)]
pub struct Point {
    pub x: i32,
    pub y: i32,
}

impl Point {
    pub fn new(x: i32, y: i32) -> (p: Point)
        ensures
            p.x == x,
            p.y == y,
    {
        Point { x, y }
    }
}

/// An axis-aligned clip region, `min` inclusive and `max` exclusive, in the
/// same fixed-point units as [`Point`].
#[derive(Copy, Clone)]
pub struct Rect {
    pub min: Point,
    pub max: Point,
}

impl Rect {
    pub fn new(min: Point, max: Point) -> (r: Rect)
        ensures
            r.min == min,
            r.max == max,
    {
        Rect { min, max }
    }
}

/// Coordinates handed to the rasterizers stay within this magnitude, so that
/// every edge function and decision variable fits its machine integer.
pub open spec fn coord_ok(c: int) -> bool {
    -0x1000_0000 <= c <= 0x1000_0000
}

pub open spec fn point_ok(p: Point) -> bool {
    coord_ok(p.x as int) && coord_ok(p.y as int)
}

pub open spec fn rect_ok(r: Rect) -> bool {
    point_ok(r.min) && point_ok(r.max)
}

} // verus!
