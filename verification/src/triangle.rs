//! Half-space triangle rasterization.
//!
//! A pixel is covered when all three edge functions of the triangle admit its
//! center; an edge admits a point when the point lies strictly on the edge's
//! inner side, or exactly on the edge and the edge is a top or a left one.
//! This tie-break assigns every pixel on a shared boundary to exactly one of
//! the two adjacent triangles: see [`lemma_shared_edge_disjoint`].
//!
//! Coordinates are fixed-point, ten units per pixel; pixel `(i, j)` is
//! sampled at `(10 * i + 5, 10 * j + 5)`. All values are exact integers, so
//! the fill rule has no rounding cases.

use vstd::arithmetic::div_mod::{lemma_fundamental_div_mod, lemma_fundamental_div_mod_converse};
use vstd::prelude::*;

use crate::types::{coord_ok, point_ok, rect_ok, Point, Rect};

verus! {

/// Twice the signed area of the triangle (a, b, p): positive when the three
/// points wind counter-clockwise.
pub open spec fn edge_val(ax: int, ay: int, bx: int, by: int, px: int, py: int) -> int {
    (bx - ax) * (py - ay) - (by - ay) * (px - ax)
}

/// The top-left classification of the directed edge from a to b: a exactly
/// horizontal edge going left, or any edge going down.
pub open spec fn edge_is_top_left(ax: int, ay: int, bx: int, by: int) -> bool {
    if ay == by {
        bx < ax
    } else {
        by < ay
    }
}

/// Whether the directed edge from a to b admits the point p: p lies strictly
/// inside the edge's positive half-plane, or on the edge itself when the edge
/// is top-left.
pub open spec fn edge_admits(ax: int, ay: int, bx: int, by: int, px: int, py: int) -> bool {
    edge_val(ax, ay, bx, by, px, py) > 0 || (edge_val(ax, ay, bx, by, px, py) == 0
        && edge_is_top_left(ax, ay, bx, by))
}

/// The sampling position of pixel index c along one axis: the pixel center,
/// in fixed-point units of one tenth of a pixel.
pub open spec fn center(c: int) -> int {
    10 * c + 5
}

/// A triangle's three vertices, in fixed-point units.
pub struct TriVerts {
    pub v0x: int,
    pub v0y: int,
    pub v1x: int,
    pub v1y: int,
    pub v2x: int,
    pub v2y: int,
}

pub open spec fn tri_from_points(v0: Point, v1: Point, v2: Point) -> TriVerts {
    TriVerts {
        v0x: v0.x as int,
        v0y: v0.y as int,
        v1x: v1.x as int,
        v1y: v1.y as int,
        v2x: v2.x as int,
        v2y: v2.y as int,
    }
}

/// Twice the signed area of the triangle.
pub open spec fn tri_area2(t: TriVerts) -> int {
    edge_val(t.v0x, t.v0y, t.v1x, t.v1y, t.v2x, t.v2y)
}

/// The triangle with the winding the rasterizer works on: clockwise input has
/// its last two vertices swapped, so the area is never negative.
pub open spec fn normalize_ccw(t: TriVerts) -> TriVerts {
    if tri_area2(t) < 0 {
        TriVerts {
            v0x: t.v0x,
            v0y: t.v0y,
            v1x: t.v2x,
            v1y: t.v2y,
            v2x: t.v1x,
            v2y: t.v1y,
        }
    } else {
        t
    }
}

pub open spec fn tri_ok(t: TriVerts) -> bool {
    coord_ok(t.v0x) && coord_ok(t.v0y) && coord_ok(t.v1x) && coord_ok(t.v1y) && coord_ok(t.v2x)
        && coord_ok(t.v2y)
}

/// Whether the (counter-clockwise) triangle covers the pixel with index
/// (px, py): all three directed edges admit the pixel's center.
pub open spec fn pixel_covered(t: TriVerts, px: int, py: int) -> bool {
    edge_admits(t.v1x, t.v1y, t.v2x, t.v2y, center(px), center(py)) && edge_admits(
        t.v2x,
        t.v2y,
        t.v0x,
        t.v0y,
        center(px),
        center(py),
    ) && edge_admits(t.v0x, t.v0y, t.v1x, t.v1y, center(px), center(py))
}

pub open spec fn imin(a: int, b: int) -> int {
    if a <= b {
        a
    } else {
        b
    }
}

pub open spec fn imax(a: int, b: int) -> int {
    if a >= b {
        a
    } else {
        b
    }
}

pub open spec fn imin3(a: int, b: int, c: int) -> int {
    imin(imin(a, b), c)
}

pub open spec fn imax3(a: int, b: int, c: int) -> int {
    imax(imax(a, b), c)
}

/// Fixed-point coordinate to pixel index, rounding down.
pub open spec fn pixel_floor(a: int) -> int {
    a / 10
}

/// Fixed-point coordinate to pixel index, rounding up.
pub open spec fn pixel_ceil(a: int) -> int {
    (a + 9) / 10
}

/// First pixel column the rasterizer scans: the triangle's leftmost column,
/// clamped by the clip region.
pub open spec fn box_min_x(t: TriVerts, clip: Rect) -> int {
    imax(pixel_floor(imin3(t.v0x, t.v1x, t.v2x)), pixel_ceil(clip.min.x as int))
}

pub open spec fn box_min_y(t: TriVerts, clip: Rect) -> int {
    imax(pixel_floor(imin3(t.v0y, t.v1y, t.v2y)), pixel_ceil(clip.min.y as int))
}

/// One past the last pixel column the rasterizer scans; never below
/// box_min_x, so an empty box stays empty rather than inverted.
pub open spec fn box_max_x(t: TriVerts, clip: Rect) -> int {
    imax(
        imin(pixel_ceil(imax3(t.v0x, t.v1x, t.v2x)), pixel_floor(clip.max.x as int)),
        box_min_x(t, clip),
    )
}

pub open spec fn box_max_y(t: TriVerts, clip: Rect) -> int {
    imax(
        imin(pixel_ceil(imax3(t.v0y, t.v1y, t.v2y)), pixel_floor(clip.max.y as int)),
        box_min_y(t, clip),
    )
}

/// Scan order over pixel indices: row-major, top row first.
pub open spec fn scan_le(ax: int, ay: int, bx: int, by: int) -> bool {
    ay < by || (ay == by && ax <= bx)
}

pub open spec fn scan_lt(ax: int, ay: int, bx: int, by: int) -> bool {
    ay < by || (ay == by && ax < bx)
}

/// No pixel of the scan box whose position is at or after (sx, sy) and
/// strictly before (ex, ey), in scan order, is covered by the triangle.
pub open spec fn none_covered_in_scan(
    t: TriVerts,
    minx: int,
    maxx: int,
    maxy: int,
    sx: int,
    sy: int,
    ex: int,
    ey: int,
) -> bool {
    forall|px: int, py: int|
        minx <= px < maxx && py < maxy && scan_le(sx, sy, px, py) && scan_lt(px, py, ex, ey)
            ==> !(#[trigger] pixel_covered(t, px, py))
}

/// At every point of the plane, the three edge values of a triangle sum to
/// twice its signed area. For a covered pixel the three values are therefore
/// exact barycentric numerators with denominator tri_area2: the barycentric
/// weights of every rasterized pixel sum to exactly one.
pub proof fn lemma_barycentric_sum(t: TriVerts, px: int, py: int)
    by (nonlinear_arith)
    ensures
        edge_val(t.v1x, t.v1y, t.v2x, t.v2y, px, py) + edge_val(
            t.v2x,
            t.v2y,
            t.v0x,
            t.v0y,
            px,
            py,
        ) + edge_val(t.v0x, t.v0y, t.v1x, t.v1y, px, py) == tri_area2(t),
{
}

/// Reversing a directed edge negates its edge value everywhere.
pub proof fn lemma_edge_reversal(ax: int, ay: int, bx: int, by: int, px: int, py: int)
    by (nonlinear_arith)
    ensures
        edge_val(bx, by, ax, ay, px, py) == -edge_val(ax, ay, bx, by, px, py),
{
}

/// No point is admitted by a directed edge and by its reversal: the edge
/// values have opposite signs, and the top-left rule holds for at most one
/// of the two directions.
pub proof fn lemma_edge_reversal_excludes(ax: int, ay: int, bx: int, by: int, px: int, py: int)
    ensures
        !(edge_admits(ax, ay, bx, by, px, py) && edge_admits(bx, by, ax, ay, px, py)),
{
    lemma_edge_reversal(ax, ay, bx, by, px, py);
}

/// Coverage does not depend on which vertex of the triangle is listed first.
pub proof fn lemma_covered_rotation(t: TriVerts, px: int, py: int)
    ensures
        pixel_covered(t, px, py) == pixel_covered(
            TriVerts {
                v0x: t.v1x,
                v0y: t.v1y,
                v1x: t.v2x,
                v1y: t.v2y,
                v2x: t.v0x,
                v2y: t.v0y,
            },
            px,
            py,
        ),
{
}

/// Partition of a shared boundary: two triangles whose first edges are the
/// same segment walked in opposite directions never both cover a pixel.
/// With [`lemma_covered_rotation`] this applies to any pair of triangles
/// sharing an edge with matching endpoints and consistent winding: no pixel
/// is ever drawn twice along the seam.
pub proof fn lemma_shared_edge_disjoint(t1: TriVerts, t2: TriVerts, px: int, py: int)
    requires
        t1.v0x == t2.v1x,
        t1.v0y == t2.v1y,
        t1.v1x == t2.v0x,
        t1.v1y == t2.v0y,
    ensures
        !(pixel_covered(t1, px, py) && pixel_covered(t2, px, py)),
{
    lemma_edge_reversal_excludes(t1.v0x, t1.v0y, t1.v1x, t1.v1y, center(px), center(py));
}

/// No gap along a shared boundary either: when a pixel's center lies exactly
/// on the shared segment and the remaining edges of both triangles admit it,
/// exactly one of the two triangles covers it — the top-left rule holds for
/// exactly one direction of a real segment.
pub proof fn lemma_shared_edge_no_gap(t1: TriVerts, t2: TriVerts, px: int, py: int)
    requires
        t1.v0x == t2.v1x,
        t1.v0y == t2.v1y,
        t1.v1x == t2.v0x,
        t1.v1y == t2.v0y,
        t1.v0x != t1.v1x || t1.v0y != t1.v1y,
        edge_val(t1.v0x, t1.v0y, t1.v1x, t1.v1y, center(px), center(py)) == 0,
        edge_admits(t1.v1x, t1.v1y, t1.v2x, t1.v2y, center(px), center(py)),
        edge_admits(t1.v2x, t1.v2y, t1.v0x, t1.v0y, center(px), center(py)),
        edge_admits(t2.v1x, t2.v1y, t2.v2x, t2.v2y, center(px), center(py)),
        edge_admits(t2.v2x, t2.v2y, t2.v0x, t2.v0y, center(px), center(py)),
    ensures
        pixel_covered(t1, px, py) != pixel_covered(t2, px, py),
{
    lemma_edge_reversal(t1.v0x, t1.v0y, t1.v1x, t1.v1y, center(px), center(py));
}

/// A triangle of zero area covers no pixel: its edge values sum to zero at
/// every point, so coverage would need all three to be zero with all three
/// edges top-left, and the top-left rule cannot hold around a full cycle.
pub proof fn lemma_degenerate_covers_nothing(t: TriVerts, px: int, py: int)
    requires
        tri_area2(t) == 0,
    ensures
        !pixel_covered(t, px, py),
{
    lemma_barycentric_sum(t, center(px), center(py));
}

/// Swapping the last two vertices negates the doubled signed area.
proof fn lemma_area_swap(v0: Point, v1: Point, v2: Point)
    by (nonlinear_arith)
    ensures
        tri_area2(tri_from_points(v0, v2, v1)) == -tri_area2(tri_from_points(v0, v1, v2)),
{
}

/// Moving the sample point one pixel to the right changes an edge value by
/// ten times the edge's downward slope component.
proof fn lemma_edge_step_x(ax: int, ay: int, bx: int, by: int, px: int, py: int)
    by (nonlinear_arith)
    ensures
        edge_val(ax, ay, bx, by, px + 10, py) == edge_val(ax, ay, bx, by, px, py) + 10 * (ay - by),
{
}

/// Moving the sample point one pixel down changes an edge value by ten times
/// the edge's rightward component.
proof fn lemma_edge_step_y(ax: int, ay: int, bx: int, by: int, px: int, py: int)
    by (nonlinear_arith)
    ensures
        edge_val(ax, ay, bx, by, px, py + 10) == edge_val(ax, ay, bx, by, px, py) + 10 * (bx - ax),
{
}

/// Edge values stay well within the 64-bit range for bounded coordinates.
proof fn lemma_edge_bound(ax: int, ay: int, bx: int, by: int, px: int, py: int)
    by (nonlinear_arith)
    requires
        coord_ok(ax),
        coord_ok(ay),
        coord_ok(bx),
        coord_ok(by),
        -0x2200_0000 <= px <= 0x2200_0000,
        -0x2200_0000 <= py <= 0x2200_0000,
    ensures
        -0x1000_0000_0000_0000 <= edge_val(ax, ay, bx, by, px, py) <= 0x1000_0000_0000_0000,
{
}

/// Division by ten, rounding toward negative infinity.
fn floor_div10(a: i32) -> (r: i32)
    requires
        -0x1000_0010 <= a <= 0x1000_0010,
    ensures
        r as int == pixel_floor(a as int),
        -0x200_0000 <= r as int <= 0x200_0000,
{
    if a >= 0 {
        let q: u32 = (a as u32) / 10;
        proof {
            lemma_fundamental_div_mod(a as int, 10);
        }
        q as i32
    } else {
        let q: u32 = ((9 - a) as u32) / 10;
        proof {
            lemma_fundamental_div_mod((9 - a) as int, 10);
            lemma_fundamental_div_mod_converse(
                a as int,
                10,
                -((9 - a) as int / 10),
                9 - ((9 - a) as int % 10),
            );
        }
        -(q as i32)
    }
}

/// Division by ten, rounding toward positive infinity.
fn ceil_div10(a: i32) -> (r: i32)
    requires
        -0x1000_0000 <= a <= 0x1000_0000,
    ensures
        r as int == pixel_ceil(a as int),
        -0x200_0000 <= r as int <= 0x200_0000,
{
    floor_div10(a + 9)
}

fn min_i32(a: i32, b: i32) -> (r: i32)
    ensures
        r as int == imin(a as int, b as int),
{
    if a <= b {
        a
    } else {
        b
    }
}

fn max_i32(a: i32, b: i32) -> (r: i32)
    ensures
        r as int == imax(a as int, b as int),
{
    if a >= b {
        a
    } else {
        b
    }
}

fn min3_i32(a: i32, b: i32, c: i32) -> (r: i32)
    ensures
        r as int == imin3(a as int, b as int, c as int),
{
    min_i32(min_i32(a, b), c)
}

fn max3_i32(a: i32, b: i32, c: i32) -> (r: i32)
    ensures
        r as int == imax3(a as int, b as int, c as int),
{
    max_i32(max_i32(a, b), c)
}

/// The edge value of the directed edge from a to b at the point p, computed
/// in 64-bit arithmetic.
fn edge_at(ax: i32, ay: i32, bx: i32, by: i32, px: i32, py: i32) -> (r: i64)
    requires
        coord_ok(ax as int),
        coord_ok(ay as int),
        coord_ok(bx as int),
        coord_ok(by as int),
        -0x2200_0000 <= px as int <= 0x2200_0000,
        -0x2200_0000 <= py as int <= 0x2200_0000,
    ensures
        r as int == edge_val(ax as int, ay as int, bx as int, by as int, px as int, py as int),
{
    let abx: i64 = bx as i64 - ax as i64;
    let aby: i64 = by as i64 - ay as i64;
    let apx: i64 = px as i64 - ax as i64;
    let apy: i64 = py as i64 - ay as i64;
    proof {
        assert(-0xC00_0000_0000_0000 <= abx * apy <= 0xC00_0000_0000_0000 && -0xC00_0000_0000_0000
            <= aby * apx <= 0xC00_0000_0000_0000) by (nonlinear_arith)
            requires
                -0x3300_0000 <= abx <= 0x3300_0000,
                -0x3300_0000 <= aby <= 0x3300_0000,
                -0x3300_0000 <= apx <= 0x3300_0000,
                -0x3300_0000 <= apy <= 0x3300_0000,
        ;
    }
    abx * apy - aby * apx
}

/// Twice the signed area of the triangle (a, b, c).
fn signed_area(a: Point, b: Point, c: Point) -> (r: i64)
    requires
        point_ok(a),
        point_ok(b),
        point_ok(c),
    ensures
        r as int == edge_val(a.x as int, a.y as int, b.x as int, b.y as int, c.x as int, c.y as int),
{
    edge_at(a.x, a.y, b.x, b.y, c.x, c.y)
}

/// Whether the directed edge from a to b is a top or a left edge.
fn is_top_left(a: Point, b: Point) -> (r: bool)
    ensures
        r == edge_is_top_left(a.x as int, a.y as int, b.x as int, b.y as int),
{
    if a.y == b.y {
        b.x < a.x
    } else {
        b.y < a.y
    }
}

/// One pixel the rasterizer yields: its pixel indices and the three exact
/// edge values at its center, the barycentric numerators over `area2`.
#[derive(Copy, Clone)]
pub struct TriangleRasterizedPixel {
    pub x: i32,
    pub y: i32,
    pub w0: i64,
    pub w1: i64,
    pub w2: i64,
    pub area2: i64,
}

/// Walks the covered pixels of a triangle within a clip region, row by row,
/// evaluating the three edge functions incrementally.
pub struct FillTriangleIter {
    minx: i32,
    miny: i32,
    maxx: i32,
    maxy: i32,
    ix: i32,
    iy: i32,
    a01: i64,
    a12: i64,
    a20: i64,
    b01: i64,
    b12: i64,
    b20: i64,
    w0_row: i64,
    w1_row: i64,
    w2_row: i64,
    w0: i64,
    w1: i64,
    w2: i64,
    b0: bool,
    b1: bool,
    b2: bool,
    area2: i64,
    tri: Ghost<TriVerts>,
}

impl FillTriangleIter {
    /// The triangle being rasterized, with counter-clockwise winding.
    pub closed spec fn verts(self) -> TriVerts {
        self.tri@
    }

    pub closed spec fn min_x(self) -> int {
        self.minx as int
    }

    pub closed spec fn min_y(self) -> int {
        self.miny as int
    }

    pub closed spec fn max_x(self) -> int {
        self.maxx as int
    }

    pub closed spec fn max_y(self) -> int {
        self.maxy as int
    }

    /// The scan position: the next candidate pixel's column and row.
    pub closed spec fn pos_x(self) -> int {
        self.ix as int
    }

    pub closed spec fn pos_y(self) -> int {
        self.iy as int
    }

    /// Twice the area of the rasterized triangle.
    pub closed spec fn area2_spec(self) -> int {
        self.area2 as int
    }

    pub closed spec fn wf(self) -> bool {
        let t = self.tri@;
        &&& tri_ok(t)
        &&& tri_area2(t) >= 0
        &&& self.area2 as int == tri_area2(t)
        &&& -0x200_0000 <= self.minx as int <= self.maxx as int <= 0x200_0001
        &&& -0x200_0000 <= self.miny as int <= self.maxy as int <= 0x200_0001
        &&& self.minx as int <= self.ix as int <= self.maxx as int
        &&& self.miny as int <= self.iy as int <= self.maxy as int
        &&& self.a01 as int == 10 * (t.v0y - t.v1y)
        &&& self.a12 as int == 10 * (t.v1y - t.v2y)
        &&& self.a20 as int == 10 * (t.v2y - t.v0y)
        &&& self.b01 as int == 10 * (t.v1x - t.v0x)
        &&& self.b12 as int == 10 * (t.v2x - t.v1x)
        &&& self.b20 as int == 10 * (t.v0x - t.v2x)
        &&& self.b0 == edge_is_top_left(t.v1x, t.v1y, t.v2x, t.v2y)
        &&& self.b1 == edge_is_top_left(t.v2x, t.v2y, t.v0x, t.v0y)
        &&& self.b2 == edge_is_top_left(t.v0x, t.v0y, t.v1x, t.v1y)
        &&& self.w0 as int == edge_val(
            t.v1x,
            t.v1y,
            t.v2x,
            t.v2y,
            center(self.ix as int),
            center(self.iy as int),
        )
        &&& self.w1 as int == edge_val(
            t.v2x,
            t.v2y,
            t.v0x,
            t.v0y,
            center(self.ix as int),
            center(self.iy as int),
        )
        &&& self.w2 as int == edge_val(
            t.v0x,
            t.v0y,
            t.v1x,
            t.v1y,
            center(self.ix as int),
            center(self.iy as int),
        )
        &&& self.w0_row as int == edge_val(
            t.v1x,
            t.v1y,
            t.v2x,
            t.v2y,
            center(self.minx as int),
            center(self.iy as int),
        )
        &&& self.w1_row as int == edge_val(
            t.v2x,
            t.v2y,
            t.v0x,
            t.v0y,
            center(self.minx as int),
            center(self.iy as int),
        )
        &&& self.w2_row as int == edge_val(
            t.v0x,
            t.v0y,
            t.v1x,
            t.v1y,
            center(self.minx as int),
            center(self.iy as int),
        )
    }

    /// Prepares the scan of one triangle against a clip region.
    ///
    /// The triangle's winding is normalized to counter-clockwise first, so
    /// either winding of the input is accepted; a degenerate triangle simply
    /// yields no pixels.
    pub fn new(v0: Point, v1: Point, v2: Point, clip: Rect) -> (it: FillTriangleIter)
        requires
            point_ok(v0),
            point_ok(v1),
            point_ok(v2),
            rect_ok(clip),
        ensures
            it.wf(),
            it.verts() == normalize_ccw(tri_from_points(v0, v1, v2)),
            it.area2_spec() == tri_area2(it.verts()),
            it.min_x() == box_min_x(it.verts(), clip),
            it.min_y() == box_min_y(it.verts(), clip),
            it.max_x() == box_max_x(it.verts(), clip),
            it.max_y() == box_max_y(it.verts(), clip),
            it.pos_x() == it.min_x(),
            it.pos_y() == it.min_y(),
    {
        let area = signed_area(v0, v1, v2);
        proof {
            lemma_edge_bound(
                v0.x as int,
                v0.y as int,
                v1.x as int,
                v1.y as int,
                v2.x as int,
                v2.y as int,
            );
        }
        let (u1, u2) = if area < 0 {
            (v2, v1)
        } else {
            (v1, v2)
        };
        let area2 = if area < 0 {
            -area
        } else {
            area
        };
        proof {
            lemma_area_swap(v0, v1, v2);
        }
        let ghost t = normalize_ccw(tri_from_points(v0, v1, v2));

        let minx = max_i32(floor_div10(min3_i32(v0.x, v1.x, v2.x)), ceil_div10(clip.min.x));
        let miny = max_i32(floor_div10(min3_i32(v0.y, v1.y, v2.y)), ceil_div10(clip.min.y));
        let maxx = max_i32(
            min_i32(ceil_div10(max3_i32(v0.x, v1.x, v2.x)), floor_div10(clip.max.x)),
            minx,
        );
        let maxy = max_i32(
            min_i32(ceil_div10(max3_i32(v0.y, v1.y, v2.y)), floor_div10(clip.max.y)),
            miny,
        );

        let cx = 10 * minx + 5;
        let cy = 10 * miny + 5;
        let w0 = edge_at(u1.x, u1.y, u2.x, u2.y, cx, cy);
        let w1 = edge_at(u2.x, u2.y, v0.x, v0.y, cx, cy);
        let w2 = edge_at(v0.x, v0.y, u1.x, u1.y, cx, cy);

        FillTriangleIter {
            minx,
            miny,
            maxx,
            maxy,
            ix: minx,
            iy: miny,
            a01: 10 * (v0.y as i64 - u1.y as i64),
            a12: 10 * (u1.y as i64 - u2.y as i64),
            a20: 10 * (u2.y as i64 - v0.y as i64),
            b01: 10 * (u1.x as i64 - v0.x as i64),
            b12: 10 * (u2.x as i64 - u1.x as i64),
            b20: 10 * (v0.x as i64 - u2.x as i64),
            w0_row: w0,
            w1_row: w1,
            w2_row: w2,
            w0,
            w1,
            w2,
            b0: is_top_left(u1, u2),
            b1: is_top_left(u2, v0),
            b2: is_top_left(v0, u1),
            area2,
            tri: Ghost(t),
        }
    }

    /// Hands out the next covered pixel in scan order, or None once the scan
    /// box is exhausted.
    ///
    /// A returned pixel is covered, lies in the scan box at or after the
    /// previous scan position, and nothing between the two is covered; its
    /// `w` fields are the exact edge values at the pixel center, each
    /// non-negative, summing to `area2`. A None return says that no covered
    /// pixel was left.
    pub fn next(&mut self) -> (r: Option<TriangleRasterizedPixel>)
        requires
            old(self).wf(),
        ensures
            final(self).wf(),
            final(self).verts() == old(self).verts(),
            final(self).min_x() == old(self).min_x(),
            final(self).min_y() == old(self).min_y(),
            final(self).max_x() == old(self).max_x(),
            final(self).max_y() == old(self).max_y(),
            final(self).area2_spec() == old(self).area2_spec(),
            match r {
                Some(p) => ({
                    let t = old(self).verts();
                    &&& old(self).min_x() <= p.x as int && (p.x as int) < old(self).max_x()
                    &&& old(self).min_y() <= p.y as int && (p.y as int) < old(self).max_y()
                    &&& scan_le(old(self).pos_x(), old(self).pos_y(), p.x as int, p.y as int)
                    &&& pixel_covered(t, p.x as int, p.y as int)
                    &&& p.w0 as int == edge_val(
                        t.v1x,
                        t.v1y,
                        t.v2x,
                        t.v2y,
                        center(p.x as int),
                        center(p.y as int),
                    )
                    &&& p.w1 as int == edge_val(
                        t.v2x,
                        t.v2y,
                        t.v0x,
                        t.v0y,
                        center(p.x as int),
                        center(p.y as int),
                    )
                    &&& p.w2 as int == edge_val(
                        t.v0x,
                        t.v0y,
                        t.v1x,
                        t.v1y,
                        center(p.x as int),
                        center(p.y as int),
                    )
                    &&& 0 <= p.w0 && 0 <= p.w1 && 0 <= p.w2
                    &&& p.area2 as int == old(self).area2_spec()
                    &&& p.w0 + p.w1 + p.w2 == p.area2
                    &&& none_covered_in_scan(
                        t,
                        old(self).min_x(),
                        old(self).max_x(),
                        old(self).max_y(),
                        old(self).pos_x(),
                        old(self).pos_y(),
                        p.x as int,
                        p.y as int,
                    )
                    &&& final(self).pos_x() == p.x as int + 1
                    &&& final(self).pos_y() == p.y as int
                }),
                None => ({
                    &&& none_covered_in_scan(
                        old(self).verts(),
                        old(self).min_x(),
                        old(self).max_x(),
                        old(self).max_y(),
                        old(self).pos_x(),
                        old(self).pos_y(),
                        old(self).min_x(),
                        old(self).max_y(),
                    )
                    &&& final(self).pos_y() == final(self).max_y()
                }),
            },
    {
        let ghost t = self.tri@;
        loop
            invariant
                self.wf(),
                self.tri@ == t,
                t == old(self).tri@,
                self.minx == old(self).minx,
                self.miny == old(self).miny,
                self.maxx == old(self).maxx,
                self.maxy == old(self).maxy,
                self.area2 == old(self).area2,
                scan_le(old(self).ix as int, old(self).iy as int, self.ix as int, self.iy as int),
                none_covered_in_scan(
                    t,
                    self.minx as int,
                    self.maxx as int,
                    self.maxy as int,
                    old(self).ix as int,
                    old(self).iy as int,
                    self.ix as int,
                    self.iy as int,
                ),
            decreases self.maxy as int - self.iy as int, self.maxx as int - self.ix as int,
        {
            if self.iy >= self.maxy {
                return None;
            }
            if self.ix >= self.maxx {
                let ghost oix = self.ix as int;
                let ghost oiy = self.iy as int;
                proof {
                    assert(oix >= self.maxx as int);
                    lemma_edge_step_y(
                        t.v1x,
                        t.v1y,
                        t.v2x,
                        t.v2y,
                        center(self.minx as int),
                        center(oiy),
                    );
                    lemma_edge_step_y(
                        t.v2x,
                        t.v2y,
                        t.v0x,
                        t.v0y,
                        center(self.minx as int),
                        center(oiy),
                    );
                    lemma_edge_step_y(
                        t.v0x,
                        t.v0y,
                        t.v1x,
                        t.v1y,
                        center(self.minx as int),
                        center(oiy),
                    );
                    lemma_edge_bound(
                        t.v1x,
                        t.v1y,
                        t.v2x,
                        t.v2y,
                        center(self.minx as int),
                        center(oiy + 1),
                    );
                    lemma_edge_bound(
                        t.v2x,
                        t.v2y,
                        t.v0x,
                        t.v0y,
                        center(self.minx as int),
                        center(oiy + 1),
                    );
                    lemma_edge_bound(
                        t.v0x,
                        t.v0y,
                        t.v1x,
                        t.v1y,
                        center(self.minx as int),
                        center(oiy + 1),
                    );
                }
                self.iy = self.iy + 1;
                self.w0_row = self.w0_row + self.b12;
                self.w1_row = self.w1_row + self.b20;
                self.w2_row = self.w2_row + self.b01;
                self.ix = self.minx;
                self.w0 = self.w0_row;
                self.w1 = self.w1_row;
                self.w2 = self.w2_row;
                proof {
                    assert forall|px: int, py: int|
                        self.minx as int <= px < self.maxx as int && py < self.maxy as int
                            && scan_le(old(self).ix as int, old(self).iy as int, px, py) && scan_lt(
                            px,
                            py,
                            self.ix as int,
                            self.iy as int,
                        ) implies !(pixel_covered(t, px, py)) by {
                        if scan_lt(px, py, oix, oiy) {
                            assert(!pixel_covered(t, px, py));
                        } else {
                            assert(false);
                        }
                    };
                }
            } else {
                let ix = self.ix;
                let iy = self.iy;
                let w0 = self.w0;
                let w1 = self.w1;
                let w2 = self.w2;
                proof {
                    lemma_edge_step_x(
                        t.v1x,
                        t.v1y,
                        t.v2x,
                        t.v2y,
                        center(ix as int),
                        center(iy as int),
                    );
                    lemma_edge_step_x(
                        t.v2x,
                        t.v2y,
                        t.v0x,
                        t.v0y,
                        center(ix as int),
                        center(iy as int),
                    );
                    lemma_edge_step_x(
                        t.v0x,
                        t.v0y,
                        t.v1x,
                        t.v1y,
                        center(ix as int),
                        center(iy as int),
                    );
                    lemma_edge_bound(
                        t.v1x,
                        t.v1y,
                        t.v2x,
                        t.v2y,
                        center(ix as int + 1),
                        center(iy as int),
                    );
                    lemma_edge_bound(
                        t.v2x,
                        t.v2y,
                        t.v0x,
                        t.v0y,
                        center(ix as int + 1),
                        center(iy as int),
                    );
                    lemma_edge_bound(
                        t.v0x,
                        t.v0y,
                        t.v1x,
                        t.v1y,
                        center(ix as int + 1),
                        center(iy as int),
                    );
                }
                self.ix = self.ix + 1;
                self.w0 = self.w0 + self.a12;
                self.w1 = self.w1 + self.a20;
                self.w2 = self.w2 + self.a01;

                if (w0 > 0 || self.b0 && w0 == 0) && (w1 > 0 || self.b1 && w1 == 0) && (w2 > 0
                    || self.b2 && w2 == 0) {
                    proof {
                        lemma_barycentric_sum(t, center(ix as int), center(iy as int));
                    }
                    return Some(
                        TriangleRasterizedPixel { x: ix, y: iy, w0, w1, w2, area2: self.area2 },
                    );
                }
                proof {
                    assert forall|px: int, py: int|
                        self.minx as int <= px < self.maxx as int && py < self.maxy as int
                            && scan_le(old(self).ix as int, old(self).iy as int, px, py) && scan_lt(
                            px,
                            py,
                            self.ix as int,
                            self.iy as int,
                        ) implies !(pixel_covered(t, px, py)) by {
                        if scan_lt(px, py, ix as int, iy as int) {
                            assert(!pixel_covered(t, px, py));
                        } else {
                            assert(px == ix as int && py == iy as int);
                            assert(!pixel_covered(t, px, py));
                        }
                    };
                }
            }
        }
    }
}

/// Rasterizes the triangle (a, b, c) against the pixel rectangle
/// [minx, maxx) x [miny, maxy).
///
/// Vertex coordinates are in fixed-point units, ten per pixel; the clip
/// bounds are whole pixel indices.
pub fn fill_triangle_iter(
    ax: i32,
    ay: i32,
    bx: i32,
    by: i32,
    cx: i32,
    cy: i32,
    minx: i32,
    miny: i32,
    maxx: i32,
    maxy: i32,
) -> (it: FillTriangleIter)
    requires
        coord_ok(ax as int),
        coord_ok(ay as int),
        coord_ok(bx as int),
        coord_ok(by as int),
        coord_ok(cx as int),
        coord_ok(cy as int),
        -0x100_0000 <= minx as int <= 0x100_0000,
        -0x100_0000 <= miny as int <= 0x100_0000,
        -0x100_0000 <= maxx as int <= 0x100_0000,
        -0x100_0000 <= maxy as int <= 0x100_0000,
    ensures
        ({
            let t = normalize_ccw(
                tri_from_points(
                    Point { x: ax, y: ay },
                    Point { x: bx, y: by },
                    Point { x: cx, y: cy },
                ),
            );
            let clip = Rect {
                min: Point { x: (10 * minx) as i32, y: (10 * miny) as i32 },
                max: Point { x: (10 * maxx) as i32, y: (10 * maxy) as i32 },
            };
            &&& it.wf()
            &&& it.verts() == t
            &&& it.area2_spec() == tri_area2(t)
            &&& it.min_x() == box_min_x(t, clip)
            &&& it.min_y() == box_min_y(t, clip)
            &&& it.max_x() == box_max_x(t, clip)
            &&& it.max_y() == box_max_y(t, clip)
            &&& it.pos_x() == it.min_x()
            &&& it.pos_y() == it.min_y()
        }),
{
    FillTriangleIter::new(
        Point::new(ax, ay),
        Point::new(bx, by),
        Point::new(cx, cy),
        Rect::new(Point::new(10 * minx, 10 * miny), Point::new(10 * maxx, 10 * maxy)),
    )
}

} // verus!
