//! An RGBA pixel frame: the destination the rasterizers draw into.
//!
//! Four bytes per pixel, row-major. Each drawing call says exactly which
//! pixels it colors and that it leaves every other pixel untouched, so a
//! whole frame's content follows from the sequence of calls that built it.

use vstd::arithmetic::div_mod::lemma_fundamental_div_mod_converse;
use vstd::prelude::*;

use crate::line::{line_point, line_point_count, LineIter};
use crate::triangle::{
    box_max_x, box_max_y, box_min_x, box_min_y, normalize_ccw, pixel_covered, scan_lt,
    tri_from_points, FillTriangleIter, TriVerts,
};
use crate::types::{coord_ok, point_ok, Point, Rect};

verus! {

/// The byte index of pixel (x, y)'s first channel: row-major, four bytes
/// (red, green, blue, alpha) per pixel.
pub open spec fn frame_index(width: int, x: int, y: int) -> int {
    4 * (y * width + x)
}

/// Whether the four bytes of pixel (x, y) hold the given color.
pub open spec fn pixel_has_color(
    data: Seq<u8>,
    width: int,
    x: int,
    y: int,
    red: u8,
    green: u8,
    blue: u8,
    alpha: u8,
) -> bool {
    let i = frame_index(width, x, y);
    &&& data[i] == red
    &&& data[i + 1] == green
    &&& data[i + 2] == blue
    &&& data[i + 3] == alpha
}

/// Whether pixel (x, y) holds the same four bytes in both byte sequences.
pub open spec fn pixel_unchanged(data: Seq<u8>, orig: Seq<u8>, width: int, x: int, y: int) -> bool {
    let i = frame_index(width, x, y);
    &&& data[i] == orig[i]
    &&& data[i + 1] == orig[i + 1]
    &&& data[i + 2] == orig[i + 2]
    &&& data[i + 3] == orig[i + 3]
}

/// The clip region of a width x height frame, in fixed-point units.
pub open spec fn frame_clip(width: int, height: int) -> Rect {
    Rect {
        min: Point { x: 0, y: 0 },
        max: Point { x: (10 * width) as i32, y: (10 * height) as i32 },
    }
}

/// Whether pixel (px, py) lies in the scan box of triangle t under clip.
pub open spec fn in_fill_box(t: TriVerts, clip: Rect, px: int, py: int) -> bool {
    &&& box_min_x(t, clip) <= px < box_max_x(t, clip)
    &&& box_min_y(t, clip) <= py < box_max_y(t, clip)
}

/// The per-pixel statement of a triangle fill that has painted every covered
/// pixel of the scan box strictly before scan position (ex, ey): such pixels
/// hold the fill color, every other pixel holds its original bytes.
pub open spec fn fill_pixel_ok(
    data: Seq<u8>,
    orig: Seq<u8>,
    width: int,
    t: TriVerts,
    clip: Rect,
    ex: int,
    ey: int,
    red: u8,
    green: u8,
    blue: u8,
    alpha: u8,
    px: int,
    py: int,
) -> bool {
    if pixel_covered(t, px, py) && in_fill_box(t, clip, px, py) && scan_lt(px, py, ex, ey) {
        pixel_has_color(data, width, px, py, red, green, blue, alpha)
    } else {
        pixel_unchanged(data, orig, width, px, py)
    }
}

/// Whether one of the first `upto` points of the line from (x0, y0) to
/// (x1, y1) is the pixel (px, py).
pub open spec fn on_line_prefix(
    x0: int,
    y0: int,
    x1: int,
    y1: int,
    upto: int,
    px: int,
    py: int,
) -> bool {
    exists|i: int|
        0 <= i < upto && #[trigger] line_point(x0, y0, x1, y1, i) == (px, py)
}

/// The per-pixel statement of a line draw that has handled the line's first
/// `upto` points: in-frame pixels among them hold the color, every other
/// pixel holds its original bytes.
pub open spec fn line_pixel_ok(
    data: Seq<u8>,
    orig: Seq<u8>,
    width: int,
    x0: int,
    y0: int,
    x1: int,
    y1: int,
    upto: int,
    red: u8,
    green: u8,
    blue: u8,
    alpha: u8,
    px: int,
    py: int,
) -> bool {
    if on_line_prefix(x0, y0, x1, y1, upto, px, py) {
        pixel_has_color(data, width, px, py, red, green, blue, alpha)
    } else {
        pixel_unchanged(data, orig, width, px, py)
    }
}

/// Distinct pixels own disjoint byte ranges.
proof fn lemma_frame_index_distinct(width: int, ax: int, ay: int, bx: int, by: int)
    by (nonlinear_arith)
    requires
        0 <= ax < width,
        0 <= bx < width,
        !(ax == bx && ay == by),
    ensures
        frame_index(width, ax, ay) + 3 < frame_index(width, bx, by) || frame_index(width, bx, by)
            + 3 < frame_index(width, ax, ay),
{
}

/// A pixel's byte range lies within the frame's byte length.
proof fn lemma_frame_index_in_range(width: int, height: int, x: int, y: int)
    by (nonlinear_arith)
    requires
        0 <= x < width <= 0x1000,
        0 <= y < height <= 0x1000,
    ensures
        0 <= y * width,
        frame_index(width, x, y) + 3 < 4 * (width * height),
        4 * (width * height) <= 0x400_0000,
{
}

/// Ten times a pixel count, floored back to pixels, is the count itself.
proof fn lemma_pixel_floor_exact(w: int)
    requires
        0 <= w,
    ensures
        (10 * w) / 10 == w,
{
    assert(10 * w == w * 10 + 0) by (nonlinear_arith);
    lemma_fundamental_div_mod_converse(10 * w, 10, w, 0);
}

/// A width x height grid of RGBA pixels.
pub struct Frame {
    width: usize,
    height: usize,
    data: Vec<u8>,
}

impl Frame {
    pub closed spec fn width_spec(self) -> int {
        self.width as int
    }

    pub closed spec fn height_spec(self) -> int {
        self.height as int
    }

    /// The pixel bytes, row-major, four per pixel.
    pub closed spec fn bytes(self) -> Seq<u8> {
        self.data@
    }

    pub closed spec fn wf(self) -> bool {
        &&& self.width <= 0x1000
        &&& self.height <= 0x1000
        &&& self.data@.len() == 4 * (self.width * self.height)
    }

    /// A fresh frame with every byte zero: transparent black.
    pub fn new(width: usize, height: usize) -> (f: Frame)
        requires
            width <= 0x1000,
            height <= 0x1000,
        ensures
            f.wf(),
            f.width_spec() == width,
            f.height_spec() == height,
            forall|i: int| 0 <= i < f.bytes().len() ==> f.bytes()[i] == 0,
    {
        proof {
            assert(4 * (width * height) <= 0x400_0000) by (nonlinear_arith)
                requires
                    width <= 0x1000,
                    height <= 0x1000,
            ;
        }
        let n = 4 * (width * height);
        let mut data: Vec<u8> = Vec::new();
        while data.len() < n
            invariant
                data@.len() <= n,
                n == 4 * (width * height),
                forall|i: int| 0 <= i < data@.len() ==> data@[i] == 0,
            decreases n - data.len(),
        {
            data.push(0);
        }
        Frame { width, height, data }
    }

    pub fn width(&self) -> (w: usize)
        ensures
            w as int == self.width_spec(),
    {
        self.width
    }

    pub fn height(&self) -> (h: usize)
        ensures
            h as int == self.height_spec(),
    {
        self.height
    }

    /// The color of pixel (x, y): red, green, blue, alpha.
    pub fn pixel(&self, x: usize, y: usize) -> (c: [u8; 4])
        requires
            self.wf(),
            x < self.width_spec(),
            y < self.height_spec(),
        ensures
            ({
                let i = frame_index(self.width_spec(), x as int, y as int);
                &&& c[0] == self.bytes()[i]
                &&& c[1] == self.bytes()[i + 1]
                &&& c[2] == self.bytes()[i + 2]
                &&& c[3] == self.bytes()[i + 3]
            }),
    {
        proof {
            lemma_frame_index_in_range(
                self.width as int,
                self.height as int,
                x as int,
                y as int,
            );
        }
        let i = 4 * (y * self.width + x);
        [self.data[i], self.data[i + 1], self.data[i + 2], self.data[i + 3]]
    }

    /// Writes the color of pixel (x, y) and touches nothing else.
    pub fn set_pixel(&mut self, x: usize, y: usize, red: u8, green: u8, blue: u8, alpha: u8)
        requires
            old(self).wf(),
            x < old(self).width_spec(),
            y < old(self).height_spec(),
        ensures
            final(self).wf(),
            final(self).width_spec() == old(self).width_spec(),
            final(self).height_spec() == old(self).height_spec(),
            ({
                let i = frame_index(old(self).width_spec(), x as int, y as int);
                final(self).bytes() == old(self).bytes().update(i, red).update(i + 1, green).update(
                    i + 2,
                    blue,
                ).update(i + 3, alpha)
            }),
    {
        proof {
            lemma_frame_index_in_range(
                self.width as int,
                self.height as int,
                x as int,
                y as int,
            );
        }
        let i = 4 * (y * self.width + x);
        self.data[i] = red;
        self.data[i + 1] = green;
        self.data[i + 2] = blue;
        self.data[i + 3] = alpha;
    }

    /// Fills one triangle, clipped to the frame: every covered pixel of the
    /// scan box gets the given color, every other pixel of the frame keeps
    /// its bytes.
    pub fn fill_triangle(
        &mut self,
        v0: Point,
        v1: Point,
        v2: Point,
        red: u8,
        green: u8,
        blue: u8,
        alpha: u8,
    )
        requires
            old(self).wf(),
            point_ok(v0),
            point_ok(v1),
            point_ok(v2),
        ensures
            final(self).wf(),
            final(self).width_spec() == old(self).width_spec(),
            final(self).height_spec() == old(self).height_spec(),
            ({
                let t = normalize_ccw(tri_from_points(v0, v1, v2));
                let clip = frame_clip(old(self).width_spec(), old(self).height_spec());
                forall|px: int, py: int|
                    0 <= px < old(self).width_spec() && 0 <= py < old(self).height_spec()
                        ==> #[trigger] fill_pixel_ok(
                        final(self).bytes(),
                        old(self).bytes(),
                        old(self).width_spec(),
                        t,
                        clip,
                        box_min_x(t, clip),
                        box_max_y(t, clip),
                        red,
                        green,
                        blue,
                        alpha,
                        px,
                        py,
                    )
            }),
    {
        let ghost t = normalize_ccw(tri_from_points(v0, v1, v2));
        let ghost w = self.width as int;
        let ghost h = self.height as int;
        let ghost orig = self.data@;
        let clip = Rect::new(
            Point::new(0, 0),
            Point::new(10 * (self.width as i32), 10 * (self.height as i32)),
        );
        proof {
            assert(clip == frame_clip(w, h));
        }
        let ghost clipg = frame_clip(w, h);
        let mut it = FillTriangleIter::new(v0, v1, v2, clip);
        loop
            invariant
                self.wf(),
                self.width as int == w,
                self.height as int == h,
                it.wf(),
                it.verts() == t,
                it.min_x() == box_min_x(t, clipg),
                it.min_y() == box_min_y(t, clipg),
                it.max_x() == box_max_x(t, clipg),
                it.max_y() == box_max_y(t, clipg),
                clipg == frame_clip(w, h),
                t == normalize_ccw(tri_from_points(v0, v1, v2)),
                orig == old(self).data@,
                w == old(self).width as int,
                h == old(self).height as int,
                forall|px: int, py: int|
                    0 <= px < w && 0 <= py < h ==> #[trigger] fill_pixel_ok(
                        self.data@,
                        orig,
                        w,
                        t,
                        clipg,
                        it.pos_x(),
                        it.pos_y(),
                        red,
                        green,
                        blue,
                        alpha,
                        px,
                        py,
                    ),
            decreases it.max_y() - it.pos_y(), it.max_x() - it.pos_x(),
        {
            let ghost pre_ex = it.pos_x();
            let ghost pre_ey = it.pos_y();
            let r = it.next();
            match r {
                Some(p) => {
                    proof {
                        lemma_pixel_floor_exact(w);
                        lemma_pixel_floor_exact(h);
                        assert(0 <= p.x as int && (p.x as int) < w);
                        assert(0 <= p.y as int && (p.y as int) < h);
                    }
                    let ghost pre = self.data@;
                    self.set_pixel(p.x as usize, p.y as usize, red, green, blue, alpha);
                    proof {
                        assert forall|px: int, py: int| 0 <= px < w && 0 <= py < h implies
                            #[trigger] fill_pixel_ok(
                            self.data@,
                            orig,
                            w,
                            t,
                            clipg,
                            it.pos_x(),
                            it.pos_y(),
                            red,
                            green,
                            blue,
                            alpha,
                            px,
                            py,
                        ) by {
                            assert(fill_pixel_ok(
                                pre,
                                orig,
                                w,
                                t,
                                clipg,
                                pre_ex,
                                pre_ey,
                                red,
                                green,
                                blue,
                                alpha,
                                px,
                                py,
                            ));
                            lemma_frame_index_in_range(w, h, px, py);
                            lemma_frame_index_in_range(w, h, p.x as int, p.y as int);
                            if px == p.x as int && py == p.y as int {
                                assert(pixel_has_color(
                                    self.data@,
                                    w,
                                    px,
                                    py,
                                    red,
                                    green,
                                    blue,
                                    alpha,
                                ));
                            } else {
                                lemma_frame_index_distinct(w, px, py, p.x as int, p.y as int);
                                assert(pixel_unchanged(self.data@, pre, w, px, py));
                                if pixel_covered(t, px, py) && in_fill_box(t, clipg, px, py)
                                    && scan_lt(px, py, it.pos_x(), it.pos_y()) {
                                    if !scan_lt(px, py, pre_ex, pre_ey) {
                                        assert(scan_lt(px, py, p.x as int, p.y as int));
                                        assert(!pixel_covered(t, px, py));
                                    }
                                }
                            }
                        };
                    }
                },
                None => {
                    proof {
                        assert forall|px: int, py: int| 0 <= px < w && 0 <= py < h implies
                            #[trigger] fill_pixel_ok(
                            self.data@,
                            orig,
                            w,
                            t,
                            clipg,
                            box_min_x(t, clipg),
                            box_max_y(t, clipg),
                            red,
                            green,
                            blue,
                            alpha,
                            px,
                            py,
                        ) by {
                            assert(fill_pixel_ok(
                                self.data@,
                                orig,
                                w,
                                t,
                                clipg,
                                pre_ex,
                                pre_ey,
                                red,
                                green,
                                blue,
                                alpha,
                                px,
                                py,
                            ));
                            if pixel_covered(t, px, py) && in_fill_box(t, clipg, px, py) {
                                if !scan_lt(px, py, pre_ex, pre_ey) {
                                    assert(!pixel_covered(t, px, py));
                                }
                            }
                        };
                    }
                    return ;
                },
            }
        }
    }

    /// Draws the line from pixel (x0, y0) to pixel (x1, y1): every point of
    /// the segment that lies inside the frame gets the given color, every
    /// other pixel of the frame keeps its bytes.
    pub fn draw_line(
        &mut self,
        x0: i32,
        y0: i32,
        x1: i32,
        y1: i32,
        red: u8,
        green: u8,
        blue: u8,
        alpha: u8,
    )
        requires
            old(self).wf(),
            coord_ok(x0 as int),
            coord_ok(y0 as int),
            coord_ok(x1 as int),
            coord_ok(y1 as int),
        ensures
            final(self).wf(),
            final(self).width_spec() == old(self).width_spec(),
            final(self).height_spec() == old(self).height_spec(),
            forall|px: int, py: int|
                0 <= px < old(self).width_spec() && 0 <= py < old(self).height_spec()
                    ==> #[trigger] line_pixel_ok(
                    final(self).bytes(),
                    old(self).bytes(),
                    old(self).width_spec(),
                    x0 as int,
                    y0 as int,
                    x1 as int,
                    y1 as int,
                    line_point_count(x0 as int, y0 as int, x1 as int, y1 as int),
                    red,
                    green,
                    blue,
                    alpha,
                    px,
                    py,
                ),
    {
        let ghost w = self.width as int;
        let ghost h = self.height as int;
        let ghost orig = self.data@;
        let ghost count = line_point_count(x0 as int, y0 as int, x1 as int, y1 as int);
        let mut it = LineIter::new(x0, y0, x1, y1);
        loop
            invariant
                self.wf(),
                self.width as int == w,
                self.height as int == h,
                it.wf(),
                it.start() == (x0 as int, y0 as int, x1 as int, y1 as int),
                0 <= it.emitted() <= count,
                count == line_point_count(x0 as int, y0 as int, x1 as int, y1 as int),
                orig == old(self).data@,
                w == old(self).width as int,
                h == old(self).height as int,
                forall|px: int, py: int|
                    0 <= px < w && 0 <= py < h ==> #[trigger] line_pixel_ok(
                        self.data@,
                        orig,
                        w,
                        x0 as int,
                        y0 as int,
                        x1 as int,
                        y1 as int,
                        it.emitted(),
                        red,
                        green,
                        blue,
                        alpha,
                        px,
                        py,
                    ),
            decreases count - it.emitted(),
        {
            let ghost i = it.emitted();
            let r = it.next();
            match r {
                Some(p) => {
                    let px = p[0];
                    let py = p[1];
                    let ghost pre = self.data@;
                    let inside = px >= 0 && py >= 0 && (px as usize) < self.width && (py as usize)
                        < self.height;
                    if inside {
                        self.set_pixel(px as usize, py as usize, red, green, blue, alpha);
                    }
                    proof {
                        assert forall|qx: int, qy: int| 0 <= qx < w && 0 <= qy < h implies
                            #[trigger] line_pixel_ok(
                            self.data@,
                            orig,
                            w,
                            x0 as int,
                            y0 as int,
                            x1 as int,
                            y1 as int,
                            it.emitted(),
                            red,
                            green,
                            blue,
                            alpha,
                            qx,
                            qy,
                        ) by {
                            assert(line_pixel_ok(
                                pre,
                                orig,
                                w,
                                x0 as int,
                                y0 as int,
                                x1 as int,
                                y1 as int,
                                i,
                                red,
                                green,
                                blue,
                                alpha,
                                qx,
                                qy,
                            ));
                            let hit = qx == px as int && qy == py as int;
                            lemma_frame_index_in_range(w, h, qx, qy);
                            if inside {
                                lemma_frame_index_in_range(w, h, px as int, py as int);
                            }
                            if inside && hit {
                                assert(line_point(x0 as int, y0 as int, x1 as int, y1 as int, i)
                                    == (qx, qy));
                                assert(on_line_prefix(
                                    x0 as int,
                                    y0 as int,
                                    x1 as int,
                                    y1 as int,
                                    i + 1,
                                    qx,
                                    qy,
                                ));
                                assert(pixel_has_color(self.data@, w, qx, qy, red, green, blue, alpha));
                            } else {
                                if inside {
                                    lemma_frame_index_distinct(w, qx, qy, px as int, py as int);
                                }
                                assert(pixel_unchanged(self.data@, pre, w, qx, qy));
                                if on_line_prefix(
                                    x0 as int,
                                    y0 as int,
                                    x1 as int,
                                    y1 as int,
                                    i + 1,
                                    qx,
                                    qy,
                                ) {
                                    let j = choose|j: int|
                                        0 <= j < i + 1 && #[trigger] line_point(
                                            x0 as int,
                                            y0 as int,
                                            x1 as int,
                                            y1 as int,
                                            j,
                                        ) == (qx, qy);
                                    if j == i {
                                        assert(qx == px as int && qy == py as int);
                                        assert(inside);
                                        assert(false);
                                    } else {
                                        assert(on_line_prefix(
                                            x0 as int,
                                            y0 as int,
                                            x1 as int,
                                            y1 as int,
                                            i,
                                            qx,
                                            qy,
                                        ));
                                    }
                                }
                            }
                        };
                    }
                },
                None => {
                    return ;
                },
            }
        }
    }
}

} // verus!
