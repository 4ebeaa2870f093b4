use vstd::arithmetic::div_mod::{
    lemma_fundamental_div_mod, lemma_fundamental_div_mod_converse, lemma_mod_bound,
};
use vstd::prelude::*;

use crate::types::coord_ok;

verus! {

/// Absolute value of a mathematical integer.
pub open spec fn iabs(a: int) -> int {
    if a < 0 {
        -a
    } else {
        a
    }
}

/// Direction of travel along one axis: -1 for a negative delta, else 1.
pub open spec fn istep(a: int) -> int {
    if a < 0 {
        -1
    } else {
        1
    }
}

/// How many points the rasterized segment from (x0, y0) to (x1, y1) has:
/// one per unit step along the major axis, both endpoints included.
pub open spec fn line_point_count(x0: int, y0: int, x1: int, y1: int) -> int {
    let dx = iabs(x1 - x0);
    let dy = iabs(y1 - y0);
    (if dx > dy {
        dx
    } else {
        dy
    }) + 1
}

/// Offset along the minor axis after `i` unit steps along the major axis,
/// where `dmaj` and `dmin` are the absolute deltas of the two axes.
///
/// The exact crossing `i * dmin / dmaj` is rounded to the nearest integer.
/// A half-way tie rounds down when the major axis moves in its positive
/// direction and up when it moves in its negative one, so that a segment
/// walked backwards visits exactly the same points in reverse order.
pub open spec fn minor_offset(dmaj: int, dmin: int, i: int, major_positive: bool) -> int {
    if major_positive {
        (2 * i * dmin + dmaj - 1) / (2 * dmaj)
    } else {
        (2 * i * dmin + dmaj) / (2 * dmaj)
    }
}

/// The i-th point of the rasterized segment from (x0, y0) to (x1, y1),
/// meaningful for 0 <= i < line_point_count(x0, y0, x1, y1).
pub open spec fn line_point(x0: int, y0: int, x1: int, y1: int, i: int) -> (int, int) {
    let dx = iabs(x1 - x0);
    let dy = iabs(y1 - y0);
    let sx = istep(x1 - x0);
    let sy = istep(y1 - y0);
    if i == 0 {
        (x0, y0)
    } else if dx > dy {
        (x0 + sx * i, y0 + sy * minor_offset(dx, dy, i, sx > 0))
    } else {
        (x0 + sx * minor_offset(dy, dx, i, sy > 0), y0 + sy * i)
    }
}

/// The two-sided bound that pins the minor-axis offset after `i` major steps
/// to a single value: the rounding window around `i * dmin / dmaj`.
spec fn offset_bounds(dmaj: int, dmin: int, i: int, k: int, major_positive: bool) -> bool {
    if major_positive {
        (2 * k - 1) * dmaj < 2 * i * dmin <= (2 * k + 1) * dmaj
    } else {
        (2 * k - 1) * dmaj <= 2 * i * dmin < (2 * k + 1) * dmaj
    }
}

/// An offset within the rounding window is the rounded value itself.
proof fn lemma_offset_bounds_unique(dmaj: int, dmin: int, i: int, k: int, major_positive: bool)
    requires
        0 < dmaj,
        0 <= dmin,
        0 <= i,
        offset_bounds(dmaj, dmin, i, k, major_positive),
    ensures
        k == minor_offset(dmaj, dmin, i, major_positive),
{
    if major_positive {
        let x = 2 * i * dmin + dmaj - 1;
        let r = x - 2 * dmaj * k;
        assert(0 <= r < 2 * dmaj && x == k * (2 * dmaj) + r) by (nonlinear_arith)
            requires
                0 < dmaj,
                (2 * k - 1) * dmaj < 2 * i * dmin <= (2 * k + 1) * dmaj,
                x == 2 * i * dmin + dmaj - 1,
                r == x - 2 * dmaj * k,
        ;
        lemma_fundamental_div_mod_converse(x, 2 * dmaj, k, r);
    } else {
        let x = 2 * i * dmin + dmaj;
        let r = x - 2 * dmaj * k;
        assert(0 <= r < 2 * dmaj && x == k * (2 * dmaj) + r) by (nonlinear_arith)
            requires
                0 < dmaj,
                (2 * k - 1) * dmaj <= 2 * i * dmin < (2 * k + 1) * dmaj,
                x == 2 * i * dmin + dmaj,
                r == x - 2 * dmaj * k,
        ;
        lemma_fundamental_div_mod_converse(x, 2 * dmaj, k, r);
    }
}

/// The rounded offset sits in its own rounding window.
proof fn lemma_offset_window(dmaj: int, dmin: int, i: int, major_positive: bool)
    requires
        0 < dmaj,
        0 <= dmin,
        0 <= i,
    ensures
        offset_bounds(dmaj, dmin, i, minor_offset(dmaj, dmin, i, major_positive), major_positive),
{
    let x = if major_positive {
        2 * i * dmin + dmaj - 1
    } else {
        2 * i * dmin + dmaj
    };
    let q = x / (2 * dmaj);
    lemma_fundamental_div_mod(x, 2 * dmaj);
    lemma_mod_bound(x, 2 * dmaj);
    assert(offset_bounds(dmaj, dmin, i, q, major_positive)) by (nonlinear_arith)
        requires
            0 < dmaj,
            x == if major_positive {
                2 * i * dmin + dmaj - 1
            } else {
                2 * i * dmin + dmaj
            },
            x == 2 * dmaj * q + x % (2 * dmaj),
            0 <= x % (2 * dmaj) < 2 * dmaj,
    ;
}

/// Reversal of the walk mirrors the offset: after `i` steps of the backward
/// walk the offset is the full minor delta less the offset the forward walk
/// has after the remaining steps. The flipped tie-break direction makes the
/// mirror exact.
proof fn lemma_offset_reverse(dmaj: int, dmin: int, i: int, major_positive: bool)
    requires
        0 < dmaj,
        0 <= dmin,
        0 <= i <= dmaj,
    ensures
        minor_offset(dmaj, dmin, i, !major_positive) == dmin - minor_offset(
            dmaj,
            dmin,
            dmaj - i,
            major_positive,
        ),
{
    lemma_offset_window(dmaj, dmin, dmaj - i, major_positive);
    let k = minor_offset(dmaj, dmin, dmaj - i, major_positive);
    assert(offset_bounds(dmaj, dmin, i, dmin - k, !major_positive)) by (nonlinear_arith)
        requires
            0 < dmaj,
            offset_bounds(dmaj, dmin, dmaj - i, k, major_positive),
    ;
    lemma_offset_bounds_unique(dmaj, dmin, i, dmin - k, !major_positive);
}

/// One step of the decision variable: with offset `k` after `i` steps and
/// decision value `2*(i+1)*dmin - (2*k+1)*dmaj`, the straight move keeps the
/// offset and the diagonal move advances it, and either way the new offset
/// again sits in its rounding window.
proof fn lemma_offset_step(dmaj: int, dmin: int, i: int, k: int, major_positive: bool)
    by (nonlinear_arith)
    requires
        0 < dmaj,
        0 <= dmin <= dmaj,
        0 <= i,
        offset_bounds(dmaj, dmin, i, k, major_positive),
    ensures
        ({
            let d = 2 * (i + 1) * dmin - (2 * k + 1) * dmaj;
            let straight = if major_positive {
                d <= 0
            } else {
                d < 0
            };
            if straight {
                offset_bounds(dmaj, dmin, i + 1, k, major_positive)
            } else {
                offset_bounds(dmaj, dmin, i + 1, k + 1, major_positive)
            }
        }),
{
}

/// The offset never leaves [0, dmin + 1] while the walk is in progress.
proof fn lemma_offset_in_range(dmaj: int, dmin: int, i: int, k: int, major_positive: bool)
    by (nonlinear_arith)
    requires
        0 < dmaj,
        0 <= dmin <= dmaj,
        0 <= i <= dmaj + 1,
        offset_bounds(dmaj, dmin, i, k, major_positive),
    ensures
        0 <= k <= dmin + 1,
{
}

/// The decision value stays within (-2*dmaj, 2*dmin] while its offset sits
/// in the rounding window.
proof fn lemma_decision_in_range(dmaj: int, dmin: int, i: int, k: int, major_positive: bool)
    by (nonlinear_arith)
    requires
        0 < dmaj,
        0 <= dmin <= dmaj,
        0 <= i,
        offset_bounds(dmaj, dmin, i, k, major_positive),
    ensures
        -2 * dmaj <= 2 * (i + 1) * dmin - (2 * k + 1) * dmaj <= 2 * dmin,
{
}

/// A line walk starts at its first endpoint and ends at its second.
pub proof fn lemma_line_endpoints(x0: int, y0: int, x1: int, y1: int)
    ensures
        line_point(x0, y0, x1, y1, 0) == (x0, y0),
        line_point(x0, y0, x1, y1, line_point_count(x0, y0, x1, y1) - 1) == (x1, y1),
{
    let dx = iabs(x1 - x0);
    let dy = iabs(y1 - y0);
    let sx = istep(x1 - x0);
    let sy = istep(y1 - y0);
    let dmaj = if dx > dy {
        dx
    } else {
        dy
    };
    let dmin = if dx > dy {
        dy
    } else {
        dx
    };
    let pos = if dx > dy {
        sx > 0
    } else {
        sy > 0
    };
    if dmaj > 0 {
        if pos {
            assert((2 * dmin - 1) * dmaj < 2 * dmaj * dmin <= (2 * dmin + 1) * dmaj)
                by (nonlinear_arith)
                requires
                    0 < dmaj,
                    0 <= dmin,
            ;
        } else {
            assert((2 * dmin - 1) * dmaj <= 2 * dmaj * dmin < (2 * dmin + 1) * dmaj)
                by (nonlinear_arith)
                requires
                    0 < dmaj,
                    0 <= dmin,
            ;
        }
        assert(offset_bounds(dmaj, dmin, dmaj, dmin, pos));
        lemma_offset_bounds_unique(dmaj, dmin, dmaj, dmin, pos);
        assert(sx * dx == x1 - x0 && sy * dy == y1 - y0) by (nonlinear_arith)
            requires
                (sx == 1 && dx == x1 - x0) || (sx == -1 && dx == x0 - x1),
                (sy == 1 && dy == y1 - y0) || (sy == -1 && dy == y0 - y1),
        ;
    }
}

/// Walking a segment backwards visits exactly the same points, in reverse
/// order: the flipped half-way tie-break of [`minor_offset`] mirrors the
/// forward walk exactly.
pub proof fn lemma_line_reverse(x0: int, y0: int, x1: int, y1: int, i: int)
    requires
        0 <= i < line_point_count(x0, y0, x1, y1),
    ensures
        line_point(x1, y1, x0, y0, i) == line_point(
            x0,
            y0,
            x1,
            y1,
            line_point_count(x0, y0, x1, y1) - 1 - i,
        ),
{
    let dx = iabs(x1 - x0);
    let dy = iabs(y1 - y0);
    let sxf = istep(x1 - x0);
    let syf = istep(y1 - y0);
    let sxr = istep(x0 - x1);
    let syr = istep(y0 - y1);
    let dmaj = if dx > dy {
        dx
    } else {
        dy
    };
    if i == 0 {
        lemma_line_endpoints(x0, y0, x1, y1);
    } else if i == dmaj {
        lemma_line_endpoints(x1, y1, x0, y0);
    } else {
        if dx > dy {
            // the x axis really moves, so the backward x sign is opposite
            lemma_offset_reverse(dx, dy, i, sxf > 0);
            let kf = minor_offset(dx, dy, dx - i, sxf > 0);
            let kr = minor_offset(dx, dy, i, sxr > 0);
            assert(sxr == -sxf);
            assert((sxr > 0) == !(sxf > 0));
            assert(kr == dy - kf);
            assert(sxf * dx == x1 - x0) by (nonlinear_arith)
                requires
                    (sxf == 1 && dx == x1 - x0) || (sxf == -1 && dx == x0 - x1),
            ;
            assert(sxr * i == -(sxf * i) && sxf * (dx - i) == sxf * dx - sxf * i)
                by (nonlinear_arith)
                requires
                    sxr == -sxf,
            ;
            if dy == 0 {
                // horizontal: both offsets are zero and the rows agree
                assert(offset_bounds(dx, 0, dx - i, 0, sxf > 0)) by (nonlinear_arith)
                    requires
                        0 < dx,
                ;
                lemma_offset_bounds_unique(dx, 0, dx - i, 0, sxf > 0);
                assert(syr * kr == 0 && syf * kf == 0) by (nonlinear_arith)
                    requires
                        kr == 0,
                        kf == 0,
                ;
            } else {
                assert(syr == -syf);
                assert(syf * dy == y1 - y0) by (nonlinear_arith)
                    requires
                        (syf == 1 && dy == y1 - y0) || (syf == -1 && dy == y0 - y1),
                ;
                assert(syr * kr == -(syf * dy) + syf * kf) by (nonlinear_arith)
                    requires
                        syr == -syf,
                        kr == dy - kf,
                ;
            }
        } else {
            // the y axis really moves, so the backward y sign is opposite
            lemma_offset_reverse(dy, dx, i, syf > 0);
            let kf = minor_offset(dy, dx, dy - i, syf > 0);
            let kr = minor_offset(dy, dx, i, syr > 0);
            assert(syr == -syf);
            assert((syr > 0) == !(syf > 0));
            assert(kr == dx - kf);
            assert(syf * dy == y1 - y0) by (nonlinear_arith)
                requires
                    (syf == 1 && dy == y1 - y0) || (syf == -1 && dy == y0 - y1),
            ;
            assert(syr * i == -(syf * i) && syf * (dy - i) == syf * dy - syf * i)
                by (nonlinear_arith)
                requires
                    syr == -syf,
            ;
            if dx == 0 {
                // vertical: both offsets are zero and the columns agree
                assert(offset_bounds(dy, 0, dy - i, 0, syf > 0)) by (nonlinear_arith)
                    requires
                        0 < dy,
                ;
                lemma_offset_bounds_unique(dy, 0, dy - i, 0, syf > 0);
                assert(sxr * kr == 0 && sxf * kf == 0) by (nonlinear_arith)
                    requires
                        kr == 0,
                        kf == 0,
                ;
            } else {
                assert(sxr == -sxf);
                assert(sxf * dx == x1 - x0) by (nonlinear_arith)
                    requires
                        (sxf == 1 && dx == x1 - x0) || (sxf == -1 && dx == x0 - x1),
                ;
                assert(sxr * kr == -(sxf * dx) + sxf * kf) by (nonlinear_arith)
                    requires
                        sxr == -sxf,
                        kr == dx - kf,
                ;
            }
        }
    }
}

/// Ghost record of the segment being walked and of the walk's progress.
struct LineProgress {
    x0: int,
    y0: int,
    x1: int,
    y1: int,
    emitted: int,
}

/// Walks the points of a line segment: Bresenham stepping along the major
/// axis, driven by an integer decision variable.
pub struct LineIter {
    x: i32,
    y: i32,
    dx: i32,
    dy: i32,
    n: i32,
    inc_x: i32,
    inc_y: i32,
    inc_e: i32,
    inc_ne: i32,
    d: i32,
    progress: Ghost<LineProgress>,
}

impl LineIter {
    /// The endpoints this iterator was created for: (x0, y0, x1, y1).
    pub closed spec fn start(self) -> (int, int, int, int) {
        (self.progress@.x0, self.progress@.y0, self.progress@.x1, self.progress@.y1)
    }

    /// How many points the iterator has handed out so far.
    pub closed spec fn emitted(self) -> int {
        self.progress@.emitted
    }

    pub closed spec fn wf(self) -> bool {
        let g = self.progress@;
        let dx = iabs(g.x1 - g.x0);
        let dy = iabs(g.y1 - g.y0);
        let sx = istep(g.x1 - g.x0);
        let sy = istep(g.y1 - g.y0);
        let dmaj = if dx > dy {
            dx
        } else {
            dy
        };
        let dmin = if dx > dy {
            dy
        } else {
            dx
        };
        let pos = if dx > dy {
            sx > 0
        } else {
            sy > 0
        };
        let k = if dx > dy {
            (self.y as int - g.y0) * sy
        } else {
            (self.x as int - g.x0) * sx
        };
        &&& coord_ok(g.x0) && coord_ok(g.y0) && coord_ok(g.x1) && coord_ok(g.y1)
        &&& self.dx as int == dx
        &&& self.dy as int == dy
        &&& self.inc_x as int == sx
        &&& self.inc_y as int == sy
        &&& self.inc_e as int == 2 * dmin
        &&& self.inc_ne as int == 2 * dmin - 2 * dmaj
        &&& 0 <= g.emitted <= dmaj + 1
        &&& self.n as int == dmaj + 1 - g.emitted
        &&& iabs(self.x as int - g.x0) <= dx + 1
        &&& iabs(self.y as int - g.y0) <= dy + 1
        &&& -2 * dmaj <= self.d as int <= 2 * dmin
        &&& g.emitted <= dmaj ==> (self.x as int, self.y as int) == line_point(
            g.x0,
            g.y0,
            g.x1,
            g.y1,
            g.emitted,
        )
        &&& (g.emitted <= dmaj && dmaj > 0) ==> {
            &&& offset_bounds(dmaj, dmin, g.emitted, k, pos)
            &&& self.d as int == 2 * (g.emitted + 1) * dmin - (2 * k + 1) * dmaj
        }
    }

    /// Starts a walk from (x0, y0) to (x1, y1). The walk hands out
    /// line_point_count(x0, y0, x1, y1) points; the i-th call of `next`
    /// returns line_point(x0, y0, x1, y1, i).
    pub fn new(x0: i32, y0: i32, x1: i32, y1: i32) -> (it: LineIter)
        requires
            coord_ok(x0 as int),
            coord_ok(y0 as int),
            coord_ok(x1 as int),
            coord_ok(y1 as int),
        ensures
            it.wf(),
            it.start() == (x0 as int, y0 as int, x1 as int, y1 as int),
            it.emitted() == 0,
    {
        let mut dx = x1 - x0;
        let mut inc_x: i32 = 1;
        if dx < 0 {
            inc_x = -1;
            dx = -dx;
        }

        let mut dy = y1 - y0;
        let mut inc_y: i32 = 1;
        if dy < 0 {
            inc_y = -1;
            dy = -dy;
        }

        let dx2 = dx + dx;
        let dy2 = dy + dy;
        let d = if dx > dy {
            dy2 - dx
        } else {
            dx2 - dy
        };

        LineIter {
            x: x0,
            y: y0,
            dx,
            dy,
            n: (if dx > dy {
                if inc_x > 0 {
                    x1 - x0
                } else {
                    x0 - x1
                }
            } else {
                if inc_y > 0 {
                    y1 - y0
                } else {
                    y0 - y1
                }
            }) + 1,
            inc_x,
            inc_y,
            inc_e: if dx > dy {
                dy2
            } else {
                dx2
            },
            inc_ne: if dx > dy {
                dy2 - dx2
            } else {
                dx2 - dy2
            },
            d,
            progress: Ghost(
                LineProgress {
                    x0: x0 as int,
                    y0: y0 as int,
                    x1: x1 as int,
                    y1: y1 as int,
                    emitted: 0,
                },
            ),
        }
    }

    /// Hands out the next point of the walk, or None once every point of the
    /// segment has been handed out.
    pub fn next(&mut self) -> (r: Option<[i32; 2]>)
        requires
            old(self).wf(),
        ensures
            final(self).wf(),
            final(self).start() == old(self).start(),
            ({
                let (x0, y0, x1, y1) = old(self).start();
                let i = old(self).emitted();
                if i < line_point_count(x0, y0, x1, y1) {
                    &&& final(self).emitted() == i + 1
                    &&& r matches Some(p) && p[0] as int == line_point(x0, y0, x1, y1, i).0 && p[1]
                        as int == line_point(x0, y0, x1, y1, i).1
                } else {
                    &&& final(self).emitted() == i
                    &&& r is None
                }
            }),
    {
        if self.n > 0 {
            self.n = self.n - 1;

            let result = [self.x, self.y];

            let ghost g = self.progress@;
            let ghost i = g.emitted;
            let ghost dxg = iabs(g.x1 - g.x0);
            let ghost dyg = iabs(g.y1 - g.y0);
            let ghost sx = istep(g.x1 - g.x0);
            let ghost sy = istep(g.y1 - g.y0);

            if self.dx > self.dy {
                let ghost k = (self.y as int - g.y0) * sy;
                let ghost pos = sx > 0;
                let ghost straight = if pos {
                    self.d as int <= 0
                } else {
                    (self.d as int) < 0
                };
                let ghost k2 = if straight {
                    k
                } else {
                    k + 1
                };
                proof {
                    lemma_offset_step(dxg, dyg, i, k, pos);
                    lemma_offset_in_range(dxg, dyg, i + 1, k2, pos);
                    lemma_decision_in_range(dxg, dyg, i + 1, k2, pos);
                    lemma_offset_bounds_unique(dxg, dyg, i + 1, k2, pos);
                    assert(sx * (i + 1) == sx * i + sx) by (nonlinear_arith);
                    assert(sy * k2 == sy * k + if straight {
                        0int
                    } else {
                        sy
                    }) by (nonlinear_arith)
                        requires
                            k2 == if straight {
                                k
                            } else {
                                k + 1
                            },
                    ;
                    assert((sy * k2) * sy == k2) by (nonlinear_arith)
                        requires
                            sy == 1 || sy == -1,
                    ;
                    assert(self.y as int - g.y0 == sy * k) by (nonlinear_arith)
                        requires
                            k == (self.y as int - g.y0) * sy,
                            sy == 1 || sy == -1,
                    ;
                    assert(2 * (i + 2) * dyg == 2 * (i + 1) * dyg + 2 * dyg) by (nonlinear_arith);
                    assert((2 * k2 + 1) * dxg == (2 * k + 1) * dxg + if straight {
                        0int
                    } else {
                        2 * dxg
                    }) by (nonlinear_arith)
                        requires
                            k2 == if straight {
                                k
                            } else {
                                k + 1
                            },
                    ;
                    if i == 0 {
                        assert(sx * 0 == 0) by (nonlinear_arith);
                    }
                    assert(self.x as int == g.x0 + sx * i && self.y as int == g.y0 + sy * k);
                }
                self.x = self.x + self.inc_x;

                if self.inc_x > 0 && self.d <= 0 || self.inc_x < 0 && self.d < 0 {
                    self.d = self.d + self.inc_e;
                } else {
                    self.d = self.d + self.inc_ne;
                    self.y = self.y + self.inc_y;
                }
            } else {
                let ghost k = (self.x as int - g.x0) * sx;
                let ghost pos = sy > 0;
                let ghost straight = if pos {
                    self.d as int <= 0
                } else {
                    (self.d as int) < 0
                };
                let ghost k2 = if straight {
                    k
                } else {
                    k + 1
                };
                proof {
                    if dyg > 0 {
                        lemma_offset_step(dyg, dxg, i, k, pos);
                        lemma_offset_in_range(dyg, dxg, i + 1, k2, pos);
                        lemma_decision_in_range(dyg, dxg, i + 1, k2, pos);
                        lemma_offset_bounds_unique(dyg, dxg, i + 1, k2, pos);
                    }
                    assert(sy * (i + 1) == sy * i + sy) by (nonlinear_arith);
                    assert(sx * k2 == sx * k + if straight {
                        0int
                    } else {
                        sx
                    }) by (nonlinear_arith)
                        requires
                            k2 == if straight {
                                k
                            } else {
                                k + 1
                            },
                    ;
                    assert((sx * k2) * sx == k2) by (nonlinear_arith)
                        requires
                            sx == 1 || sx == -1,
                    ;
                    assert(self.x as int - g.x0 == sx * k) by (nonlinear_arith)
                        requires
                            k == (self.x as int - g.x0) * sx,
                            sx == 1 || sx == -1,
                    ;
                    assert(2 * (i + 2) * dxg == 2 * (i + 1) * dxg + 2 * dxg) by (nonlinear_arith);
                    assert((2 * k2 + 1) * dyg == (2 * k + 1) * dyg + if straight {
                        0int
                    } else {
                        2 * dyg
                    }) by (nonlinear_arith)
                        requires
                            k2 == if straight {
                                k
                            } else {
                                k + 1
                            },
                    ;
                    if i == 0 {
                        assert(sy * 0 == 0) by (nonlinear_arith);
                    }
                    assert(self.y as int == g.y0 + sy * i && self.x as int == g.x0 + sx * k);
                }
                self.y = self.y + self.inc_y;

                if self.inc_y > 0 && self.d <= 0 || self.inc_y < 0 && self.d < 0 {
                    self.d = self.d + self.inc_e;
                } else {
                    self.d = self.d + self.inc_ne;
                    self.x = self.x + self.inc_x;
                }
            }

            self.progress = Ghost(
                LineProgress {
                    x0: g.x0,
                    y0: g.y0,
                    x1: g.x1,
                    y1: g.y1,
                    emitted: g.emitted + 1,
                },
            );

            Some(result)
        } else {
            None
        }
    }
}

/// Starts a line walk; a plain-function spelling of [`LineIter::new`].
pub fn line_iter(x0: i32, y0: i32, x1: i32, y1: i32) -> (it: LineIter)
    requires
        coord_ok(x0 as int),
        coord_ok(y0 as int),
        coord_ok(x1 as int),
        coord_ok(y1 as int),
    ensures
        it.wf(),
        it.start() == (x0 as int, y0 as int, x1 as int, y1 as int),
        it.emitted() == 0,
{
    LineIter::new(x0, y0, x1, y1)
}

} // verus!
