//! Integer (midpoint / Bresenham) line rasterization.

use vstd::prelude::*;

use crate::canvas::{coord_ok, put, put_all, Canvas};
use crate::clamp::clamp_spec;
use crate::color::{RGB, RGBA};

verus! {

/// The points a shallow (`|slope| <= 1`) midpoint walk still emits, given the
/// current position `(x, y)`, the y step direction, the decision value `p`
/// and the number `left` of remaining columns. `dm` and `ds` are the major
/// (x) and secondary (y) absolute deltas of the whole segment.
pub open spec fn shallow_rest(
    x: int,
    y: int,
    step: int,
    p: int,
    dm: int,
    ds: int,
    left: nat,
) -> Seq<(int, int)>
    decreases left,
{
    if left == 0 {
        Seq::empty()
    } else {
        let ny = if p < 0 {
            y
        } else {
            y + step
        };
        let np = if p < 0 {
            p + 2 * ds
        } else {
            p + 2 * ds - 2 * dm
        };
        seq![(x + 1, ny)] + shallow_rest(x + 1, ny, step, np, dm, ds, (left - 1) as nat)
    }
}

/// The points a steep (`|slope| > 1`) midpoint walk still emits; the
/// transpose of [`shallow_rest`], stepping rows and correcting columns.
pub open spec fn steep_rest(
    x: int,
    y: int,
    step: int,
    p: int,
    dm: int,
    ds: int,
    left: nat,
) -> Seq<(int, int)>
    decreases left,
{
    if left == 0 {
        Seq::empty()
    } else {
        let nx = if p < 0 {
            x
        } else {
            x + step
        };
        let np = if p < 0 {
            p + 2 * ds
        } else {
            p + 2 * ds - 2 * dm
        };
        seq![(nx, y + 1)] + steep_rest(nx, y + 1, step, np, dm, ds, (left - 1) as nat)
    }
}

/// The points drawn for a line from `(x1, y1)` to `(x2, y2)`, in drawing
/// order. A vertical segment walks from the topmost endpoint down to, but
/// excluding, the bottom endpoint. Any other segment starts at the endpoint
/// with the smaller major-axis coordinate and runs the midpoint walk across
/// the major axis, both endpoints included.
pub open spec fn line_pts(x1: int, y1: int, x2: int, y2: int) -> Seq<(int, int)> {
    if x1 == x2 {
        let lo = if y1 < y2 {
            y1
        } else {
            y2
        };
        let n = if y1 < y2 {
            y2 - y1
        } else {
            y1 - y2
        };
        Seq::new(n as nat, |i: int| (x1, lo + i))
    } else {
        let dx = if x2 >= x1 {
            x2 - x1
        } else {
            x1 - x2
        };
        let dy = if y2 >= y1 {
            y2 - y1
        } else {
            y1 - y2
        };
        if dy <= dx {
            let sx = if x1 < x2 {
                x1
            } else {
                x2
            };
            let sy = if x1 < x2 {
                y1
            } else {
                y2
            };
            let ey = if x1 < x2 {
                y2
            } else {
                y1
            };
            let step: int = if sy < ey {
                1
            } else {
                -1
            };
            seq![(sx, sy)] + shallow_rest(sx, sy, step, 2 * dy - dx, dx, dy, dx as nat)
        } else {
            let sx = if y1 < y2 {
                x1
            } else {
                x2
            };
            let sy = if y1 < y2 {
                y1
            } else {
                y2
            };
            let ex = if y1 < y2 {
                x2
            } else {
                x1
            };
            let step: int = if sx < ex {
                1
            } else {
                -1
            };
            seq![(sx, sy)] + steep_rest(sx, sy, step, 2 * dx - dy, dy, dx, dy as nat)
        }
    }
}

/// The buffer after drawing a line from `(x1, y1)` to `(x2, y2)`: the segment
/// is clamped to the canvas space, scan-converted, and composited point by
/// point.
pub open spec fn line_result(
    s: Seq<RGB>,
    w: int,
    h: int,
    x1: int,
    y1: int,
    x2: int,
    y2: int,
    c: RGBA,
) -> Seq<RGB> {
    let (cx1, cy1, cx2, cy2) = clamp_spec(w, h, x1, y1, x2, y2);
    put_all(s, w, h, line_pts(cx1, cy1, cx2, cy2), c)
}

impl Canvas {
    /// Draws a line onto the canvas. The endpoints are first clamped into the
    /// canvas space, then the segment is rasterized with the integer midpoint
    /// algorithm.
    pub fn draw_line(&mut self, x1: isize, y1: isize, x2: isize, y2: isize, color: RGBA)
        requires
            old(self).wf(),
            coord_ok(x1 as int),
            coord_ok(y1 as int),
            coord_ok(x2 as int),
            coord_ok(y2 as int),
        ensures
            final(self).wf(),
            final(self).w() == old(self).w(),
            final(self).h() == old(self).h(),
            final(self).pixels() == line_result(
                old(self).pixels(),
                old(self).w(),
                old(self).h(),
                x1 as int,
                y1 as int,
                x2 as int,
                y2 as int,
                color,
            ),
    {
        let ghost w0 = self.w();
        let ghost h0 = self.h();
        let (x1, y1, x2, y2) = self.clamp_line_coords(x1, y1, x2, y2);
        let ghost pts = line_pts(x1 as int, y1 as int, x2 as int, y2 as int);
        let ghost s0 = self.pixels();

        if x1 == x2 {
            let (start_y, end_y) = if y1 < y2 {
                (y1, y2)
            } else {
                (y2, y1)
            };
            let n = end_y - start_y;
            let mut i: isize = 0;
            while i < n
                invariant
                    self.wf(),
                    self.w() == w0,
                    self.h() == h0,
                    0 <= i <= n,
                    n == end_y - start_y,
                    coord_ok(x1 as int),
                    coord_ok(start_y as int),
                    coord_ok(end_y as int),
                    pts == line_pts(x1 as int, y1 as int, x2 as int, y2 as int),
                    pts.len() == n,
                    forall|j: int| 0 <= j < n ==> pts[j] == (x1 as int, start_y + j),
                    self.pixels() == put_all(s0, w0, h0, pts.take(i as int), color),
                decreases n - i,
            {
                let ghost prev = self.pixels();
                self.draw_pixel(x1, start_y + i, color);
                proof {
                    assert(pts.take(i + 1) =~= pts.take(i as int).push(pts[i as int]));
                    assert(pts.take(i as int).push(pts[i as int]) =~= pts.take(i as int)
                        + seq![pts[i as int]]);
                    crate::canvas::lemma_put_all_concat(
                        s0,
                        w0,
                        h0,
                        pts.take(i as int),
                        seq![pts[i as int]],
                        color,
                    );
                    crate::canvas::lemma_put_all_one(
                        prev,
                        w0,
                        h0,
                        x1 as int,
                        (start_y + i) as int,
                        color,
                    );
                }
                i = i + 1;
            }
            proof {
                assert(pts.take(n as int) =~= pts);
            }
            return;
        }

        let dx = if x2 >= x1 {
            x2 - x1
        } else {
            x1 - x2
        };
        let dy = if y2 >= y1 {
            y2 - y1
        } else {
            y1 - y2
        };

        if dy <= dx {
            let (sx, sy, ey) = if x1 < x2 {
                (x1, y1, y2)
            } else {
                (x2, y2, y1)
            };
            let step: isize = if sy < ey {
                1
            } else {
                -1
            };
            let a = 2 * dy;
            let b = a - 2 * dx;
            let mut p = a - dx;
            let ghost prev0 = self.pixels();
            self.draw_pixel(sx, sy, color);
            proof {
                crate::canvas::lemma_put_all_one(prev0, w0, h0, sx as int, sy as int, color);
                assert(pts == seq![(sx as int, sy as int)] + shallow_rest(
                    sx as int,
                    sy as int,
                    step as int,
                    p as int,
                    dx as int,
                    dy as int,
                    dx as nat,
                ));
                assert(pts.drop_first() =~= shallow_rest(
                    sx as int,
                    sy as int,
                    step as int,
                    p as int,
                    dx as int,
                    dy as int,
                    dx as nat,
                ));
            }
            let mut x = sx;
            let mut y = sy;
            let mut left = dx;
            while left > 0
                invariant
                    self.wf(),
                    self.w() == w0,
                    self.h() == h0,
                    0 <= left <= dx,
                    1 <= dx <= 0x4000,
                    0 <= dy <= dx,
                    step == 1 || step == -1,
                    a == 2 * dy,
                    b == a - 2 * dx,
                    coord_ok(sx as int),
                    coord_ok(sy as int),
                    x == sx + (dx - left),
                    -(dx - left) <= y - sy <= dx - left,
                    -2 * dx <= p < 2 * dy,
                    put_all(s0, w0, h0, pts, color) == put_all(
                        self.pixels(),
                        w0,
                        h0,
                        shallow_rest(
                            x as int,
                            y as int,
                            step as int,
                            p as int,
                            dx as int,
                            dy as int,
                            left as nat,
                        ),
                        color,
                    ),
                decreases left,
            {
                let ghost rest = shallow_rest(
                    x as int,
                    y as int,
                    step as int,
                    p as int,
                    dx as int,
                    dy as int,
                    left as nat,
                );
                if p < 0 {
                    p = p + a;
                } else {
                    y = y + step;
                    p = p + b;
                }
                x = x + 1;
                let ghost nrest = shallow_rest(
                    x as int,
                    y as int,
                    step as int,
                    p as int,
                    dx as int,
                    dy as int,
                    (left - 1) as nat,
                );
                proof {
                    assert(rest == seq![(x as int, y as int)] + nrest);
                    assert(rest.drop_first() =~= nrest);
                }
                let ghost prev = self.pixels();
                self.draw_pixel(x, y, color);
                proof {
                    assert(put_all(prev, w0, h0, rest, color) == put_all(
                        put(prev, w0, h0, x as int, y as int, color),
                        w0,
                        h0,
                        nrest,
                        color,
                    ));
                }
                left = left - 1;
            }
        } else {
            let (sx, sy, ex) = if y1 < y2 {
                (x1, y1, x2)
            } else {
                (x2, y2, x1)
            };
            let step: isize = if sx < ex {
                1
            } else {
                -1
            };
            let a = 2 * dx;
            let b = a - 2 * dy;
            let mut p = a - dy;
            let ghost prev0 = self.pixels();
            self.draw_pixel(sx, sy, color);
            proof {
                crate::canvas::lemma_put_all_one(prev0, w0, h0, sx as int, sy as int, color);
                assert(pts == seq![(sx as int, sy as int)] + steep_rest(
                    sx as int,
                    sy as int,
                    step as int,
                    p as int,
                    dy as int,
                    dx as int,
                    dy as nat,
                ));
                assert(pts.drop_first() =~= steep_rest(
                    sx as int,
                    sy as int,
                    step as int,
                    p as int,
                    dy as int,
                    dx as int,
                    dy as nat,
                ));
            }
            let mut x = sx;
            let mut y = sy;
            let mut left = dy;
            while left > 0
                invariant
                    self.wf(),
                    self.w() == w0,
                    self.h() == h0,
                    0 <= left <= dy,
                    1 <= dy <= 0x4000,
                    0 <= dx < dy,
                    step == 1 || step == -1,
                    a == 2 * dx,
                    b == a - 2 * dy,
                    coord_ok(sx as int),
                    coord_ok(sy as int),
                    y == sy + (dy - left),
                    -(dy - left) <= x - sx <= dy - left,
                    -2 * dy <= p < 2 * dx,
                    put_all(s0, w0, h0, pts, color) == put_all(
                        self.pixels(),
                        w0,
                        h0,
                        steep_rest(
                            x as int,
                            y as int,
                            step as int,
                            p as int,
                            dy as int,
                            dx as int,
                            left as nat,
                        ),
                        color,
                    ),
                decreases left,
            {
                let ghost rest = steep_rest(
                    x as int,
                    y as int,
                    step as int,
                    p as int,
                    dy as int,
                    dx as int,
                    left as nat,
                );
                if p < 0 {
                    p = p + a;
                } else {
                    x = x + step;
                    p = p + b;
                }
                y = y + 1;
                let ghost nrest = steep_rest(
                    x as int,
                    y as int,
                    step as int,
                    p as int,
                    dy as int,
                    dx as int,
                    (left - 1) as nat,
                );
                proof {
                    assert(rest == seq![(x as int, y as int)] + nrest);
                    assert(rest.drop_first() =~= nrest);
                }
                let ghost prev = self.pixels();
                self.draw_pixel(x, y, color);
                proof {
                    assert(put_all(prev, w0, h0, rest, color) == put_all(
                        put(prev, w0, h0, x as int, y as int, color),
                        w0,
                        h0,
                        nrest,
                        color,
                    ));
                }
                left = left - 1;
            }
        }
    }
}

} // verus!
