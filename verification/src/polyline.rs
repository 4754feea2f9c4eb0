//! Thick and capped lines, rendered as filled quadrilaterals built from the
//! segment's integer unit normal.

use vstd::prelude::*;

use crate::canvas::{coord_ok, Canvas};
use crate::circle::circle_solid_result;
use crate::clamp::{clamp_spec, rdiv, rdiv_exec};
use crate::color::{RGB, RGBA};
use crate::line::line_result;
use crate::polygon::{polygon_solid_result, verts_view};

verus! {

/// The largest `r <= i` with `r * r <= n` (0 if there is none).
pub open spec fn isq(n: int, i: int) -> int
    decreases i,
{
    if i <= 0 {
        0
    } else if i * i <= n {
        i
    } else {
        isq(n, i - 1)
    }
}

/// The integer square root: the largest `r` with `r * r <= n`.
pub open spec fn isqrt(n: int) -> int {
    isq(n, n)
}

/// `isq` finds a root bounded by its search start, and an exact floor root
/// once the start is at most the search bound.
proof fn lemma_isq(n: int, i: int)
    requires
        0 <= n,
        0 <= i,
    ensures
        0 <= isq(n, i) <= i,
        isq(n, i) * isq(n, i) <= n,
        isq(n, i) < i ==> (isq(n, i) + 1) * (isq(n, i) + 1) > n,
    decreases i,
{
    if i > 0 {
        if i * i <= n {
        } else {
            lemma_isq(n, i - 1);
        }
    }
}

/// The integer square root is the floor of the real square root.
pub proof fn lemma_isqrt(n: int)
    requires
        0 <= n,
    ensures
        0 <= isqrt(n),
        isqrt(n) * isqrt(n) <= n,
        (isqrt(n) + 1) * (isqrt(n) + 1) > n,
{
    lemma_isq(n, n);
    let r = isq(n, n);
    if r == n {
        assert(n * n <= n);
        assert(n <= 1) by (nonlinear_arith)
            requires
                n * n <= n,
                n >= 0,
        ;
        assert((n + 1) * (n + 1) > n) by (nonlinear_arith)
            requires
                0 <= n <= 1,
        ;
    }
}

/// The integer square root, found by counting up.
fn isqrt_exec(n: isize) -> (r: isize)
    requires
        0 <= n <= 0x2000_0000,
    ensures
        r as int == isqrt(n as int),
        0 <= r <= 0x8000,
        r * r <= n,
        n < (r + 1) * (r + 1),
{
    let mut r: isize = 0;
    while r * r + 2 * r + 1 <= n
        invariant
            0 <= r <= 0x8000,
            r * r <= n,
            n <= 0x2000_0000,
        decreases n - r,
    {
        proof {
            assert((r + 1) * (r + 1) == r * r + 2 * r + 1) by (nonlinear_arith);
            assert(r + 1 <= 0x8000) by (nonlinear_arith)
                requires
                    (r + 1) * (r + 1) <= 0x2000_0000,
                    r >= 0,
            ;
            assert(r < n) by (nonlinear_arith)
                requires
                    (r + 1) * (r + 1) <= n,
                    r >= 0,
            ;
        }
        r = r + 1;
    }
    proof {
        assert((r + 1) * (r + 1) == r * r + 2 * r + 1) by (nonlinear_arith);
        lemma_isqrt(n as int);
        let t = isqrt(n as int);
        assert(r as int == t) by (nonlinear_arith)
            requires
                0 <= r,
                0 <= t,
                r * r <= n,
                n < (r + 1) * (r + 1),
                t * t <= n,
                n < (t + 1) * (t + 1),
        ;
    }
    r
}

/// The rounded half-width offset along one axis of the unit normal:
/// `round(d * width / (2 * len))`, bounded by `width` when `|d| <= len`.
proof fn lemma_normal_offset_bound(d: int, width: int, len: int)
    requires
        1 <= len,
        -len <= d <= len,
        1 <= width,
    ensures
        -width <= rdiv(d * width, 2 * len) <= width,
{
    let n = d * width;
    let a = if n >= 0 {
        n
    } else {
        -n
    };
    assert(a <= len * width) by (nonlinear_arith)
        requires
            -len <= d <= len,
            1 <= width,
            n == d * width,
            a == (if n >= 0 {
                n
            } else {
                -n
            }),
    ;
    let q = (2 * a + 2 * len) / (4 * len);
    assert(rdiv(n, 2 * len) == q || rdiv(n, 2 * len) == -q);
    assert(2 * a + 2 * len <= width * (4 * len) + (2 * len)) by (nonlinear_arith)
        requires
            a <= len * width,
            1 <= len,
            1 <= width,
    ;
    assert((width * (4 * len) + 2 * len) / (4 * len) == width) by {
        vstd::arithmetic::div_mod::lemma_fundamental_div_mod_converse(
            width * (4 * len) + 2 * len,
            4 * len,
            width,
            2 * len,
        );
    }
    assert(q <= width) by {
        vstd::arithmetic::div_mod::lemma_div_is_ordered(
            2 * a + 2 * len,
            width * (4 * len) + 2 * len,
            4 * len,
        );
    }
    assert(q >= 0) by {
        vstd::arithmetic::div_mod::lemma_div_is_ordered(0, 2 * a + 2 * len, 4 * len);
    }
}

/// The four corner points of the quadrilateral that renders a thick line:
/// each clamped endpoint offset by plus and minus half the width along the
/// segment's unit normal, in clockwise order.
pub open spec fn polyline_quad(
    w: int,
    h: int,
    x1: int,
    y1: int,
    x2: int,
    y2: int,
    width: int,
) -> Seq<(int, int)> {
    let (cx1, cy1, cx2, cy2) = clamp_spec(w, h, x1, y1, x2, y2);
    let dx = cx2 - cx1;
    let dy = cy2 - cy1;
    let dlen = isqrt(dx * dx + dy * dy);
    let ox = if dlen == 0 {
        0
    } else {
        rdiv(dy * width, 2 * dlen)
    };
    let oy = if dlen == 0 {
        0
    } else {
        rdiv(dx * width, 2 * dlen)
    };
    seq![(cx1 - ox, cy1 + oy), (cx1 + ox, cy1 - oy), (cx2 + ox, cy2 - oy), (cx2 - ox, cy2 + oy)]
}

/// The buffer after drawing a line of the given width: width 0 is a no-op,
/// width 1 is a plain line, and any other width fills the quadrilateral of
/// [`polyline_quad`].
pub open spec fn polyline_result(
    s: Seq<RGB>,
    w: int,
    h: int,
    x1: int,
    y1: int,
    x2: int,
    y2: int,
    width: int,
    c: RGBA,
) -> Seq<RGB> {
    if width == 0 {
        s
    } else if width == 1 {
        line_result(s, w, h, x1, y1, x2, y2, c)
    } else {
        polygon_solid_result(s, w, h, polyline_quad(w, h, x1, y1, x2, y2, width), true, c)
    }
}

/// The buffer after drawing a capped line: the thick line of
/// [`polyline_result`], then a solid circle of radius `width / 2` stamped on
/// each endpoint.
pub open spec fn polyline_capped_result(
    s: Seq<RGB>,
    w: int,
    h: int,
    x1: int,
    y1: int,
    x2: int,
    y2: int,
    width: int,
    c: RGBA,
) -> Seq<RGB> {
    let s1 = polyline_result(s, w, h, x1, y1, x2, y2, width, c);
    let s2 = circle_solid_result(s1, w, h, x1, y1, width / 2, c);
    circle_solid_result(s2, w, h, x2, y2, width / 2, c)
}

impl Canvas {
    /// Draws a line with specified width onto the canvas, drawing the line as
    /// a filled polygon.
    #[verifier::rlimit(100)]
    pub fn draw_polyline(
        &mut self,
        x1: isize,
        y1: isize,
        x2: isize,
        y2: isize,
        width: u32,
        color: RGBA,
    )
        requires
            old(self).wf(),
            coord_ok(x1 as int),
            coord_ok(y1 as int),
            coord_ok(x2 as int),
            coord_ok(y2 as int),
            width <= 8192,
        ensures
            final(self).wf(),
            final(self).w() == old(self).w(),
            final(self).h() == old(self).h(),
            final(self).pixels() == polyline_result(
                old(self).pixels(),
                old(self).w(),
                old(self).h(),
                x1 as int,
                y1 as int,
                x2 as int,
                y2 as int,
                width as int,
                color,
            ),
    {
        if width == 0 {
            return ;
        }
        if width == 1 {
            self.draw_line(x1, y1, x2, y2, color);
            return ;
        }

        let ghost quad = polyline_quad(
            self.w(),
            self.h(),
            x1 as int,
            y1 as int,
            x2 as int,
            y2 as int,
            width as int,
        );

        let (x1, y1, x2, y2) = self.clamp_line_coords(x1, y1, x2, y2);

        let dx = x2 - x1;
        let dy = y2 - y1;
        proof {
            crate::clamp::lemma_sq_bound(dx as int, 0x4000);
            crate::clamp::lemma_sq_bound(dy as int, 0x4000);
        }
        let dsq = dx * dx + dy * dy;
        let d_len = isqrt_exec(dsq);

        let wi = width as isize;
        let (ox, oy) = if d_len == 0 {
            (0, 0)
        } else {
            proof {
                assert(dy <= d_len && -d_len <= dy && dx <= d_len && -d_len <= dx)
                    by (nonlinear_arith)
                    requires
                        dx * dx + dy * dy <= dsq,
                        dsq < (d_len + 1) * (d_len + 1),
                        d_len >= 0,
                        dsq == dx * dx + dy * dy,
                ;
                lemma_normal_offset_bound(dy as int, wi as int, d_len as int);
                lemma_normal_offset_bound(dx as int, wi as int, d_len as int);
                crate::clamp::lemma_mul_bound(dy as int, wi as int, 0x4000, 0x2000);
                crate::clamp::lemma_mul_bound(dx as int, wi as int, 0x4000, 0x2000);
            }
            (rdiv_exec(dy * wi, 2 * d_len), rdiv_exec(dx * wi, 2 * d_len))
        };

        let v1 = (x1 - ox, y1 + oy);
        let v2 = (x1 + ox, y1 - oy);
        let v3 = (x2 + ox, y2 - oy);
        let v4 = (x2 - ox, y2 + oy);

        let mut vertices: Vec<(isize, isize)> = Vec::new();
        vertices.push(v1);
        vertices.push(v2);
        vertices.push(v3);
        vertices.push(v4);

        proof {
            assert(verts_view(vertices@) =~= quad);
        }
        self.draw_polygon_solid(&vertices, true, color);
    }

    /// Draws a line with specified width and capped ends onto the canvas,
    /// drawing the line as a filled polygon with solid circles on both ends.
    pub fn draw_polyline_capped(
        &mut self,
        x1: isize,
        y1: isize,
        x2: isize,
        y2: isize,
        width: u32,
        color: RGBA,
    )
        requires
            old(self).wf(),
            coord_ok(x1 as int),
            coord_ok(y1 as int),
            coord_ok(x2 as int),
            coord_ok(y2 as int),
            width <= 8192,
        ensures
            final(self).wf(),
            final(self).w() == old(self).w(),
            final(self).h() == old(self).h(),
            final(self).pixels() == polyline_capped_result(
                old(self).pixels(),
                old(self).w(),
                old(self).h(),
                x1 as int,
                y1 as int,
                x2 as int,
                y2 as int,
                width as int,
                color,
            ),
    {
        self.draw_polyline(x1, y1, x2, y2, width, color);
        self.draw_circle_solid(x1, y1, width / 2, color);
        self.draw_circle_solid(x2, y2, width / 2, color);
    }
}

} // verus!
