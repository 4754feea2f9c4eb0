//! General properties of the rasterizer, stated and proved over the
//! specification-level models of the drawing operations.

use vstd::prelude::*;

use crate::canvas::{put, put_all, row_pts, rows_pts, Canvas};
use crate::circle::{circle_pts, circle_pts_rest, circle_result, circle_solid_result,
    circle_solid_walk};
use crate::clamp::clamp_spec;
use crate::color::{RGB, RGBA};
use crate::line::{line_pts, line_result, shallow_rest};
use crate::polygon::{chain, chain_len, maxvert_idx, minvert_idx, pbl_shallow_rest, pbl_spec,
    pbl_steep_rest, polygon_solid_result};

verus! {

/// Writing a pixel and reading it back yields the written color: after `set`
/// succeeds at an in-bounds `(x, y)`, the pixel read there is exactly the
/// written color, and every other pixel is unchanged.
pub proof fn lemma_set_then_get(c: Canvas, x: int, y: int, color: RGB)
    requires
        c.wf(),
        c.inside(x, y),
    ensures
        ({
            let after = c.pixels().update(y * c.w() + x, color);
            &&& after[y * c.w() + x] == color
            &&& forall|i: int|
                0 <= i < after.len() && i != y * c.w() + x ==> after[i] == c.pixels()[i]
        }),
{
    crate::canvas::lemma_row_major_index(c.w(), c.h(), x, y);
}

/// Compositing with alpha 255 fully replaces the pixel; compositing with
/// alpha 0 leaves the whole buffer unchanged.
pub proof fn lemma_put_alpha_extremes(s: Seq<RGB>, w: int, h: int, x: int, y: int, c: RGBA)
    requires
        w * h <= s.len(),
    ensures
        c.a == 0 ==> put(s, w, h, x, y, c) == s,
        c.a == 255 && 0 <= x < w && 0 <= y < h ==> put(s, w, h, x, y, c)[y * w + x] == (RGB {
            r: c.r,
            g: c.g,
            b: c.b,
        }),
{
    if 0 <= x < w && 0 <= y < h {
        assert(0 <= y * w + x < w * h) by (nonlinear_arith)
            requires
                0 <= x < w,
                0 <= y < h,
        ;
        crate::color::lemma_blend_extremes(s[y * w + x], c);
        if c.a == 0 {
            assert(put(s, w, h, x, y, c) =~= s);
        }
    }
}

/// A line from a point to itself draws nothing: it falls under the vertical
/// convention, whose half-open row range is empty.
pub proof fn lemma_degenerate_line(s: Seq<RGB>, w: int, h: int, x: int, y: int, c: RGBA)
    ensures
        line_result(s, w, h, x, y, x, y, c) == s,
{
    let (cx1, cy1, cx2, cy2) = clamp_spec(w, h, x, y, x, y);
    assert(cx1 == cx2);
    assert(line_pts(cx1, cy1, cx2, cy2).len() == 0);
}

/// A vertical line whose column lies off the canvas never changes the
/// buffer: clamping keeps the column, and every rasterized point shares it.
pub proof fn lemma_vertical_line_off_canvas(
    s: Seq<RGB>,
    w: int,
    h: int,
    x: int,
    y1: int,
    y2: int,
    c: RGBA,
)
    requires
        x < 0 || x >= w,
    ensures
        line_result(s, w, h, x, y1, x, y2, c) == s,
{
    let (cx1, cy1, cx2, cy2) = clamp_spec(w, h, x, y1, x, y2);
    assert(cx1 == x && cx2 == x);
    let pts = line_pts(cx1, cy1, cx2, cy2);
    assert(forall|i: int| 0 <= i < pts.len() ==> (#[trigger] pts[i]).0 == x);
    crate::canvas::lemma_put_all_outside(s, w, h, pts, c);
}

/// Every point of a shallow midpoint walk with zero secondary delta keeps
/// the starting row.
proof fn lemma_flat_shallow_rest(x: int, y: int, step: int, p: int, dm: int, left: nat)
    requires
        p < 0,
    ensures
        forall|i: int|
            0 <= i < shallow_rest(x, y, step, p, dm, 0, left).len() ==> (#[trigger] shallow_rest(
                x,
                y,
                step,
                p,
                dm,
                0,
                left,
            )[i]).1 == y,
    decreases left,
{
    if left > 0 {
        lemma_flat_shallow_rest(x + 1, y, step, p, dm, (left - 1) as nat);
        let rest = shallow_rest(x, y, step, p, dm, 0, left);
        let nrest = shallow_rest(x + 1, y, step, p, dm, 0, (left - 1) as nat);
        assert(rest == seq![(x + 1, y)] + nrest);
        assert forall|i: int| 0 <= i < rest.len() implies (#[trigger] rest[i]).1 == y by {
            if i > 0 {
                assert(rest[i] == nrest[i - 1]);
            }
        }
    }
}

/// A horizontal line whose row lies off the canvas never changes the buffer:
/// no boundary intersection is valid, so clamping keeps the endpoints, and
/// every rasterized point shares the off-canvas row.
pub proof fn lemma_horizontal_line_off_canvas(
    s: Seq<RGB>,
    w: int,
    h: int,
    x1: int,
    x2: int,
    y: int,
    c: RGBA,
)
    requires
        y < 0 || y >= h,
        h >= 1,
    ensures
        line_result(s, w, h, x1, y, x2, y, c) == s,
{
    if x1 == x2 {
        let (cx1, cy1, cx2, cy2) = clamp_spec(w, h, x1, y, x2, y);
        assert(cx1 == cx2 && cy1 == cy2);
        assert(line_pts(cx1, cy1, cx2, cy2).len() == 0);
    } else {
        crate::clamp::lemma_rdiv_zero(x2 - x1);
        crate::clamp::lemma_rdiv_zero(x1 - x2);
        let (cx1, cy1, cx2, cy2) = clamp_spec(w, h, x1, y, x2, y);
        assert(cy1 == y && cy2 == y && cx1 == x1 && cx2 == x2);
        let pts = line_pts(cx1, cy1, cx2, cy2);
        let dx = if x2 >= x1 {
            x2 - x1
        } else {
            x1 - x2
        };
        let sx = if x1 < x2 {
            x1
        } else {
            x2
        };
        lemma_flat_shallow_rest(sx, y, -1, -dx, dx, dx as nat);
        assert forall|i: int| 0 <= i < pts.len() implies !(0 <= (#[trigger] pts[i]).1 < h) by {
            let rest = shallow_rest(sx, y, -1, -dx, dx, 0, dx as nat);
            if i > 0 {
                assert(pts[i] == rest[i - 1]);
            }
        }
        crate::canvas::lemma_put_all_outside(s, w, h, pts, c);
    }
}

/// The points the circle walk emits are closed under reflection across the
/// horizontal and the vertical axis through the center.
proof fn lemma_circle_pts_rest_symmetric(cx: int, cy: int, e: int, xo: int, yo: int)
    ensures
        forall|a: int, b: int|
            circle_pts_rest(cx, cy, e, xo, yo).contains((cx + a, cy + b))
                <==> #[trigger] circle_pts_rest(cx, cy, e, xo, yo).contains((cx - a, cy + b)),
        forall|a: int, b: int|
            circle_pts_rest(cx, cy, e, xo, yo).contains((cx + a, cy + b))
                <==> #[trigger] circle_pts_rest(cx, cy, e, xo, yo).contains((cx + a, cy - b)),
    decreases xo - yo + 2,
{
    let pts = circle_pts_rest(cx, cy, e, xo, yo);
    if yo > xo {
        assert(pts.len() == 0);
    } else {
        let emitted = seq![
            (cx + xo, cy + yo),
            (cx + xo, cy - yo),
            (cx - xo, cy + yo),
            (cx - xo, cy - yo),
            (cx + yo, cy + xo),
            (cx + yo, cy - xo),
            (cx - yo, cy - xo),
            (cx - yo, cy + xo),
        ];
        let e2 = e + 2 * yo + 1;
        let e3 = if e2 >= 0 {
            e2 - (2 * xo - 1)
        } else {
            e2
        };
        let xo2 = if e2 >= 0 {
            xo - 1
        } else {
            xo
        };
        let rest = circle_pts_rest(cx, cy, e3, xo2, yo + 1);
        lemma_circle_pts_rest_symmetric(cx, cy, e3, xo2, yo + 1);
        assert(pts == emitted + rest);

        assert forall|a: int, b: int| #[trigger]
            pts.contains((cx + a, cy + b)) implies pts.contains((cx - a, cy + b)) by {
            lemma_concat_contains_flip(emitted, rest, cx, cy, xo, yo, a, b, true);
        }
        assert forall|a: int, b: int| #[trigger]
            pts.contains((cx - a, cy + b)) implies pts.contains((cx + a, cy + b)) by {
            lemma_concat_contains_flip(emitted, rest, cx, cy, xo, yo, -a, b, true);
        }
        assert forall|a: int, b: int| #[trigger]
            pts.contains((cx + a, cy + b)) implies pts.contains((cx + a, cy - b)) by {
            lemma_concat_contains_flip(emitted, rest, cx, cy, xo, yo, a, b, false);
        }
        assert forall|a: int, b: int| #[trigger]
            pts.contains((cx + a, cy - b)) implies pts.contains((cx + a, cy + b)) by {
            lemma_concat_contains_flip(emitted, rest, cx, cy, xo, yo, a, -b, false);
        }
    }
}

/// One reflection step over the concatenation of an 8-point symmetric group
/// and an already-symmetric remainder: if the concatenation contains
/// `(cx + a, cy + b)`, it also contains the point with `a` negated (when
/// `flip_x`) or with `b` negated (when not).
proof fn lemma_concat_contains_flip(
    emitted: Seq<(int, int)>,
    rest: Seq<(int, int)>,
    cx: int,
    cy: int,
    xo: int,
    yo: int,
    a: int,
    b: int,
    flip_x: bool,
)
    requires
        emitted == seq![
            (cx + xo, cy + yo),
            (cx + xo, cy - yo),
            (cx - xo, cy + yo),
            (cx - xo, cy - yo),
            (cx + yo, cy + xo),
            (cx + yo, cy - xo),
            (cx - yo, cy - xo),
            (cx - yo, cy + xo),
        ],
        forall|a2: int, b2: int|
            rest.contains((cx + a2, cy + b2)) <==> #[trigger] rest.contains((cx - a2, cy + b2)),
        forall|a2: int, b2: int|
            rest.contains((cx + a2, cy + b2)) <==> #[trigger] rest.contains((cx + a2, cy - b2)),
        (emitted + rest).contains((cx + a, cy + b)),
    ensures
        flip_x ==> (emitted + rest).contains((cx - a, cy + b)),
        !flip_x ==> (emitted + rest).contains((cx + a, cy - b)),
{
    let pts = emitted + rest;
    let i = choose|i: int| 0 <= i < pts.len() && pts[i] == (cx + a, cy + b);
    let target = if flip_x {
        (cx - a, cy + b)
    } else {
        (cx + a, cy - b)
    };
    if i < 8 {
        assert(emitted[i] == (cx + a, cy + b));
        let j: int = if flip_x {
            if i == 0 {
                2
            } else if i == 1 {
                3
            } else if i == 2 {
                0
            } else if i == 3 {
                1
            } else if i == 4 {
                7
            } else if i == 5 {
                6
            } else if i == 6 {
                5
            } else {
                4
            }
        } else {
            if i == 0 {
                1
            } else if i == 1 {
                0
            } else if i == 2 {
                3
            } else if i == 3 {
                2
            } else if i == 4 {
                5
            } else if i == 5 {
                4
            } else if i == 6 {
                7
            } else {
                6
            }
        };
        assert(emitted[j] == target);
        assert(pts[j] == target);
        assert(pts.contains(target));
    } else {
        assert(rest[i - 8] == (cx + a, cy + b));
        assert(rest.contains((cx + a, cy + b)));
        assert(rest.contains(target));
        let j = choose|j: int| 0 <= j < rest.len() && rest[j] == target;
        assert(pts[j + 8] == target);
        assert(pts.contains(target));
    }
}

/// The circle outline is symmetric: the set of rasterized points of a circle
/// around `(cx, cy)` is invariant under reflection across the horizontal and
/// the vertical axis through the center.
pub proof fn lemma_circle_outline_symmetric(cx: int, cy: int, r: int)
    ensures
        forall|a: int, b: int|
            circle_pts(cx, cy, r).contains((cx + a, cy + b)) <==> #[trigger] circle_pts(
                cx,
                cy,
                r,
            ).contains((cx - a, cy + b)),
        forall|a: int, b: int|
            circle_pts(cx, cy, r).contains((cx + a, cy + b)) <==> #[trigger] circle_pts(
                cx,
                cy,
                r,
            ).contains((cx + a, cy - b)),
{
    lemma_circle_pts_rest_symmetric(cx, cy, -r, r, 0);
}

/// Every point the circle walk emits lies within `r` of the center on both
/// axes.
proof fn lemma_circle_pts_in_box(cx: int, cy: int, e: int, xo: int, yo: int, r: int)
    requires
        0 <= yo,
        xo <= r,
    ensures
        forall|i: int|
            0 <= i < circle_pts_rest(cx, cy, e, xo, yo).len() ==> cx - r <= (
            #[trigger] circle_pts_rest(cx, cy, e, xo, yo)[i]).0 <= cx + r && cy - r
                <= circle_pts_rest(cx, cy, e, xo, yo)[i].1 <= cy + r,
    decreases xo - yo + 2,
{
    if yo <= xo {
        let pts = circle_pts_rest(cx, cy, e, xo, yo);
        let e2 = e + 2 * yo + 1;
        let e3 = if e2 >= 0 {
            e2 - (2 * xo - 1)
        } else {
            e2
        };
        let xo2 = if e2 >= 0 {
            xo - 1
        } else {
            xo
        };
        let rest = circle_pts_rest(cx, cy, e3, xo2, yo + 1);
        lemma_circle_pts_in_box(cx, cy, e3, xo2, yo + 1, r);
        assert forall|i: int|
            0 <= i < pts.len() implies cx - r <= (#[trigger] pts[i]).0 <= cx + r && cy - r
            <= pts[i].1 <= cy + r by {
            if i >= 8 {
                assert(pts[i] == rest[i - 8]);
            }
        }
    }
}

/// Drawing a circle outline whose bounding box lies fully off the canvas
/// never changes the buffer.
pub proof fn lemma_circle_off_canvas(
    s: Seq<RGB>,
    w: int,
    h: int,
    cx: int,
    cy: int,
    r: int,
    c: RGBA,
)
    requires
        r >= 0,
        cx + r < 0 || cx - r >= w || cy + r < 0 || cy - r >= h,
    ensures
        circle_result(s, w, h, cx, cy, r, c) == s,
{
    if r != 0 {
        lemma_circle_pts_in_box(cx, cy, -r, r, 0, r);
        crate::canvas::lemma_put_all_outside(s, w, h, circle_pts(cx, cy, r), c);
    }
}

/// The solid-circle walk writes matching slots of both boundary buffers, and
/// only with columns within `r` of the center.
proof fn lemma_circle_walk_values(
    lb: Seq<int>,
    rb: Seq<int>,
    cx: int,
    rbase: int,
    e: int,
    xo: int,
    yo: int,
)
    requires
        0 <= yo,
        0 <= rbase,
        xo <= rbase,
        lb.len() == 2 * rbase + 1,
        rb.len() == 2 * rbase + 1,
        forall|i: int|
            0 <= i < lb.len() ==> (((#[trigger] lb[i]) == rb[i]) || (cx - rbase <= lb[i] <= cx
                + rbase && cx - rbase <= rb[i] <= cx + rbase)),
    ensures
        ({
            let walked = circle_solid_walk(lb, rb, cx, rbase, e, xo, yo);
            &&& walked.0.len() == lb.len()
            &&& walked.1.len() == rb.len()
            &&& forall|i: int|
                0 <= i < lb.len() ==> (((#[trigger] walked.0[i]) == walked.1[i]) || (cx - rbase
                    <= walked.0[i] <= cx + rbase && cx - rbase <= walked.1[i] <= cx + rbase))
        }),
    decreases xo - yo + 2,
{
    if yo <= xo {
        let rb1 = rb.update(rbase + yo, cx + xo).update(rbase - yo, cx + xo).update(
            rbase + xo,
            cx + yo,
        ).update(rbase - xo, cx + yo);
        let lb1 = lb.update(rbase + yo, cx - xo).update(rbase - yo, cx - xo).update(
            rbase + xo,
            cx - yo,
        ).update(rbase - xo, cx - yo);
        let e2 = e + 2 * yo + 1;
        let e3 = if e2 >= 0 {
            e2 - (2 * xo - 1)
        } else {
            e2
        };
        let xo2 = if e2 >= 0 {
            xo - 1
        } else {
            xo
        };
        assert forall|i: int|
            0 <= i < lb1.len() implies (((#[trigger] lb1[i]) == rb1[i]) || (cx - rbase <= lb1[i]
            <= cx + rbase && cx - rbase <= rb1[i] <= cx + rbase)) by {
            if i != rbase + yo && i != rbase - yo && i != rbase + xo && i != rbase - xo {
                assert(lb1[i] == lb[i] && rb1[i] == rb[i]);
            }
        }
        lemma_circle_walk_values(lb1, rb1, cx, rbase, e3, xo2, yo + 1);
    }
}

/// Every point of the first `k` scanline runs lies within the given column
/// range and row range, provided every run's bounds do.
proof fn lemma_rows_pts_box(
    lb: Seq<int>,
    rb: Seq<int>,
    sx: int,
    sy: int,
    k: nat,
    xlo: int,
    xhi: int,
)
    requires
        k <= lb.len(),
        k <= rb.len(),
        forall|i: int|
            0 <= i < k ==> ((#[trigger] rb[i]) <= lb[i] || (xlo <= lb[i] + sx && rb[i] + sx
                <= xhi)),
    ensures
        forall|j: int|
            0 <= j < rows_pts(lb, rb, sx, sy, k).len() ==> xlo <= (#[trigger] rows_pts(
                lb,
                rb,
                sx,
                sy,
                k,
            )[j]).0 < xhi && sy <= rows_pts(lb, rb, sx, sy, k)[j].1 < sy + k,
    decreases k,
{
    if k > 0 {
        let prev = rows_pts(lb, rb, sx, sy, (k - 1) as nat);
        let row = row_pts(sy + (k - 1), lb[k - 1] + sx, rb[k - 1] + sx);
        lemma_rows_pts_box(lb, rb, sx, sy, (k - 1) as nat, xlo, xhi);
        let pts = rows_pts(lb, rb, sx, sy, k);
        assert(pts == prev + row);
        assert forall|j: int|
            0 <= j < pts.len() implies xlo <= (#[trigger] pts[j]).0 < xhi && sy <= pts[j].1 < sy
            + k by {
            if j < prev.len() {
                assert(pts[j] == prev[j]);
            } else {
                assert(pts[j] == row[j - prev.len()]);
            }
        }
    }
}

/// Drawing a solid circle whose bounding box lies fully off the canvas never
/// changes the buffer.
pub proof fn lemma_circle_solid_off_canvas(
    s: Seq<RGB>,
    w: int,
    h: int,
    cx: int,
    cy: int,
    r: int,
    c: RGBA,
)
    requires
        r >= 0,
        cx + r < 0 || cx - r >= w || cy + r < 0 || cy - r >= h,
    ensures
        circle_solid_result(s, w, h, cx, cy, r, c) == s,
{
    if r != 0 {
        let zeros = Seq::new((2 * r + 1) as nat, |i: int| 0int);
        lemma_circle_walk_values(zeros, zeros, cx, r, -r, r, 0);
        let walked = circle_solid_walk(zeros, zeros, cx, r, -r, r, 0);
        let pts = rows_pts(walked.0, walked.1, 0, cy - r, (2 * r) as nat);
        lemma_rows_pts_box(walked.0, walked.1, 0, cy - r, (2 * r) as nat, cx - r, cx + r + 1);
        assert forall|j: int|
            0 <= j < pts.len() implies !(0 <= (#[trigger] pts[j]).0 < w && 0 <= pts[j].1 < h) by {
            assert(cx - r <= pts[j].0 < cx + r + 1);
            assert(cy - r <= pts[j].1 < cy + r);
        }
        crate::canvas::lemma_put_all_outside(s, w, h, pts, c);
    }
}

/// The first vertex index with minimal y is in range and minimal.
proof fn lemma_minvert_props(vs: Seq<(int, int)>, n: int)
    requires
        1 <= n <= vs.len(),
    ensures
        0 <= minvert_idx(vs, n) < n,
        forall|j: int| 0 <= j < n ==> vs[minvert_idx(vs, n)].1 <= (#[trigger] vs[j]).1,
    decreases n,
{
    if n > 1 {
        lemma_minvert_props(vs, n - 1);
    }
}

/// The first vertex index with maximal y is in range and maximal.
proof fn lemma_maxvert_props(vs: Seq<(int, int)>, n: int)
    requires
        1 <= n <= vs.len(),
    ensures
        0 <= maxvert_idx(vs, n) < n,
        forall|j: int| 0 <= j < n ==> (#[trigger] vs[j]).1 <= vs[maxvert_idx(vs, n)].1,
    decreases n,
{
    if n > 1 {
        lemma_maxvert_props(vs, n - 1);
    }
}

/// The shallow edge walk only writes columns between the edge's endpoints,
/// and only to slots between the edge's rows.
proof fn lemma_pbl_shallow_values(
    buff: Seq<int>,
    x: int,
    y: int,
    step: int,
    p: int,
    dm: int,
    ds: int,
    right: bool,
    left: nat,
    sy: int,
    ey: int,
    xlo: int,
    xhi: int,
)
    requires
        step == 1 || step == -1,
        step == 1 ==> ey - sy == ds,
        step == -1 ==> sy - ey == ds,
        0 <= ds,
        1 <= dm,
        left <= dm,
        0 <= step * (y - sy) <= ds,
        p == 2 * ds * (dm - left + 1) - dm - 2 * dm * (step * (y - sy)),
        xlo <= x + 1,
        x + left <= xhi,
        0 <= sy,
        0 <= ey,
        sy < buff.len(),
        ey < buff.len(),
    ensures
        ({
            let res = pbl_shallow_rest(buff, x, y, step, p, dm, ds, right, left);
            &&& res.len() == buff.len()
            &&& forall|i: int|
                0 <= i < buff.len() ==> ((#[trigger] res[i]) == buff[i] || xlo <= res[i] <= xhi)
        }),
    decreases left,
{
    if left > 0 {
        let kk = step * (y - sy);
        let write = right || p >= 0;
        let ny = if p < 0 {
            y
        } else {
            y + step
        };
        let np = if p < 0 {
            p + 2 * ds
        } else {
            p + 2 * ds - 2 * dm
        };
        proof_pbl_step_arith(dm, ds, left as int, kk);
        if p >= 0 {
            assert(kk < ds) by (nonlinear_arith)
                requires
                    2 * ds * (dm - left + 1) - dm - 2 * dm * kk >= 0,
                    1 <= left <= dm,
                    0 <= ds,
                    1 <= dm,
                    0 <= kk,
            ;
        }
        let nb = if write {
            buff.update(ny, x + 1)
        } else {
            buff
        };
        lemma_pbl_shallow_values(nb, x + 1, ny, step, np, dm, ds, right, (left - 1) as nat, sy, ey, xlo, xhi);
        let res = pbl_shallow_rest(buff, x, y, step, p, dm, ds, right, left);
        assert forall|i: int|
            0 <= i < buff.len() implies ((#[trigger] res[i]) == buff[i] || xlo <= res[i] <= xhi) by {
            if write && i != ny {
                assert(nb[i] == buff[i]);
            }
        }
    }
}

/// The steep edge walk only writes columns between the edge's endpoints, and
/// only to slots between the edge's rows.
proof fn lemma_pbl_steep_values(
    buff: Seq<int>,
    x: int,
    y: int,
    step: int,
    p: int,
    dm: int,
    ds: int,
    left: nat,
    sx: int,
    ex: int,
    xlo: int,
    xhi: int,
)
    requires
        step == 1 || step == -1,
        step == 1 ==> ex - sx == ds,
        step == -1 ==> sx - ex == ds,
        0 <= ds <= dm,
        left <= dm,
        0 <= step * (x - sx) <= ds,
        p == 2 * ds * (dm - left + 1) - dm - 2 * dm * (step * (x - sx)),
        xlo <= sx <= xhi,
        xlo <= ex <= xhi,
        0 <= y + 1,
        y + left < buff.len(),
    ensures
        ({
            let res = pbl_steep_rest(buff, x, y, step, p, dm, ds, left);
            &&& res.len() == buff.len()
            &&& forall|i: int|
                0 <= i < buff.len() ==> ((#[trigger] res[i]) == buff[i] || xlo <= res[i] <= xhi)
        }),
    decreases left,
{
    if left > 0 {
        let kk = step * (x - sx);
        let nx = if p < 0 {
            x
        } else {
            x + step
        };
        let np = if p < 0 {
            p + 2 * ds
        } else {
            p + 2 * ds - 2 * dm
        };
        proof_pbl_step_arith(dm, ds, left as int, kk);
        if p >= 0 {
            assert(kk < ds) by (nonlinear_arith)
                requires
                    2 * ds * (dm - left + 1) - dm - 2 * dm * kk >= 0,
                    1 <= left <= dm,
                    0 <= ds,
                    1 <= dm,
                    0 <= kk,
            ;
        }
        let nb = buff.update(y + 1, nx);
        lemma_pbl_steep_values(nb, nx, y + 1, step, np, dm, ds, (left - 1) as nat, sx, ex, xlo, xhi);
        let res = pbl_steep_rest(buff, x, y, step, p, dm, ds, left);
        assert forall|i: int|
            0 <= i < buff.len() implies ((#[trigger] res[i]) == buff[i] || xlo <= res[i] <= xhi) by {
            if i != y + 1 {
                assert(nb[i] == buff[i]);
            } else {
                assert(nb[i] == nx);
            }
        }
    }
}

/// The product rearrangements used when one walk step advances.
proof fn proof_pbl_step_arith(dm: int, ds: int, left: int, kk: int)
    ensures
        2 * ds * (dm - (left - 1) + 1) == 2 * ds * (dm - left + 1) + 2 * ds,
        2 * dm * (kk + 1) == 2 * dm * kk + 2 * dm,
{
    assert(2 * ds * (dm - (left - 1) + 1) == 2 * ds * (dm - left + 1) + 2 * ds) by (nonlinear_arith);
    assert(2 * dm * (kk + 1) == 2 * dm * kk + 2 * dm) by (nonlinear_arith);
}

/// Recording one polygon edge changes boundary slots only to columns between
/// the edge's endpoints.
proof fn lemma_pbl_values(buff: Seq<int>, right: bool, x1: int, y1: int, x2: int, y2: int, xlo: int, xhi: int)
    requires
        xlo <= x1 <= xhi,
        xlo <= x2 <= xhi,
        0 <= y1,
        0 <= y2,
        y1 < buff.len(),
        y2 < buff.len(),
    ensures
        ({
            let res = pbl_spec(buff, right, x1, y1, x2, y2);
            &&& res.len() == buff.len()
            &&& forall|i: int|
                0 <= i < buff.len() ==> ((#[trigger] res[i]) == buff[i] || xlo <= res[i] <= xhi)
        }),
{
    let dx = if x2 >= x1 {
        x2 - x1
    } else {
        x1 - x2
    };
    let dy = if y2 >= y1 {
        y2 - y1
    } else {
        y1 - y2
    };
    if dx != 0 && dy <= dx {
        let sx = if x1 < x2 {
            x1
        } else {
            x2
        };
        let sy = if x1 < x2 {
            y1
        } else {
            y2
        };
        let ey = if x1 < x2 {
            y2
        } else {
            y1
        };
        let step: int = if sy < ey {
            1
        } else {
            -1
        };
        let b0 = buff.update(sy, sx);
        assert(2 * dy * (dx - dx + 1) == 2 * dy) by (nonlinear_arith);
        assert(2 * dx * (step * 0) == 0) by (nonlinear_arith);
        lemma_pbl_shallow_values(b0, sx, sy, step, 2 * dy - dx, dx, dy, right, dx as nat, sy, ey, xlo, xhi);
        let res = pbl_spec(buff, right, x1, y1, x2, y2);
        assert forall|i: int|
            0 <= i < buff.len() implies ((#[trigger] res[i]) == buff[i] || xlo <= res[i] <= xhi) by {
            if i != sy {
                assert(b0[i] == buff[i]);
            } else {
                assert(b0[i] == sx);
            }
        }
    } else {
        let sx = if y1 < y2 {
            x1
        } else {
            x2
        };
        let sy = if y1 < y2 {
            y1
        } else {
            y2
        };
        let ex = if y1 < y2 {
            x2
        } else {
            x1
        };
        let step: int = if sx < ex {
            1
        } else {
            -1
        };
        let b0 = buff.update(sy, sx);
        assert(2 * dx * (dy - dy + 1) == 2 * dx) by (nonlinear_arith);
        assert(2 * dy * (step * 0) == 0) by (nonlinear_arith);
        lemma_pbl_steep_values(b0, sx, sy, step, 2 * dx - dy, dy, dx, dy as nat, sx, ex, xlo, xhi);
        let res = pbl_spec(buff, right, x1, y1, x2, y2);
        assert forall|i: int|
            0 <= i < buff.len() implies ((#[trigger] res[i]) == buff[i] || xlo <= res[i] <= xhi) by {
            if i != sy {
                assert(b0[i] == buff[i]);
            } else {
                assert(b0[i] == sx);
            }
        }
    }
}

/// Walking a boundary chain changes slots only to columns between the
/// polygon's leftmost and rightmost vertex.
proof fn lemma_chain_values(buff: Seq<int>, vs: Seq<(int, int)>, right: bool, j: int, cnt: nat, xlo: int, xhi: int)
    requires
        vs.len() > 0 ==> 0 <= j < vs.len(),
        forall|k: int|
            0 <= k < vs.len() ==> xlo <= (#[trigger] vs[k]).0 <= xhi && 0 <= vs[k].1 < buff.len(),
    ensures
        ({
            let res = chain(buff, vs, right, j, cnt);
            &&& res.len() == buff.len()
            &&& forall|i: int|
                0 <= i < buff.len() ==> ((#[trigger] res[i]) == buff[i] || xlo <= res[i] <= xhi)
        }),
    decreases cnt,
{
    if cnt > 0 && vs.len() > 0 {
        let n = vs.len() as int;
        let jn = if j + 1 == n {
            0
        } else {
            j + 1
        };
        let e1 = vs[j];
        let e2 = vs[jn];
        let mid = pbl_spec(buff, right, e1.0, e1.1, e2.0, e2.1);
        lemma_pbl_values(buff, right, e1.0, e1.1, e2.0, e2.1, xlo, xhi);
        lemma_chain_values(mid, vs, right, jn, (cnt - 1) as nat, xlo, xhi);
    }
}

/// Drawing a solid polygon whose bounding box lies fully off the canvas
/// never changes the buffer. The bounding box is given as any column range
/// `[xlo, xhi]` and row range `[ylo, yhi]` containing every vertex.
pub proof fn lemma_polygon_solid_off_canvas(
    s: Seq<RGB>,
    w: int,
    h: int,
    vs: Seq<(int, int)>,
    clockwise: bool,
    c: RGBA,
    xlo: int,
    xhi: int,
    ylo: int,
    yhi: int,
)
    requires
        forall|k: int|
            0 <= k < vs.len() ==> xlo <= (#[trigger] vs[k]).0 <= xhi && ylo <= vs[k].1 <= yhi,
        xhi < 0 || xlo >= w || yhi < 0 || ylo >= h,
    ensures
        polygon_solid_result(s, w, h, vs, clockwise, c) == s,
{
    if vs.len() > 0 {
        let n = vs.len() as int;
        lemma_minvert_props(vs, n);
        lemma_maxvert_props(vs, n);
        let minv = minvert_idx(vs, n);
        let maxv = maxvert_idx(vs, n);
        let sx = vs[minv].0;
        let sy = vs[minv].1;
        let tvs = Seq::new(vs.len(), |i: int| (vs[i].0 - sx, vs[i].1 - sy));
        let rows = tvs[maxv].1 + 1;
        let zeros = Seq::new(rows as nat, |i: int| 0int);
        let startv = if clockwise {
            minv
        } else {
            maxv
        };
        let endv = if clockwise {
            maxv
        } else {
            minv
        };
        let rbuff = chain(zeros, tvs, true, startv, chain_len(startv, endv, n) as nat);
        let lbuff = chain(zeros, tvs, false, endv, chain_len(endv, startv, n) as nat);
        assert(forall|k: int|
            0 <= k < tvs.len() ==> xlo - sx <= (#[trigger] tvs[k]).0 <= xhi - sx && 0 <= tvs[k].1
                < zeros.len());
        lemma_chain_values(zeros, tvs, true, startv, chain_len(startv, endv, n) as nat, xlo - sx, xhi - sx);
        lemma_chain_values(zeros, tvs, false, endv, chain_len(endv, startv, n) as nat, xlo - sx, xhi - sx);
        assert forall|i: int|
            0 <= i < rows implies ((#[trigger] rbuff[i]) <= lbuff[i] || (xlo <= lbuff[i] + sx
            && rbuff[i] + sx <= xhi + 1)) by {
            assert(lbuff[i] == 0 || xlo - sx <= lbuff[i] <= xhi - sx);
            assert(rbuff[i] == 0 || xlo - sx <= rbuff[i] <= xhi - sx);
        }
        let pts = rows_pts(lbuff, rbuff, sx, sy, (rows - 1) as nat);
        lemma_rows_pts_box(lbuff, rbuff, sx, sy, (rows - 1) as nat, xlo, xhi + 1);
        assert forall|jj: int|
            0 <= jj < pts.len() implies !(0 <= (#[trigger] pts[jj]).0 < w && 0 <= pts[jj].1 < h) by {
            assert(xlo <= pts[jj].0 <= xhi);
            assert(sy <= pts[jj].1 < sy + rows - 1);
            assert(ylo <= sy && sy + rows - 1 == vs[maxv].1 <= yhi);
        }
        crate::canvas::lemma_put_all_outside(s, w, h, pts, c);
    }
}

/// Any point of a nonempty scanline run is among the points of the first `k`
/// runs that contain its row.
proof fn lemma_rows_pts_contains(lb: Seq<int>, rb: Seq<int>, sx: int, sy: int, k: nat, i: int, j: int)
    requires
        0 <= i < k,
        0 <= j,
        lb[i] + j < rb[i],
    ensures
        rows_pts(lb, rb, sx, sy, k).contains((lb[i] + sx + j, sy + i)),
    decreases k,
{
    let pts = rows_pts(lb, rb, sx, sy, k);
    let prev = rows_pts(lb, rb, sx, sy, (k - 1) as nat);
    let row = row_pts(sy + (k - 1), lb[k - 1] + sx, rb[k - 1] + sx);
    assert(pts == prev + row);
    if i == k - 1 {
        assert(row[j] == (lb[i] + sx + j, sy + i));
        assert(pts[prev.len() + j] == (lb[i] + sx + j, sy + i));
        assert(pts.contains((lb[i] + sx + j, sy + i)));
    } else {
        lemma_rows_pts_contains(lb, rb, sx, sy, (k - 1) as nat, i, j);
        let idx = choose|idx: int| 0 <= idx < prev.len() && prev[idx] == (lb[i] + sx + j, sy + i);
        assert(pts[idx] == (lb[i] + sx + j, sy + i));
        assert(pts.contains((lb[i] + sx + j, sy + i)));
    }
}

/// From the second walk step on, the middle boundary slot is never rewritten.
proof fn lemma_walk_preserves_mid(lb: Seq<int>, rb: Seq<int>, cx: int, rbase: int, e: int, xo: int, yo: int)
    requires
        1 <= yo,
        1 <= rbase,
        xo <= rbase,
        lb.len() == 2 * rbase + 1,
        rb.len() == 2 * rbase + 1,
    ensures
        ({
            let walked = circle_solid_walk(lb, rb, cx, rbase, e, xo, yo);
            &&& walked.0.len() == lb.len()
            &&& walked.1.len() == rb.len()
            &&& walked.0[rbase] == lb[rbase]
            &&& walked.1[rbase] == rb[rbase]
        }),
    decreases xo - yo + 2,
{
    if yo <= xo {
        let rb1 = rb.update(rbase + yo, cx + xo).update(rbase - yo, cx + xo).update(
            rbase + xo,
            cx + yo,
        ).update(rbase - xo, cx + yo);
        let lb1 = lb.update(rbase + yo, cx - xo).update(rbase - yo, cx - xo).update(
            rbase + xo,
            cx - yo,
        ).update(rbase - xo, cx - yo);
        let e2 = e + 2 * yo + 1;
        let e3 = if e2 >= 0 {
            e2 - (2 * xo - 1)
        } else {
            e2
        };
        let xo2 = if e2 >= 0 {
            xo - 1
        } else {
            xo
        };
        assert(lb1[rbase] == lb[rbase] && rb1[rbase] == rb[rbase]);
        lemma_walk_preserves_mid(lb1, rb1, cx, rbase, e3, xo2, yo + 1);
    }
}

/// From the second walk step on, the topmost boundary slot keeps straddling
/// the center column once it does.
proof fn lemma_walk_slot_top(lb: Seq<int>, rb: Seq<int>, cx: int, rbase: int, e: int, xo: int, yo: int)
    requires
        1 <= yo,
        1 <= rbase,
        xo <= rbase,
        lb.len() == 2 * rbase + 1,
        rb.len() == 2 * rbase + 1,
        lb[0] <= cx - 1,
        rb[0] >= cx + 1,
    ensures
        ({
            let walked = circle_solid_walk(lb, rb, cx, rbase, e, xo, yo);
            &&& walked.0.len() == lb.len()
            &&& walked.1.len() == rb.len()
            &&& walked.0[0] <= cx - 1
            &&& walked.1[0] >= cx + 1
        }),
    decreases xo - yo + 2,
{
    if yo <= xo {
        let rb1 = rb.update(rbase + yo, cx + xo).update(rbase - yo, cx + xo).update(
            rbase + xo,
            cx + yo,
        ).update(rbase - xo, cx + yo);
        let lb1 = lb.update(rbase + yo, cx - xo).update(rbase - yo, cx - xo).update(
            rbase + xo,
            cx - yo,
        ).update(rbase - xo, cx - yo);
        let e2 = e + 2 * yo + 1;
        let e3 = if e2 >= 0 {
            e2 - (2 * xo - 1)
        } else {
            e2
        };
        let xo2 = if e2 >= 0 {
            xo - 1
        } else {
            xo
        };
        assert(lb1[0] <= cx - 1 && rb1[0] >= cx + 1);
        lemma_walk_slot_top(lb1, rb1, cx, rbase, e3, xo2, yo + 1);
    }
}

/// The solid circle contains its leftmost axis point `(cx - r, cy)`, and for
/// radius at least 2 also its topmost axis point `(cx, cy - r)`. The two
/// opposite axis points `(cx + r, cy)` and `(cx, cy + r)` are excluded by the
/// half-open fill conventions: runs exclude their right bound, and the
/// bottommost scanline is not filled.
pub proof fn lemma_circle_solid_axis_points(cx: int, cy: int, r: int)
    requires
        1 <= r,
    ensures
        ({
            let zeros = Seq::new((2 * r + 1) as nat, |i: int| 0int);
            let walked = circle_solid_walk(zeros, zeros, cx, r, -r, r, 0);
            let pts = rows_pts(walked.0, walked.1, 0, cy - r, (2 * r) as nat);
            &&& pts.contains((cx - r, cy))
            &&& r >= 2 ==> pts.contains((cx, cy - r))
        }),
{
    let zeros = Seq::new((2 * r + 1) as nat, |i: int| 0int);
    let walked = circle_solid_walk(zeros, zeros, cx, r, -r, r, 0);

    // first step: offsets (r, 0)
    let rb1 = zeros.update(r + 0, cx + r).update(r - 0, cx + r).update(r + r, cx + 0).update(
        r - r,
        cx + 0,
    );
    let lb1 = zeros.update(r + 0, cx - r).update(r - 0, cx - r).update(r + r, cx - 0).update(
        r - r,
        cx - 0,
    );
    let e1 = -r + 2 * 0 + 1;
    assert(lb1[r] == cx - r && rb1[r] == cx + r);

    if r == 1 {
        // second state: offsets (0, 1); the walk stops at once
        let walked1 = circle_solid_walk(lb1, rb1, cx, r, e1 - (2 * r - 1), r - 1, 1);
        assert(walked1 == (lb1, rb1));
        assert(walked.0[r] == cx - r && walked.1[r] == cx + r);
    } else {
        lemma_walk_preserves_mid(lb1, rb1, cx, r, e1, r, 1);
        assert(walked.0[r] == cx - r && walked.1[r] == cx + r);

        // second step: offsets (r, 1)
        let rb2 = rb1.update(r + 1, cx + r).update(r - 1, cx + r).update(r + r, cx + 1).update(
            r - r,
            cx + 1,
        );
        let lb2 = lb1.update(r + 1, cx - r).update(r - 1, cx - r).update(r + r, cx - 1).update(
            r - r,
            cx - 1,
        );
        let e2 = e1 + 2 * 1 + 1;
        let e3 = if e2 >= 0 {
            e2 - (2 * r - 1)
        } else {
            e2
        };
        let xo3 = if e2 >= 0 {
            r - 1
        } else {
            r
        };
        assert(lb2[0] == cx - 1 && rb2[0] == cx + 1);
        lemma_walk_slot_top(lb2, rb2, cx, r, e3, xo3, 2);
        assert(walked.0[0] <= cx - 1 && walked.1[0] >= cx + 1);
        lemma_rows_pts_contains(walked.0, walked.1, 0, cy - r, (2 * r) as nat, 0, cx - walked.0[0]);
    }

    lemma_rows_pts_contains(walked.0, walked.1, 0, cy - r, (2 * r) as nat, r, 0);
}

/// Every remaining point of a shallow midpoint walk stays within the walk's
/// column span and between the edge's rows.
proof fn lemma_shallow_rest_in_box(x: int, y: int, step: int, p: int, dm: int, ds: int, left: nat, sy: int, ey: int)
    requires
        step == 1 || step == -1,
        step == 1 ==> ey - sy == ds,
        step == -1 ==> sy - ey == ds,
        0 <= ds,
        1 <= dm,
        left <= dm,
        0 <= step * (y - sy) <= ds,
        p == 2 * ds * (dm - left + 1) - dm - 2 * dm * (step * (y - sy)),
    ensures
        forall|i: int|
            0 <= i < shallow_rest(x, y, step, p, dm, ds, left).len() ==> ({
                let pt = #[trigger] shallow_rest(x, y, step, p, dm, ds, left)[i];
                &&& x + 1 <= pt.0 <= x + left
                &&& (step == 1 ==> sy <= pt.1 <= ey)
                &&& (step == -1 ==> ey <= pt.1 <= sy)
            }),
    decreases left,
{
    if left > 0 {
        let kk = step * (y - sy);
        let ny = if p < 0 {
            y
        } else {
            y + step
        };
        let np = if p < 0 {
            p + 2 * ds
        } else {
            p + 2 * ds - 2 * dm
        };
        proof_pbl_step_arith(dm, ds, left as int, kk);
        if p >= 0 {
            assert(kk < ds) by (nonlinear_arith)
                requires
                    2 * ds * (dm - left + 1) - dm - 2 * dm * kk >= 0,
                    1 <= left <= dm,
                    0 <= ds,
                    1 <= dm,
                    0 <= kk,
            ;
        }
        lemma_shallow_rest_in_box(x + 1, ny, step, np, dm, ds, (left - 1) as nat, sy, ey);
        let pts = shallow_rest(x, y, step, p, dm, ds, left);
        let rest = shallow_rest(x + 1, ny, step, np, dm, ds, (left - 1) as nat);
        assert(pts == seq![(x + 1, ny)] + rest);
        assert forall|i: int|
            0 <= i < pts.len() implies ({
                let pt = #[trigger] pts[i];
                &&& x + 1 <= pt.0 <= x + left
                &&& (step == 1 ==> sy <= pt.1 <= ey)
                &&& (step == -1 ==> ey <= pt.1 <= sy)
            }) by {
            if i > 0 {
                assert(pts[i] == rest[i - 1]);
            }
        }
    }
}

/// Every remaining point of a steep midpoint walk stays within the walk's
/// row span and between the edge's columns.
proof fn lemma_steep_rest_in_box(x: int, y: int, step: int, p: int, dm: int, ds: int, left: nat, sx: int, ex: int)
    requires
        step == 1 || step == -1,
        step == 1 ==> ex - sx == ds,
        step == -1 ==> sx - ex == ds,
        0 <= ds,
        1 <= dm,
        left <= dm,
        0 <= step * (x - sx) <= ds,
        p == 2 * ds * (dm - left + 1) - dm - 2 * dm * (step * (x - sx)),
    ensures
        forall|i: int|
            0 <= i < crate::line::steep_rest(x, y, step, p, dm, ds, left).len() ==> ({
                let pt = #[trigger] crate::line::steep_rest(x, y, step, p, dm, ds, left)[i];
                &&& y + 1 <= pt.1 <= y + left
                &&& (step == 1 ==> sx <= pt.0 <= ex)
                &&& (step == -1 ==> ex <= pt.0 <= sx)
            }),
    decreases left,
{
    if left > 0 {
        let kk = step * (x - sx);
        let nx = if p < 0 {
            x
        } else {
            x + step
        };
        let np = if p < 0 {
            p + 2 * ds
        } else {
            p + 2 * ds - 2 * dm
        };
        proof_pbl_step_arith(dm, ds, left as int, kk);
        if p >= 0 {
            assert(kk < ds) by (nonlinear_arith)
                requires
                    2 * ds * (dm - left + 1) - dm - 2 * dm * kk >= 0,
                    1 <= left <= dm,
                    0 <= ds,
                    1 <= dm,
                    0 <= kk,
            ;
        }
        lemma_steep_rest_in_box(nx, y + 1, step, np, dm, ds, (left - 1) as nat, sx, ex);
        let pts = crate::line::steep_rest(x, y, step, p, dm, ds, left);
        let rest = crate::line::steep_rest(nx, y + 1, step, np, dm, ds, (left - 1) as nat);
        assert(pts == seq![(nx, y + 1)] + rest);
        assert forall|i: int|
            0 <= i < pts.len() implies ({
                let pt = #[trigger] pts[i];
                &&& y + 1 <= pt.1 <= y + left
                &&& (step == 1 ==> sx <= pt.0 <= ex)
                &&& (step == -1 ==> ex <= pt.0 <= sx)
            }) by {
            if i > 0 {
                assert(pts[i] == rest[i - 1]);
            }
        }
    }
}

/// Every rasterized point of a line lies within the bounding box of its
/// endpoints.
pub proof fn lemma_line_pts_in_bbox(x1: int, y1: int, x2: int, y2: int)
    ensures
        forall|i: int|
            0 <= i < line_pts(x1, y1, x2, y2).len() ==> ({
                let pt = #[trigger] line_pts(x1, y1, x2, y2)[i];
                &&& (if x1 < x2 { x1 } else { x2 }) <= pt.0 <= (if x1 < x2 { x2 } else { x1 })
                &&& (if y1 < y2 { y1 } else { y2 }) <= pt.1 <= (if y1 < y2 { y2 } else { y1 })
            }),
{
    let pts = line_pts(x1, y1, x2, y2);
    if x1 == x2 {
    } else {
        let dx = if x2 >= x1 {
            x2 - x1
        } else {
            x1 - x2
        };
        let dy = if y2 >= y1 {
            y2 - y1
        } else {
            y1 - y2
        };
        if dy <= dx {
            let sx = if x1 < x2 {
                x1
            } else {
                x2
            };
            let sy = if x1 < x2 {
                y1
            } else {
                y2
            };
            let ey = if x1 < x2 {
                y2
            } else {
                y1
            };
            let step: int = if sy < ey {
                1
            } else {
                -1
            };
            assert(2 * dy * (dx - dx + 1) == 2 * dy) by (nonlinear_arith);
            assert(2 * dx * (step * 0) == 0) by (nonlinear_arith);
            lemma_shallow_rest_in_box(sx, sy, step, 2 * dy - dx, dx, dy, dx as nat, sy, ey);
            let rest = shallow_rest(sx, sy, step, 2 * dy - dx, dx, dy, dx as nat);
            assert(pts == seq![(sx, sy)] + rest);
            assert forall|i: int|
                0 <= i < pts.len() implies ({
                    let pt = #[trigger] pts[i];
                    &&& (if x1 < x2 { x1 } else { x2 }) <= pt.0 <= (if x1 < x2 { x2 } else { x1 })
                    &&& (if y1 < y2 { y1 } else { y2 }) <= pt.1 <= (if y1 < y2 { y2 } else { y1 })
                }) by {
                if i > 0 {
                    assert(pts[i] == rest[i - 1]);
                }
            }
        } else {
            let sx = if y1 < y2 {
                x1
            } else {
                x2
            };
            let sy = if y1 < y2 {
                y1
            } else {
                y2
            };
            let ex = if y1 < y2 {
                x2
            } else {
                x1
            };
            let step: int = if sx < ex {
                1
            } else {
                -1
            };
            assert(2 * dx * (dy - dy + 1) == 2 * dx) by (nonlinear_arith);
            assert(2 * dy * (step * 0) == 0) by (nonlinear_arith);
            lemma_steep_rest_in_box(sx, sy, step, 2 * dx - dy, dy, dx, dy as nat, sx, ex);
            let rest = crate::line::steep_rest(sx, sy, step, 2 * dx - dy, dy, dx, dy as nat);
            assert(pts == seq![(sx, sy)] + rest);
            assert forall|i: int|
                0 <= i < pts.len() implies ({
                    let pt = #[trigger] pts[i];
                    &&& (if x1 < x2 { x1 } else { x2 }) <= pt.0 <= (if x1 < x2 { x2 } else { x1 })
                    &&& (if y1 < y2 { y1 } else { y2 }) <= pt.1 <= (if y1 < y2 { y2 } else { y1 })
                }) by {
                if i > 0 {
                    assert(pts[i] == rest[i - 1]);
                }
            }
        }
    }
}

/// Drawing a line whose bounding box lies fully off the canvas never changes
/// the buffer, provided its carrier line also crosses no canvas boundary
/// within range (no clipping candidate is valid). A segment whose infinite
/// extension does cross the canvas may be clipped back onto it by the
/// boundary-intersection rule, so this proviso cannot be dropped.
pub proof fn lemma_line_off_canvas_unclipped(
    s: Seq<RGB>,
    w: int,
    h: int,
    x1: int,
    y1: int,
    x2: int,
    y2: int,
    c: RGBA,
)
    requires
        x1 != x2,
        !(0 <= x1 < w && 0 <= y1 < h),
        !(0 <= x2 < w && 0 <= y2 < h),
        crate::clamp::cand_at_x(0, h, x1, y1, x2, y2) is None,
        crate::clamp::cand_at_x(w, h, x1, y1, x2, y2) is None,
        crate::clamp::cand_at_y(0, w, x1, y1, x2, y2) is None,
        crate::clamp::cand_at_y(h, w, x1, y1, x2, y2) is None,
        (if x1 < x2 { x2 } else { x1 }) < 0 || (if x1 < x2 { x1 } else { x2 }) >= w || (if y1 < y2 { y2 } else { y1 }) < 0 || (if y1 < y2 { y1 } else { y2 }) >= h,
    ensures
        line_result(s, w, h, x1, y1, x2, y2, c) == s,
{
    let (cx1, cy1, cx2, cy2) = clamp_spec(w, h, x1, y1, x2, y2);
    assert((cx1, cy1, cx2, cy2) == (x1, y1, x2, y2));
    lemma_line_pts_in_bbox(x1, y1, x2, y2);
    let pts = line_pts(x1, y1, x2, y2);
    assert forall|i: int|
        0 <= i < pts.len() implies !(0 <= (#[trigger] pts[i]).0 < w && 0 <= pts[i].1 < h) by {}
    crate::canvas::lemma_put_all_outside(s, w, h, pts, c);
}

/// A column in a half-open run is never farther from a point than the run's
/// ends.
proof fn lemma_interval_sq(a: int, b: int, t: int, c: int)
    requires
        a <= t < b,
    ensures
        (t - c) * (t - c) <= (a - c) * (a - c) || (t - c) * (t - c) <= (b - 1 - c) * (b - 1 - c),
{
    if t <= c {
        assert((t - c) * (t - c) <= (a - c) * (a - c)) by (nonlinear_arith)
            requires
                a <= t <= c,
        ;
    } else {
        assert((t - c) * (t - c) <= (b - 1 - c) * (b - 1 - c)) by (nonlinear_arith)
            requires
                c < t <= b - 1,
        ;
    }
}

/// Whether every column of the half-open run `[lb, rb)` at row distance `d`
/// from the center row stays within Euclidean distance `r + 1` of the center.
pub open spec fn run_within(lb: int, rb: int, cx: int, d: int, r: int) -> bool {
    lb == rb || ((lb - cx) * (lb - cx) + d * d <= (r + 1) * (r + 1) && (rb - 1 - cx) * (rb - 1
        - cx) + d * d <= (r + 1) * (r + 1))
}

/// Along the solid-circle walk, the decision value always equals
/// `xo^2 + yo^2 - r^2 - r`, every visited offset pair stays within Euclidean
/// distance `r + 1` of the center, and so does every recorded boundary run.
proof fn lemma_walk_distance(
    lb: Seq<int>,
    rb: Seq<int>,
    cx: int,
    r: int,
    e: int,
    xo: int,
    yo: int,
)
    requires
        1 <= r,
        0 <= yo,
        xo <= r,
        yo <= xo ==> 1 <= xo,
        yo <= xo ==> xo * xo + yo * yo <= (r + 1) * (r + 1),
        e == xo * xo + yo * yo - r * r - r,
        lb.len() == 2 * r + 1,
        rb.len() == 2 * r + 1,
        forall|i: int| 0 <= i < lb.len() ==> run_within(#[trigger] lb[i], rb[i], cx, i - r, r),
    ensures
        ({
            let walked = circle_solid_walk(lb, rb, cx, r, e, xo, yo);
            &&& walked.0.len() == lb.len()
            &&& walked.1.len() == rb.len()
            &&& forall|i: int|
                0 <= i < lb.len() ==> run_within(#[trigger] walked.0[i], walked.1[i], cx, i - r, r)
        }),
    decreases xo - yo + 2,
{
    if yo <= xo {
        let rb1 = rb.update(r + yo, cx + xo).update(r - yo, cx + xo).update(
            r + xo,
            cx + yo,
        ).update(r - xo, cx + yo);
        let lb1 = lb.update(r + yo, cx - xo).update(r - yo, cx - xo).update(
            r + xo,
            cx - yo,
        ).update(r - xo, cx - yo);
        let e2 = e + 2 * yo + 1;
        let e3 = if e2 >= 0 {
            e2 - (2 * xo - 1)
        } else {
            e2
        };
        let xo2 = if e2 >= 0 {
            xo - 1
        } else {
            xo
        };
        let yo2 = yo + 1;

        // the decision value keeps tracking the squared distance
        assert(e2 == xo * xo + yo2 * yo2 - r * r - r) by (nonlinear_arith)
            requires
                e2 == e + 2 * yo + 1,
                e == xo * xo + yo * yo - r * r - r,
                yo2 == yo + 1,
        ;
        assert(e3 == xo2 * xo2 + yo2 * yo2 - r * r - r) by (nonlinear_arith)
            requires
                e2 == xo * xo + yo2 * yo2 - r * r - r,
                e3 == (if e2 >= 0 {
                    e2 - (2 * xo - 1)
                } else {
                    e2
                }),
                xo2 == (if e2 >= 0 {
                    xo - 1
                } else {
                    xo
                }),
        ;

        // the next visited offset pair stays within distance r + 1
        if yo2 <= xo2 {
            if e2 < 0 {
                assert(xo2 * xo2 + yo2 * yo2 < r * r + r);
                assert(r * r + r <= (r + 1) * (r + 1)) by (nonlinear_arith)
                    requires
                        1 <= r,
                ;
            } else {
                // a correction happened and the walk continues: yo2 <= xo - 1
                assert(e <= r + 1) by (nonlinear_arith)
                    requires
                        e == xo * xo + yo * yo - r * r - r,
                        xo * xo + yo * yo <= (r + 1) * (r + 1),
                        1 <= r,
                ;
                assert(xo2 * xo2 + yo2 * yo2 <= (r + 1) * (r + 1)) by (nonlinear_arith)
                    requires
                        xo2 == xo - 1,
                        yo2 == yo + 1,
                        yo2 <= xo2,
                        yo <= xo,
                        e2 == xo * xo + yo2 * yo2 - r * r - r,
                        e2 == e + 2 * yo + 1,
                        e <= r + 1,
                        1 <= r,
                ;
            }
        }

        // the freshly recorded runs stay within distance r + 1
        assert(xo * xo + yo * yo <= (r + 1) * (r + 1));
        assert((xo - 1) * (xo - 1) + yo * yo <= (r + 1) * (r + 1)) by (nonlinear_arith)
            requires
                xo * xo + yo * yo <= (r + 1) * (r + 1),
                1 <= xo,
        ;
        assert((yo - 1) * (yo - 1) + xo * xo <= (r + 1) * (r + 1)) by (nonlinear_arith)
            requires
                xo * xo + yo * yo <= (r + 1) * (r + 1),
                0 <= yo,
                1 <= xo <= r,
                1 <= r,
        ;
        assert forall|i: int|
            0 <= i < lb.len() implies run_within(#[trigger] lb1[i], rb1[i], cx, i - r, r) by {
            if i != r + yo && i != r - yo && i != r + xo && i != r - xo {
                assert(lb1[i] == lb[i] && rb1[i] == rb[i]);
            } else if i == r + xo || i == r - xo {
                assert(lb1[i] == cx - yo && rb1[i] == cx + yo);
                assert((i - r) * (i - r) == xo * xo) by (nonlinear_arith)
                    requires
                        i == r + xo || i == r - xo,
                ;
                assert((cx - yo - cx) * (cx - yo - cx) == yo * yo) by (nonlinear_arith);
                assert((cx + yo - 1 - cx) * (cx + yo - 1 - cx) == (yo - 1) * (yo - 1))
                    by (nonlinear_arith);
            } else {
                assert(lb1[i] == cx - xo && rb1[i] == cx + xo);
                assert((i - r) * (i - r) == yo * yo) by (nonlinear_arith)
                    requires
                        i == r + yo || i == r - yo,
                ;
                assert((cx - xo - cx) * (cx - xo - cx) == xo * xo) by (nonlinear_arith);
                assert((cx + xo - 1 - cx) * (cx + xo - 1 - cx) == (xo - 1) * (xo - 1))
                    by (nonlinear_arith);
            }
        }
        lemma_walk_distance(lb1, rb1, cx, r, e3, xo2, yo2);
    }
}

/// Every point of the first `k` scanline runs stays within Euclidean
/// distance `r + 1` of the center `(cx, cy)`, provided every run does.
proof fn lemma_rows_pts_distance(
    lb: Seq<int>,
    rb: Seq<int>,
    cx: int,
    cy: int,
    r: int,
    k: nat,
)
    requires
        k <= lb.len(),
        k <= rb.len(),
        forall|i: int| 0 <= i < k ==> run_within(#[trigger] lb[i], rb[i], cx, cy - r + i - cy, r),
    ensures
        forall|j: int|
            0 <= j < rows_pts(lb, rb, 0, cy - r, k).len() ==> ({
                let pt = #[trigger] rows_pts(lb, rb, 0, cy - r, k)[j];
                (pt.0 - cx) * (pt.0 - cx) + (pt.1 - cy) * (pt.1 - cy) <= (r + 1) * (r + 1)
            }),
    decreases k,
{
    if k > 0 {
        let prev = rows_pts(lb, rb, 0, cy - r, (k - 1) as nat);
        let row = row_pts(cy - r + (k - 1), lb[k - 1], rb[k - 1]);
        lemma_rows_pts_distance(lb, rb, cx, cy, r, (k - 1) as nat);
        let pts = rows_pts(lb, rb, 0, cy - r, k);
        assert(pts == prev + row);
        assert forall|j: int|
            0 <= j < pts.len() implies ({
                let pt = #[trigger] pts[j];
                (pt.0 - cx) * (pt.0 - cx) + (pt.1 - cy) * (pt.1 - cy) <= (r + 1) * (r + 1)
            }) by {
            if j < prev.len() {
                assert(pts[j] == prev[j]);
            } else {
                assert(pts[j] == row[j - prev.len()]);
                let t = row[j - prev.len()].0;
                assert(lb[k - 1] <= t < rb[k - 1]);
                lemma_interval_sq(lb[k - 1], rb[k - 1], t, cx);
            }
        }
    }
}

/// No point of a solid circle lies farther than `r + 1` from its center, in
/// Euclidean distance.
pub proof fn lemma_circle_solid_within_radius(cx: int, cy: int, r: int)
    requires
        1 <= r,
    ensures
        ({
            let zeros = Seq::new((2 * r + 1) as nat, |i: int| 0int);
            let walked = circle_solid_walk(zeros, zeros, cx, r, -r, r, 0);
            let pts = rows_pts(walked.0, walked.1, 0, cy - r, (2 * r) as nat);
            forall|j: int|
                0 <= j < pts.len() ==> ({
                    let pt = #[trigger] pts[j];
                    (pt.0 - cx) * (pt.0 - cx) + (pt.1 - cy) * (pt.1 - cy) <= (r + 1) * (r + 1)
                })
        }),
{
    let zeros = Seq::new((2 * r + 1) as nat, |i: int| 0int);
    assert(-r == r * r + 0 * 0 - r * r - r) by (nonlinear_arith);
    assert(r * r + 0 * 0 <= (r + 1) * (r + 1)) by (nonlinear_arith)
        requires
            1 <= r,
    ;
    lemma_walk_distance(zeros, zeros, cx, r, -r, r, 0);
    let walked = circle_solid_walk(zeros, zeros, cx, r, -r, r, 0);
    lemma_rows_pts_distance(walked.0, walked.1, cx, cy, r, (2 * r) as nat);
}

} // verus!
