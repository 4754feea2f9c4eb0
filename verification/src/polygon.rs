//! Polygon rasterization: outline drawing and solid scanline fill via a dual
//! edge walk over a "right" and a "left" boundary chain.

use vstd::prelude::*;

use crate::canvas::{
    buf_view, coord_ok, lemma_buf_view_update, put_all, rows_pts, vertex_ok, zeros, Canvas,
};
use crate::color::{RGB, RGBA};
use crate::line::line_result;

verus! {

/// A vertex list seen as pairs of mathematical integers.
pub open spec fn verts_view(v: Seq<(isize, isize)>) -> Seq<(int, int)> {
    Seq::new(v.len(), |i: int| (v[i].0 as int, v[i].1 as int))
}

/// The index of the first vertex with minimal y among the first `n` vertices.
pub open spec fn minvert_idx(vs: Seq<(int, int)>, n: int) -> int
    decreases n,
{
    if n <= 1 {
        0
    } else {
        let m = minvert_idx(vs, n - 1);
        if vs[n - 1].1 < vs[m].1 {
            n - 1
        } else {
            m
        }
    }
}

/// The index of the first vertex with maximal y among the first `n` vertices.
pub open spec fn maxvert_idx(vs: Seq<(int, int)>, n: int) -> int
    decreases n,
{
    if n <= 1 {
        0
    } else {
        let m = maxvert_idx(vs, n - 1);
        if vs[n - 1].1 > vs[m].1 {
            n - 1
        } else {
            m
        }
    }
}

/// The number of edges a boundary chain walks from vertex `from` until the
/// walk stands on vertex `to`: between 1 and `n` (all the way around when the
/// two coincide).
pub open spec fn chain_len(from: int, to: int, n: int) -> int {
    if to > from {
        to - from
    } else {
        n - from + to
    }
}

/// The boundary buffer after walking `cnt` consecutive polygon edges starting
/// at vertex `j`, recording each edge with [`pbl_spec`].
pub open spec fn chain(buff: Seq<int>, vs: Seq<(int, int)>, right: bool, j: int, cnt: nat) -> Seq<
    int,
>
    decreases cnt,
{
    if cnt == 0 || vs.len() == 0 {
        buff
    } else {
        let n = vs.len() as int;
        let jn = if j + 1 == n {
            0
        } else {
            j + 1
        };
        let e1 = vs[j];
        let e2 = vs[jn];
        chain(pbl_spec(buff, right, e1.0, e1.1, e2.0, e2.1), vs, right, jn, (cnt - 1) as nat)
    }
}

/// The buffer after drawing the first `i` connecting edges of a polygon
/// outline: edge `k` runs from vertex `k` to vertex `k - 1`.
pub open spec fn outline_edges(
    s: Seq<RGB>,
    w: int,
    h: int,
    vs: Seq<(int, int)>,
    c: RGBA,
    i: int,
) -> Seq<RGB>
    decreases i,
{
    if i <= 1 {
        s
    } else {
        line_result(
            outline_edges(s, w, h, vs, c, i - 1),
            w,
            h,
            vs[i - 1].0,
            vs[i - 1].1,
            vs[i - 2].0,
            vs[i - 2].1,
            c,
        )
    }
}

/// The buffer after drawing the closed outline of a polygon: consecutive
/// vertices are connected in order, and the wrap-around edge runs from the
/// first vertex to the last.
pub open spec fn outline_result(
    s: Seq<RGB>,
    w: int,
    h: int,
    vs: Seq<(int, int)>,
    c: RGBA,
) -> Seq<RGB> {
    if vs.len() == 0 {
        s
    } else {
        let n = vs.len() as int;
        line_result(
            outline_edges(s, w, h, vs, c, n),
            w,
            h,
            vs[0].0,
            vs[0].1,
            vs[n - 1].0,
            vs[n - 1].1,
            c,
        )
    }
}

/// The buffer after filling a polygon: the vertices are translated so the
/// topmost vertex sits at the origin, the boundary is split at the topmost
/// and bottommost vertices into a "right" and a "left" chain, each chain is
/// walked into its scanline-boundary buffer, and each scanline from the
/// topmost row up to but excluding the bottommost row is filled from the
/// left boundary up to but excluding the right boundary.
pub open spec fn polygon_solid_result(
    s: Seq<RGB>,
    w: int,
    h: int,
    vs: Seq<(int, int)>,
    clockwise: bool,
    c: RGBA,
) -> Seq<RGB> {
    if vs.len() == 0 {
        s
    } else {
        let n = vs.len() as int;
        let minv = minvert_idx(vs, n);
        let maxv = maxvert_idx(vs, n);
        let sx = vs[minv].0;
        let sy = vs[minv].1;
        let tvs = Seq::new(vs.len(), |i: int| (vs[i].0 - sx, vs[i].1 - sy));
        let rows = tvs[maxv].1 + 1;
        let zeros = Seq::new(rows as nat, |i: int| 0int);
        let startv = if clockwise {
            minv
        } else {
            maxv
        };
        let endv = if clockwise {
            maxv
        } else {
            minv
        };
        let rbuff = chain(zeros, tvs, true, startv, chain_len(startv, endv, n) as nat);
        let lbuff = chain(zeros, tvs, false, endv, chain_len(endv, startv, n) as nat);
        put_all(s, w, h, rows_pts(lbuff, rbuff, sx, sy, (rows - 1) as nat), c)
    }
}

/// The boundary buffer after the remaining steps of a shallow edge walk.
/// The walk stands at column `x`, row `y`, with decision value `p`; `dm` and
/// `ds` are the major (x) and secondary (y) absolute deltas of the edge. A
/// "right" walk records its column into the buffer at every step; a "left"
/// walk records only the first column of each row it newly enters.
pub open spec fn pbl_shallow_rest(
    buff: Seq<int>,
    x: int,
    y: int,
    step: int,
    p: int,
    dm: int,
    ds: int,
    right: bool,
    left: nat,
) -> Seq<int>
    decreases left,
{
    if left == 0 {
        buff
    } else {
        let write = right || p >= 0;
        let ny = if p < 0 {
            y
        } else {
            y + step
        };
        let np = if p < 0 {
            p + 2 * ds
        } else {
            p + 2 * ds - 2 * dm
        };
        let nb = if write {
            buff.update(ny, x + 1)
        } else {
            buff
        };
        pbl_shallow_rest(nb, x + 1, ny, step, np, dm, ds, right, (left - 1) as nat)
    }
}

/// The boundary buffer after the remaining steps of a steep edge walk, the
/// transpose of [`pbl_shallow_rest`]: every row is entered exactly once, so
/// every step records its column.
pub open spec fn pbl_steep_rest(
    buff: Seq<int>,
    x: int,
    y: int,
    step: int,
    p: int,
    dm: int,
    ds: int,
    left: nat,
) -> Seq<int>
    decreases left,
{
    if left == 0 {
        buff
    } else {
        let nx = if p < 0 {
            x
        } else {
            x + step
        };
        let np = if p < 0 {
            p + 2 * ds
        } else {
            p + 2 * ds - 2 * dm
        };
        pbl_steep_rest(buff.update(y + 1, nx), nx, y + 1, step, np, dm, ds, (left - 1) as nat)
    }
}

/// The boundary buffer after walking the edge from `(x1, y1)` to `(x2, y2)`:
/// the midpoint walk of the line rasterizer, recording columns per scanline
/// into `buff` instead of drawing pixels. The starting row always records the
/// starting column first.
pub open spec fn pbl_spec(
    buff: Seq<int>,
    right: bool,
    x1: int,
    y1: int,
    x2: int,
    y2: int,
) -> Seq<int> {
    let dx = if x2 >= x1 {
        x2 - x1
    } else {
        x1 - x2
    };
    let dy = if y2 >= y1 {
        y2 - y1
    } else {
        y1 - y2
    };
    if dx != 0 && dy <= dx {
        let sx = if x1 < x2 {
            x1
        } else {
            x2
        };
        let sy = if x1 < x2 {
            y1
        } else {
            y2
        };
        let ey = if x1 < x2 {
            y2
        } else {
            y1
        };
        let step: int = if sy < ey {
            1
        } else {
            -1
        };
        pbl_shallow_rest(buff.update(sy, sx), sx, sy, step, 2 * dy - dx, dx, dy, right, dx as nat)
    } else {
        let sx = if y1 < y2 {
            x1
        } else {
            x2
        };
        let sy = if y1 < y2 {
            y1
        } else {
            y2
        };
        let ex = if y1 < y2 {
            x2
        } else {
            x1
        };
        let step: int = if sx < ex {
            1
        } else {
            -1
        };
        pbl_steep_rest(buff.update(sy, sx), sx, sy, step, 2 * dx - dy, dy, dx, dy as nat)
    }
}

impl Canvas {
    /// Computes a line for use of drawing solid polygons: walks the edge from
    /// `(x1, y1)` to `(x2, y2)` and records, for each scanline the edge
    /// crosses, a boundary column into `buff`.
    pub fn polygon_buffer_line(
        buff: &mut Vec<isize>,
        right: bool,
        x1: isize,
        y1: isize,
        x2: isize,
        y2: isize,
    )
        requires
            -0x8000 <= x1 <= 0x8000,
            -0x8000 <= x2 <= 0x8000,
            0 <= y1 <= 0x8000,
            0 <= y2 <= 0x8000,
            y1 < old(buff)@.len(),
            y2 < old(buff)@.len(),
            forall|i: int|
                0 <= i < old(buff)@.len() ==> -0x18000 <= #[trigger] old(buff)@[i] <= 0x18000,
        ensures
            final(buff)@.len() == old(buff)@.len(),
            buf_view(final(buff)@) == pbl_spec(
                buf_view(old(buff)@),
                right,
                x1 as int,
                y1 as int,
                x2 as int,
                y2 as int,
            ),
            forall|i: int|
                0 <= i < final(buff)@.len() ==> -0x18000 <= #[trigger] final(buff)@[i] <= 0x18000,
    {
        let ghost b0 = buf_view(buff@);
        let ghost len0 = buff@.len();
        let ghost target = pbl_spec(b0, right, x1 as int, y1 as int, x2 as int, y2 as int);

        let dx = if x2 >= x1 {
            x2 - x1
        } else {
            x1 - x2
        };
        let dy = if y2 >= y1 {
            y2 - y1
        } else {
            y1 - y2
        };

        if dx != 0 && dy <= dx {
            let (sx, sy, ey) = if x1 < x2 {
                (x1, y1, y2)
            } else {
                (x2, y2, y1)
            };
            let step: isize = if sy < ey {
                1
            } else {
                -1
            };
            let a = 2 * dy;
            let b = a - 2 * dx;
            let mut p = a - dx;

            proof {
                lemma_buf_view_update(buff@, sy as int, sx);
            }
            buff[sy as usize] = sx;
            proof {
                assert(2 * dy * (dx - dx + 1) == 2 * dy) by (nonlinear_arith);
                assert(2 * dx * (step as int * 0) == 0) by (nonlinear_arith);
            }

            let mut x = sx;
            let mut y = sy;
            let mut left = dx;
            while left > 0
                invariant
                    0 <= left <= dx,
                    1 <= dx <= 0x10000,
                    0 <= dy <= dx,
                    step == 1 || step == -1,
                    a == 2 * dy,
                    b == a - 2 * dx,
                    -0x8000 <= sx <= 0x8000,
                    0 <= sy <= 0x8000,
                    0 <= ey <= 0x8000,
                    sy < len0,
                    ey < len0,
                    step == 1 ==> ey - sy == dy,
                    step == -1 ==> sy - ey == dy,
                    x == sx + (dx - left),
                    0 <= step * (y - sy) <= dy,
                    step == 1 ==> sy <= y <= ey,
                    step == -1 ==> ey <= y <= sy,
                    p == 2 * dy * (dx - left + 1) - dx - 2 * dx * (step * (y - sy)),
                    buff@.len() == len0,
                    forall|i: int|
                        0 <= i < buff@.len() ==> -0x18000 <= #[trigger] buff@[i] <= 0x18000,
                    target == pbl_shallow_rest(
                        buf_view(buff@),
                        x as int,
                        y as int,
                        step as int,
                        p as int,
                        dx as int,
                        dy as int,
                        right,
                        left as nat,
                    ),
                decreases left,
            {
                let ghost bpre = buf_view(buff@);
                let ghost kk = step * (y - sy);
                proof {
                    assert(2 * dy * (dx - (left - 1) + 1) == 2 * dy * (dx - left + 1) + 2 * dy)
                        by (nonlinear_arith);
                    assert(2 * dx * (kk + 1) == 2 * dx * kk + 2 * dx) by (nonlinear_arith);
                }
                let write = right || p >= 0;
                if p < 0 {
                    p = p + a;
                } else {
                    proof {
                        assert(kk < dy) by (nonlinear_arith)
                            requires
                                2 * dy * (dx - left + 1) - dx - 2 * dx * kk >= 0,
                                1 <= left <= dx,
                                0 <= dy <= dx,
                                1 <= dx,
                                0 <= kk,
                        ;
                    }
                    y = y + step;
                    p = p + b;
                }
                x = x + 1;
                if write {
                    proof {
                        lemma_buf_view_update(buff@, y as int, x);
                    }
                    buff[y as usize] = x;
                }
                left = left - 1;
            }
        } else {
            let (sx, sy, ex) = if y1 < y2 {
                (x1, y1, x2)
            } else {
                (x2, y2, x1)
            };
            let step: isize = if sx < ex {
                1
            } else {
                -1
            };
            let a = 2 * dx;
            let b = a - 2 * dy;
            let mut p = a - dy;

            proof {
                lemma_buf_view_update(buff@, sy as int, sx);
            }
            buff[sy as usize] = sx;

            let mut x = sx;
            let mut y = sy;
            let mut left = dy;
            while left > 0
                invariant
                    0 <= left <= dy,
                    0 <= dy <= 0x10000,
                    0 <= dx <= dy,
                    step == 1 || step == -1,
                    a == 2 * dx,
                    b == a - 2 * dy,
                    -0x8000 <= sx <= 0x8000,
                    0 <= sy <= 0x8000,
                    sy < len0,
                    sy + dy < len0,
                    y == sy + (dy - left),
                    -(dy - left) <= x - sx <= dy - left,
                    -2 * dy <= p < 2 * dx + 1,
                    buff@.len() == len0,
                    forall|i: int|
                        0 <= i < buff@.len() ==> -0x18000 <= #[trigger] buff@[i] <= 0x18000,
                    target == pbl_steep_rest(
                        buf_view(buff@),
                        x as int,
                        y as int,
                        step as int,
                        p as int,
                        dy as int,
                        dx as int,
                        left as nat,
                    ),
                decreases left,
            {
                if p < 0 {
                    p = p + a;
                } else {
                    x = x + step;
                    p = p + b;
                }
                y = y + 1;
                proof {
                    lemma_buf_view_update(buff@, y as int, x);
                }
                buff[y as usize] = x;
                left = left - 1;
            }
        }
    }

    /// Draws a polygon outline onto the canvas: consecutive vertices are
    /// connected by lines, including the wrap-around edge from the last
    /// vertex back to the first. An empty vertex list is a no-op.
    pub fn draw_polygon(&mut self, vertices: &Vec<(isize, isize)>, color: RGBA)
        requires
            old(self).wf(),
            forall|i: int|
                0 <= i < vertices@.len() ==> coord_ok((#[trigger] vertices@[i]).0 as int)
                    && coord_ok(vertices@[i].1 as int),
        ensures
            final(self).wf(),
            final(self).w() == old(self).w(),
            final(self).h() == old(self).h(),
            final(self).pixels() == outline_result(
                old(self).pixels(),
                old(self).w(),
                old(self).h(),
                verts_view(vertices@),
                color,
            ),
    {
        let ghost s0 = self.pixels();
        let ghost w0 = self.w();
        let ghost h0 = self.h();
        let ghost vs = verts_view(vertices@);

        if vertices.len() == 0 {
            return ;
        }
        let n = vertices.len();

        let mut i: usize = 1;
        while i < n
            invariant
                self.wf(),
                self.w() == w0,
                self.h() == h0,
                1 <= i <= n,
                n == vertices@.len(),
                vs == verts_view(vertices@),
                forall|j: int|
                    0 <= j < vertices@.len() ==> coord_ok((#[trigger] vertices@[j]).0 as int)
                        && coord_ok(vertices@[j].1 as int),
                self.pixels() == outline_edges(s0, w0, h0, vs, color, i as int),
            decreases n - i,
        {
            let (x1, y1) = vertices[i];
            let (x2, y2) = vertices[i - 1];
            self.draw_line(x1, y1, x2, y2, color);
            i = i + 1;
        }

        let (x1, y1) = vertices[0];
        let (x2, y2) = vertices[n - 1];
        self.draw_line(x1, y1, x2, y2, color);
    }

    /// Draws a solid polygon onto the canvas.
    ///
    /// The vertices of the polygon have to be given in the declared winding
    /// order (clockwise / anti-clockwise); with a mismatched declaration the
    /// fill geometry is wrong, but the call still composites only within the
    /// canvas. An empty vertex list is a no-op.
    pub fn draw_polygon_solid(
        &mut self,
        vertices: &Vec<(isize, isize)>,
        clockwise: bool,
        color: RGBA,
    )
        requires
            old(self).wf(),
            vertices@.len() <= 0x10000,
            forall|i: int|
                0 <= i < vertices@.len() ==> vertex_ok(
                    (#[trigger] vertices@[i]).0 as int,
                    vertices@[i].1 as int,
                ),
        ensures
            final(self).wf(),
            final(self).w() == old(self).w(),
            final(self).h() == old(self).h(),
            final(self).pixels() == polygon_solid_result(
                old(self).pixels(),
                old(self).w(),
                old(self).h(),
                verts_view(vertices@),
                clockwise,
                color,
            ),
    {
        let ghost s0 = self.pixels();
        let ghost w0 = self.w();
        let ghost h0 = self.h();
        let ghost vs = verts_view(vertices@);

        if vertices.len() == 0 {
            return ;
        }
        let n = vertices.len();

        let mut min_vert: usize = 0;
        let mut max_vert: usize = 0;
        for i in 0..n
            invariant
                n == vertices@.len(),
                1 <= n,
                vs == verts_view(vertices@),
                min_vert < n,
                max_vert < n,
                min_vert as int == minvert_idx(vs, i as int),
                max_vert as int == maxvert_idx(vs, i as int),
                forall|j: int| 0 <= j < i ==> vs[min_vert as int].1 <= (#[trigger] vs[j]).1,
                forall|j: int| 0 <= j < i ==> (#[trigger] vs[j]).1 <= vs[max_vert as int].1,
        {
            if vertices[i].1 < vertices[min_vert].1 {
                min_vert = i;
            }
            if vertices[i].1 > vertices[max_vert].1 {
                max_vert = i;
            }
        }
        proof {
            assert(min_vert as int == minvert_idx(vs, n as int));
            assert(max_vert as int == maxvert_idx(vs, n as int));
        }

        let (start_x, start_y) = vertices[min_vert];
        let ghost tvsi = Seq::new(
            vs.len(),
            |i: int| (vs[i].0 - start_x as int, vs[i].1 - start_y as int),
        );

        let mut tvs: Vec<(isize, isize)> = Vec::new();
        for i in 0..n
            invariant
                n == vertices@.len(),
                1 <= n,
                vs == verts_view(vertices@),
                forall|j: int|
                    0 <= j < vertices@.len() ==> vertex_ok(
                        (#[trigger] vertices@[j]).0 as int,
                        vertices@[j].1 as int,
                    ),
                -16384 <= start_x <= 16384,
                -16384 <= start_y <= 16384,
                forall|j: int| 0 <= j < n ==> start_y as int <= (#[trigger] vs[j]).1,
                tvs@.len() == i,
                forall|j: int|
                    0 <= j < i ==> ((#[trigger] tvs@[j]).0 as int, tvs@[j].1 as int) == tvsi[j],
                tvsi == Seq::new(
                    vs.len(),
                    |i: int| (vs[i].0 - start_x as int, vs[i].1 - start_y as int),
                ),
        {
            let v = vertices[i];
            tvs.push((v.0 - start_x, v.1 - start_y));
        }

        proof {
            assert forall|j: int| 0 <= j < n implies 0 <= (#[trigger] tvs@[j]).1
                <= tvs@[max_vert as int].1 by {
                assert(vs[min_vert as int].1 <= vs[j].1 <= vs[max_vert as int].1);
            }
            assert forall|j: int| 0 <= j < n implies -0x8000 <= (#[trigger] tvs@[j]).0 <= 0x8000
                && -0x8000 <= tvs@[j].1 <= 0x8000 by {
                assert(vertex_ok(vs[j].0, vs[j].1));
            }
        }

        let rows_i = tvs[max_vert].1 + 1;
        let rows = rows_i as usize;
        let ghost zeros_spec = Seq::new(rows as nat, |i: int| 0int);

        let mut left_buff = zeros(rows);
        let mut right_buff = zeros(rows);
        proof {
            assert(buf_view(left_buff@) =~= zeros_spec);
            assert(buf_view(right_buff@) =~= zeros_spec);
        }

        let start_vert = if clockwise {
            min_vert
        } else {
            max_vert
        };
        let end_vert = if clockwise {
            max_vert
        } else {
            min_vert
        };

        let cnt_r = if end_vert > start_vert {
            end_vert - start_vert
        } else {
            n - start_vert + end_vert
        };
        let ghost target_r = chain(zeros_spec, tvsi, true, start_vert as int, cnt_r as nat);

        let mut j = start_vert;
        let mut cnt = cnt_r;
        while cnt > 0
            invariant
                n == vertices@.len(),
                1 <= n,
                j < n,
                cnt <= n,
                tvs@.len() == n,
                rows == rows_i,
                1 <= rows_i <= 0x8001,
                tvsi.len() == n,
                forall|k: int|
                    0 <= k < n ==> ((#[trigger] tvs@[k]).0 as int, tvs@[k].1 as int) == tvsi[k],
                forall|k: int| 0 <= k < n ==> 0 <= (#[trigger] tvs@[k]).1 < rows_i,
                forall|k: int|
                    0 <= k < n ==> -0x8000 <= (#[trigger] tvs@[k]).0 <= 0x8000 && -0x8000
                        <= tvs@[k].1 <= 0x8000,
                right_buff@.len() == rows,
                forall|k: int|
                    0 <= k < right_buff@.len() ==> -0x18000 <= #[trigger] right_buff@[k] <= 0x18000,
                chain(buf_view(right_buff@), tvsi, true, j as int, cnt as nat) == target_r,
            decreases cnt,
        {
            let v1 = tvs[j];
            let jn = if j + 1 == n {
                0
            } else {
                j + 1
            };
            let v2 = tvs[jn];
            let ghost bpre = buf_view(right_buff@);
            Canvas::polygon_buffer_line(&mut right_buff, true, v1.0, v1.1, v2.0, v2.1);
            proof {
                assert(chain(bpre, tvsi, true, j as int, cnt as nat) == chain(
                    pbl_spec(bpre, true, tvsi[j as int].0, tvsi[j as int].1, tvsi[jn as int].0, tvsi[jn as int].1),
                    tvsi,
                    true,
                    jn as int,
                    (cnt - 1) as nat,
                ));
            }
            j = jn;
            cnt = cnt - 1;
        }

        let cnt_l = if start_vert > end_vert {
            start_vert - end_vert
        } else {
            n - end_vert + start_vert
        };
        let ghost target_l = chain(zeros_spec, tvsi, false, end_vert as int, cnt_l as nat);

        let mut j = end_vert;
        let mut cnt = cnt_l;
        while cnt > 0
            invariant
                n == vertices@.len(),
                1 <= n,
                j < n,
                cnt <= n,
                tvs@.len() == n,
                rows == rows_i,
                1 <= rows_i <= 0x8001,
                tvsi.len() == n,
                forall|k: int|
                    0 <= k < n ==> ((#[trigger] tvs@[k]).0 as int, tvs@[k].1 as int) == tvsi[k],
                forall|k: int| 0 <= k < n ==> 0 <= (#[trigger] tvs@[k]).1 < rows_i,
                forall|k: int|
                    0 <= k < n ==> -0x8000 <= (#[trigger] tvs@[k]).0 <= 0x8000 && -0x8000
                        <= tvs@[k].1 <= 0x8000,
                left_buff@.len() == rows,
                forall|k: int|
                    0 <= k < left_buff@.len() ==> -0x18000 <= #[trigger] left_buff@[k] <= 0x18000,
                chain(buf_view(left_buff@), tvsi, false, j as int, cnt as nat) == target_l,
            decreases cnt,
        {
            let v1 = tvs[j];
            let jn = if j + 1 == n {
                0
            } else {
                j + 1
            };
            let v2 = tvs[jn];
            let ghost bpre = buf_view(left_buff@);
            Canvas::polygon_buffer_line(&mut left_buff, false, v1.0, v1.1, v2.0, v2.1);
            proof {
                assert(chain(bpre, tvsi, false, j as int, cnt as nat) == chain(
                    pbl_spec(bpre, false, tvsi[j as int].0, tvsi[j as int].1, tvsi[jn as int].0, tvsi[jn as int].1),
                    tvsi,
                    false,
                    jn as int,
                    (cnt - 1) as nat,
                ));
            }
            j = jn;
            cnt = cnt - 1;
        }

        self.fill_rows(&left_buff, &right_buff, start_x, start_y, rows - 1, color);
    }
}

} // verus!
