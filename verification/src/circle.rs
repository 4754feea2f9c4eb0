//! Midpoint circle rasterization: 8-way symmetric outline generation and a
//! solid variant that accumulates left/right bounds per scanline.

use vstd::prelude::*;

use crate::canvas::{
    buf_view, coord_ok, lemma_buf_view_update, lemma_put_all_concat, lemma_put_all_one, put,
    put_all, rows_pts, Canvas,
};
use crate::color::{RGB, RGBA};

verus! {

/// The points the midpoint circle walk still emits, 8 symmetric points per
/// step, given the decision value `e` and the current offsets `(xo, yo)` from
/// the center `(cx, cy)`.
pub open spec fn circle_pts_rest(cx: int, cy: int, e: int, xo: int, yo: int) -> Seq<(int, int)>
    decreases xo - yo + 2,
{
    if yo > xo {
        Seq::empty()
    } else {
        let emitted = seq![
            (cx + xo, cy + yo),
            (cx + xo, cy - yo),
            (cx - xo, cy + yo),
            (cx - xo, cy - yo),
            (cx + yo, cy + xo),
            (cx + yo, cy - xo),
            (cx - yo, cy - xo),
            (cx - yo, cy + xo),
        ];
        let e2 = e + 2 * yo + 1;
        let e3 = if e2 >= 0 {
            e2 - (2 * xo - 1)
        } else {
            e2
        };
        let xo2 = if e2 >= 0 {
            xo - 1
        } else {
            xo
        };
        emitted + circle_pts_rest(cx, cy, e3, xo2, yo + 1)
    }
}

/// All points of the circle outline of radius `r` around `(cx, cy)`.
pub open spec fn circle_pts(cx: int, cy: int, r: int) -> Seq<(int, int)> {
    circle_pts_rest(cx, cy, -r, r, 0)
}

/// The buffer after drawing the outline of a circle of radius `r` around
/// `(cx, cy)`; radius 0 is a no-op.
pub open spec fn circle_result(
    s: Seq<RGB>,
    w: int,
    h: int,
    cx: int,
    cy: int,
    r: int,
    c: RGBA,
) -> Seq<RGB> {
    if r == 0 {
        s
    } else {
        put_all(s, w, h, circle_pts(cx, cy, r), c)
    }
}

/// The left and right scanline-boundary buffers after the remaining steps of
/// the solid-circle walk. Buffer slot `rbase + d` belongs to the row `d`
/// below the circle's top row.
pub open spec fn circle_solid_walk(
    lb: Seq<int>,
    rb: Seq<int>,
    cx: int,
    rbase: int,
    e: int,
    xo: int,
    yo: int,
) -> (Seq<int>, Seq<int>)
    decreases xo - yo + 2,
{
    if yo > xo {
        (lb, rb)
    } else {
        let rb1 = rb.update(rbase + yo, cx + xo).update(rbase - yo, cx + xo).update(
            rbase + xo,
            cx + yo,
        ).update(rbase - xo, cx + yo);
        let lb1 = lb.update(rbase + yo, cx - xo).update(rbase - yo, cx - xo).update(
            rbase + xo,
            cx - yo,
        ).update(rbase - xo, cx - yo);
        let e2 = e + 2 * yo + 1;
        let e3 = if e2 >= 0 {
            e2 - (2 * xo - 1)
        } else {
            e2
        };
        let xo2 = if e2 >= 0 {
            xo - 1
        } else {
            xo
        };
        circle_solid_walk(lb1, rb1, cx, rbase, e3, xo2, yo + 1)
    }
}

/// The buffer after drawing a solid circle of radius `r` around `(cx, cy)`:
/// the walk records left and right bounds for each of the `2r + 1` scanlines,
/// and the first `2r` scanlines are filled from the left bound up to but
/// excluding the right bound; radius 0 is a no-op.
pub open spec fn circle_solid_result(
    s: Seq<RGB>,
    w: int,
    h: int,
    cx: int,
    cy: int,
    r: int,
    c: RGBA,
) -> Seq<RGB> {
    if r == 0 {
        s
    } else {
        let zeros = Seq::new((2 * r + 1) as nat, |i: int| 0int);
        let walked = circle_solid_walk(zeros, zeros, cx, r, -r, r, 0);
        put_all(s, w, h, rows_pts(walked.0, walked.1, 0, cy - r, (2 * r) as nat), c)
    }
}

/// Compositing an 8-point group is 8 single compositing steps in order.
proof fn lemma_put_all_8(s: Seq<RGB>, w: int, h: int, pts: Seq<(int, int)>, c: RGBA)
    requires
        pts.len() == 8,
    ensures
        put_all(s, w, h, pts, c) == put(
            put(
                put(
                    put(
                        put(
                            put(
                                put(
                                    put(s, w, h, pts[0].0, pts[0].1, c),
                                    w,
                                    h,
                                    pts[1].0,
                                    pts[1].1,
                                    c,
                                ),
                                w,
                                h,
                                pts[2].0,
                                pts[2].1,
                                c,
                            ),
                            w,
                            h,
                            pts[3].0,
                            pts[3].1,
                            c,
                        ),
                        w,
                        h,
                        pts[4].0,
                        pts[4].1,
                        c,
                    ),
                    w,
                    h,
                    pts[5].0,
                    pts[5].1,
                    c,
                ),
                w,
                h,
                pts[6].0,
                pts[6].1,
                c,
            ),
            w,
            h,
            pts[7].0,
            pts[7].1,
            c,
        ),
{
    let p1 = pts.drop_first();
    let p2 = p1.drop_first();
    let p3 = p2.drop_first();
    let p4 = p3.drop_first();
    let p5 = p4.drop_first();
    let p6 = p5.drop_first();
    let p7 = p6.drop_first();
    let p8 = p7.drop_first();
    assert(p1[0] == pts[1] && p2[0] == pts[2] && p3[0] == pts[3] && p4[0] == pts[4] && p5[0]
        == pts[5] && p6[0] == pts[6] && p7[0] == pts[7]);
    let s1 = put(s, w, h, pts[0].0, pts[0].1, c);
    let s2 = put(s1, w, h, pts[1].0, pts[1].1, c);
    let s3 = put(s2, w, h, pts[2].0, pts[2].1, c);
    let s4 = put(s3, w, h, pts[3].0, pts[3].1, c);
    let s5 = put(s4, w, h, pts[4].0, pts[4].1, c);
    let s6 = put(s5, w, h, pts[5].0, pts[5].1, c);
    let s7 = put(s6, w, h, pts[6].0, pts[6].1, c);
    let s8 = put(s7, w, h, pts[7].0, pts[7].1, c);
    assert(put_all(s, w, h, pts, c) == put_all(s1, w, h, p1, c));
    assert(put_all(s1, w, h, p1, c) == put_all(s2, w, h, p2, c));
    assert(put_all(s2, w, h, p2, c) == put_all(s3, w, h, p3, c));
    assert(put_all(s3, w, h, p3, c) == put_all(s4, w, h, p4, c));
    assert(put_all(s4, w, h, p4, c) == put_all(s5, w, h, p5, c));
    assert(put_all(s5, w, h, p5, c) == put_all(s6, w, h, p6, c));
    assert(put_all(s6, w, h, p6, c) == put_all(s7, w, h, p7, c));
    assert(p8.len() == 0);
    assert(put_all(s7, w, h, p7, c) == put_all(s8, w, h, p8, c));
    assert(put_all(s8, w, h, p8, c) == s8);
}

impl Canvas {
    /// Draws a circle onto the canvas with the midpoint algorithm, drawing
    /// the 8 symmetric points of each step; radius 0 is a no-op.
    pub fn draw_circle(&mut self, x: isize, y: isize, r: u32, color: RGBA)
        requires
            old(self).wf(),
            coord_ok(x as int),
            coord_ok(y as int),
            r <= 8192,
        ensures
            final(self).wf(),
            final(self).w() == old(self).w(),
            final(self).h() == old(self).h(),
            final(self).pixels() == circle_result(
                old(self).pixels(),
                old(self).w(),
                old(self).h(),
                x as int,
                y as int,
                r as int,
                color,
            ),
    {
        if r == 0 {
            return ;
        }
        let ghost s0 = self.pixels();
        let ghost w0 = self.w();
        let ghost h0 = self.h();
        let ri = r as isize;

        let mut e = -ri;
        let mut x_offset = ri;
        let mut y_offset: isize = 0;

        while y_offset <= x_offset
            invariant
                self.wf(),
                self.w() == w0,
                self.h() == h0,
                1 <= ri <= 8192,
                coord_ok(x as int),
                coord_ok(y as int),
                0 <= y_offset <= ri + 1,
                -1 <= x_offset <= ri,
                -2 * ri <= e < 2 * y_offset + 1,
                put_all(s0, w0, h0, circle_pts(x as int, y as int, ri as int), color) == put_all(
                    self.pixels(),
                    w0,
                    h0,
                    circle_pts_rest(x as int, y as int, e as int, x_offset as int, y_offset as int),
                    color,
                ),
            decreases x_offset - y_offset + 2,
        {
            let ghost rest = circle_pts_rest(
                x as int,
                y as int,
                e as int,
                x_offset as int,
                y_offset as int,
            );
            let ghost emitted = seq![
                (x + x_offset as int, y + y_offset as int),
                (x + x_offset as int, y - y_offset as int),
                (x - x_offset as int, y + y_offset as int),
                (x - x_offset as int, y - y_offset as int),
                (x + y_offset as int, y + x_offset as int),
                (x + y_offset as int, y - x_offset as int),
                (x - y_offset as int, y - x_offset as int),
                (x - y_offset as int, y + x_offset as int),
            ];
            let ghost prev = self.pixels();

            self.draw_pixel(x + x_offset, y + y_offset, color);
            self.draw_pixel(x + x_offset, y - y_offset, color);
            self.draw_pixel(x - x_offset, y + y_offset, color);
            self.draw_pixel(x - x_offset, y - y_offset, color);

            self.draw_pixel(x + y_offset, y + x_offset, color);
            self.draw_pixel(x + y_offset, y - x_offset, color);
            self.draw_pixel(x - y_offset, y - x_offset, color);
            self.draw_pixel(x - y_offset, y + x_offset, color);

            proof {
                lemma_put_all_8(prev, w0, h0, emitted, color);
                assert(self.pixels() == put_all(prev, w0, h0, emitted, color));
            }

            e = e + 2 * y_offset + 1;
            y_offset = y_offset + 1;
            if e >= 0 {
                e = e - (2 * x_offset - 1);
                x_offset = x_offset - 1;
            }

            proof {
                let nrest = circle_pts_rest(
                    x as int,
                    y as int,
                    e as int,
                    x_offset as int,
                    y_offset as int,
                );
                assert(rest == emitted + nrest);
                lemma_put_all_concat(prev, w0, h0, emitted, nrest, color);
            }
        }
    }

    /// Draws a solid circle onto the canvas: the midpoint walk records the
    /// left and right bound of every scanline, and the scanlines are then
    /// filled; radius 0 is a no-op.
    pub fn draw_circle_solid(&mut self, x: isize, y: isize, r: u32, color: RGBA)
        requires
            old(self).wf(),
            coord_ok(x as int),
            coord_ok(y as int),
            r <= 8192,
        ensures
            final(self).wf(),
            final(self).w() == old(self).w(),
            final(self).h() == old(self).h(),
            final(self).pixels() == circle_solid_result(
                old(self).pixels(),
                old(self).w(),
                old(self).h(),
                x as int,
                y as int,
                r as int,
                color,
            ),
    {
        if r == 0 {
            return ;
        }
        let ghost s0 = self.pixels();
        let ghost w0 = self.w();
        let ghost h0 = self.h();
        let ri = r as isize;

        let mut e = -ri;
        let mut x_offset = ri;
        let mut y_offset: isize = 0;

        let dy = 2 * ri;
        let mut left_buff = crate::canvas::zeros((dy as usize) + 1);
        let mut right_buff = crate::canvas::zeros((dy as usize) + 1);
        let ghost zeros_spec = Seq::new((2 * ri as int + 1) as nat, |i: int| 0int);
        proof {
            assert(buf_view(left_buff@) =~= zeros_spec);
            assert(buf_view(right_buff@) =~= zeros_spec);
        }
        let ghost target = circle_solid_walk(
            zeros_spec,
            zeros_spec,
            x as int,
            ri as int,
            -ri as int,
            ri as int,
            0,
        );

        while y_offset <= x_offset
            invariant
                1 <= ri <= 8192,
                coord_ok(x as int),
                0 <= y_offset <= ri + 1,
                -1 <= x_offset <= ri,
                -2 * ri <= e < 2 * y_offset + 1,
                left_buff@.len() == 2 * ri + 1,
                right_buff@.len() == 2 * ri + 1,
                forall|k: int|
                    0 <= k < left_buff@.len() ==> -0x18000 <= #[trigger] left_buff@[k] <= 0x18000,
                forall|k: int|
                    0 <= k < right_buff@.len() ==> -0x18000 <= #[trigger] right_buff@[k] <= 0x18000,
                circle_solid_walk(
                    buf_view(left_buff@),
                    buf_view(right_buff@),
                    x as int,
                    ri as int,
                    e as int,
                    x_offset as int,
                    y_offset as int,
                ) == target,
            decreases x_offset - y_offset + 2,
        {
            bset(&mut right_buff, (ri + y_offset) as usize, x + x_offset);
            bset(&mut right_buff, (ri - y_offset) as usize, x + x_offset);
            bset(&mut left_buff, (ri + y_offset) as usize, x - x_offset);
            bset(&mut left_buff, (ri - y_offset) as usize, x - x_offset);

            bset(&mut right_buff, (ri + x_offset) as usize, x + y_offset);
            bset(&mut right_buff, (ri - x_offset) as usize, x + y_offset);
            bset(&mut left_buff, (ri + x_offset) as usize, x - y_offset);
            bset(&mut left_buff, (ri - x_offset) as usize, x - y_offset);

            e = e + 2 * y_offset + 1;
            y_offset = y_offset + 1;
            if e >= 0 {
                e = e - (2 * x_offset - 1);
                x_offset = x_offset - 1;
            }
        }

        self.fill_rows(&left_buff, &right_buff, 0, y - ri, dy as usize, color);
    }
}

/// Writes one boundary slot, exposing the update on the integer view.
fn bset(buff: &mut Vec<isize>, i: usize, v: isize)
    requires
        i < old(buff)@.len(),
    ensures
        final(buff)@.len() == old(buff)@.len(),
        final(buff)@ == old(buff)@.update(i as int, v),
        buf_view(final(buff)@) == buf_view(old(buff)@).update(i as int, v as int),
{
    proof {
        lemma_buf_view_update(buff@, i as int, v);
    }
    buff[i] = v;
}

} // verus!
