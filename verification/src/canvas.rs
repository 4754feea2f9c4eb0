//! The pixel buffer and its bounds-checked access and compositing primitives.

use vstd::prelude::*;

use crate::color::{blend, RGB, RGBA};

verus! {

/// Largest magnitude of a line or circle coordinate the rasterizer accepts.
/// Keeps every intermediate product of the clipping arithmetic inside `isize`
/// on 32-bit as well as 64-bit targets.
pub open spec fn coord_ok(v: int) -> bool {
    -8192 <= v <= 8192
}

/// Largest magnitude of a polygon vertex coordinate. The solid polygon fill
/// only uses linear arithmetic, so it tolerates a wider range than the line
/// clipper.
pub open spec fn vertex_ok(x: int, y: int) -> bool {
    -16384 <= x <= 16384 && -16384 <= y <= 16384
}

/// One compositing step: blend `c` onto `s` at `(x, y)` if that position lies
/// inside a `w`-by-`h` area; otherwise leave `s` unchanged.
pub open spec fn put(s: Seq<RGB>, w: int, h: int, x: int, y: int, c: RGBA) -> Seq<RGB> {
    if 0 <= x < w && 0 <= y < h {
        s.update(y * w + x, blend(s[y * w + x], c))
    } else {
        s
    }
}

/// Composite `c` at each position of `pts` in order, each step blending over
/// the result of the previous ones.
pub open spec fn put_all(s: Seq<RGB>, w: int, h: int, pts: Seq<(int, int)>, c: RGBA) -> Seq<RGB>
    decreases pts.len(),
{
    if pts.len() == 0 {
        s
    } else {
        put_all(put(s, w, h, pts[0].0, pts[0].1, c), w, h, pts.drop_first(), c)
    }
}

/// One compositing step never changes the buffer length.
pub proof fn lemma_put_len(s: Seq<RGB>, w: int, h: int, x: int, y: int, c: RGBA)
    requires
        w * h <= s.len(),
    ensures
        put(s, w, h, x, y, c).len() == s.len(),
{
    if 0 <= x < w && 0 <= y < h {
        assert(0 <= y * w + x < w * h) by (nonlinear_arith)
            requires
                0 <= x < w,
                0 <= y < h,
        ;
    }
}

/// Compositing never changes the buffer length.
pub proof fn lemma_put_all_len(s: Seq<RGB>, w: int, h: int, pts: Seq<(int, int)>, c: RGBA)
    requires
        w * h <= s.len(),
    ensures
        put_all(s, w, h, pts, c).len() == s.len(),
    decreases pts.len(),
{
    if pts.len() > 0 {
        lemma_put_len(s, w, h, pts[0].0, pts[0].1, c);
        lemma_put_all_len(put(s, w, h, pts[0].0, pts[0].1, c), w, h, pts.drop_first(), c);
    }
}

/// Compositing a concatenation is compositing the two halves in order.
pub proof fn lemma_put_all_concat(
    s: Seq<RGB>,
    w: int,
    h: int,
    pts1: Seq<(int, int)>,
    pts2: Seq<(int, int)>,
    c: RGBA,
)
    ensures
        put_all(s, w, h, pts1 + pts2, c) == put_all(put_all(s, w, h, pts1, c), w, h, pts2, c),
    decreases pts1.len(),
{
    if pts1.len() == 0 {
        assert(pts1 + pts2 =~= pts2);
    } else {
        let s1 = put(s, w, h, pts1[0].0, pts1[0].1, c);
        assert((pts1 + pts2).drop_first() =~= pts1.drop_first() + pts2);
        lemma_put_all_concat(s1, w, h, pts1.drop_first(), pts2, c);
    }
}

/// Compositing one point is a single `put`.
pub proof fn lemma_put_all_one(s: Seq<RGB>, w: int, h: int, x: int, y: int, c: RGBA)
    ensures
        put_all(s, w, h, seq![(x, y)], c) == put(s, w, h, x, y, c),
{
    let pts: Seq<(int, int)> = seq![(x, y)];
    assert(pts.drop_first() =~= Seq::<(int, int)>::empty());
    assert(put_all(s, w, h, pts, c) == put_all(
        put(s, w, h, x, y, c),
        w,
        h,
        pts.drop_first(),
        c,
    ));
}

/// Compositing at positions that all lie outside the area leaves the buffer
/// unchanged.
pub proof fn lemma_put_all_outside(s: Seq<RGB>, w: int, h: int, pts: Seq<(int, int)>, c: RGBA)
    requires
        forall|i: int| 0 <= i < pts.len() ==> !(0 <= #[trigger] pts[i].0 < w && 0 <= pts[i].1 < h),
    ensures
        put_all(s, w, h, pts, c) == s,
    decreases pts.len(),
{
    if pts.len() > 0 {
        assert(put(s, w, h, pts[0].0, pts[0].1, c) == s);
        lemma_put_all_outside(s, w, h, pts.drop_first(), c);
    }
}

/// A scanline-boundary buffer seen as a sequence of mathematical integers.
pub open spec fn buf_view(s: Seq<isize>) -> Seq<int> {
    Seq::new(s.len(), |i: int| s[i] as int)
}

/// Updating one slot of a boundary buffer updates its view pointwise.
pub proof fn lemma_buf_view_update(s: Seq<isize>, i: int, v: isize)
    requires
        0 <= i < s.len(),
    ensures
        buf_view(s.update(i, v)) == buf_view(s).update(i, v as int),
{
    assert(buf_view(s.update(i, v)) =~= buf_view(s).update(i, v as int));
}

/// The points of one horizontal run at row `y`, from column `xl` up to but
/// excluding column `xr` (empty if `xr <= xl`).
pub open spec fn row_pts(y: int, xl: int, xr: int) -> Seq<(int, int)> {
    Seq::new(
        if xr > xl {
            (xr - xl) as nat
        } else {
            0
        },
        |j: int| (xl + j, y),
    )
}

/// The points of the first `k` horizontal runs described by two boundary
/// buffers: run `i` lies at row `sy + i` and spans columns
/// `[lb[i] + sx, rb[i] + sx)`.
pub open spec fn rows_pts(lb: Seq<int>, rb: Seq<int>, sx: int, sy: int, k: nat) -> Seq<(int, int)>
    decreases k,
{
    if k == 0 {
        Seq::empty()
    } else {
        rows_pts(lb, rb, sx, sy, (k - 1) as nat) + row_pts(
            sy + (k - 1),
            lb[k - 1] + sx,
            rb[k - 1] + sx,
        )
    }
}

/// Builds a scanline-boundary buffer of `n` zero slots.
pub(crate) fn zeros(n: usize) -> (v: Vec<isize>)
    ensures
        v@.len() == n,
        forall|i: int| 0 <= i < n ==> #[trigger] v@[i] == 0isize,
{
    let mut v: Vec<isize> = Vec::new();
    for i in 0..n
        invariant
            v@.len() == i,
            forall|j: int| 0 <= j < i ==> #[trigger] v@[j] == 0isize,
    {
        v.push(0);
    }
    v
}

/// Trait for drawing anything arbitrary onto a [`Canvas`].
pub trait Draw {
    /// What the shape asks of its own parameters before it can be drawn
    /// (typically that its coordinates lie in the supported range).
    open spec fn draw_req(&self) -> bool {
        true
    }

    /// Draws onto a [`Canvas`].
    fn draw(&self, canvas: &mut Canvas)
        requires
            old(canvas).wf(),
            self.draw_req(),
        ensures
            final(canvas).wf(),
            final(canvas).w() == old(canvas).w(),
            final(canvas).h() == old(canvas).h(),
    ;
}

/// A [`Canvas`] is a width-by-height pixel buffer with bounds-checked access
/// and drawing operations.
#[derive(Debug, Clone)]
pub struct Canvas {
    width: usize,
    height: usize,
    buffer: Vec<RGB>,
}

/// Builds a vector holding `n` copies of `color`.
fn filled(color: RGB, n: usize) -> (v: Vec<RGB>)
    ensures
        v@.len() == n,
        forall|i: int| 0 <= i < n ==> v@[i] == color,
{
    let mut v: Vec<RGB> = Vec::new();
    for i in 0..n
        invariant
            v@.len() == i,
            forall|j: int| 0 <= j < i ==> v@[j] == color,
    {
        v.push(color);
    }
    v
}

impl Canvas {
    /// The canvas width, as a mathematical integer.
    pub closed spec fn w(&self) -> int {
        self.width as int
    }

    /// The canvas height, as a mathematical integer.
    pub closed spec fn h(&self) -> int {
        self.height as int
    }

    /// The pixel contents, row-major.
    pub closed spec fn pixels(&self) -> Seq<RGB> {
        self.buffer@
    }

    /// Well-formed: positive dimensions in the supported range, and a buffer
    /// of exactly `width * height` pixels.
    pub open spec fn wf(&self) -> bool {
        &&& 1 <= self.w() <= 8192
        &&& 1 <= self.h() <= 8192
        &&& self.pixels().len() == self.w() * self.h()
    }

    /// Whether `(x, y)` lies inside the canvas.
    pub open spec fn inside(&self, x: int, y: int) -> bool {
        0 <= x < self.w() && 0 <= y < self.h()
    }

    /// The color of the pixel at `(x, y)`.
    pub open spec fn pix(&self, x: int, y: int) -> RGB {
        self.pixels()[y * self.w() + x]
    }

    /// Creates a new black canvas.
    pub fn new(width: usize, height: usize) -> (c: Self)
        requires
            1 <= width <= 8192,
            1 <= height <= 8192,
        ensures
            c.wf(),
            c.w() == width,
            c.h() == height,
            forall|i: int|
                0 <= i < c.pixels().len() ==> c.pixels()[i] == (RGB { r: 0, g: 0, b: 0 }),
    {
        proof {
            assert(width * height <= 8192 * 8192) by (nonlinear_arith)
                requires
                    1 <= width <= 8192,
                    1 <= height <= 8192,
            ;
        }
        let n = width * height;
        Canvas { width, height, buffer: filled(RGB { r: 0, g: 0, b: 0 }, n) }
    }

    /// Returns the width of the canvas.
    pub fn width(&self) -> (r: usize)
        ensures
            r == self.w(),
    {
        self.width
    }

    /// Returns the height of the canvas.
    pub fn height(&self) -> (r: usize)
        ensures
            r == self.h(),
    {
        self.height
    }

    /// Returns a reference to the pixel buffer of the canvas.
    pub fn buffer(&self) -> (b: &Vec<RGB>)
        ensures
            b@ == self.pixels(),
    {
        &self.buffer
    }

    /// Returns a mutable reference to the pixel buffer of the canvas.
    /// Shrinking or growing the borrowed buffer breaks the canvas invariant,
    /// so a caller that keeps drawing afterwards must keep its length.
    pub fn buffer_mut(&mut self) -> (b: &mut Vec<RGB>)
        ensures
            b@ == old(self).pixels(),
            final(self).pixels() == final(b)@,
            final(self).w() == old(self).w(),
            final(self).h() == old(self).h(),
    {
        &mut self.buffer
    }

    /// Returns the pixel buffer as a 32-bit buffer in the format `0RGB`.
    pub fn buffer_u32(&self) -> (v: Vec<u32>)
        ensures
            v@.len() == self.pixels().len(),
            forall|i: int| 0 <= i < v@.len() ==> v@[i] == pack(#[trigger] self.pixels()[i]),
    {
        let n = self.buffer.len();
        let mut v: Vec<u32> = Vec::new();
        for i in 0..n
            invariant
                n == self.pixels().len(),
                v@.len() == i,
                forall|j: int| 0 <= j < i ==> v@[j] == pack(#[trigger] self.pixels()[j]),
        {
            let c = self.buffer[i];
            v.push((c.r as u32) * 0x10000 + (c.g as u32) * 0x100 + (c.b as u32));
        }
        v
    }

    /// Checks if the pixel specified lies inside of the canvas.
    pub fn pixel_inside(&self, x: isize, y: isize) -> (r: bool)
        requires
            self.wf(),
        ensures
            r == self.inside(x as int, y as int),
    {
        x >= 0 && x < self.width as isize && y >= 0 && y < self.height as isize
    }

    /// Returns the color of the pixel at the specified position.
    ///
    /// Returns `None` if the position is not inside the canvas.
    pub fn get(&self, x: usize, y: usize) -> (r: Option<&RGB>)
        requires
            self.wf(),
        ensures
            match r {
                Some(c) => self.inside(x as int, y as int) && *c == self.pix(x as int, y as int),
                None => !self.inside(x as int, y as int),
            },
    {
        if x < self.width && y < self.height {
            proof {
                lemma_row_major_index(self.w(), self.h(), x as int, y as int);
            }
            Some(&self.buffer[y * self.width + x])
        } else {
            None
        }
    }

    /// Sets the color of the pixel at the specified position.
    ///
    /// Returns `None` if the position is not inside the canvas; the canvas is
    /// then left unchanged.
    pub fn set(&mut self, x: usize, y: usize, color: RGB) -> (r: Option<()>)
        requires
            old(self).wf(),
        ensures
            final(self).wf(),
            final(self).w() == old(self).w(),
            final(self).h() == old(self).h(),
            r is Some <==> old(self).inside(x as int, y as int),
            final(self).pixels() == if old(self).inside(x as int, y as int) {
                old(self).pixels().update(y * old(self).w() + x, color)
            } else {
                old(self).pixels()
            },
    {
        if x < self.width && y < self.height {
            proof {
                lemma_row_major_index(self.w(), self.h(), x as int, y as int);
            }
            let idx = y * self.width + x;
            self.buffer[idx] = color;
            Some(())
        } else {
            None
        }
    }

    /// Fills the whole canvas with a given color.
    pub fn fill(&mut self, color: RGB)
        requires
            old(self).wf(),
        ensures
            final(self).wf(),
            final(self).w() == old(self).w(),
            final(self).h() == old(self).h(),
            final(self).pixels().len() == old(self).pixels().len(),
            forall|i: int|
                0 <= i < final(self).pixels().len() ==> final(self).pixels()[i] == color,
    {
        let n = self.buffer.len();
        self.buffer = filled(color, n);
    }

    /// Draws anything arbitrary implementing the [`Draw`] trait onto the
    /// canvas.
    pub fn draw<T: Draw>(&mut self, drawable: &T)
        requires
            old(self).wf(),
            drawable.draw_req(),
        ensures
            final(self).wf(),
            final(self).w() == old(self).w(),
            final(self).h() == old(self).h(),
    {
        drawable.draw(self);
    }

    /// Draws a single pixel onto the canvas, blending it over the present
    /// color with the weight of its alpha channel.
    ///
    /// Returns `None` if the position is not inside the canvas; the canvas is
    /// then left unchanged.
    pub fn draw_pixel(&mut self, x: isize, y: isize, color: RGBA) -> (r: Option<()>)
        requires
            old(self).wf(),
        ensures
            final(self).wf(),
            final(self).w() == old(self).w(),
            final(self).h() == old(self).h(),
            final(self).pixels() == put(
                old(self).pixels(),
                old(self).w(),
                old(self).h(),
                x as int,
                y as int,
                color,
            ),
            r is Some <==> old(self).inside(x as int, y as int),
    {
        if !self.pixel_inside(x, y) {
            return None;
        }
        let xi = x as usize;
        let yi = y as usize;
        proof {
            lemma_row_major_index(self.w(), self.h(), xi as int, yi as int);
        }
        let old_color = self.buffer[yi * self.width + xi];
        let new_color = old_color.add_rgba(color);
        self.set(xi, yi, new_color)
    }

    /// Composites `color` over one horizontal run at row `y`, from column
    /// `x1` up to but excluding column `x2`.
    pub(crate) fn fill_row(&mut self, y: isize, x1: isize, x2: isize, color: RGBA)
        requires
            old(self).wf(),
            -0x20000 <= x1 <= 0x20000,
            -0x20000 <= x2 <= 0x20000,
        ensures
            final(self).wf(),
            final(self).w() == old(self).w(),
            final(self).h() == old(self).h(),
            final(self).pixels() == put_all(
                old(self).pixels(),
                old(self).w(),
                old(self).h(),
                row_pts(y as int, x1 as int, x2 as int),
                color,
            ),
    {
        let ghost pts = row_pts(y as int, x1 as int, x2 as int);
        let ghost s0 = self.pixels();
        let ghost w0 = self.w();
        let ghost h0 = self.h();
        let mut x = x1;
        while x < x2
            invariant
                self.wf(),
                self.w() == w0,
                self.h() == h0,
                x1 <= x,
                x2 > x1 ==> x <= x2,
                x2 <= x1 ==> x == x1,
                -0x20000 <= x1 <= 0x20000,
                -0x20000 <= x2 <= 0x20000,
                pts == row_pts(y as int, x1 as int, x2 as int),
                forall|j: int| 0 <= j < pts.len() ==> pts[j] == (x1 + j, y as int),
                self.pixels() == put_all(s0, w0, h0, pts.take(x - x1), color),
            decreases x2 - x,
        {
            let ghost prev = self.pixels();
            self.draw_pixel(x, y, color);
            proof {
                let i = x - x1;
                assert(pts.take(i + 1) =~= pts.take(i) + seq![pts[i]]);
                lemma_put_all_concat(s0, w0, h0, pts.take(i), seq![pts[i]], color);
                lemma_put_all_one(prev, w0, h0, x as int, y as int, color);
            }
            x = x + 1;
        }
        proof {
            if x2 > x1 {
                assert(pts.take(x2 - x1) =~= pts);
            } else {
                assert(pts.take(0) =~= pts);
            }
        }
    }

    /// Composites `color` over the first `k` horizontal runs described by the
    /// two boundary buffers, run `i` at row `sy + i` spanning columns
    /// `[lb[i] + sx, rb[i] + sx)`.
    pub(crate) fn fill_rows(
        &mut self,
        lb: &Vec<isize>,
        rb: &Vec<isize>,
        sx: isize,
        sy: isize,
        k: usize,
        color: RGBA,
    )
        requires
            old(self).wf(),
            k <= lb@.len(),
            k <= rb@.len(),
            k <= 0x10001,
            -0x8000 <= sx <= 0x8000,
            -0x8000 <= sy <= 0x8000,
            forall|i: int| 0 <= i < lb@.len() ==> -0x18000 <= #[trigger] lb@[i] <= 0x18000,
            forall|i: int| 0 <= i < rb@.len() ==> -0x18000 <= #[trigger] rb@[i] <= 0x18000,
        ensures
            final(self).wf(),
            final(self).w() == old(self).w(),
            final(self).h() == old(self).h(),
            final(self).pixels() == put_all(
                old(self).pixels(),
                old(self).w(),
                old(self).h(),
                rows_pts(buf_view(lb@), buf_view(rb@), sx as int, sy as int, k as nat),
                color,
            ),
    {
        let ghost s0 = self.pixels();
        let ghost w0 = self.w();
        let ghost h0 = self.h();
        let ghost lbv = buf_view(lb@);
        let ghost rbv = buf_view(rb@);
        for i in 0..k
            invariant
                self.wf(),
                self.w() == w0,
                self.h() == h0,
                k <= lb@.len(),
                k <= rb@.len(),
                k <= 0x10001,
                -0x8000 <= sx <= 0x8000,
                -0x8000 <= sy <= 0x8000,
                lbv == buf_view(lb@),
                rbv == buf_view(rb@),
                forall|j: int| 0 <= j < lb@.len() ==> -0x18000 <= #[trigger] lb@[j] <= 0x18000,
                forall|j: int| 0 <= j < rb@.len() ==> -0x18000 <= #[trigger] rb@[j] <= 0x18000,
                self.pixels() == put_all(s0, w0, h0, rows_pts(lbv, rbv, sx as int, sy as int, i as nat), color),
        {
            let y = sy + (i as isize);
            let xl = lb[i] + sx;
            let xr = rb[i] + sx;
            let ghost done = rows_pts(lbv, rbv, sx as int, sy as int, i as nat);
            self.fill_row(y, xl, xr, color);
            proof {
                lemma_put_all_concat(
                    s0,
                    w0,
                    h0,
                    done,
                    row_pts(y as int, xl as int, xr as int),
                    color,
                );
            }
        }
    }
}

/// The row-major index of an in-bounds position is itself in bounds.
pub proof fn lemma_row_major_index(w: int, h: int, x: int, y: int)
    requires
        0 <= x < w <= 8192,
        0 <= y < h <= 8192,
    ensures
        0 <= y * w + x < w * h,
        w * h <= 0x4000000,
{
    assert(y * w + x < w * h && w * h <= 8192 * 8192) by (nonlinear_arith)
        requires
            0 <= x < w <= 8192,
            0 <= y < h <= 8192,
    ;
    assert(y * w >= 0) by (nonlinear_arith)
        requires
            0 <= y,
            0 < w,
    ;
}

/// A pixel packed in the `0RGB` 32-bit format: `0x00RRGGBB`.
pub open spec fn pack(c: RGB) -> u32 {
    (c.r as int * 0x10000 + c.g as int * 0x100 + c.b as int) as u32
}

/// The channels recovered from a pixel packed in the `0RGB` format.
pub open spec fn unpack(p: u32) -> RGB {
    RGB {
        r: (p as int / 0x10000 % 0x100) as u8,
        g: (p as int / 0x100 % 0x100) as u8,
        b: (p as int % 0x100) as u8,
    }
}

/// Packing a pixel into the 32-bit format and decoding it channel-wise
/// reproduces the pixel exactly.
pub proof fn lemma_pack_roundtrip(c: RGB)
    ensures
        unpack(pack(c)) == c,
{
    let v = c.r as int * 0x10000 + c.g as int * 0x100 + c.b as int;
    assert(0 <= v < 0x1000000);
    assert(pack(c) as int == v);
    vstd::arithmetic::div_mod::lemma_fundamental_div_mod_converse(
        v,
        0x10000,
        c.r as int,
        c.g as int * 0x100 + c.b as int,
    );
    vstd::arithmetic::div_mod::lemma_fundamental_div_mod_converse(
        v,
        0x100,
        c.r as int * 0x100 + c.g as int,
        c.b as int,
    );
    vstd::arithmetic::div_mod::lemma_fundamental_div_mod_converse(
        c.r as int * 0x100 + c.g as int,
        0x100,
        c.r as int,
        c.g as int,
    );
}

} // verus!
