//! Screen-space clipping of line segments against the canvas rectangle.
//!
//! The carrier line of the segment is intersected with the four boundary
//! lines `x = 0`, `x = width`, `y = 0` and `y = height`; every intersection
//! whose other coordinate falls within the perpendicular bound is a
//! candidate, and each out-of-bounds endpoint is replaced by the candidate
//! closest to it (by squared Euclidean distance). All arithmetic is integer:
//! intersections are computed with rounded division.

use vstd::prelude::*;

use crate::canvas::{coord_ok, Canvas};

verus! {

/// `n / d` rounded to the nearest integer, halves away from zero.
pub open spec fn rdiv(n: int, d: int) -> int {
    let a = if n >= 0 {
        n
    } else {
        -n
    };
    let b = if d >= 0 {
        d
    } else {
        -d
    };
    let q = (2 * a + b) / (2 * b);
    if (n >= 0) == (d >= 0) {
        q
    } else {
        -q
    }
}

/// Rounded division never exceeds the numerator in magnitude.
pub proof fn lemma_rdiv_bound(n: int, d: int)
    requires
        d != 0,
    ensures
        -(if n >= 0 {
            n
        } else {
            -n
        }) <= rdiv(n, d) <= (if n >= 0 {
            n
        } else {
            -n
        }),
{
    let a = if n >= 0 {
        n
    } else {
        -n
    };
    let b = if d >= 0 {
        d
    } else {
        -d
    };
    assert(2 * a + b <= 2 * a * b + b) by (nonlinear_arith)
        requires
            a >= 0,
            b >= 1,
    ;
    assert((2 * a + b) / (2 * b) <= (2 * a * b + b) / (2 * b)) by {
        vstd::arithmetic::div_mod::lemma_div_is_ordered(2 * a + b, 2 * a * b + b, 2 * b);
    }
    assert((2 * a * b + b) / (2 * b) == a) by {
        assert(2 * a * b + b == a * (2 * b) + b) by (nonlinear_arith);
        vstd::arithmetic::div_mod::lemma_fundamental_div_mod_converse(
            2 * a * b + b,
            2 * b,
            a,
            b,
        );
    }
    assert((2 * a + b) / (2 * b) >= 0) by {
        vstd::arithmetic::div_mod::lemma_div_is_ordered(0, 2 * a + b, 2 * b);
    }
}

/// Rounded division of zero yields zero.
pub proof fn lemma_rdiv_zero(d: int)
    requires
        d != 0,
    ensures
        rdiv(0, d) == 0,
{
    let b = if d >= 0 {
        d
    } else {
        -d
    };
    vstd::arithmetic::div_mod::lemma_fundamental_div_mod_converse(b, 2 * b, 0, b);
}

/// `n / d` rounded to the nearest integer, halves away from zero.
pub(crate) fn rdiv_exec(n: isize, d: isize) -> (r: isize)
    requires
        d != 0,
        -0x2000_0000 <= n <= 0x2000_0000,
        -0x2000_0000 <= d <= 0x2000_0000,
    ensures
        r as int == rdiv(n as int, d as int),
        -0x2000_0000 <= r <= 0x2000_0000,
{
    proof {
        lemma_rdiv_bound(n as int, d as int);
    }
    let a = if n >= 0 {
        n
    } else {
        -n
    };
    let b = if d >= 0 {
        d
    } else {
        -d
    };
    let q = (2 * a + b) / (2 * b);
    if (n >= 0) == (d >= 0) {
        q
    } else {
        -q
    }
}

/// The squared Euclidean distance between two points.
pub open spec fn sqdist(a: (int, int), b: (int, int)) -> int {
    (a.0 - b.0) * (a.0 - b.0) + (a.1 - b.1) * (a.1 - b.1)
}

/// Whether a point lies strictly inside a `w`-by-`h` canvas.
pub open spec fn in_rect(w: int, h: int, p: (int, int)) -> bool {
    0 <= p.0 < w && 0 <= p.1 < h
}

/// The intersection of the segment's carrier line with the vertical boundary
/// line `x = bx`, if its y coordinate falls within `[0, h)`.
pub open spec fn cand_at_x(
    bx: int,
    h: int,
    x1: int,
    y1: int,
    x2: int,
    y2: int,
) -> Option<(int, int)> {
    let y = y1 + rdiv((y2 - y1) * (bx - x1), x2 - x1);
    if 0 <= y < h {
        Some((bx, y))
    } else {
        None
    }
}

/// The intersection of the segment's carrier line with the horizontal
/// boundary line `y = by`, if the line is not horizontal and the x coordinate
/// falls within `[0, w)`.
pub open spec fn cand_at_y(
    by: int,
    w: int,
    x1: int,
    y1: int,
    x2: int,
    y2: int,
) -> Option<(int, int)> {
    if y1 == y2 {
        None
    } else {
        let x = x1 + rdiv((x2 - x1) * (by - y1), y2 - y1);
        if 0 <= x < w {
            Some((x, by))
        } else {
            None
        }
    }
}

/// The first point among three options, or the fallback if none is present.
pub open spec fn first_of(
    a: Option<(int, int)>,
    b: Option<(int, int)>,
    c: Option<(int, int)>,
    fallback: (int, int),
) -> (int, int) {
    match a {
        Some(p) => p,
        None => match b {
            Some(p) => p,
            None => match c {
                Some(p) => p,
                None => fallback,
            },
        },
    }
}

/// The first two valid boundary intersections, in the fixed order `x = 0`,
/// `x = w`, `y = 0`, `y = h`. With a single valid intersection, it is paired
/// with itself; with none, there is nothing to clip to.
pub open spec fn two_cands(
    a: Option<(int, int)>,
    b: Option<(int, int)>,
    c: Option<(int, int)>,
    d: Option<(int, int)>,
) -> Option<((int, int), (int, int))> {
    match a {
        Some(p) => Some((p, first_of(b, c, d, p))),
        None => match b {
            Some(p) => Some((p, first_of(c, d, None, p))),
            None => match c {
                Some(p) => Some((p, first_of(d, None, None, p))),
                None => match d {
                    Some(p) => Some((p, p)),
                    None => None,
                },
            },
        },
    }
}

/// Of two candidate points, the one nearer to `e` by squared Euclidean
/// distance (the second on a tie).
pub open spec fn nearer(e: (int, int), pa: (int, int), pb: (int, int)) -> (int, int) {
    if sqdist(pa, e) < sqdist(pb, e) {
        pa
    } else {
        pb
    }
}

/// The clamped endpoints of a segment against a `w`-by-`h` canvas.
///
/// In-bounds endpoints are left untouched. A vertical segment has each
/// out-of-range endpoint clipped to `y = 0` or `y = h` at the same x. Any
/// other segment with an outside endpoint is intersected with the four
/// boundary lines; each outside endpoint moves to the nearest of the first
/// two valid intersections. If no boundary intersection is valid, an outside
/// endpoint collapses onto the inside endpoint if there is one, and otherwise
/// stays where it was.
pub open spec fn clamp_spec(w: int, h: int, x1: int, y1: int, x2: int, y2: int) -> (
    int,
    int,
    int,
    int,
) {
    let p1_in = in_rect(w, h, (x1, y1));
    let p2_in = in_rect(w, h, (x2, y2));
    if p1_in && p2_in {
        (x1, y1, x2, y2)
    } else if x1 == x2 {
        let ny1 = if p1_in {
            y1
        } else if y1 < 0 {
            0
        } else {
            h
        };
        let ny2 = if p2_in {
            y2
        } else if y2 < 0 {
            0
        } else {
            h
        };
        (x1, ny1, x2, ny2)
    } else {
        let cands = two_cands(
            cand_at_x(0, h, x1, y1, x2, y2),
            cand_at_x(w, h, x1, y1, x2, y2),
            cand_at_y(0, w, x1, y1, x2, y2),
            cand_at_y(h, w, x1, y1, x2, y2),
        );
        match cands {
            Some(pair) => {
                let n1 = if p1_in {
                    (x1, y1)
                } else {
                    nearer((x1, y1), pair.0, pair.1)
                };
                let n2 = if p2_in {
                    (x2, y2)
                } else {
                    nearer((x2, y2), pair.0, pair.1)
                };
                (n1.0, n1.1, n2.0, n2.1)
            },
            None => {
                let n1 = if p1_in || !p2_in {
                    (x1, y1)
                } else {
                    (x2, y2)
                };
                let n2 = if p2_in || !p1_in {
                    (x2, y2)
                } else {
                    (x1, y1)
                };
                (n1.0, n1.1, n2.0, n2.1)
            },
        }
    }
}

/// Clamping keeps an inside endpoint unchanged, and as soon as one endpoint
/// is inside, the whole clamped segment lies within or on the canvas
/// rectangle.
pub proof fn lemma_clamp_inside_endpoint(w: int, h: int, x1: int, y1: int, x2: int, y2: int)
    requires
        1 <= w,
        1 <= h,
    ensures
        in_rect(w, h, (x1, y1)) ==> {
            let (a, b, c, d) = clamp_spec(w, h, x1, y1, x2, y2);
            a == x1 && b == y1
        },
        in_rect(w, h, (x2, y2)) ==> {
            let (a, b, c, d) = clamp_spec(w, h, x1, y1, x2, y2);
            c == x2 && d == y2
        },
        in_rect(w, h, (x1, y1)) || in_rect(w, h, (x2, y2)) ==> {
            let (a, b, c, d) = clamp_spec(w, h, x1, y1, x2, y2);
            0 <= a <= w && 0 <= b <= h && 0 <= c <= w && 0 <= d <= h
        },
{
}

/// With one endpoint inside and the other outside, a non-vertical segment's
/// outside endpoint is replaced by one of the four boundary intersections of
/// its carrier line — each of which is the rounded point where the line
/// crosses `x = 0`, `x = w`, `y = 0` or `y = h` — or, when no intersection is
/// valid, by the inside endpoint itself. The replacement therefore lies on
/// the carrier line up to rounding.
pub proof fn lemma_clamp_clips_to_carrier_line(w: int, h: int, x1: int, y1: int, x2: int, y2: int)
    requires
        1 <= w,
        1 <= h,
        x1 != x2,
    ensures
        in_rect(w, h, (x1, y1)) && !in_rect(w, h, (x2, y2)) ==> {
            let (a, b, c, d) = clamp_spec(w, h, x1, y1, x2, y2);
            cand_at_x(0, h, x1, y1, x2, y2) == Some((c, d)) || cand_at_x(
                w,
                h,
                x1,
                y1,
                x2,
                y2,
            ) == Some((c, d)) || cand_at_y(0, w, x1, y1, x2, y2) == Some((c, d)) || cand_at_y(
                h,
                w,
                x1,
                y1,
                x2,
                y2,
            ) == Some((c, d)) || (c, d) == (x1, y1)
        },
        in_rect(w, h, (x2, y2)) && !in_rect(w, h, (x1, y1)) ==> {
            let (a, b, c, d) = clamp_spec(w, h, x1, y1, x2, y2);
            cand_at_x(0, h, x1, y1, x2, y2) == Some((a, b)) || cand_at_x(
                w,
                h,
                x1,
                y1,
                x2,
                y2,
            ) == Some((a, b)) || cand_at_y(0, w, x1, y1, x2, y2) == Some((a, b)) || cand_at_y(
                h,
                w,
                x1,
                y1,
                x2,
                y2,
            ) == Some((a, b)) || (a, b) == (x2, y2)
        },
{
}

impl Canvas {
    /// Clamps the specified coordinates of a line into the canvas space and
    /// returns them.
    pub fn clamp_line_coords(&self, x1: isize, y1: isize, x2: isize, y2: isize) -> (r: (
        isize,
        isize,
        isize,
        isize,
    ))
        requires
            self.wf(),
            coord_ok(x1 as int),
            coord_ok(y1 as int),
            coord_ok(x2 as int),
            coord_ok(y2 as int),
        ensures
            (r.0 as int, r.1 as int, r.2 as int, r.3 as int) == clamp_spec(
                self.w(),
                self.h(),
                x1 as int,
                y1 as int,
                x2 as int,
                y2 as int,
            ),
            coord_ok(r.0 as int),
            coord_ok(r.1 as int),
            coord_ok(r.2 as int),
            coord_ok(r.3 as int),
    {
        let w = self.width() as isize;
        let h = self.height() as isize;
        let p1_inside = x1 >= 0 && x1 < w && y1 >= 0 && y1 < h;
        let p2_inside = x2 >= 0 && x2 < w && y2 >= 0 && y2 < h;

        if p1_inside && p2_inside {
            return (x1, y1, x2, y2);
        }

        if x1 == x2 {
            let ny1 = if p1_inside {
                y1
            } else if y1 < 0 {
                0
            } else {
                h
            };
            let ny2 = if p2_inside {
                y2
            } else if y2 < 0 {
                0
            } else {
                h
            };
            return (x1, ny1, x2, ny2);
        }

        let c_x0 = self.cand_x_exec(0, x1, y1, x2, y2);
        let c_xw = self.cand_x_exec(w, x1, y1, x2, y2);
        let c_y0 = self.cand_y_exec(0, x1, y1, x2, y2);
        let c_yh = self.cand_y_exec(h, x1, y1, x2, y2);

        let pair: Option<((isize, isize), (isize, isize))> = match c_x0 {
            Some(p) => Some((p, first_of_exec(c_xw, c_y0, c_yh, p))),
            None => match c_xw {
                Some(p) => Some((p, first_of_exec(c_y0, c_yh, None, p))),
                None => match c_y0 {
                    Some(p) => Some((p, first_of_exec(c_yh, None, None, p))),
                    None => match c_yh {
                        Some(p) => Some((p, p)),
                        None => None,
                    },
                },
            },
        };

        match pair {
            Some((pa, pb)) => {
                let n1 = if p1_inside {
                    (x1, y1)
                } else {
                    nearer_exec((x1, y1), pa, pb)
                };
                let n2 = if p2_inside {
                    (x2, y2)
                } else {
                    nearer_exec((x2, y2), pa, pb)
                };
                (n1.0, n1.1, n2.0, n2.1)
            },
            None => {
                let n1 = if p1_inside || !p2_inside {
                    (x1, y1)
                } else {
                    (x2, y2)
                };
                let n2 = if p2_inside || !p1_inside {
                    (x2, y2)
                } else {
                    (x1, y1)
                };
                (n1.0, n1.1, n2.0, n2.1)
            },
        }
    }

    /// The candidate intersection with the vertical boundary line `x = bx`.
    fn cand_x_exec(&self, bx: isize, x1: isize, y1: isize, x2: isize, y2: isize) -> (r: Option<
        (isize, isize),
    >)
        requires
            self.wf(),
            bx == 0 || bx == self.w(),
            x1 != x2,
            coord_ok(x1 as int),
            coord_ok(y1 as int),
            coord_ok(x2 as int),
            coord_ok(y2 as int),
        ensures
            match r {
                Some(p) => cand_at_x(
                    bx as int,
                    self.h(),
                    x1 as int,
                    y1 as int,
                    x2 as int,
                    y2 as int,
                ) == Some((p.0 as int, p.1 as int)) && 0 <= p.0 <= 8192 && 0 <= p.1 <= 8192,
                None => cand_at_x(
                    bx as int,
                    self.h(),
                    x1 as int,
                    y1 as int,
                    x2 as int,
                    y2 as int,
                ) is None,
            },
    {
        let h = self.height() as isize;
        proof {
            lemma_mul_bound(y2 - y1, bx - x1, 0x4000, 0x4000);
        }
        let num = (y2 - y1) * (bx - x1);
        let den = x2 - x1;
        let y = y1 + rdiv_exec(num, den);
        proof {
            lemma_rdiv_bound(num as int, den as int);
        }
        if 0 <= y && y < h {
            Some((bx, y))
        } else {
            None
        }
    }

    /// The candidate intersection with the horizontal boundary line `y = by`.
    fn cand_y_exec(&self, by: isize, x1: isize, y1: isize, x2: isize, y2: isize) -> (r: Option<
        (isize, isize),
    >)
        requires
            self.wf(),
            by == 0 || by == self.h(),
            x1 != x2,
            coord_ok(x1 as int),
            coord_ok(y1 as int),
            coord_ok(x2 as int),
            coord_ok(y2 as int),
        ensures
            match r {
                Some(p) => cand_at_y(
                    by as int,
                    self.w(),
                    x1 as int,
                    y1 as int,
                    x2 as int,
                    y2 as int,
                ) == Some((p.0 as int, p.1 as int)) && 0 <= p.0 <= 8192 && 0 <= p.1 <= 8192,
                None => cand_at_y(
                    by as int,
                    self.w(),
                    x1 as int,
                    y1 as int,
                    x2 as int,
                    y2 as int,
                ) is None,
            },
    {
        if y1 == y2 {
            return None;
        }
        let w = self.width() as isize;
        proof {
            lemma_mul_bound(x2 - x1, by - y1, 0x4000, 0x4000);
        }
        let num = (x2 - x1) * (by - y1);
        let den = y2 - y1;
        let x = x1 + rdiv_exec(num, den);
        proof {
            lemma_rdiv_bound(num as int, den as int);
        }
        if 0 <= x && x < w {
            Some((x, by))
        } else {
            None
        }
    }
}

/// The first point among three options, or the fallback if none is present.
fn first_of_exec(
    a: Option<(isize, isize)>,
    b: Option<(isize, isize)>,
    c: Option<(isize, isize)>,
    fallback: (isize, isize),
) -> (r: (isize, isize))
    requires
        (a matches Some(p) ==> 0 <= p.0 <= 8192 && 0 <= p.1 <= 8192),
        (b matches Some(p) ==> 0 <= p.0 <= 8192 && 0 <= p.1 <= 8192),
        (c matches Some(p) ==> 0 <= p.0 <= 8192 && 0 <= p.1 <= 8192),
    ensures
        (r.0 as int, r.1 as int) == first_of(
            opt_view(a),
            opt_view(b),
            opt_view(c),
            (fallback.0 as int, fallback.1 as int),
        ),
        r == fallback || (0 <= r.0 <= 8192 && 0 <= r.1 <= 8192),
{
    match a {
        Some(p) => p,
        None => match b {
            Some(p) => p,
            None => match c {
                Some(p) => p,
                None => fallback,
            },
        },
    }
}

/// An optional point seen as a pair of mathematical integers.
pub open spec fn opt_view(p: Option<(isize, isize)>) -> Option<(int, int)> {
    match p {
        Some(q) => Some((q.0 as int, q.1 as int)),
        None => None,
    }
}

/// Of two candidate points, the one nearer to `e` by squared Euclidean
/// distance (the second on a tie).
fn nearer_exec(e: (isize, isize), pa: (isize, isize), pb: (isize, isize)) -> (r: (isize, isize))
    requires
        coord_ok(e.0 as int),
        coord_ok(e.1 as int),
        0 <= pa.0 <= 8192,
        0 <= pa.1 <= 8192,
        0 <= pb.0 <= 8192,
        0 <= pb.1 <= 8192,
    ensures
        (r.0 as int, r.1 as int) == nearer(
            (e.0 as int, e.1 as int),
            (pa.0 as int, pa.1 as int),
            (pb.0 as int, pb.1 as int),
        ),
        0 <= r.0 <= 8192,
        0 <= r.1 <= 8192,
{
    let dxa = pa.0 - e.0;
    let dya = pa.1 - e.1;
    let dxb = pb.0 - e.0;
    let dyb = pb.1 - e.1;
    proof {
        lemma_sq_bound(dxa as int, 0x4001);
        lemma_sq_bound(dya as int, 0x4001);
        lemma_sq_bound(dxb as int, 0x4001);
        lemma_sq_bound(dyb as int, 0x4001);
    }
    let da = dxa * dxa + dya * dya;
    let db = dxb * dxb + dyb * dyb;
    if da < db {
        pa
    } else {
        pb
    }
}

/// A product of bounded values is bounded by the product of the bounds.
pub(crate) proof fn lemma_mul_bound(a: int, b: int, ba: int, bb: int)
    requires
        -ba <= a <= ba,
        -bb <= b <= bb,
        0 <= ba,
        0 <= bb,
    ensures
        -(ba * bb) <= a * b <= ba * bb,
{
    assert(-(ba * bb) <= a * b <= ba * bb) by (nonlinear_arith)
        requires
            -ba <= a <= ba,
            -bb <= b <= bb,
            0 <= ba,
            0 <= bb,
    ;
}

/// A square of a bounded value is bounded by the squared bound.
pub(crate) proof fn lemma_sq_bound(v: int, bound: int)
    requires
        -bound <= v <= bound,
        0 <= bound,
    ensures
        0 <= v * v <= bound * bound,
{
    assert(0 <= v * v <= bound * bound) by (nonlinear_arith)
        requires
            -bound <= v <= bound,
            0 <= bound,
    ;
}

} // verus!
