//! Shape builders: drawable values that translate anchor points and
//! dimensions into vertex lists for the rasterizer.

use vstd::prelude::*;

use crate::canvas::{coord_ok, Canvas, Draw};
use crate::color::RGBA;
use crate::polygon::verts_view;

verus! {

/// Where a shape's anchor point sits: at its center or at its top-left
/// corner.
#[allow(non_camel_case_types)]
#[derive(Debug)]
pub enum AnkerType {
    CENTER,
    CORNER,
}

/// A square, anchored at its center or top-left corner, drawn as an outline
/// or filled.
#[derive(Debug)]
pub struct Square {
    pub anker: (isize, isize),
    pub length: u32,
    pub anker_type: AnkerType,
    pub solid: bool,
    pub color: RGBA,
}

impl Square {
    /// The four corners of the square, clockwise from the top-left.
    pub open spec fn spec_vertices(&self) -> Seq<(int, int)> {
        let ax = self.anker.0 as int;
        let ay = self.anker.1 as int;
        let l = self.length as int;
        if self.anker_type is CENTER {
            seq![
                (ax - l / 2, ay - l / 2),
                (ax + l / 2, ay - l / 2),
                (ax + l / 2, ay + l / 2),
                (ax - l / 2, ay + l / 2),
            ]
        } else {
            seq![(ax, ay), (ax + l, ay), (ax + l, ay + l), (ax, ay + l)]
        }
    }

    /// The anchor and size ranges under which the square can be drawn.
    pub open spec fn params_ok(&self) -> bool {
        &&& -4096 <= self.anker.0 <= 4096
        &&& -4096 <= self.anker.1 <= 4096
        &&& self.length <= 4096
    }

    /// Builds the square's vertex list.
    pub fn vertices(&self) -> (v: Vec<(isize, isize)>)
        requires
            self.params_ok(),
        ensures
            verts_view(v@) == self.spec_vertices(),
            v@.len() == 4,
            forall|i: int|
                0 <= i < v@.len() ==> coord_ok((#[trigger] v@[i]).0 as int) && coord_ok(
                    v@[i].1 as int,
                ),
    {
        let l = self.length as isize;
        let mut v: Vec<(isize, isize)> = Vec::new();
        match self.anker_type {
            AnkerType::CENTER => {
                v.push((self.anker.0 - l / 2, self.anker.1 - l / 2));
                v.push((self.anker.0 + l / 2, self.anker.1 - l / 2));
                v.push((self.anker.0 + l / 2, self.anker.1 + l / 2));
                v.push((self.anker.0 - l / 2, self.anker.1 + l / 2));
            },
            AnkerType::CORNER => {
                v.push((self.anker.0, self.anker.1));
                v.push((self.anker.0 + l, self.anker.1));
                v.push((self.anker.0 + l, self.anker.1 + l));
                v.push((self.anker.0, self.anker.1 + l));
            },
        }
        proof {
            assert(verts_view(v@) =~= self.spec_vertices());
        }
        v
    }
}

impl Draw for Square {
    open spec fn draw_req(&self) -> bool {
        self.params_ok()
    }

    fn draw(&self, canvas: &mut Canvas)
        ensures
            final(canvas).pixels() == if self.solid {
                crate::polygon::polygon_solid_result(
                    old(canvas).pixels(),
                    old(canvas).w(),
                    old(canvas).h(),
                    self.spec_vertices(),
                    true,
                    self.color,
                )
            } else {
                crate::polygon::outline_result(
                    old(canvas).pixels(),
                    old(canvas).w(),
                    old(canvas).h(),
                    self.spec_vertices(),
                    self.color,
                )
            },
    {
        let vertices = self.vertices();
        match self.solid {
            true => canvas.draw_polygon_solid(&vertices, true, self.color),
            false => canvas.draw_polygon(&vertices, self.color),
        }
    }
}

/// An axis-aligned rectangle, anchored at its center or top-left corner,
/// drawn as an outline or filled.
#[derive(Debug)]
pub struct Rectangle {
    pub anker: (isize, isize),
    pub width: u32,
    pub height: u32,
    pub anker_type: AnkerType,
    pub solid: bool,
    pub color: RGBA,
}

impl Rectangle {
    /// The four corners of the rectangle, clockwise from the top-left.
    pub open spec fn spec_vertices(&self) -> Seq<(int, int)> {
        let ax = self.anker.0 as int;
        let ay = self.anker.1 as int;
        let w = self.width as int;
        let h = self.height as int;
        if self.anker_type is CENTER {
            seq![
                (ax - w / 2, ay - h / 2),
                (ax + w / 2, ay - h / 2),
                (ax + w / 2, ay + h / 2),
                (ax - w / 2, ay + h / 2),
            ]
        } else {
            seq![(ax, ay), (ax + w, ay), (ax + w, ay + h), (ax, ay + h)]
        }
    }

    /// The anchor and size ranges under which the rectangle can be drawn.
    pub open spec fn params_ok(&self) -> bool {
        &&& -4096 <= self.anker.0 <= 4096
        &&& -4096 <= self.anker.1 <= 4096
        &&& self.width <= 4096
        &&& self.height <= 4096
    }

    /// Builds the rectangle's vertex list.
    pub fn vertices(&self) -> (v: Vec<(isize, isize)>)
        requires
            self.params_ok(),
        ensures
            verts_view(v@) == self.spec_vertices(),
            v@.len() == 4,
            forall|i: int|
                0 <= i < v@.len() ==> coord_ok((#[trigger] v@[i]).0 as int) && coord_ok(
                    v@[i].1 as int,
                ),
    {
        let w = self.width as isize;
        let h = self.height as isize;
        let mut v: Vec<(isize, isize)> = Vec::new();
        match self.anker_type {
            AnkerType::CENTER => {
                v.push((self.anker.0 - w / 2, self.anker.1 - h / 2));
                v.push((self.anker.0 + w / 2, self.anker.1 - h / 2));
                v.push((self.anker.0 + w / 2, self.anker.1 + h / 2));
                v.push((self.anker.0 - w / 2, self.anker.1 + h / 2));
            },
            AnkerType::CORNER => {
                v.push((self.anker.0, self.anker.1));
                v.push((self.anker.0 + w, self.anker.1));
                v.push((self.anker.0 + w, self.anker.1 + h));
                v.push((self.anker.0, self.anker.1 + h));
            },
        }
        proof {
            assert(verts_view(v@) =~= self.spec_vertices());
        }
        v
    }
}

impl Draw for Rectangle {
    open spec fn draw_req(&self) -> bool {
        self.params_ok()
    }

    fn draw(&self, canvas: &mut Canvas)
        ensures
            final(canvas).pixels() == if self.solid {
                crate::polygon::polygon_solid_result(
                    old(canvas).pixels(),
                    old(canvas).w(),
                    old(canvas).h(),
                    self.spec_vertices(),
                    true,
                    self.color,
                )
            } else {
                crate::polygon::outline_result(
                    old(canvas).pixels(),
                    old(canvas).w(),
                    old(canvas).h(),
                    self.spec_vertices(),
                    self.color,
                )
            },
    {
        let vertices = self.vertices();
        match self.solid {
            true => canvas.draw_polygon_solid(&vertices, true, self.color),
            false => canvas.draw_polygon(&vertices, self.color),
        }
    }
}

/// A polygon over a caller-supplied vertex list, drawn as an outline or
/// filled with the declared winding order.
#[derive(Debug)]
pub struct Polygon {
    pub vertices: Vec<(isize, isize)>,
    pub clockwise: bool,
    pub solid: bool,
    pub color: RGBA,
}

impl Draw for Polygon {
    open spec fn draw_req(&self) -> bool {
        &&& self.vertices@.len() <= 0x10000
        &&& forall|i: int|
            0 <= i < self.vertices@.len() ==> coord_ok((#[trigger] self.vertices@[i]).0 as int)
                && coord_ok(self.vertices@[i].1 as int)
    }

    fn draw(&self, canvas: &mut Canvas)
        ensures
            final(canvas).pixels() == if self.solid {
                crate::polygon::polygon_solid_result(
                    old(canvas).pixels(),
                    old(canvas).w(),
                    old(canvas).h(),
                    verts_view(self.vertices@),
                    self.clockwise,
                    self.color,
                )
            } else {
                crate::polygon::outline_result(
                    old(canvas).pixels(),
                    old(canvas).w(),
                    old(canvas).h(),
                    verts_view(self.vertices@),
                    self.color,
                )
            },
    {
        match self.solid {
            true => canvas.draw_polygon_solid(&self.vertices, self.clockwise, self.color),
            false => canvas.draw_polygon(&self.vertices, self.color),
        }
    }
}

} // verus!
