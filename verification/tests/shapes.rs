use drawing_stuff::canvas::Canvas;
use drawing_stuff::color::{red, white, RGB};
use drawing_stuff::drawables::{AnkerType, Polygon, Rectangle, Square};

fn painted(canvas: &Canvas, x: usize, y: usize) -> bool {
    canvas.get(x, y) != Some(&RGB { r: 0, g: 0, b: 0 })
}

fn all_black(canvas: &Canvas) -> bool {
    canvas.buffer().iter().all(|p| *p == RGB { r: 0, g: 0, b: 0 })
}

#[test]
fn horizontal_line_draws_every_column() {
    let mut canvas = Canvas::new(10, 10);
    canvas.draw_line(1, 2, 4, 2, red());
    for x in 1..=4 {
        assert_eq!(canvas.get(x, 2), Some(&RGB { r: 255, g: 0, b: 0 }));
    }
    assert!(!painted(&canvas, 0, 2));
    assert!(!painted(&canvas, 5, 2));
    assert!(!painted(&canvas, 2, 1));
    assert!(!painted(&canvas, 2, 3));
}

#[test]
fn diagonal_line_draws_the_diagonal() {
    let mut canvas = Canvas::new(10, 10);
    canvas.draw_line(0, 0, 3, 3, white());
    for i in 0..=3 {
        assert_eq!(canvas.get(i, i), Some(&RGB { r: 255, g: 255, b: 255 }));
    }
    assert!(!painted(&canvas, 1, 0));
    assert!(!painted(&canvas, 0, 1));
    assert!(!painted(&canvas, 4, 4));
}

#[test]
fn vertical_line_excludes_the_bottom_endpoint() {
    let mut canvas = Canvas::new(10, 10);
    canvas.draw_line(2, 1, 2, 4, white());
    assert!(painted(&canvas, 2, 1));
    assert!(painted(&canvas, 2, 2));
    assert!(painted(&canvas, 2, 3));
    assert!(!painted(&canvas, 2, 4));
}

#[test]
fn degenerate_line_draws_nothing() {
    let mut canvas = Canvas::new(10, 10);
    canvas.draw_line(5, 5, 5, 5, red());
    assert!(all_black(&canvas));
}

#[test]
fn off_canvas_shapes_leave_the_buffer_unchanged() {
    let mut canvas = Canvas::new(10, 10);
    canvas.draw_line(-5, -7, -9, -7, red());
    canvas.draw_line(12, 20, 12, 90, red());
    canvas.draw_circle(50, 50, 3, red());
    canvas.draw_circle_solid(50, 50, 3, red());
    let triangle = vec![(30, 30), (35, 30), (33, 38)];
    canvas.draw_polygon(&triangle, red());
    canvas.draw_polygon_solid(&triangle, true, red());
    assert!(all_black(&canvas));
}

#[test]
fn circle_outline_is_symmetric_across_both_axes() {
    let mut canvas = Canvas::new(21, 21);
    canvas.draw_circle(10, 10, 5, white());
    for a in -6i32..=6 {
        for b in -6i32..=6 {
            let at = |x: i32, y: i32| painted(&canvas, (10 + x) as usize, (10 + y) as usize);
            assert_eq!(at(a, b), at(-a, b));
            assert_eq!(at(a, b), at(a, -b));
        }
    }
    assert!(painted(&canvas, 5, 10));
    assert!(painted(&canvas, 15, 10));
    assert!(painted(&canvas, 10, 5));
    assert!(painted(&canvas, 10, 15));
}

#[test]
fn solid_circle_axis_points_and_radius_bound() {
    let mut canvas = Canvas::new(21, 21);
    let r = 4i32;
    canvas.draw_circle_solid(10, 10, r as u32, white());
    // the left and top axis points are filled
    assert!(painted(&canvas, (10 - r) as usize, 10));
    assert!(painted(&canvas, 10, (10 - r) as usize));
    // the right and bottom axis points fall outside the half-open fill
    assert!(!painted(&canvas, (10 + r) as usize, 10));
    assert!(!painted(&canvas, 10, (10 + r) as usize));
    // the center is filled, and nothing lies farther than r + 1 from it
    assert!(painted(&canvas, 10, 10));
    for x in 0..21i32 {
        for y in 0..21i32 {
            if painted(&canvas, x as usize, y as usize) {
                let (dx, dy) = (x - 10, y - 10);
                assert!(dx * dx + dy * dy <= (r + 1) * (r + 1));
            }
        }
    }
}

#[test]
fn solid_rectangle_fills_the_expected_block() {
    let mut canvas = Canvas::new(20, 20);
    let vertices = vec![(0, 0), (10, 0), (10, 10), (0, 10)];
    canvas.draw_polygon_solid(&vertices, true, red());
    for x in 0..20usize {
        for y in 0..20usize {
            // the fill is half-open on both axes: the right column and the
            // bottom row are excluded
            let expected = x < 10 && y < 10;
            assert_eq!(painted(&canvas, x, y), expected, "at ({}, {})", x, y);
        }
    }
}

#[test]
fn polygon_outline_draws_edges_only() {
    let mut canvas = Canvas::new(20, 20);
    let vertices = vec![(2, 2), (8, 2), (8, 8), (2, 8)];
    canvas.draw_polygon(&vertices, white());
    assert!(painted(&canvas, 5, 2));
    assert!(painted(&canvas, 8, 5));
    assert!(painted(&canvas, 5, 8));
    assert!(painted(&canvas, 2, 5));
    assert!(!painted(&canvas, 5, 5));
    assert!(!painted(&canvas, 1, 1));
}

#[test]
fn empty_polygon_is_a_no_op() {
    let mut canvas = Canvas::new(10, 10);
    let vertices: Vec<(isize, isize)> = Vec::new();
    canvas.draw_polygon(&vertices, red());
    canvas.draw_polygon_solid(&vertices, true, red());
    assert!(all_black(&canvas));
}

#[test]
fn polyline_width_zero_is_a_no_op() {
    let mut canvas = Canvas::new(10, 10);
    canvas.draw_polyline(1, 1, 8, 8, 0, red());
    assert!(all_black(&canvas));
}

#[test]
fn polyline_width_one_matches_a_plain_line() {
    let mut thin = Canvas::new(10, 10);
    let mut line = Canvas::new(10, 10);
    thin.draw_polyline(1, 2, 8, 6, 1, red());
    line.draw_line(1, 2, 8, 6, red());
    assert_eq!(thin.buffer(), line.buffer());
}

#[test]
fn thick_polyline_fills_the_offset_quadrilateral() {
    let mut canvas = Canvas::new(12, 12);
    canvas.draw_polyline(2, 5, 8, 5, 3, white());
    // the segment's unit normal is vertical, so the quad spans the rows
    // within round(3/2) = 2 of the segment, the bottommost row excluded
    for x in 0..12usize {
        for y in 0..12usize {
            let expected = (2..8).contains(&x) && (3..7).contains(&y);
            assert_eq!(painted(&canvas, x, y), expected, "at ({}, {})", x, y);
        }
    }
}

#[test]
fn capped_polyline_rounds_the_ends() {
    let mut canvas = Canvas::new(14, 14);
    canvas.draw_polyline_capped(3, 6, 9, 6, 3, white());
    // the cap circle of radius 1 reaches one pixel left of the start
    assert!(painted(&canvas, 2, 6));
    assert!(painted(&canvas, 6, 6));
}

#[test]
fn zero_radius_circles_are_no_ops() {
    let mut canvas = Canvas::new(10, 10);
    canvas.draw_circle(5, 5, 0, red());
    canvas.draw_circle_solid(5, 5, 0, red());
    assert!(all_black(&canvas));
}

#[test]
fn square_drawable_fills_a_block() {
    let mut canvas = Canvas::new(16, 16);
    let square = Square {
        anker: (2, 2),
        length: 4,
        anker_type: AnkerType::CORNER,
        solid: true,
        color: red(),
    };
    canvas.draw(&square);
    assert!(painted(&canvas, 3, 3));
    assert!(painted(&canvas, 2, 2));
    assert!(!painted(&canvas, 7, 7));
    assert!(!painted(&canvas, 0, 0));
}

#[test]
fn rectangle_drawable_centered_outline() {
    let mut canvas = Canvas::new(16, 16);
    let rect = Rectangle {
        anker: (8, 8),
        width: 6,
        height: 4,
        anker_type: AnkerType::CENTER,
        solid: false,
        color: white(),
    };
    canvas.draw(&rect);
    // corners at (5, 6), (11, 6), (11, 10), (5, 10)
    assert!(painted(&canvas, 8, 6));
    assert!(painted(&canvas, 5, 8));
    assert!(painted(&canvas, 11, 8));
    assert!(!painted(&canvas, 8, 8));
}

#[test]
fn polygon_drawable_solid_triangle() {
    let mut canvas = Canvas::new(20, 20);
    let triangle = Polygon {
        vertices: vec![(5, 3), (14, 10), (5, 16)],
        clockwise: true,
        solid: true,
        color: red(),
    };
    canvas.draw(&triangle);
    assert!(painted(&canvas, 7, 10));
    assert!(!painted(&canvas, 1, 1));
    assert!(!painted(&canvas, 18, 18));
}

#[test]
fn steep_line_exact_pixels() {
    let mut canvas = Canvas::new(10, 10);
    canvas.draw_line(1, 1, 3, 7, white());
    let expected = [(1, 1), (1, 2), (2, 3), (2, 4), (2, 5), (3, 6), (3, 7)];
    for &(x, y) in &expected {
        assert!(painted(&canvas, x, y), "missing ({}, {})", x, y);
    }
    let count = canvas
        .buffer()
        .iter()
        .filter(|p| **p != RGB { r: 0, g: 0, b: 0 })
        .count();
    assert_eq!(count, expected.len());
}

#[test]
fn clipped_line_draws_only_inside() {
    let mut canvas = Canvas::new(20, 20);
    canvas.draw_line(5, 5, 100, 5, red());
    for x in 5..20 {
        assert!(painted(&canvas, x, 5));
    }
    for x in 0..5 {
        assert!(!painted(&canvas, x, 5));
    }
    assert!(!painted(&canvas, 5, 4));
    assert!(!painted(&canvas, 19, 6));
}
