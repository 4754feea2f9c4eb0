use drawing_stuff::canvas::Canvas;
use drawing_stuff::color::{black, blue, green, red, transparant, white, RGB, RGBA};

#[test]
fn new_canvas_is_black() {
    let canvas = Canvas::new(4, 3);
    assert_eq!(canvas.width(), 4);
    assert_eq!(canvas.height(), 3);
    assert_eq!(canvas.buffer().len(), 12);
    for pixel in canvas.buffer() {
        assert_eq!(*pixel, RGB { r: 0, g: 0, b: 0 });
    }
}

#[test]
fn set_then_get_returns_written_value() {
    let mut canvas = Canvas::new(8, 8);
    let color = RGB { r: 12, g: 34, b: 56 };
    let ok = canvas.set(5, 2, color);
    assert!(ok.is_some());
    assert_eq!(canvas.get(5, 2), Some(&color));
    // a neighbour is untouched
    assert_eq!(canvas.get(4, 2), Some(&RGB { r: 0, g: 0, b: 0 }));
}

#[test]
fn out_of_bounds_access_is_a_no_op() {
    let mut canvas = Canvas::new(4, 3);
    canvas.fill(RGB { r: 1, g: 2, b: 3 });
    let before = canvas.buffer().clone();

    assert!(canvas.get(4, 0).is_none());
    assert!(canvas.get(0, 3).is_none());
    assert!(canvas.get(100, 100).is_none());
    assert!(canvas.set(4, 0, RGB { r: 9, g: 9, b: 9 }).is_none());
    assert!(canvas.set(0, 3, RGB { r: 9, g: 9, b: 9 }).is_none());
    assert!(canvas.draw_pixel(-1, 0, white()).is_none());
    assert!(canvas.draw_pixel(0, -1, white()).is_none());
    assert!(canvas.draw_pixel(4, 0, white()).is_none());
    assert!(canvas.draw_pixel(0, 3, white()).is_none());

    assert_eq!(canvas.buffer(), &before);
}

#[test]
fn draw_pixel_alpha_255_replaces_and_alpha_0_keeps() {
    let mut canvas = Canvas::new(4, 4);
    canvas.fill(RGB { r: 100, g: 100, b: 100 });

    let ok = canvas.draw_pixel(1, 1, RGBA { r: 7, g: 8, b: 9, a: 255 });
    assert!(ok.is_some());
    assert_eq!(canvas.get(1, 1), Some(&RGB { r: 7, g: 8, b: 9 }));

    let ok = canvas.draw_pixel(2, 2, RGBA { r: 255, g: 255, b: 255, a: 0 });
    assert!(ok.is_some());
    assert_eq!(canvas.get(2, 2), Some(&RGB { r: 100, g: 100, b: 100 }));
}

#[test]
fn draw_pixel_blends_with_truncating_interpolation() {
    let mut canvas = Canvas::new(4, 4);
    canvas.fill(RGB { r: 100, g: 100, b: 100 });
    canvas.draw_pixel(0, 0, RGBA { r: 200, g: 200, b: 200, a: 128 });
    // (127 * 100 + 128 * 200) / 255 = 150 (truncated)
    assert_eq!(canvas.get(0, 0), Some(&RGB { r: 150, g: 150, b: 150 }));
}

#[test]
fn blending_is_cumulative_not_additive() {
    let mut once = Canvas::new(2, 2);
    let mut twice = Canvas::new(2, 2);
    let half = RGBA { r: 200, g: 200, b: 200, a: 100 };
    let double = RGBA { r: 200, g: 200, b: 200, a: 200 };
    twice.draw_pixel(0, 0, half);
    twice.draw_pixel(0, 0, half);
    once.draw_pixel(0, 0, double);
    assert_ne!(once.get(0, 0), twice.get(0, 0));
    // (155 * 0 + 100 * 200) / 255 = 78, then (155 * 78 + 100 * 200) / 255 = 125
    assert_eq!(twice.get(0, 0), Some(&RGB { r: 125, g: 125, b: 125 }));
}

#[test]
fn add_rgba_exact_values() {
    let base = RGB { r: 10, g: 20, b: 30 };
    let over = RGBA { r: 110, g: 120, b: 130, a: 51 };
    // channel = (204 * base + 51 * over) / 255
    assert_eq!(base.add_rgba(over), RGB { r: 30, g: 40, b: 50 });
}

#[test]
fn fill_overwrites_every_pixel() {
    let mut canvas = Canvas::new(5, 4);
    canvas.set(1, 1, RGB { r: 9, g: 9, b: 9 });
    canvas.fill(RGB { r: 3, g: 4, b: 5 });
    for pixel in canvas.buffer() {
        assert_eq!(*pixel, RGB { r: 3, g: 4, b: 5 });
    }
    assert_eq!(canvas.buffer().len(), 20);
}

#[test]
fn buffer_u32_packs_and_roundtrips() {
    let mut canvas = Canvas::new(3, 1);
    canvas.set(0, 0, RGB { r: 0x12, g: 0x34, b: 0x56 });
    canvas.set(1, 0, RGB { r: 255, g: 0, b: 128 });
    let packed = canvas.buffer_u32();
    assert_eq!(packed[0], 0x0012_3456);
    assert_eq!(packed[1], 0x00FF_0080);
    assert_eq!(packed[2], 0);
    // decoding channel-wise reproduces the buffer exactly
    for (value, pixel) in packed.iter().zip(canvas.buffer().iter()) {
        let decoded = RGB {
            r: ((value >> 16) & 0xFF) as u8,
            g: ((value >> 8) & 0xFF) as u8,
            b: (value & 0xFF) as u8,
        };
        assert_eq!(decoded, *pixel);
        assert_eq!(value >> 24, 0);
    }
}

#[test]
fn buffer_mut_writes_through() {
    let mut canvas = Canvas::new(2, 2);
    for pixel in canvas.buffer_mut() {
        *pixel = RGB { r: 255, g: 255, b: 255 };
    }
    assert_eq!(canvas.get(1, 1), Some(&RGB { r: 255, g: 255, b: 255 }));
}

#[test]
fn named_colors() {
    assert_eq!(transparant(), RGBA { r: 0, g: 0, b: 0, a: 0 });
    assert_eq!(black(), RGBA { r: 0, g: 0, b: 0, a: 255 });
    assert_eq!(white(), RGBA { r: 255, g: 255, b: 255, a: 255 });
    assert_eq!(red(), RGBA { r: 255, g: 0, b: 0, a: 255 });
    assert_eq!(green(), RGBA { r: 0, g: 255, b: 0, a: 255 });
    assert_eq!(blue(), RGBA { r: 0, g: 0, b: 255, a: 255 });
    let (rgb, alpha) = RGBA::new(1, 2, 3, 4).to_rgb();
    assert_eq!(rgb, RGB { r: 1, g: 2, b: 3 });
    assert_eq!(alpha, 4);
}

#[test]
fn pixel_inside_checks_both_axes() {
    let canvas = Canvas::new(10, 5);
    assert!(canvas.pixel_inside(0, 0));
    assert!(canvas.pixel_inside(9, 4));
    assert!(!canvas.pixel_inside(10, 0));
    assert!(!canvas.pixel_inside(0, 5));
    assert!(!canvas.pixel_inside(-1, 2));
    assert!(!canvas.pixel_inside(2, -1));
}

#[test]
fn clamp_keeps_inside_endpoint_and_clips_outside_one() {
    let canvas = Canvas::new(20, 20);
    // horizontal segment leaving the canvas to the right
    let (x1, y1, x2, y2) = canvas.clamp_line_coords(5, 5, 100, 5);
    assert_eq!((x1, y1), (5, 5));
    assert_eq!((x2, y2), (20, 5));
    assert!(0 <= x2 && x2 <= 20 && 0 <= y2 && y2 <= 20);

    // vertical segment leaving the canvas on both ends
    let (x1, y1, x2, y2) = canvas.clamp_line_coords(3, -10, 3, 50);
    assert_eq!((x1, y1, x2, y2), (3, 0, 3, 20));

    // fully inside: untouched
    let (x1, y1, x2, y2) = canvas.clamp_line_coords(2, 3, 17, 12);
    assert_eq!((x1, y1, x2, y2), (2, 3, 17, 12));
}
