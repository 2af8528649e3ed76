use rasterline::color::pack_color;
use rasterline::raster::{draw_line, fill, render_frame, try_draw_line, Point, RasterError};

fn buf(len: usize, v: u32) -> Vec<u32> {
    vec![v; len]
}

const W: u32 = 10;
const C: u32 = 0xABCD;

#[test]
fn horizontal_draws_start_inclusive_end_exclusive() {
    let mut b = buf(100, 0);
    draw_line(&mut b, W, Point::new(2, 5), Point::new(7, 5), C);
    for x in 0..10u32 {
        let expect = if (2..7).contains(&x) { C } else { 0 };
        assert_eq!(b[(5 * W + x) as usize], expect, "x = {}", x);
    }
    for (j, v) in b.iter().enumerate() {
        let on_row = (52..57).contains(&j);
        assert_eq!(*v, if on_row { C } else { 0 }, "j = {}", j);
    }
}

#[test]
fn vertical_draws_start_inclusive_end_exclusive() {
    let mut b = buf(100, 0);
    draw_line(&mut b, W, Point::new(3, 1), Point::new(3, 4), C);
    for y in 0..10u32 {
        let expect = if (1..4).contains(&y) { C } else { 0 };
        assert_eq!(b[(y * W + 3) as usize], expect, "y = {}", y);
    }
    assert_eq!(b.iter().filter(|v| **v == C).count(), 3);
}

#[test]
fn degenerate_segment_modifies_nothing() {
    let mut b = buf(100, 7);
    draw_line(&mut b, W, Point::new(4, 4), Point::new(4, 4), C);
    assert!(b.iter().all(|v| *v == 7));
}

#[test]
fn shallow_diagonal_truncates_slope() {
    let mut b = buf(100, 0);
    draw_line(&mut b, W, Point::new(0, 0), Point::new(4, 2), C);
    // dx = 4, dy = 2: four steps, y = trunc(i * 0.5)
    let lit = [(0u32, 0u32), (1, 0), (2, 1), (3, 1)];
    for &(x, y) in lit.iter() {
        assert_eq!(b[(y * W + x) as usize], C, "({}, {})", x, y);
    }
    assert_eq!(b[(2 * W + 4) as usize], 0, "end pixel untouched");
    assert_eq!(b.iter().filter(|v| **v == C).count(), lit.len());
}

#[test]
fn steep_diagonal_truncates_inverse_slope() {
    let mut b = buf(100, 0);
    draw_line(&mut b, W, Point::new(0, 0), Point::new(2, 4), C);
    // dy = 4, dx = 2: four steps, x = trunc(i / 2.0)
    let lit = [(0u32, 0u32), (0, 1), (1, 2), (1, 3)];
    for &(x, y) in lit.iter() {
        assert_eq!(b[(y * W + x) as usize], C, "({}, {})", x, y);
    }
    assert_eq!(b[(4 * W + 2) as usize], 0, "end pixel untouched");
    assert_eq!(b.iter().filter(|v| **v == C).count(), lit.len());
}

#[test]
fn reversed_horizontal_draws_nothing() {
    let mut b = buf(100, 3);
    draw_line(&mut b, W, Point::new(7, 5), Point::new(2, 5), C);
    assert!(b.iter().all(|v| *v == 3));
}

#[test]
fn reversed_vertical_draws_nothing() {
    let mut b = buf(100, 3);
    draw_line(&mut b, W, Point::new(3, 4), Point::new(3, 1), C);
    assert!(b.iter().all(|v| *v == 3));
}

#[test]
fn reversed_diagonal_draws_from_start_toward_end() {
    let mut b = buf(100, 0);
    draw_line(&mut b, W, Point::new(4, 2), Point::new(0, 0), C);
    // dx = -4, dy = -2: steps from (4, 2), y = trunc(-i * 0.5)
    let lit = [(4u32, 2u32), (3, 2), (2, 1), (1, 1)];
    for &(x, y) in lit.iter() {
        assert_eq!(b[(y * W + x) as usize], C, "({}, {})", x, y);
    }
    assert_eq!(b[0], 0, "end pixel untouched");
    assert_eq!(b.iter().filter(|v| **v == C).count(), lit.len());
}

#[test]
fn try_draw_line_accepts_in_bounds_segment() {
    let mut b = buf(100, 0);
    let r = try_draw_line(&mut b, W, Point::new(2, 5), Point::new(7, 5), C);
    assert_eq!(r, Ok(()));
    assert_eq!(b.iter().filter(|v| **v == C).count(), 5);
}

#[test]
fn try_draw_line_rejects_column_out_of_bounds() {
    let mut b = buf(100, 1);
    let r = try_draw_line(&mut b, W, Point::new(2, 5), Point::new(10, 5), C);
    assert_eq!(r, Err(RasterError::OutOfBounds));
    assert!(b.iter().all(|v| *v == 1));
}

#[test]
fn try_draw_line_rejects_row_outside_buffer() {
    let mut b = buf(100, 1);
    let r = try_draw_line(&mut b, W, Point::new(2, 10), Point::new(7, 10), C);
    assert_eq!(r, Err(RasterError::OutOfBounds));
    assert!(b.iter().all(|v| *v == 1));
}

#[test]
fn try_draw_line_rejects_zero_width() {
    let mut b = buf(100, 1);
    let r = try_draw_line(&mut b, 0, Point::new(0, 0), Point::new(0, 0), C);
    assert_eq!(r, Err(RasterError::OutOfBounds));
    assert!(b.iter().all(|v| *v == 1));
}

#[test]
fn fill_overwrites_every_pixel() {
    let mut b = buf(37, 5);
    fill(&mut b, 0xFEFE);
    assert_eq!(b.len(), 37);
    assert!(b.iter().all(|v| *v == 0xFEFE));
}

#[test]
fn render_frame_draws_center_to_cursor_over_background() {
    let frame = render_frame(4, 4, Point::new(3, 3), 7, 9);
    assert_eq!(frame.len(), 16);
    // center (2, 2), segment to (3, 3): one diagonal step at (2, 2)
    for (j, v) in frame.iter().enumerate() {
        assert_eq!(*v, if j == 10 { 9 } else { 7 }, "j = {}", j);
    }
}

#[test]
fn render_frame_with_cursor_at_center_is_all_background() {
    let frame = render_frame(6, 4, Point::new(3, 2), 7, 9);
    assert_eq!(frame.len(), 24);
    assert!(frame.iter().all(|v| *v == 7));
}

#[test]
fn pack_color_packs_blue_low_red_high() {
    assert_eq!(pack_color(1, 2, 3), 0x01_02_03);
    assert_eq!(pack_color(255, 255, 0), 0x00FF_FF00);
    assert_eq!(pack_color(0, 0, 0), 0);
    assert_eq!(pack_color(255, 255, 255), 0x00FF_FFFF);
    assert_eq!(pack_color(0, 0, 255), 255);
}
