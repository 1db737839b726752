use bootgfx::canvas::{draw_point, fill_rect, Canvas, DrawError};
use bootgfx::line::{calc_slope_point, draw_line};

fn colored_pixels(c: &Canvas, color: u32) -> Vec<(i64, i64)> {
    let mut out = Vec::new();
    for y in 0..c.height() {
        for x in 0..c.width() {
            if c.get_pixel(x, y) == Some(color) {
                out.push((x, y));
            }
        }
    }
    out
}

#[test]
fn fill_rect_paints_rectangle_and_preserves_rest() {
    let mut c = Canvas::new(8, 8, 8);
    let r = fill_rect(&mut c, 0xff0000, 2, 1, 3, 2);
    assert_eq!(r, Ok(()));
    for y in 0..8 {
        for x in 0..8 {
            let expected = if (2..5).contains(&x) && (1..3).contains(&y) {
                0xff0000
            } else {
                0
            };
            assert_eq!(c.get_pixel(x, y), Some(expected));
        }
    }
}

#[test]
fn fill_rect_out_of_bounds_leaves_canvas_untouched() {
    let width = 8;
    let mut c = Canvas::new(width, 8, 8);
    let r = fill_rect(&mut c, 0x00ff00, width - 1, 0, 2, 1);
    assert_eq!(r, Err(DrawError::OutOfRange));
    for y in 0..8 {
        for x in 0..8 {
            assert_eq!(c.get_pixel(x, y), Some(0));
        }
    }
    assert_eq!(c.get_pixel(width - 1, 0), Some(0));
}

#[test]
fn fill_rect_empty_width_is_out_of_range() {
    let mut c = Canvas::new(8, 8, 8);
    assert_eq!(fill_rect(&mut c, 1, 0, 0, 0, 5), Err(DrawError::OutOfRange));
}

#[test]
fn draw_point_writes_one_pixel() {
    let mut c = Canvas::new(8, 8, 8);
    assert_eq!(draw_point(&mut c, 0xabcdef, 3, 4), Ok(()));
    assert_eq!(c.get_pixel(3, 4), Some(0xabcdef));
    assert_eq!(c.get_pixel(4, 3), Some(0));
}

#[test]
fn draw_point_out_of_range_fails() {
    let mut c = Canvas::new(8, 8, 8);
    assert_eq!(draw_point(&mut c, 1, 8, 0), Err(DrawError::OutOfRange));
    assert_eq!(draw_point(&mut c, 1, 0, -1), Err(DrawError::OutOfRange));
    assert_eq!(colored_pixels(&c, 1), vec![]);
}

#[test]
fn draw_line_degenerate_is_one_point() {
    let mut c = Canvas::new(8, 8, 8);
    assert_eq!(draw_line(&mut c, 0x123456, 3, 4, 3, 4), Ok(()));
    assert_eq!(colored_pixels(&c, 0x123456), vec![(3, 4)]);
}

#[test]
fn draw_line_horizontal_includes_both_endpoints() {
    let mut c = Canvas::new(8, 8, 8);
    assert_eq!(draw_line(&mut c, 7, 1, 2, 5, 2), Ok(()));
    assert_eq!(
        colored_pixels(&c, 7),
        vec![(1, 2), (2, 2), (3, 2), (4, 2), (5, 2)]
    );
}

#[test]
fn draw_line_vertical_includes_both_endpoints() {
    let mut c = Canvas::new(8, 8, 8);
    assert_eq!(draw_line(&mut c, 7, 2, 1, 2, 5), Ok(()));
    assert_eq!(
        colored_pixels(&c, 7),
        vec![(2, 1), (2, 2), (2, 3), (2, 4), (2, 5)]
    );
}

#[test]
fn draw_line_odd_delta_same_points_both_directions() {
    // Primary delta 7 (odd): the interpolation never hits an exact half, so
    // both directions touch the same pixels.
    let mut fwd = Canvas::new(16, 16, 16);
    assert_eq!(draw_line(&mut fwd, 9, 1, 2, 8, 5), Ok(()));
    let mut rev = Canvas::new(16, 16, 16);
    assert_eq!(draw_line(&mut rev, 9, 8, 5, 1, 2), Ok(()));
    assert_eq!(colored_pixels(&fwd, 9), colored_pixels(&rev, 9));
}

#[test]
fn draw_line_out_of_range_endpoint_fails() {
    let mut c = Canvas::new(8, 8, 8);
    assert_eq!(draw_line(&mut c, 1, 0, 0, 8, 0), Err(DrawError::OutOfRange));
    assert_eq!(colored_pixels(&c, 1), vec![]);
}

#[test]
fn calc_slope_point_values() {
    assert_eq!(calc_slope_point(4, 2, 2), Some(1));
    assert_eq!(calc_slope_point(0, 0, 0), Some(0));
    assert_eq!(calc_slope_point(4, 2, 5), None);
    assert_eq!(calc_slope_point(2, 4, 0), None);
}

#[test]
fn x_range_clamps_to_smaller_of_width_and_stride() {
    // Width beyond the stride: the x check clamps to the stride, so columns
    // at or past it would alias into the next row and are rejected.
    let c = Canvas::new(10, 4, 8);
    assert!(c.is_in_x_range(7));
    assert!(!c.is_in_x_range(8));
    assert!(!c.is_in_x_range(9));
    let mut c = Canvas::new(10, 4, 8);
    assert_eq!(draw_point(&mut c, 1, 8, 0), Err(DrawError::OutOfRange));
    assert_eq!(fill_rect(&mut c, 1, 7, 0, 2, 1), Err(DrawError::OutOfRange));
    assert_eq!(fill_rect(&mut c, 1, 6, 0, 2, 1), Ok(()));
}

#[test]
fn stride_padding_is_not_addressable() {
    let c = Canvas::new(4, 4, 8);
    assert!(c.is_in_x_range(3));
    assert!(!c.is_in_x_range(4));
    assert_eq!(c.get_pixel(5, 0), None);
}
