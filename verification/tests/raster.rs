use fractals::buffer::PixelBuffer;
use fractals::fixed::ONE;
use fractals::raster::{draw_circle, draw_line, draw_line_px};
use fractals::vector::Vector2;

#[test]
fn axis_line_paints_exactly_its_six_pixels() {
    let mut buf = PixelBuffer::new(8, 8);
    draw_line_px(&mut buf, 0, 0, 5, 0, 0xFFFFFF);
    for x in 0..8usize {
        for y in 0..8usize {
            let expected = if y == 0 && x <= 5 { 0xFFFFFF } else { 0 };
            assert_eq!(buf.get_pixel(x, y), expected);
        }
    }
}

#[test]
fn diagonal_line_is_gapless_and_monotone() {
    let mut buf = PixelBuffer::new(8, 8);
    draw_line_px(&mut buf, 0, 0, 4, 4, 7);
    for i in 0..5usize {
        assert_eq!(buf.get_pixel(i, i), 7);
    }
    assert_eq!(buf.get_pixel(5, 5), 0);
}

#[test]
fn line_endpoints_off_canvas_are_dropped() {
    let mut buf = PixelBuffer::new(4, 4);
    draw_line_px(&mut buf, -2, 1, 2, 1, 9);
    assert_eq!(buf.get_pixel(0, 1), 9);
    assert_eq!(buf.get_pixel(2, 1), 9);
    assert_eq!(buf.get_pixel(3, 1), 0);
}

#[test]
fn thick_line_shifts_layers_up_and_left() {
    let mut buf = PixelBuffer::new(8, 8);
    let start = Vector2::new(2 * ONE, 2 * ONE);
    let end = Vector2::new(5 * ONE, 2 * ONE);
    draw_line(&mut buf, &start, &end, 3, 2);
    // layer zero on row 2, layer one shifted by (-1, -1) on row 1
    assert_eq!(buf.get_pixel(2, 2), 3);
    assert_eq!(buf.get_pixel(5, 2), 3);
    assert_eq!(buf.get_pixel(1, 1), 3);
    assert_eq!(buf.get_pixel(4, 1), 3);
    assert_eq!(buf.get_pixel(5, 1), 0);
    assert_eq!(buf.get_pixel(2, 3), 0);
}

#[test]
fn circle_of_radius_zero_is_the_centre_pixel() {
    let mut buf = PixelBuffer::new(8, 8);
    let centre = Vector2::new(3 * ONE, 3 * ONE);
    draw_circle(&mut buf, &centre, 0, 5);
    for x in 0..8usize {
        for y in 0..8usize {
            let expected = if x == 3 && y == 3 { 5 } else { 0 };
            assert_eq!(buf.get_pixel(x, y), expected);
        }
    }
}

#[test]
fn circle_of_radius_two_marks_the_compass_points() {
    let mut buf = PixelBuffer::new(9, 9);
    let centre = Vector2::new(4 * ONE, 4 * ONE);
    draw_circle(&mut buf, &centre, 2 * ONE, 6);
    assert_eq!(buf.get_pixel(4, 2), 6);
    assert_eq!(buf.get_pixel(4, 6), 6);
    assert_eq!(buf.get_pixel(2, 4), 6);
    assert_eq!(buf.get_pixel(6, 4), 6);
    assert_eq!(buf.get_pixel(4, 4), 0);
}

#[test]
fn out_of_range_writes_are_silently_dropped() {
    let mut buf = PixelBuffer::new(4, 4);
    buf.set_pixel(-1, 2, 9);
    buf.set_pixel(4, 2, 9);
    buf.set_pixel(2, -1, 9);
    buf.set_pixel(2, 4, 9);
    for x in 0..4usize {
        for y in 0..4usize {
            assert_eq!(buf.get_pixel(x, y), 0);
        }
    }
    buf.set_pixel(2, 2, 9);
    assert_eq!(buf.get_pixel(2, 2), 9);
}

#[test]
fn clear_floods_every_cell() {
    let mut buf = PixelBuffer::new(3, 2);
    buf.set_pixel(1, 1, 7);
    buf.clear(4);
    for x in 0..3usize {
        for y in 0..2usize {
            assert_eq!(buf.get_pixel(x, y), 4);
        }
    }
    assert_eq!(buf.contents().len(), 6);
}
