use cgpp2::depth::DepthBuffer;
use cgpp2::frame::Frame;
use cgpp2::triangle::fill_triangle_iter;
use cgpp2::types::Point;

#[test]
fn test_depth_buffer_starts_at_minimum() {
    let buf = DepthBuffer::new(4, 3);
    for y in 0..3 {
        for x in 0..4 {
            assert_eq!(buf.depth_at(x, y), 0);
        }
    }
}

#[test]
fn test_depth_test_monotonic() {
    // Once a nearer depth is stored, a fragment that is not nearer can
    // never overwrite it, whatever comes in between.
    let mut buf = DepthBuffer::new(8, 8);
    assert!(buf.test_and_set(2, 5, 10));
    assert_eq!(buf.depth_at(2, 5), 10);
    assert!(!buf.test_and_set(2, 5, 5));
    assert_eq!(buf.depth_at(2, 5), 10);
    assert!(!buf.test_and_set(2, 5, 10));
    assert_eq!(buf.depth_at(2, 5), 10);
    assert!(buf.test_and_set(2, 5, 11));
    assert_eq!(buf.depth_at(2, 5), 11);
    assert!(!buf.test_and_set(2, 5, 10));
    assert_eq!(buf.depth_at(2, 5), 11);
    // other pixels are untouched
    assert_eq!(buf.depth_at(3, 5), 0);
}

#[test]
fn test_depth_clear_resets() {
    let mut buf = DepthBuffer::new(4, 4);
    assert!(buf.test_and_set(1, 1, 99));
    buf.clear();
    assert_eq!(buf.depth_at(1, 1), 0);
    assert!(buf.test_and_set(1, 1, 1));
}

#[test]
fn test_set_pixel_touches_one_pixel() {
    let mut frame = Frame::new(5, 4);
    frame.set_pixel(2, 1, 10, 20, 30, 40);
    for y in 0..4 {
        for x in 0..5 {
            let c = frame.pixel(x, y);
            if (x, y) == (2, 1) {
                assert_eq!(c, [10, 20, 30, 40]);
            } else {
                assert_eq!(c, [0, 0, 0, 0]);
            }
        }
    }
}

#[test]
fn test_render_single_triangle_white() {
    // Fill one triangle with opaque white into a fresh frame: exactly the
    // rasterizer-predicted pixel set is white, every other pixel keeps its
    // background value.
    let w: usize = 20;
    let h: usize = 20;
    let mut frame = Frame::new(w, h);
    let v0 = Point::new(10, 20);
    let v1 = Point::new(50, 20);
    let v2 = Point::new(70, 40);
    frame.fill_triangle(v0, v1, v2, 255, 255, 255, 255);

    let mut it = fill_triangle_iter(10, 20, 50, 20, 70, 40, 0, 0, w as i32, h as i32);
    let mut expected = std::collections::HashSet::new();
    while let Some(p) = it.next() {
        expected.insert((p.x, p.y));
    }
    assert_eq!(expected.len(), 4);

    for y in 0..h {
        for x in 0..w {
            let c = frame.pixel(x, y);
            if expected.contains(&(x as i32, y as i32)) {
                assert_eq!(c, [255, 255, 255, 255]);
            } else {
                assert_eq!(c, [0, 0, 0, 0]);
            }
        }
    }
}

#[test]
fn test_fill_clipped_to_frame() {
    // A triangle larger than the frame colors only in-frame pixels.
    let mut frame = Frame::new(3, 3);
    frame.fill_triangle(
        Point::new(-100, -100),
        Point::new(400, -100),
        Point::new(150, 400),
        7,
        8,
        9,
        255,
    );
    let mut colored = 0;
    for y in 0..3 {
        for x in 0..3 {
            let c = frame.pixel(x, y);
            if c == [7, 8, 9, 255] {
                colored += 1;
            } else {
                assert_eq!(c, [0, 0, 0, 0]);
            }
        }
    }
    assert_eq!(colored, 9);
}

#[test]
fn test_draw_line_exact_pixels() {
    let mut frame = Frame::new(8, 8);
    frame.draw_line(0, 0, 4, 3, 1, 2, 3, 4);
    let expected = [(0, 0), (1, 1), (2, 1), (3, 2), (4, 3)];
    for y in 0..8 {
        for x in 0..8 {
            let c = frame.pixel(x, y);
            if expected.contains(&(x as i32, y as i32)) {
                assert_eq!(c, [1, 2, 3, 4]);
            } else {
                assert_eq!(c, [0, 0, 0, 0]);
            }
        }
    }
}

#[test]
fn test_draw_line_clips_out_of_frame_points() {
    // Only the in-frame points of the segment are written.
    let mut frame = Frame::new(3, 3);
    frame.draw_line(-2, 1, 5, 1, 9, 9, 9, 9);
    for y in 0..3 {
        for x in 0..3 {
            let c = frame.pixel(x, y);
            if y == 1 {
                assert_eq!(c, [9, 9, 9, 9]);
            } else {
                assert_eq!(c, [0, 0, 0, 0]);
            }
        }
    }
}
