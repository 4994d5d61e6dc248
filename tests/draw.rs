use drawer::color::{rgb, rgba, rgba_merge};
use drawer::draw::{draw_line, draw_line_opaque, draw_rect, draw_rgba};
use drawer::point::Point;
use drawer::segment::Segment;

fn seg(x0: i32, y0: i32, x1: i32, y1: i32) -> Segment {
    Segment::new(Point::new(x0, y0), Point::new(x1, y1))
}

#[test]
fn horizontal_line_fills_row() {
    let mut buf = vec![0u32; 5];
    draw_line(&mut buf, 5, 1, seg(0, 0, 4, 0), rgba(255, 255, 255, 255));
    assert_eq!(buf, vec![rgb(255, 255, 255); 5]);
}

#[test]
fn partly_outside_line_writes_only_inside() {
    let c = 7u32;
    let mut buf = vec![0u32; 16];
    draw_line_opaque(&mut buf, 4, 4, seg(-3, -3, 6, 6), c);
    let mut expected = vec![0u32; 16];
    for i in 0..4 {
        expected[i + i * 4] = c;
    }
    assert_eq!(buf, expected);
}

#[test]
fn line_entirely_outside_writes_nothing() {
    let mut buf = vec![1u32; 9];
    draw_line_opaque(&mut buf, 3, 3, seg(-10, 5, -2, 40), 9);
    assert_eq!(buf, vec![1u32; 9]);
}

#[test]
fn steep_line_steps_along_y() {
    let mut buf = vec![0u32; 12];
    draw_line_opaque(&mut buf, 3, 4, seg(0, 0, 2, 3), 5);
    // (0,0) (1,1) (1,2) (2,3)
    let mut expected = vec![0u32; 12];
    for (x, y) in [(0, 0), (1, 1), (1, 2), (2, 3)] {
        expected[x + y * 3] = 5;
    }
    assert_eq!(buf, expected);
}

#[test]
fn reversed_line_reaches_both_ends() {
    let mut buf = vec![0u32; 25];
    draw_line_opaque(&mut buf, 5, 5, seg(4, 3, 0, 1), 2);
    assert_eq!(buf[4 + 3 * 5], 2);
    assert_eq!(buf[0 + 1 * 5], 2);
}

#[test]
fn rect_outline() {
    let mut buf = vec![0u32; 25];
    draw_rect(&mut buf, 5, 1, 1, 3, 3, 8);
    let mut expected = vec![0u32; 25];
    for (x, y) in [(1, 1), (2, 1), (1, 3), (2, 3), (1, 2), (3, 1), (3, 2)] {
        expected[x + y * 5] = 8;
    }
    assert_eq!(buf, expected);
}

#[test]
fn rgba_pixel_is_blended() {
    let mut buf = vec![rgb(0, 0, 0); 4];
    draw_rgba(&mut buf, 2, 1, 1, rgba(255, 0, 0, 128));
    assert_eq!(buf, vec![0, 0, 0, rgba_merge(0, rgba(255, 0, 0, 128))]);
    assert_eq!(buf[3], rgb(128, 0, 0));
}

#[test]
fn translucent_line_blends_each_pixel_once() {
    let red = rgba(255, 0, 0, 128);
    let mut buf = vec![rgb(0, 0, 0); 3];
    draw_line(&mut buf, 3, 1, seg(0, 0, 2, 0), red);
    assert_eq!(buf, vec![rgb(128, 0, 0); 3]);
    let mut one = vec![rgb(0, 0, 0); 3];
    draw_line(&mut one, 3, 1, seg(1, 0, 1, 0), red);
    assert_eq!(one, vec![0, rgb(128, 0, 0), 0]);
}

#[test]
fn opaque_white_line_over_black() {
    let mut buf = vec![rgb(0, 0, 0); 5];
    draw_line(&mut buf, 5, 1, seg(0, 0, 4, 0), rgba(255, 255, 255, 255));
    assert_eq!(buf, vec![rgb(255, 255, 255); 5]);
}

#[test]
fn line_leaving_frame_is_cut_at_edge() {
    let white = rgba(255, 255, 255, 255);
    let w = rgb(255, 255, 255);
    let mut a = vec![0u32; 9];
    draw_line(&mut a, 3, 3, seg(0, 0, 5, 0), white);
    assert_eq!(a, vec![w, w, w, 0, 0, 0, 0, 0, 0]);
    let mut b = vec![0u32; 9];
    draw_line(&mut b, 3, 3, seg(1, 1, 4, 4), white);
    assert_eq!(b, vec![0, 0, 0, 0, w, 0, 0, 0, w]);
    let mut c = vec![0u32; 9];
    draw_line(&mut c, 3, 3, seg(-2, 0, 2, 2), white);
    assert_eq!(c, vec![0, 0, 0, w, w, 0, 0, 0, w]);
}

#[test]
fn rect_outside_or_inverted_is_skipped() {
    let mut buf = vec![0u32; 9];
    draw_rect(&mut buf, 3, 1, 1, 5, 5, 4);
    assert_eq!(buf, vec![0, 0, 0, 0, 4, 4, 0, 4, 0]);
    let mut inv = vec![0u32; 9];
    draw_rect(&mut inv, 3, 2, 2, 1, 1, 4);
    assert_eq!(inv, vec![0u32; 9]);
}
