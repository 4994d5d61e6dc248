use std::cmp::Ordering;
use drawer::point::{figure_size, isqrt, orient, Point};
use drawer::segment::Segment;

#[test]
fn vector_algebra() {
    let a = Point::new(3, -4);
    let b = Point::new(1, 2);
    assert_eq!(a.add(b), Point::new(4, -2));
    assert_eq!(a.sub(b), Point::new(2, -6));
    assert_eq!(a.scale(-2), Point::new(-6, 8));
    assert_eq!(a.dot(b), -5);
    assert_eq!(a.cross(b), 10);
    assert_eq!(a.norm_squared(), 25);
}

#[test]
fn extreme_products_do_not_overflow() {
    let m = Point::new(i32::MIN, i32::MIN);
    assert_eq!(m.dot(m), 1i128 << 63);
    assert_eq!(m.norm_squared(), 1u64 << 63);
}

#[test]
fn orientation_signs() {
    let p = Point::new(0, 0);
    let q = Point::new(1, 0);
    assert!(orient(p, q, Point::new(2, 1)) > 0);
    assert!(orient(p, q, Point::new(2, -1)) < 0);
    assert_eq!(orient(p, q, Point::new(2, 0)), 0);
}

#[test]
fn segment_length() {
    let s = Segment::new(Point::new(1, 1), Point::new(4, 5));
    assert_eq!(s.length_squared(), 25);
    let far = Segment::new(Point::new(i32::MIN, i32::MIN), Point::new(i32::MAX, i32::MAX));
    assert_eq!(far.length_squared(), 2 * (u32::MAX as u128) * (u32::MAX as u128));
}

#[test]
fn norms_round_down() {
    assert_eq!(Point::new(3, 4).norm(), 5);
    assert_eq!(Point::new(1, 1).norm(), 1);
    assert_eq!(Point::new(0, 0).norm(), 0);
    assert_eq!(Point::new(i32::MIN, i32::MIN).norm(), 3037000499);
    assert_eq!(Segment::new(Point::new(1, 1), Point::new(4, 5)).length(), 5);
    assert_eq!(Segment::new(Point::new(0, 0), Point::new(2, 2)).length(), 2);
}

#[test]
fn integer_square_root() {
    assert_eq!(isqrt(0), 0);
    assert_eq!(isqrt(15), 3);
    assert_eq!(isqrt(16), 4);
    assert_eq!(isqrt(u128::MAX), u64::MAX);
}

#[test]
fn bounding_box_of_points() {
    let pts = vec![Point::new(3, -1), Point::new(-2, 4), Point::new(0, 0)];
    assert_eq!(figure_size(&pts), (5, 5));
    assert_eq!(figure_size(&vec![Point::new(7, 7)]), (0, 0));
    assert_eq!(figure_size(&Vec::new()), (0, 0));
}

#[test]
fn division_rounds_towards_zero() {
    assert_eq!(Point::new(7, -7).divide(2), Point::new(3, -3));
    assert_eq!(Point::new(7, -7).divide(-2), Point::new(-3, 3));
    assert_eq!(Point::new(i32::MIN, 5).divide(1), Point::new(i32::MIN, 5));
    assert_eq!(Point::new(i32::MIN, 0).divide(-2), Point::new(1 << 30, 0));
}

#[test]
fn points_order_by_x_then_y() {
    let a = Point::new(1, 5);
    assert_eq!(a.partial_cmp(&Point::new(2, 0)), Some(Ordering::Less));
    assert_eq!(a.partial_cmp(&Point::new(1, 4)), Some(Ordering::Greater));
    assert_eq!(a.partial_cmp(&Point::new(1, 5)), Some(Ordering::Equal));
    assert!(Point::new(0, 9) < Point::new(1, -9));
    assert!(Point::new(3, 3) == Point::new(3, 3));
}
