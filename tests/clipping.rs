use drawer::clipping::{
    clip_line_copy, cohen_sutherland_segment_clip, liang_barsky_clipper, Acceptance,
};
use drawer::point::Point;
use drawer::segment::Segment;

fn seg(x0: i32, y0: i32, x1: i32, y1: i32) -> Segment {
    Segment::new(Point::new(x0, y0), Point::new(x1, y1))
}

#[test]
fn diagonal_is_clipped_to_viewport() {
    let mut a = seg(0, 0, 10, 10);
    assert_eq!(liang_barsky_clipper(&mut a, 2, 2, 8, 8), Acceptance::Clip);
    assert_eq!(a, seg(2, 2, 8, 8));
    let mut b = seg(0, 0, 10, 10);
    assert_eq!(cohen_sutherland_segment_clip(&mut b, 2, 2, 8, 8), Acceptance::Clip);
    assert_eq!(b, seg(2, 2, 8, 8));
}

#[test]
fn segment_left_of_viewport_is_rejected() {
    let mut a = seg(-5, 5, -1, 5);
    assert_eq!(liang_barsky_clipper(&mut a, 0, 0, 10, 10), Acceptance::Reject);
    assert_eq!(a, seg(-5, 5, -1, 5));
    let mut b = seg(-5, 5, -1, 5);
    assert_eq!(cohen_sutherland_segment_clip(&mut b, 0, 0, 10, 10), Acceptance::Reject);
    assert_eq!(b, seg(-5, 5, -1, 5));
}

#[test]
fn inside_segment_is_accepted_unchanged() {
    for s in [seg(1, 1, 9, 9), seg(0, 0, 10, 10), seg(3, 7, 3, 2), seg(5, 5, 5, 5)] {
        let mut a = s;
        assert_eq!(liang_barsky_clipper(&mut a, 0, 0, 10, 10), Acceptance::Accept);
        assert_eq!(a, s);
        let mut b = s;
        assert_eq!(cohen_sutherland_segment_clip(&mut b, 0, 0, 10, 10), Acceptance::Accept);
        assert_eq!(b, s);
    }
}

#[test]
fn one_side_outside_is_rejected_by_both() {
    for s in [seg(-5, 0, -1, 20), seg(11, -3, 30, 4), seg(0, -1, 10, -9), seg(2, 11, 8, 40)] {
        let mut a = s;
        assert_eq!(liang_barsky_clipper(&mut a, 0, 0, 10, 10), Acceptance::Reject);
        let mut b = s;
        assert_eq!(cohen_sutherland_segment_clip(&mut b, 0, 0, 10, 10), Acceptance::Reject);
    }
}

#[test]
fn accept_by_one_is_not_reject_by_other() {
    for s in [seg(0, 0, 10, 10), seg(-3, 4, 12, 6), seg(2, 2, 3, 3), seg(-20, -20, -10, 30)] {
        let mut a = s;
        let ra = liang_barsky_clipper(&mut a, 0, 0, 10, 10);
        let mut b = s;
        let rb = cohen_sutherland_segment_clip(&mut b, 0, 0, 10, 10);
        if ra == Acceptance::Accept {
            assert_ne!(rb, Acceptance::Reject);
        }
        if rb == Acceptance::Accept {
            assert_ne!(ra, Acceptance::Reject);
        }
    }
}

#[test]
fn clipping_twice_accepts() {
    for s in [seg(-5, 3, 15, 7), seg(0, -10, 10, 20), seg(-4, -4, 14, 14)] {
        let mut a = s;
        assert_eq!(liang_barsky_clipper(&mut a, 0, 0, 10, 10), Acceptance::Clip);
        let once = a;
        assert_eq!(liang_barsky_clipper(&mut a, 0, 0, 10, 10), Acceptance::Accept);
        assert_eq!(a, once);
        let mut b = s;
        assert_eq!(cohen_sutherland_segment_clip(&mut b, 0, 0, 10, 10), Acceptance::Clip);
        let once = b;
        assert_eq!(cohen_sutherland_segment_clip(&mut b, 0, 0, 10, 10), Acceptance::Accept);
        assert_eq!(b, once);
    }
}

#[test]
fn horizontal_segment_crossing_viewport() {
    let mut a = seg(-5, 5, 15, 5);
    assert_eq!(liang_barsky_clipper(&mut a, 0, 0, 10, 10), Acceptance::Clip);
    assert_eq!(a, seg(0, 5, 10, 5));
    let mut b = seg(-5, 5, 15, 5);
    assert_eq!(cohen_sutherland_segment_clip(&mut b, 0, 0, 10, 10), Acceptance::Clip);
    assert_eq!(b, seg(0, 5, 10, 5));
}

#[test]
fn clipped_ends_round_towards_start() {
    let mut a = seg(0, 0, 10, 3);
    assert_eq!(liang_barsky_clipper(&mut a, 0, 0, 5, 5), Acceptance::Clip);
    assert_eq!(a, seg(0, 0, 5, 1));
}

#[test]
fn corner_miss_is_rejected() {
    let mut a = seg(-6, 5, 5, 16);
    assert_eq!(liang_barsky_clipper(&mut a, 0, 0, 10, 10), Acceptance::Reject);
    assert_eq!(a, seg(-6, 5, 5, 16));
    let mut b = seg(-6, 5, 5, 16);
    assert_eq!(cohen_sutherland_segment_clip(&mut b, 0, 0, 10, 10), Acceptance::Reject);
    assert_eq!(b, seg(-6, 5, 5, 16));
}

#[test]
fn copy_leaves_input_untouched() {
    let s = seg(0, 0, 10, 10);
    let (t, r) = clip_line_copy(&s, 2, 2, 8, 8).unwrap();
    assert_eq!(r, Acceptance::Clip);
    assert_eq!(t, seg(2, 2, 8, 8));
    assert_eq!(s, seg(0, 0, 10, 10));
}

#[test]
fn corner_pass_is_rejected_by_region_codes() {
    let mut b = seg(-5, 8, 5, 20);
    assert_eq!(cohen_sutherland_segment_clip(&mut b, 0, 0, 10, 10), Acceptance::Reject);
    assert_eq!(b, seg(-5, 8, 5, 20));
}

#[test]
fn both_algorithms_give_the_same_cut() {
    for s in [
        seg(0, 0, 10, 3),
        seg(-7, 2, 13, 9),
        seg(12, -4, -3, 11),
        seg(5, -20, 6, 30),
        seg(-6, 5, 5, 16),
        seg(-1, -1, 11, 11),
        seg(3, 3, 20, 4),
    ] {
        let mut a = s;
        let ra = liang_barsky_clipper(&mut a, 0, 0, 5, 5);
        let mut b = s;
        let rb = cohen_sutherland_segment_clip(&mut b, 0, 0, 5, 5);
        assert_eq!(ra, rb);
        assert_eq!(a, b);
    }
}
