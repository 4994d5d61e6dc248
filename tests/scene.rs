use drawer::point::Point;
use drawer::scene::build_edges;
use drawer::segment::Segment;

#[test]
fn edges_join_points_by_index() {
    let pts = vec![Point::new(0, 0), Point::new(5, 0), Point::new(5, 5)];
    let segs = build_edges(&pts, &vec![(0, 1), (1, 2), (2, 0)]).unwrap();
    assert_eq!(
        segs,
        vec![
            Segment::new(pts[0], pts[1]),
            Segment::new(pts[1], pts[2]),
            Segment::new(pts[2], pts[0]),
        ]
    );
}

#[test]
fn edge_to_missing_point_is_refused() {
    let pts = vec![Point::new(0, 0), Point::new(5, 0)];
    assert_eq!(build_edges(&pts, &vec![(0, 1), (1, 2)]), None);
    assert_eq!(build_edges(&pts, &vec![]), Some(vec![]));
}
