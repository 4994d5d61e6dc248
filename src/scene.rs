//! Scenes: a list of points and edges that join two of them by index.
use vstd::prelude::*;
use crate::point::Point;
use crate::segment::Segment;

verus! {

/// Every edge names two points that exist.
pub open spec fn edges_valid(points: Seq<Point>, edges: Seq<(usize, usize)>) -> bool {
    forall|i: int|
        0 <= i < edges.len() ==> (#[trigger] edges[i]).0 < points.len() && edges[i].1
            < points.len()
}

/// Builds the segment of each edge, in order; `None` when an edge names a
/// point that does not exist.
pub fn build_edges(points: &Vec<Point>, edges: &Vec<(usize, usize)>) -> (r: Option<Vec<Segment>>)
    ensures
        r is Some <==> edges_valid(points@, edges@),
        r is Some ==> r.unwrap()@.len() == edges@.len() && forall|i: int|
            0 <= i < edges@.len() ==> (#[trigger] r.unwrap()@[i]).p0 == points@[edges@[i].0 as int]
                && r.unwrap()@[i].p1 == points@[edges@[i].1 as int],
{
    let mut out: Vec<Segment> = Vec::new();
    let mut k: usize = 0;
    while k < edges.len()
        invariant
            k <= edges@.len(),
            out@.len() == k,
            edges_valid(points@, edges@.subrange(0, k as int)),
            forall|i: int|
                0 <= i < k ==> (#[trigger] out@[i]).p0 == points@[edges@[i].0 as int] && out@[i].p1
                    == points@[edges@[i].1 as int],
        decreases edges@.len() - k,
    {
        let (u, v) = edges[k];
        if u >= points.len() || v >= points.len() {
            assert(edges@.subrange(0, k as int + 1)[k as int] == edges@[k as int]);
            assert(!edges_valid(points@, edges@)) by {
                assert(edges@[k as int] == (u, v));
            }
            return None;
        }
        out.push(Segment::new(points[u], points[v]));
        k = k + 1;
        assert forall|i: int| 0 <= i < k implies (#[trigger] edges@.subrange(0, k as int)[i]).0
            < points@.len() && edges@.subrange(0, k as int)[i].1 < points@.len() by {
            if i < k - 1 {
                assert(edges@.subrange(0, k as int)[i] == edges@.subrange(0, k - 1)[i]);
            }
        }
    }
    assert(edges@.subrange(0, k as int) == edges@);
    Some(out)
}

} // verus!
