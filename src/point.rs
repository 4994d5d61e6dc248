//! Points and vectors with integer coordinates.
use std::cmp::Ordering;
use vstd::prelude::*;

verus! {

/// A point, or the vector from the origin to it.
#[derive(Clone, Copy, Debug, PartialEq, Eq, Structural)]
pub struct Point {
    pub x: i32,
    pub y: i32,
}

/// `v` lies between `a` and `b`, in either order.
pub open spec fn between(v: int, a: int, b: int) -> bool {
    a <= v <= b || b <= v <= a
}

/// True when `v` fits in an `i32`.
pub open spec fn fits_i32(v: int) -> bool {
    i32::MIN <= v <= i32::MAX
}

/// The scalar `z` of the cross product of `(ax, ay)` and `(bx, by)`.
pub open spec fn cross_spec(ax: int, ay: int, bx: int, by: int) -> int {
    ax * by - ay * bx
}

/// `a / b` rounded towards zero.
pub open spec fn quotient_toward_zero(a: int, b: int) -> int {
    if (a >= 0) == (b > 0) {
        abs(a) / abs(b)
    } else {
        -(abs(a) / abs(b))
    }
}

pub open spec fn abs(v: int) -> int {
    if v < 0 { -v } else { v }
}

fn div_toward_zero(a: i32, b: i32) -> (q: i32)
    requires
        b != 0,
        !(b == -1 && a == i32::MIN),
    ensures
        q == quotient_toward_zero(a as int, b as int),
{
    let ua: u64 = if a < 0 { (-(a as i64)) as u64 } else { a as u64 };
    let ub: u64 = if b < 0 { (-(b as i64)) as u64 } else { b as u64 };
    let m = ua / ub;
    assert(m <= ua) by {
        vstd::arithmetic::div_mod::lemma_div_is_ordered_by_denominator(ua as int, 1, ub as int);
    }
    if (a >= 0) == (b > 0) {
        assert(m <= i32::MAX) by {
            if ua > i32::MAX {
                assert(a == i32::MIN && ub >= 2);
                vstd::arithmetic::div_mod::lemma_div_is_ordered_by_denominator(ua as int, 2, ub as int);
            }
        }
        m as i32
    } else {
        (-(m as i64)) as i32
    }
}

impl Point {
    pub fn new(x: i32, y: i32) -> (p: Point)
        ensures
            p.x == x,
            p.y == y,
    {
        Point { x, y }
    }

    /// Componentwise sum.
    pub fn add(self, o: Point) -> (p: Point)
        requires
            fits_i32(self.x + o.x),
            fits_i32(self.y + o.y),
        ensures
            p.x == self.x + o.x,
            p.y == self.y + o.y,
    {
        Point { x: self.x + o.x, y: self.y + o.y }
    }

    /// Componentwise difference.
    pub fn sub(self, o: Point) -> (p: Point)
        requires
            fits_i32(self.x - o.x),
            fits_i32(self.y - o.y),
        ensures
            p.x == self.x - o.x,
            p.y == self.y - o.y,
    {
        Point { x: self.x - o.x, y: self.y - o.y }
    }

    /// Both coordinates multiplied by `k`.
    pub fn scale(self, k: i32) -> (p: Point)
        requires
            fits_i32(self.x * k),
            fits_i32(self.y * k),
        ensures
            p.x == self.x * k,
            p.y == self.y * k,
    {
        Point { x: self.x * k, y: self.y * k }
    }

    /// Both coordinates divided by `k`, rounded towards zero.
    pub fn divide(self, k: i32) -> (p: Point)
        requires
            k != 0,
            !(k == -1 && (self.x == i32::MIN || self.y == i32::MIN)),
        ensures
            p.x == quotient_toward_zero(self.x as int, k as int),
            p.y == quotient_toward_zero(self.y as int, k as int),
    {
        Point { x: div_toward_zero(self.x, k), y: div_toward_zero(self.y, k) }
    }

    /// Dot product.
    pub fn dot(self, o: Point) -> (r: i128)
        ensures
            r == self.x * o.x + self.y * o.y,
    {
        let (ax, ay, bx, by) = (self.x as i128, self.y as i128, o.x as i128, o.y as i128);
        assert(-0x4000_0000_0000_0000 <= ax * bx <= 0x4000_0000_0000_0000) by (nonlinear_arith)
            requires
                fits_i32(ax as int),
                fits_i32(bx as int),
        ;
        assert(-0x4000_0000_0000_0000 <= ay * by <= 0x4000_0000_0000_0000) by (nonlinear_arith)
            requires
                fits_i32(ay as int),
                fits_i32(by as int),
        ;
        ax * bx + ay * by
    }

    /// The scalar `z` of the 3D cross product of the two vectors.
    pub fn cross(self, o: Point) -> (r: i64)
        ensures
            r == cross_spec(self.x as int, self.y as int, o.x as int, o.y as int),
    {
        let (ax, ay, bx, by) = (self.x as i64, self.y as i64, o.x as i64, o.y as i64);
        assert(-0x4000_0000_0000_0000 <= ax * by <= 0x4000_0000_0000_0000) by (nonlinear_arith)
            requires
                fits_i32(ax as int),
                fits_i32(by as int),
        ;
        assert(-0x4000_0000_0000_0000 <= ay * bx <= 0x4000_0000_0000_0000) by (nonlinear_arith)
            requires
                fits_i32(ay as int),
                fits_i32(bx as int),
        ;
        assert(-0x7fff_ffff_ffff_ffff <= ax * by - ay * bx < 0x7fff_ffff_ffff_ffff)
            by (nonlinear_arith)
            requires
                fits_i32(ax as int),
                fits_i32(bx as int),
                fits_i32(ay as int),
                fits_i32(by as int),
        ;
        ax * by - ay * bx
    }

    /// Euclidean norm, rounded down to an integer.
    pub fn norm(self) -> (r: u64)
        ensures
            r * r <= self.x * self.x + self.y * self.y < (r + 1) * (r + 1),
    {
        isqrt(self.norm_squared() as u128)
    }

    /// Squared Euclidean norm.
    pub fn norm_squared(self) -> (r: u64)
        ensures
            r == self.x * self.x + self.y * self.y,
    {
        let (x, y) = (self.x as i64, self.y as i64);
        assert(0 <= x * x <= 0x4000_0000_0000_0000) by (nonlinear_arith)
            requires
                fits_i32(x as int),
        ;
        assert(0 <= y * y <= 0x4000_0000_0000_0000) by (nonlinear_arith)
            requires
                fits_i32(y as int),
        ;
        (x * x) as u64 + (y * y) as u64
    }
}

/// Turn direction of `p`, `q`, `r`: the cross product of `q - p` and `r - q`;
/// positive for a left turn, negative for a right turn, zero when collinear.
pub fn orient(p: Point, q: Point, r: Point) -> (o: i64)
    requires
        fits_i32(q.x - p.x),
        fits_i32(q.y - p.y),
        fits_i32(r.x - q.x),
        fits_i32(r.y - q.y),
    ensures
        o == cross_spec(q.x - p.x, q.y - p.y, r.x - q.x, r.y - q.y),
{
    q.sub(p).cross(r.sub(q))
}

/// The integer square root of `n`, rounded down.
pub fn isqrt(n: u128) -> (r: u64)
    ensures
        r * r <= n < (r + 1) * (r + 1),
{
    let mut lo: u128 = 0;
    let mut hi: u128 = 0x1_0000_0000_0000_0000;
    assert(n < hi * hi) by (nonlinear_arith)
        requires
            n <= u128::MAX,
            hi == 0x1_0000_0000_0000_0000u128,
    ;
    while hi - lo > 1
        invariant
            lo < hi <= 0x1_0000_0000_0000_0000,
            lo * lo <= n < hi * hi,
        decreases hi - lo,
    {
        let mid = lo + (hi - lo) / 2;
        assert(lo < mid < hi);
        assert(mid * mid <= 0xffff_ffff_ffff_ffff * 0xffff_ffff_ffff_ffff) by (nonlinear_arith)
            requires
                mid <= 0xffff_ffff_ffff_ffff,
        ;
        if mid * mid <= n {
            lo = mid;
        } else {
            hi = mid;
        }
    }
    assert(lo < 0x1_0000_0000_0000_0000);
    lo as u64
}

/// Lexicographic order on `(x, y)`.
pub open spec fn lex_order(a: Point, b: Point) -> Ordering {
    if a.x < b.x {
        Ordering::Less
    } else if a.x > b.x {
        Ordering::Greater
    } else if a.y < b.y {
        Ordering::Less
    } else if a.y > b.y {
        Ordering::Greater
    } else {
        Ordering::Equal
    }
}

impl PartialOrd for Point {
    fn partial_cmp(&self, other: &Point) -> (r: Option<Ordering>)
        ensures
            r == Some(lex_order(*self, *other)),
    {
        if self.x < other.x {
            Some(Ordering::Less)
        } else if self.x > other.x {
            Some(Ordering::Greater)
        } else if self.y < other.y {
            Some(Ordering::Less)
        } else if self.y > other.y {
            Some(Ordering::Greater)
        } else {
            Some(Ordering::Equal)
        }
    }
}

impl vstd::std_specs::cmp::PartialOrdSpecImpl for Point {
    open spec fn obeys_partial_cmp_spec() -> bool {
        true
    }

    open spec fn partial_cmp_spec(&self, other: &Point) -> Option<Ordering> {
        Some(lex_order(*self, *other))
    }
}

/// `pts[i].x` is the largest and `pts[j].x` the smallest x of `pts`.
pub open spec fn x_extremes(pts: Seq<Point>, i: int, j: int) -> bool {
    0 <= i < pts.len() && 0 <= j < pts.len() && forall|k: int|
        0 <= k < pts.len() ==> pts[j].x <= #[trigger] pts[k].x <= pts[i].x
}

/// `pts[i].y` is the largest and `pts[j].y` the smallest y of `pts`.
pub open spec fn y_extremes(pts: Seq<Point>, i: int, j: int) -> bool {
    0 <= i < pts.len() && 0 <= j < pts.len() && forall|k: int|
        0 <= k < pts.len() ==> pts[j].y <= #[trigger] pts[k].y <= pts[i].y
}

/// Width and height of the bounding box of `points`; `(0, 0)` for none.
pub fn figure_size(points: &Vec<Point>) -> (r: (i64, i64))
    ensures
        points@.len() == 0 ==> r == (0i64, 0i64),
        points@.len() > 0 ==> exists|i: int, j: int|
            x_extremes(points@, i, j) && r.0 == points@[i].x - points@[j].x,
        points@.len() > 0 ==> exists|i: int, j: int|
            y_extremes(points@, i, j) && r.1 == points@[i].y - points@[j].y,
{
    if points.len() == 0 {
        return (0, 0);
    }
    let (mut max_x, mut min_x, mut max_y, mut min_y) = (0usize, 0usize, 0usize, 0usize);
    let mut k: usize = 1;
    while k < points.len()
        invariant
            1 <= k <= points@.len(),
            max_x < k && min_x < k && max_y < k && min_y < k,
            forall|m: int|
                0 <= m < k ==> points@[min_x as int].x <= #[trigger] points@[m].x <= points@[max_x as int].x,
            forall|m: int|
                0 <= m < k ==> points@[min_y as int].y <= #[trigger] points@[m].y <= points@[max_y as int].y,
        decreases points@.len() - k,
    {
        let p = points[k];
        if p.x > points[max_x].x {
            max_x = k;
        }
        if p.x < points[min_x].x {
            min_x = k;
        }
        if p.y > points[max_y].y {
            max_y = k;
        }
        if p.y < points[min_y].y {
            min_y = k;
        }
        k = k + 1;
    }
    assert(x_extremes(points@, max_x as int, min_x as int));
    assert(y_extremes(points@, max_y as int, min_y as int));
    (
        points[max_x].x as i64 - points[min_x].x as i64,
        points[max_y].y as i64 - points[min_y].y as i64,
    )
}

} // verus!
