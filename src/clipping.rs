//! Clipping segments against an axis-aligned viewport
//! `[xmin, xmax] x [ymin, ymax]`.
//!
//! Coordinates are integers. Where a segment is cut, the new endpoint is the
//! exact intersection with its offset from the base point rounded towards
//! zero, which keeps it within every integer range that holds the exact
//! point.
use vstd::prelude::*;
use vstd::arithmetic::div_mod::lemma_fundamental_div_mod;
use crate::point::Point;
use crate::point::between;
use crate::segment::Segment;

verus! {

pub const INSIDE: u8 = 0;
pub const LEFT: u8 = 1;
pub const RIGHT: u8 = 2;
pub const BOTTOM: u8 = 4;
pub const TOP: u8 = 8;

/// How a segment relates to the viewport.
#[derive(Clone, Copy, Debug, PartialEq, Eq, Structural)]
pub enum Acceptance {
    /// Wholly inside; left as it was.
    Accept,
    /// Wholly outside.
    Reject,
    /// Partly inside; cut down to the visible part.
    Clip,
}

pub open spec fn point_inside(p: Point, xmin: int, ymin: int, xmax: int, ymax: int) -> bool {
    xmin <= p.x <= xmax && ymin <= p.y <= ymax
}

pub open spec fn segment_inside(s: Segment, xmin: int, ymin: int, xmax: int, ymax: int) -> bool {
    point_inside(s.p0, xmin, ymin, xmax, ymax) && point_inside(s.p1, xmin, ymin, xmax, ymax)
}

/// Both endpoints lie beyond the same edge of the viewport.
pub open spec fn beyond_one_edge(s: Segment, xmin: int, ymin: int, xmax: int, ymax: int) -> bool {
    ||| s.p0.x < xmin && s.p1.x < xmin
    ||| s.p0.x > xmax && s.p1.x > xmax
    ||| s.p0.y < ymin && s.p1.y < ymin
    ||| s.p0.y > ymax && s.p1.y > ymax
}

/// What both clipping algorithms promise when `s` is clipped against the
/// viewport with result `r`, leaving `t` in its place: it is accepted
/// exactly when both ends are inside; it is left as it was unless clipped;
/// it is rejected when both ends lie beyond one edge; and a clipped segment
/// lies inside the viewport, its ends within the bounding box of `s`.
pub open spec fn clip_outcome(
    s: Segment,
    xmin: int,
    ymin: int,
    xmax: int,
    ymax: int,
    r: Acceptance,
    t: Segment,
) -> bool {
    &&& (r == Acceptance::Accept) == segment_inside(s, xmin, ymin, xmax, ymax)
    &&& r != Acceptance::Clip ==> t == s
    &&& beyond_one_edge(s, xmin, ymin, xmax, ymax) ==> r == Acceptance::Reject
    &&& r == Acceptance::Clip ==> segment_inside(t, xmin, ymin, xmax, ymax) && within_box(t, s)
}

/// The point at parameter `n / d` in `[0, 1]` of `s` (from `p0` to `p1`)
/// lies in the viewport, in exact arithmetic.
pub open spec fn visible_at(
    s: Segment,
    xmin: int,
    ymin: int,
    xmax: int,
    ymax: int,
    n: int,
    d: int,
) -> bool {
    &&& 0 <= n <= d
    &&& 0 < d
    &&& xmin * d <= s.p0.x * d + (s.p1.x - s.p0.x) * n <= xmax * d
    &&& ymin * d <= s.p0.y * d + (s.p1.y - s.p0.y) * n <= ymax * d
}

/// Some point of `s` lies in the viewport.
pub open spec fn meets(s: Segment, xmin: int, ymin: int, xmax: int, ymax: int) -> bool {
    exists|n: int, d: int| visible_at(s, xmin, ymin, xmax, ymax, n, d)
}

/// `n / d` is the smallest parameter at which `s` is visible.
pub open spec fn first_visible(
    s: Segment,
    xmin: int,
    ymin: int,
    xmax: int,
    ymax: int,
    n: int,
    d: int,
) -> bool {
    &&& visible_at(s, xmin, ymin, xmax, ymax, n, d)
    &&& forall|m: int, e: int| #[trigger]
        visible_at(s, xmin, ymin, xmax, ymax, m, e) ==> n * e <= m * d
}

/// `n / d` is the largest parameter at which `s` is visible.
pub open spec fn last_visible(
    s: Segment,
    xmin: int,
    ymin: int,
    xmax: int,
    ymax: int,
    n: int,
    d: int,
) -> bool {
    &&& visible_at(s, xmin, ymin, xmax, ymax, n, d)
    &&& forall|m: int, e: int| #[trigger]
        visible_at(s, xmin, ymin, xmax, ymax, m, e) ==> m * d <= n * e
}

/// `p` is the point of `s` at parameter `n / d`, rounded as `lerp` does.
pub open spec fn rounded_at(s: Segment, n: int, d: int, p: Point) -> bool {
    &&& p.x == lerp(s.p0.x as int, s.p1.x as int, n, d)
    &&& p.y == lerp(s.p0.y as int, s.p1.y as int, n, d)
}

/// The clipped segment runs from the first to the last visible point of `s`.
pub open spec fn cut_to_visible(
    s: Segment,
    xmin: int,
    ymin: int,
    xmax: int,
    ymax: int,
    t: Segment,
) -> bool {
    &&& exists|n: int, d: int|
        first_visible(s, xmin, ymin, xmax, ymax, n, d) && rounded_at(s, n, d, t.p0)
    &&& exists|n: int, d: int|
        last_visible(s, xmin, ymin, xmax, ymax, n, d) && rounded_at(s, n, d, t.p1)
}

/// Both endpoints of `t` lie in the bounding box of `s`.
pub open spec fn within_box(t: Segment, s: Segment) -> bool {
    &&& between(t.p0.x as int, s.p0.x as int, s.p1.x as int)
    &&& between(t.p0.y as int, s.p0.y as int, s.p1.y as int)
    &&& between(t.p1.x as int, s.p0.x as int, s.p1.x as int)
    &&& between(t.p1.y as int, s.p0.y as int, s.p1.y as int)
}

/// The point at `n / d` of the way from `a0` to `a1`, its offset from `a0`
/// rounded towards zero; `0 <= n <= d`.
pub open spec fn lerp(a0: int, a1: int, n: int, d: int) -> int {
    if a1 >= a0 {
        a0 + (a1 - a0) * n / d
    } else {
        a0 - (a0 - a1) * n / d
    }
}

proof fn lemma_div_bounds(k: int, m: int, d: int)
    requires
        d > 0,
    ensures
        k * d <= m ==> k <= m / d,
        m <= k * d ==> m / d <= k,
{
    lemma_fundamental_div_mod(m, d);
    let q = m / d;
    let r = m % d;
    assert(0 <= r < d) by {
        vstd::arithmetic::div_mod::lemma_mod_bound(m, d);
    }
    if k * d <= m {
        assert(k <= q) by (nonlinear_arith)
            requires
                k * d <= m,
                m == d * q + r,
                0 <= r < d,
        ;
    }
    if m <= k * d {
        assert(q <= k) by (nonlinear_arith)
            requires
                m <= k * d,
                m == d * q + r,
                0 <= r < d,
        ;
    }
}

/// If the exact point at `n / d` lies in `[lo, hi]`, so does the rounded one.
proof fn lemma_lerp_range(a0: int, a1: int, n: int, d: int, lo: int, hi: int)
    requires
        0 <= n <= d,
        d > 0,
        lo * d <= a0 * d + (a1 - a0) * n <= hi * d,
    ensures
        lo <= lerp(a0, a1, n, d) <= hi,
        between(lerp(a0, a1, n, d), a0, a1),
{
    if a1 >= a0 {
        let m = (a1 - a0) * n;
        assert((lo - a0) * d <= m <= (hi - a0) * d) by (nonlinear_arith)
            requires
                lo * d <= a0 * d + (a1 - a0) * n <= hi * d,
                m == (a1 - a0) * n,
        ;
        lemma_div_bounds(lo - a0, m, d);
        lemma_div_bounds(hi - a0, m, d);
        assert(0 <= m <= (a1 - a0) * d) by (nonlinear_arith)
            requires
                m == (a1 - a0) * n,
                a1 >= a0,
                0 <= n <= d,
        ;
        lemma_div_bounds(0, m, d);
        lemma_div_bounds(a1 - a0, m, d);
    } else {
        let m = (a0 - a1) * n;
        assert((a0 - hi) * d <= m <= (a0 - lo) * d) by (nonlinear_arith)
            requires
                lo * d <= a0 * d + (a1 - a0) * n <= hi * d,
                m == (a0 - a1) * n,
        ;
        lemma_div_bounds(a0 - hi, m, d);
        lemma_div_bounds(a0 - lo, m, d);
        assert(0 <= m <= (a0 - a1) * d) by (nonlinear_arith)
            requires
                m == (a0 - a1) * n,
                a1 < a0,
                0 <= n <= d,
        ;
        lemma_div_bounds(0, m, d);
        lemma_div_bounds(a0 - a1, m, d);
    }
}

/// The point at `n / d` of the way from `a0` to `a1`, rounded towards `a0`.
fn interpolate(a0: i32, a1: i32, n: i64, d: i64) -> (r: i32)
    requires
        0 <= n <= d <= 0xffff_ffff,
        d > 0,
    ensures
        r == lerp(a0 as int, a1 as int, n as int, d as int),
        between(r as int, a0 as int, a1 as int),
{
    let span: u64 = if a1 >= a0 {
        (a1 as i64 - a0 as i64) as u64
    } else {
        (a0 as i64 - a1 as i64) as u64
    };
    assert(span * n <= 0xffff_ffff * 0xffff_ffff) by (nonlinear_arith)
        requires
            span <= 0xffff_ffff,
            0 <= n <= 0xffff_ffff,
    ;
    let off = span * (n as u64) / (d as u64);
    proof {
        assert(span * n <= span * d) by (nonlinear_arith)
            requires
                0 <= n <= d,
                0 <= span,
        ;
        lemma_div_bounds(span as int, span * n, d as int);
        lemma_div_bounds(0, span * n, d as int);
    }
    if a1 >= a0 {
        (a0 as i64 + off as i64) as i32
    } else {
        (a0 as i64 - off as i64) as i32
    }
}

/// A parameter along a segment, `num / den` with `den > 0`.
#[derive(Clone, Copy)]
struct Ratio {
    num: i64,
    den: i64,
}

spec fn small(r: Ratio) -> bool {
    -0xffff_ffff <= r.num <= 0xffff_ffff && 0 < r.den <= 0xffff_ffff
}

spec fn le(a: Ratio, b: Ratio) -> bool {
    a.num * b.den <= b.num * a.den
}

/// The exact point at parameter `t` from `a0` to `a1` lies in `[lo, hi]`.
spec fn fits(a0: int, a1: int, lo: int, hi: int, t: Ratio) -> bool {
    lo * t.den <= a0 * t.den + (a1 - a0) * t.num <= hi * t.den
}

/// The parameters at which a segment running from `a0` to `a1` (not equal)
/// enters and leaves the slab `[lo, hi]`.
spec fn limits_of(a0: int, a1: int, lo: int, hi: int, e: Ratio, l: Ratio) -> bool {
    &&& a1 > a0 ==> e.num == lo - a0 && l.num == hi - a0 && e.den == a1 - a0 && l.den == a1 - a0
    &&& a1 < a0 ==> e.num == a0 - hi && l.num == a0 - lo && e.den == a0 - a1 && l.den == a0 - a1
}

proof fn lemma_le_trans(a: Ratio, b: Ratio, c: Ratio)
    requires
        a.den > 0,
        b.den > 0,
        c.den > 0,
        le(a, b),
        le(b, c),
    ensures
        le(a, c),
{
    assert(a.num * c.den <= c.num * a.den) by (nonlinear_arith)
        requires
            a.den > 0,
            b.den > 0,
            c.den > 0,
            a.num * b.den <= b.num * a.den,
            b.num * c.den <= c.num * b.den,
    {
        assert(a.num * b.den * c.den <= b.num * a.den * c.den);
        assert(b.num * c.den * a.den <= c.num * b.den * a.den);
    }
}

proof fn lemma_limits(a0: int, a1: int, lo: int, hi: int, e: Ratio, l: Ratio, t: Ratio)
    requires
        a0 != a1,
        t.den > 0,
        limits_of(a0, a1, lo, hi, e, l),
    ensures
        fits(a0, a1, lo, hi, t) <==> le(e, t) && le(t, l),
{
    if a1 > a0 {
        assert(fits(a0, a1, lo, hi, t) <==> le(e, t) && le(t, l)) by (nonlinear_arith)
            requires
                e.num == lo - a0,
                l.num == hi - a0,
                e.den == a1 - a0,
                l.den == a1 - a0,
        ;
    } else {
        assert(fits(a0, a1, lo, hi, t) <==> le(e, t) && le(t, l)) by (nonlinear_arith)
            requires
                e.num == a0 - hi,
                l.num == a0 - lo,
                e.den == a0 - a1,
                l.den == a0 - a1,
        ;
    }
}

proof fn lemma_scaled_range(lo: int, v: int, hi: int, d: int)
    requires
        d > 0,
        lo * d <= v * d <= hi * d,
    ensures
        lo <= v <= hi,
{
    assert(lo <= v <= hi) by (nonlinear_arith)
        requires
            d > 0,
            lo * d <= v * d <= hi * d,
    ;
}

/// A parameter `n / d` at which the segment lies in the slab is no smaller
/// than the entering one and no larger than the leaving one.
proof fn lemma_limits_bound(a0: int, a1: int, lo: int, hi: int, e: Ratio, l: Ratio, n: int, d: int)
    requires
        a0 != a1,
        d > 0,
        limits_of(a0, a1, lo, hi, e, l),
        lo * d <= a0 * d + (a1 - a0) * n <= hi * d,
    ensures
        e.num * d <= n * e.den,
        n * l.den <= l.num * d,
{
    if a1 > a0 {
        assert(e.num * d <= n * e.den && n * l.den <= l.num * d) by (nonlinear_arith)
            requires
                e.num == lo - a0,
                l.num == hi - a0,
                e.den == a1 - a0,
                l.den == a1 - a0,
                lo * d <= a0 * d + (a1 - a0) * n <= hi * d,
        ;
    } else {
        assert(e.num * d <= n * e.den && n * l.den <= l.num * d) by (nonlinear_arith)
            requires
                e.num == a0 - hi,
                l.num == a0 - lo,
                e.den == a0 - a1,
                l.den == a0 - a1,
                lo * d <= a0 * d + (a1 - a0) * n <= hi * d,
        ;
    }
}

/// Every parameter at which the segment is visible lies between the
/// largest entering parameter and the smallest leaving one.
proof fn lemma_visible_within_limits(
    s: Segment,
    lox: int,
    loy: int,
    hix: int,
    hiy: int,
    enter: Ratio,
    leave: Ratio,
    ex: Ratio,
    lx: Ratio,
    ey: Ratio,
    ly: Ratio,
    n: int,
    d: int,
)
    requires
        ({
            let (xa, xb, ya, yb) = (s.p0.x as int, s.p1.x as int, s.p0.y as int, s.p1.y as int);
            &&& xa != xb ==> limits_of(xa, xb, lox, hix, ex, lx)
            &&& ya != yb ==> limits_of(ya, yb, loy, hiy, ey, ly)
            &&& (enter.num == 0 && enter.den == 1) || (xa != xb && enter == ex) || (ya != yb && enter
                == ey)
            &&& (leave.num == 1 && leave.den == 1) || (xa != xb && leave == lx) || (ya != yb && leave
                == ly)
        }),
        visible_at(s, lox, loy, hix, hiy, n, d),
    ensures
        enter.num * d <= n * enter.den,
        n * leave.den <= leave.num * d,
{
    let (xa, xb, ya, yb) = (s.p0.x as int, s.p1.x as int, s.p0.y as int, s.p1.y as int);
    if xa != xb {
        lemma_limits_bound(xa, xb, lox, hix, ex, lx, n, d);
    }
    if ya != yb {
        lemma_limits_bound(ya, yb, loy, hiy, ey, ly, n, d);
    }
}

/// Where the largest entering parameter exceeds the smallest leaving one,
/// no point of the segment lies in the viewport.
proof fn lemma_crossed_limits_miss(
    s: Segment,
    lox: int,
    loy: int,
    hix: int,
    hiy: int,
    enter: Ratio,
    leave: Ratio,
    ex: Ratio,
    lx: Ratio,
    ey: Ratio,
    ly: Ratio,
)
    requires
        ({
            let (xa, xb, ya, yb) = (s.p0.x as int, s.p1.x as int, s.p0.y as int, s.p1.y as int);
            &&& xa != xb ==> limits_of(xa, xb, lox, hix, ex, lx)
            &&& ya != yb ==> limits_of(ya, yb, loy, hiy, ey, ly)
            &&& (enter.num == 0 && enter.den == 1) || (xa != xb && enter == ex) || (ya != yb && enter
                == ey)
            &&& (leave.num == 1 && leave.den == 1) || (xa != xb && leave == lx) || (ya != yb && leave
                == ly)
        }),
        enter.den > 0,
        leave.den > 0,
        !le(enter, leave),
    ensures
        !meets(s, lox, loy, hix, hiy),
{
    assert forall|n: int, d: int| !visible_at(s, lox, loy, hix, hiy, n, d) by {
        if visible_at(s, lox, loy, hix, hiy, n, d) {
            lemma_visible_within_limits(s, lox, loy, hix, hiy, enter, leave, ex, lx, ey, ly, n, d);
            assert(enter.num * leave.den <= leave.num * enter.den) by (nonlinear_arith)
                requires
                    enter.num * d <= n * enter.den,
                    n * leave.den <= leave.num * d,
                    d > 0,
                    enter.den > 0,
                    leave.den > 0,
            {
                assert(enter.num * d * leave.den <= n * enter.den * leave.den);
                assert(n * leave.den * enter.den <= leave.num * d * enter.den);
            }
        }
    }
}

/// Fitting at parameter 0 puts the start in the slab; at 1, the end.
proof fn lemma_fits_ends(a0: int, a1: int, lo: int, hi: int, t: Ratio)
    requires
        t.den > 0,
        fits(a0, a1, lo, hi, t),
    ensures
        t.num == 0 ==> lo <= a0 <= hi,
        t.num == t.den ==> lo <= a1 <= hi,
{
    let d = t.den as int;
    if t.num == 0 {
        assert((a1 - a0) * t.num == 0);
        lemma_scaled_range(lo, a0, hi, d);
    }
    if t.num == t.den {
        assert(a0 * d + (a1 - a0) * d == a1 * d) by (nonlinear_arith);
        lemma_scaled_range(lo, a1, hi, d);
    }
}

/// A segment parallel to the slab and within it fits at every parameter.
proof fn lemma_parallel(a0: int, lo: int, hi: int, t: Ratio)
    requires
        lo <= a0 <= hi,
        t.den > 0,
    ensures
        fits(a0, a0, lo, hi, t),
{
    assert(lo * t.den <= a0 * t.den <= hi * t.den) by (nonlinear_arith)
        requires
            lo <= a0 <= hi,
            t.den > 0,
    ;
}

/// Where both ends lie below `lo` (or above `hi`), no parameter in `[0, 1]` fits.
proof fn lemma_outside(a0: int, a1: int, lo: int, hi: int, t: Ratio)
    requires
        0 <= t.num <= t.den,
        t.den > 0,
        fits(a0, a1, lo, hi, t),
    ensures
        !(a0 < lo && a1 < lo),
        !(a0 > hi && a1 > hi),
{
    let (n, d) = (t.num as int, t.den as int);
    assert(a0 * d + (a1 - a0) * n == a0 * (d - n) + a1 * n) by (nonlinear_arith);
    if a0 < lo && a1 < lo {
        assert(a0 * (d - n) + a1 * n < lo * d) by (nonlinear_arith)
            requires
                a0 < lo,
                a1 < lo,
                0 <= n <= d,
                d > 0,
        ;
    }
    if a0 > hi && a1 > hi {
        assert(a0 * (d - n) + a1 * n > hi * d) by (nonlinear_arith)
            requires
                a0 > hi,
                a1 > hi,
                0 <= n <= d,
                d > 0,
        ;
    }
}

fn ratio_le(a: Ratio, b: Ratio) -> (r: bool)
    requires
        small(a),
        small(b),
    ensures
        r == le(a, b),
{
    assert(-0x1_0000_0000_0000_0000 <= a.num * b.den <= 0x1_0000_0000_0000_0000) by (nonlinear_arith)
        requires
            small(a),
            small(b),
    ;
    assert(-0x1_0000_0000_0000_0000 <= b.num * a.den <= 0x1_0000_0000_0000_0000) by (nonlinear_arith)
        requires
            small(a),
            small(b),
    ;
    (a.num as i128) * (b.den as i128) <= (b.num as i128) * (a.den as i128)
}

fn ratio_max(a: Ratio, b: Ratio) -> (r: Ratio)
    requires
        small(a),
        small(b),
    ensures
        r == a || r == b,
        le(a, r),
        le(b, r),
{
    if ratio_le(a, b) {
        b
    } else {
        a
    }
}

fn ratio_min(a: Ratio, b: Ratio) -> (r: Ratio)
    requires
        small(a),
        small(b),
    ensures
        r == a || r == b,
        le(r, a),
        le(r, b),
{
    if ratio_le(a, b) {
        a
    } else {
        b
    }
}

/// The entering and leaving parameters of a segment running from `a0` to
/// `a1` against the slab `[lo, hi]`.
fn slab_limits(a0: i32, a1: i32, lo: i32, hi: i32) -> (r: (Ratio, Ratio))
    requires
        a0 != a1,
    ensures
        limits_of(a0 as int, a1 as int, lo as int, hi as int, r.0, r.1),
        small(r.0),
        small(r.1),
{
    let (a0, a1, lo, hi) = (a0 as i64, a1 as i64, lo as i64, hi as i64);
    if a1 > a0 {
        (Ratio { num: lo - a0, den: a1 - a0 }, Ratio { num: hi - a0, den: a1 - a0 })
    } else {
        (Ratio { num: a0 - hi, den: a0 - a1 }, Ratio { num: a0 - lo, den: a0 - a1 })
    }
}

/// Parametric (Liang-Barsky) clipping: cuts `segment` in place down to the
/// part inside the viewport and says how it related to it.
///
/// A segment with both ends inside is accepted and left alone. Otherwise
/// the segment `p0 + t * (p1 - p0)` is rejected, untouched, when no `t` in
/// `[0, 1]` puts it inside; else its ends move to the smallest and the
/// largest such `t`.
#[verifier::rlimit(40)]
pub fn liang_barsky_clipper(
    segment: &mut Segment,
    xmin: i32,
    ymin: i32,
    xmax: i32,
    ymax: i32,
) -> (r: Acceptance)
    requires
        xmin <= xmax,
        ymin <= ymax,
    ensures
        clip_outcome(
            *old(segment),
            xmin as int,
            ymin as int,
            xmax as int,
            ymax as int,
            r,
            *final(segment),
        ),
        r == Acceptance::Clip ==> cut_to_visible(
            *old(segment),
            xmin as int,
            ymin as int,
            xmax as int,
            ymax as int,
            *final(segment),
        ),
        (r == Acceptance::Reject) == !meets(
            *old(segment),
            xmin as int,
            ymin as int,
            xmax as int,
            ymax as int,
        ),
{
    let (x1, y1, x2, y2) = (segment.p0.x, segment.p0.y, segment.p1.x, segment.p1.y);
    if (x1 == x2 && (x1 < xmin || x1 > xmax)) || (y1 == y2 && (y1 < ymin || y1 > ymax)) {
        proof {
            let s0 = *old(segment);
            assert forall|n: int, d: int|
                !visible_at(s0, xmin as int, ymin as int, xmax as int, ymax as int, n, d) by {
                if visible_at(s0, xmin as int, ymin as int, xmax as int, ymax as int, n, d) {
                    if x1 == x2 && (x1 < xmin || x1 > xmax) {
                        assert((x2 - x1) * n == 0);
                        lemma_scaled_range(xmin as int, x1 as int, xmax as int, d);
                    } else {
                        assert((y2 - y1) * n == 0);
                        lemma_scaled_range(ymin as int, y1 as int, ymax as int, d);
                    }
                }
            }
        }
        return Acceptance::Reject;
    }
    let mut enter = Ratio { num: 0, den: 1 };
    let mut leave = Ratio { num: 1, den: 1 };
    let ghost mut ex = enter;
    let ghost mut lx = leave;
    let ghost mut ey = enter;
    let ghost mut ly = leave;
    if x1 != x2 {
        let (e, l) = slab_limits(x1, x2, xmin, xmax);
        proof {
            ex = e;
            lx = l;
        }
        enter = ratio_max(enter, e);
        leave = ratio_min(leave, l);
    }
    let ghost enter_x = enter;
    let ghost leave_x = leave;
    if y1 != y2 {
        let (e, l) = slab_limits(y1, y2, ymin, ymax);
        proof {
            ey = e;
            ly = l;
        }
        enter = ratio_max(enter, e);
        leave = ratio_min(leave, l);
    }
    let ghost zero = Ratio { num: 0, den: 1 };
    let ghost one = Ratio { num: 1, den: 1 };
    let ghost (xa, xb, ya, yb) = (x1 as int, x2 as int, y1 as int, y2 as int);
    let ghost (lox, hix, loy, hiy) = (xmin as int, xmax as int, ymin as int, ymax as int);
    proof {
        lemma_le_trans(zero, enter_x, enter);
        lemma_le_trans(leave, leave_x, one);
        if xa != xb {
            lemma_le_trans(ex, enter_x, enter);
            lemma_le_trans(leave, leave_x, lx);
        }
        if segment_inside(*old(segment), lox, loy, hix, hiy) {
            assert(fits(xa, xb, lox, hix, zero) && fits(xa, xb, lox, hix, one));
            assert(fits(ya, yb, loy, hiy, zero) && fits(ya, yb, loy, hiy, one));
            if xa != xb {
                lemma_limits(xa, xb, lox, hix, ex, lx, zero);
                lemma_limits(xa, xb, lox, hix, ex, lx, one);
            }
            if ya != yb {
                lemma_limits(ya, yb, loy, hiy, ey, ly, zero);
                lemma_limits(ya, yb, loy, hiy, ey, ly, one);
            }
            assert(le(enter, zero));
            assert(le(one, leave));
            lemma_le_trans(enter, zero, one);
            lemma_le_trans(enter, one, leave);
        }
    }
    if !ratio_le(enter, leave) {
        proof {
            let s0 = *old(segment);
            lemma_crossed_limits_miss(s0, lox, loy, hix, hiy, enter, leave, ex, lx, ey, ly);
        }
        return Acceptance::Reject;
    }
    proof {
        lemma_le_trans(enter, leave, one);
        lemma_le_trans(zero, enter, leave);
        if xa != xb {
            lemma_le_trans(enter, leave, lx);
            lemma_le_trans(ex, enter, leave);
            lemma_limits(xa, xb, lox, hix, ex, lx, enter);
            lemma_limits(xa, xb, lox, hix, ex, lx, leave);
        } else {
            lemma_parallel(xa, lox, hix, enter);
            lemma_parallel(xa, lox, hix, leave);
        }
        if ya != yb {
            lemma_le_trans(enter, leave, ly);
            lemma_le_trans(ey, enter, leave);
            lemma_limits(ya, yb, loy, hiy, ey, ly, enter);
            lemma_limits(ya, yb, loy, hiy, ey, ly, leave);
        } else {
            lemma_parallel(ya, loy, hiy, enter);
            lemma_parallel(ya, loy, hiy, leave);
        }
        lemma_outside(xa, xb, lox, hix, enter);
        lemma_outside(ya, yb, loy, hiy, enter);
        assert(visible_at(*old(segment), lox, loy, hix, hiy, enter.num as int, enter.den as int));
    }
    if enter.num == 0 && leave.num == leave.den {
        proof {
            lemma_fits_ends(xa, xb, lox, hix, enter);
            lemma_fits_ends(ya, yb, loy, hiy, enter);
            lemma_fits_ends(xa, xb, lox, hix, leave);
            lemma_fits_ends(ya, yb, loy, hiy, leave);
        }
        return Acceptance::Accept;
    }
    let ghost (n0, d0, n1, d1) = (enter.num as int, enter.den as int, leave.num as int, leave.den as int);
    proof {
        lemma_lerp_range(xa, xb, n0, d0, lox, hix);
        lemma_lerp_range(ya, yb, n0, d0, loy, hiy);
        lemma_lerp_range(xa, xb, n1, d1, lox, hix);
        lemma_lerp_range(ya, yb, n1, d1, loy, hiy);
        let s0 = *old(segment);
        assert(visible_at(s0, lox, loy, hix, hiy, n1, d1));
        assert forall|m: int, e: int| #[trigger] visible_at(s0, lox, loy, hix, hiy, m, e) implies n0
            * e <= m * d0 && m * d1 <= n1 * e by {
            lemma_visible_within_limits(s0, lox, loy, hix, hiy, enter, leave, ex, lx, ey, ly, m, e);
        }
        assert(first_visible(s0, lox, loy, hix, hiy, n0, d0));
        assert(last_visible(s0, lox, loy, hix, hiy, n1, d1));
    }
    let p0 = Point::new(
        interpolate(x1, x2, enter.num, enter.den),
        interpolate(y1, y2, enter.num, enter.den),
    );
    let p1 = Point::new(
        interpolate(x1, x2, leave.num, leave.den),
        interpolate(y1, y2, leave.num, leave.den),
    );
    segment.p0 = p0;
    segment.p1 = p1;
    assert(rounded_at(*old(segment), n0, d0, segment.p0));
    assert(rounded_at(*old(segment), n1, d1, segment.p1));
    Acceptance::Clip
}

/// The region code of `(x, y)`: `LEFT` or `RIGHT` for a point beyond a
/// vertical edge, `BOTTOM` or `TOP` beyond a horizontal one, `INSIDE` for
/// neither.
pub open spec fn outcode(x: int, y: int, xmin: int, ymin: int, xmax: int, ymax: int) -> u8 {
    (if x < xmin {
        LEFT
    } else if x > xmax {
        RIGHT
    } else {
        INSIDE
    }) | (if y < ymin {
        BOTTOM
    } else if y > ymax {
        TOP
    } else {
        INSIDE
    })
}

proof fn lemma_outcode_bits(x: int, y: int, xmin: int, ymin: int, xmax: int, ymax: int)
    requires
        xmin <= xmax,
        ymin <= ymax,
    ensures
        ({
            let c = outcode(x, y, xmin, ymin, xmax, ymax);
            &&& c < 16
            &&& (c & LEFT == LEFT) == (x < xmin)
            &&& (c & RIGHT == RIGHT) == (x > xmax)
            &&& (c & BOTTOM == BOTTOM) == (y < ymin)
            &&& (c & TOP == TOP) == (y > ymax)
            &&& (c == INSIDE) == (xmin <= x <= xmax && ymin <= y <= ymax)
        }),
{
    let h: u8 = if x < xmin {
        LEFT
    } else if x > xmax {
        RIGHT
    } else {
        INSIDE
    };
    let v: u8 = if y < ymin {
        BOTTOM
    } else if y > ymax {
        TOP
    } else {
        INSIDE
    };
    assert((h | v) < 16 && (((h | v) & 1u8) == 1u8) == (h == 1u8) && (((h | v) & 2u8) == 2u8) == (h
        == 2u8) && (((h | v) & 4u8) == 4u8) == (v == 4u8) && (((h | v) & 8u8) == 8u8) == (v == 8u8)
        && ((h | v) == 0u8) == (h == 0u8 && v == 0u8)) by (bit_vector)
        requires
            h == 0u8 || h == 1u8 || h == 2u8,
            v == 0u8 || v == 4u8 || v == 8u8,
    ;
}

proof fn lemma_outcode_pair(c0: u8, c1: u8)
    requires
        c0 < 16,
        c1 < 16,
    ensures
        ((c0 | c1) == INSIDE) == (c0 == INSIDE && c1 == INSIDE),
        ((c0 & c1) != INSIDE) == ((c0 & LEFT == LEFT && c1 & LEFT == LEFT) || (c0 & RIGHT == RIGHT
            && c1 & RIGHT == RIGHT) || (c0 & BOTTOM == BOTTOM && c1 & BOTTOM == BOTTOM) || (c0 & TOP
            == TOP && c1 & TOP == TOP)),
{
    assert(((c0 | c1) == 0u8) == (c0 == 0u8 && c1 == 0u8) && ((c0 & c1) != 0u8) == ((c0 & 1u8
        == 1u8 && c1 & 1u8 == 1u8) || (c0 & 2u8 == 2u8 && c1 & 2u8 == 2u8) || (c0 & 4u8 == 4u8
        && c1 & 4u8 == 4u8) || (c0 & 8u8 == 8u8 && c1 & 8u8 == 8u8))) by (bit_vector)
        requires
            c0 < 16u8,
            c1 < 16u8,
    ;
}

/// The region code of the exact point at parameter `t` of `s`, scaled by
/// the denominator of `t`.
spec fn code_at(s: Segment, t: Ratio, xmin: int, ymin: int, xmax: int, ymax: int) -> u8 {
    let (x0, y0, x1, y1) = (s.p0.x as int, s.p0.y as int, s.p1.x as int, s.p1.y as int);
    outcode(
        x0 * t.den + (x1 - x0) * t.num,
        y0 * t.den + (y1 - y0) * t.num,
        xmin * t.den,
        ymin * t.den,
        xmax * t.den,
        ymax * t.den,
    )
}

/// Which side of the slab `[lo, hi]` the exact point at `t` lies beyond,
/// told by the entering and leaving parameters.
proof fn lemma_side(a0: int, a1: int, lo: int, hi: int, e: Ratio, l: Ratio, t: Ratio)
    requires
        a0 != a1,
        t.den > 0,
        limits_of(a0, a1, lo, hi, e, l),
    ensures
        (a0 * t.den + (a1 - a0) * t.num > hi * t.den) == (if a1 > a0 {
            !le(t, l)
        } else {
            !le(e, t)
        }),
        (a0 * t.den + (a1 - a0) * t.num < lo * t.den) == (if a1 > a0 {
            !le(e, t)
        } else {
            !le(t, l)
        }),
{
    if a1 > a0 {
        assert((a0 * t.den + (a1 - a0) * t.num > hi * t.den) == !le(t, l) && (a0 * t.den + (a1
            - a0) * t.num < lo * t.den) == !le(e, t)) by (nonlinear_arith)
            requires
                e.num == lo - a0,
                l.num == hi - a0,
                e.den == a1 - a0,
                l.den == a1 - a0,
        ;
    } else {
        assert((a0 * t.den + (a1 - a0) * t.num > hi * t.den) == !le(e, t) && (a0 * t.den + (a1
            - a0) * t.num < lo * t.den) == !le(t, l)) by (nonlinear_arith)
            requires
                e.num == a0 - hi,
                l.num == a0 - lo,
                e.den == a0 - a1,
                l.den == a0 - a1,
        ;
    }
}

proof fn lemma_scaled_order(lo: int, hi: int, d: int)
    requires
        lo <= hi,
        d > 0,
    ensures
        lo * d <= hi * d,
{
    assert(lo * d <= hi * d) by (nonlinear_arith)
        requires
            lo <= hi,
            d > 0,
    ;
}

/// The region code of the exact point at parameter `t` of the segment.
fn outcode_at(s: Segment, t: Ratio, xmin: i32, ymin: i32, xmax: i32, ymax: i32) -> (code: u8)
    requires
        small(t),
    ensures
        code == code_at(s, t, xmin as int, ymin as int, xmax as int, ymax as int),
{
    let (n, d) = (t.num as i128, t.den as i128);
    let (x0, y0, x1, y1) = (s.p0.x as i128, s.p0.y as i128, s.p1.x as i128, s.p1.y as i128);
    assert(-0x1_0000_0000_0000_0000 <= x0 * d <= 0x1_0000_0000_0000_0000 && -0x1_0000_0000_0000_0000
        <= y0 * d <= 0x1_0000_0000_0000_0000 && -0x2_0000_0000_0000_0000 <= (x1 - x0) * n
        <= 0x2_0000_0000_0000_0000 && -0x2_0000_0000_0000_0000 <= (y1 - y0) * n
        <= 0x2_0000_0000_0000_0000) by (nonlinear_arith)
        requires
            -0x8000_0000 <= x0 < 0x8000_0000,
            -0x8000_0000 <= y0 < 0x8000_0000,
            -0x8000_0000 <= x1 < 0x8000_0000,
            -0x8000_0000 <= y1 < 0x8000_0000,
            -0xffff_ffff <= n <= 0xffff_ffff,
            0 < d <= 0xffff_ffff,
    ;
    assert(-0x1_0000_0000_0000_0000 <= (xmin as i128) * d <= 0x1_0000_0000_0000_0000
        && -0x1_0000_0000_0000_0000 <= (xmax as i128) * d <= 0x1_0000_0000_0000_0000
        && -0x1_0000_0000_0000_0000 <= (ymin as i128) * d <= 0x1_0000_0000_0000_0000
        && -0x1_0000_0000_0000_0000 <= (ymax as i128) * d <= 0x1_0000_0000_0000_0000)
        by (nonlinear_arith)
        requires
            0 < d <= 0xffff_ffff,
    ;
    let px = x0 * d + (x1 - x0) * n;
    let py = y0 * d + (y1 - y0) * n;
    let mut h = INSIDE;
    if px < (xmin as i128) * d {
        h = LEFT;
    } else if px > (xmax as i128) * d {
        h = RIGHT;
    }
    let mut v = INSIDE;
    if py < (ymin as i128) * d {
        v = BOTTOM;
    } else if py > (ymax as i128) * d {
        v = TOP;
    }
    h | v
}

proof fn lemma_lt_le_trans(a: Ratio, b: Ratio, c: Ratio)
    requires
        a.den > 0,
        b.den > 0,
        c.den > 0,
        !le(b, a),
        le(b, c),
    ensures
        !le(c, a),
{
    assert(a.num * c.den < c.num * a.den) by (nonlinear_arith)
        requires
            a.den > 0,
            b.den > 0,
            c.den > 0,
            a.num * b.den < b.num * a.den,
            b.num * c.den <= c.num * b.den,
    {
        assert(a.num * b.den * c.den < b.num * a.den * c.den);
        assert(b.num * c.den * a.den <= c.num * b.den * a.den);
    }
}

proof fn lemma_le_lt_trans(a: Ratio, b: Ratio, c: Ratio)
    requires
        a.den > 0,
        b.den > 0,
        c.den > 0,
        le(a, b),
        !le(c, b),
    ensures
        !le(c, a),
{
    assert(a.num * c.den < c.num * a.den) by (nonlinear_arith)
        requires
            a.den > 0,
            b.den > 0,
            c.den > 0,
            a.num * b.den <= b.num * a.den,
            b.num * c.den < c.num * b.den,
    {
        assert(a.num * b.den * c.den <= b.num * a.den * c.den);
        assert(b.num * c.den * a.den < c.num * b.den * a.den);
    }
}

/// On an axis along which the segment does not move, the point at every
/// parameter lies on the same side of each edge.
proof fn lemma_fixed_axis(a0: int, lo: int, hi: int, d: int)
    requires
        d > 0,
    ensures
        (a0 * d > hi * d) == (a0 > hi),
        (a0 * d < lo * d) == (a0 < lo),
{
    assert((a0 * d > hi * d) == (a0 > hi) && (a0 * d < lo * d) == (a0 < lo)) by (nonlinear_arith)
        requires
            d > 0,
    ;
}

/// A linear form positive at two parameters is positive between them.
proof fn lemma_between_positive(c: int, k: int, n0: int, d0: int, n1: int, d1: int, n: int, d: int)
    requires
        d0 > 0,
        d1 > 0,
        d > 0,
        c * d0 + k * n0 > 0,
        c * d1 + k * n1 > 0,
        n0 * d <= n * d0,
        n * d1 <= n1 * d,
    ensures
        c * d + k * n > 0,
{
    if k >= 0 {
        assert(k * n * d0 >= k * n0 * d) by (nonlinear_arith)
            requires
                k >= 0,
                n0 * d <= n * d0,
        ;
        assert((c * d + k * n) * d0 > 0) by (nonlinear_arith)
            requires
                k * n * d0 >= k * n0 * d,
                c * d0 + k * n0 > 0,
                d > 0,
        ;
        assert(c * d + k * n > 0) by (nonlinear_arith)
            requires
                (c * d + k * n) * d0 > 0,
                d0 > 0,
        ;
    } else {
        assert(k * n * d1 >= k * n1 * d) by (nonlinear_arith)
            requires
                k < 0,
                n * d1 <= n1 * d,
        ;
        assert((c * d + k * n) * d1 > 0) by (nonlinear_arith)
            requires
                k * n * d1 >= k * n1 * d,
                c * d1 + k * n1 > 0,
                d > 0,
        ;
        assert(c * d + k * n > 0) by (nonlinear_arith)
            requires
                (c * d + k * n) * d1 > 0,
                d1 > 0,
        ;
    }
}

/// A point beyond one edge at two parameters is beyond it between them.
proof fn lemma_between_beyond(
    a0: int,
    a1: int,
    bound: int,
    above: bool,
    n0: int,
    d0: int,
    n1: int,
    d1: int,
    n: int,
    d: int,
)
    requires
        d0 > 0,
        d1 > 0,
        d > 0,
        n0 * d <= n * d0,
        n * d1 <= n1 * d,
        above ==> a0 * d0 + (a1 - a0) * n0 > bound * d0 && a0 * d1 + (a1 - a0) * n1 > bound * d1,
        !above ==> a0 * d0 + (a1 - a0) * n0 < bound * d0 && a0 * d1 + (a1 - a0) * n1 < bound * d1,
    ensures
        above ==> a0 * d + (a1 - a0) * n > bound * d,
        !above ==> a0 * d + (a1 - a0) * n < bound * d,
{
    if above {
        assert((a0 - bound) * d0 + (a1 - a0) * n0 > 0 && (a0 - bound) * d1 + (a1 - a0) * n1 > 0)
            by (nonlinear_arith)
            requires
                a0 * d0 + (a1 - a0) * n0 > bound * d0,
                a0 * d1 + (a1 - a0) * n1 > bound * d1,
        ;
        lemma_between_positive(a0 - bound, a1 - a0, n0, d0, n1, d1, n, d);
        assert(a0 * d + (a1 - a0) * n > bound * d) by (nonlinear_arith)
            requires
                (a0 - bound) * d + (a1 - a0) * n > 0,
        ;
    } else {
        assert((bound - a0) * d0 + (a0 - a1) * n0 > 0 && (bound - a0) * d1 + (a0 - a1) * n1 > 0)
            by (nonlinear_arith)
            requires
                a0 * d0 + (a1 - a0) * n0 < bound * d0,
                a0 * d1 + (a1 - a0) * n1 < bound * d1,
        ;
        lemma_between_positive(bound - a0, a0 - a1, n0, d0, n1, d1, n, d);
        assert(a0 * d + (a1 - a0) * n < bound * d) by (nonlinear_arith)
            requires
                (bound - a0) * d + (a0 - a1) * n > 0,
        ;
    }
}

/// Number of slab limits still to be crossed: entering ones beyond `t0`,
/// leaving ones before `t1`.
spec fn limits_left(t0: Ratio, t1: Ratio, ex: Ratio, lx: Ratio, ey: Ratio, ly: Ratio, xs: bool, ys: bool) -> nat {
    (if xs && !le(ex, t0) { 1nat } else { 0nat }) + (if ys && !le(ey, t0) { 1nat } else { 0nat })
        + (if xs && !le(t1, lx) { 1nat } else { 0nat }) + (if ys && !le(t1, ly) { 1nat } else { 0nat })
}

/// What the region-code loop has decided once it stops: both ends inside,
/// at the first and last visible parameters; or both beyond one edge, and
/// then nothing of the segment is visible.
proof fn lemma_cut_result(
    s0: Segment,
    lox: int,
    loy: int,
    hix: int,
    hiy: int,
    t0: Ratio,
    t1: Ratio,
    ex: Ratio,
    lx: Ratio,
    ey: Ratio,
    ly: Ratio,
    outcode0: u8,
    outcode1: u8,
    rejected: bool,
)
    requires
        lox <= hix,
        loy <= hiy,
        ({
            let (xa, xb, ya, yb) = (s0.p0.x as int, s0.p1.x as int, s0.p0.y as int, s0.p1.y as int);
            &&& xa != xb ==> limits_of(xa, xb, lox, hix, ex, lx)
            &&& ya != yb ==> limits_of(ya, yb, loy, hiy, ey, ly)
            &&& (t0.num == 0 && t0.den == 1) || (xa != xb && t0 == ex) || (ya != yb && t0 == ey)
            &&& (t1.num == 1 && t1.den == 1) || (xa != xb && t1 == lx) || (ya != yb && t1 == ly)
        }),
        small(t0) && small(t1),
        le(t0, t1),
        le(Ratio { num: 0, den: 1 }, t0),
        le(t1, Ratio { num: 1, den: 1 }),
        outcode0 == code_at(s0, t0, lox, loy, hix, hiy),
        outcode1 == code_at(s0, t1, lox, loy, hix, hiy),
        rejected ==> (outcode0 & outcode1) != INSIDE,
        !rejected ==> outcode0 == INSIDE && outcode1 == INSIDE,
    ensures
        0 <= t0.num <= t0.den && 0 <= t1.num <= t1.den,
        (code_at(s0, Ratio { num: 0, den: 1 }, lox, loy, hix, hiy) == INSIDE) == point_inside(
            s0.p0,
            lox,
            loy,
            hix,
            hiy,
        ),
        (code_at(s0, Ratio { num: 1, den: 1 }, lox, loy, hix, hiy) == INSIDE) == point_inside(
            s0.p1,
            lox,
            loy,
            hix,
            hiy,
        ),
        !rejected ==> first_visible(s0, lox, loy, hix, hiy, t0.num as int, t0.den as int)
            && last_visible(s0, lox, loy, hix, hiy, t1.num as int, t1.den as int),
        !rejected ==> ({
            let (xa, xb, ya, yb) = (s0.p0.x as int, s0.p1.x as int, s0.p0.y as int, s0.p1.y as int);
            let (n0, d0, n1, d1) = (t0.num as int, t0.den as int, t1.num as int, t1.den as int);
            &&& lox <= lerp(xa, xb, n0, d0) <= hix && between(lerp(xa, xb, n0, d0), xa, xb)
            &&& loy <= lerp(ya, yb, n0, d0) <= hiy && between(lerp(ya, yb, n0, d0), ya, yb)
            &&& lox <= lerp(xa, xb, n1, d1) <= hix && between(lerp(xa, xb, n1, d1), xa, xb)
            &&& loy <= lerp(ya, yb, n1, d1) <= hiy && between(lerp(ya, yb, n1, d1), ya, yb)
        }),
        rejected ==> !meets(s0, lox, loy, hix, hiy),
{
    let (xa, xb, ya, yb) = (s0.p0.x as int, s0.p1.x as int, s0.p0.y as int, s0.p1.y as int);
    let zero = Ratio { num: 0, den: 1 };
    let one = Ratio { num: 1, den: 1 };
        lemma_le_trans(t0, t1, one);
        lemma_le_trans(zero, t0, t1);
        let (d0, d1) = (t0.den as int, t1.den as int);
        lemma_scaled_order(lox, hix, d0);
        lemma_scaled_order(loy, hiy, d0);
        lemma_scaled_order(lox, hix, d1);
        lemma_scaled_order(loy, hiy, d1);
        lemma_outcode_bits(xa * d0 + (xb - xa) * t0.num, ya * d0 + (yb - ya) * t0.num, lox * d0, loy * d0, hix * d0, hiy * d0);
        lemma_outcode_bits(xa * d1 + (xb - xa) * t1.num, ya * d1 + (yb - ya) * t1.num, lox * d1, loy * d1, hix * d1, hiy * d1);
        lemma_outcode_bits(xa, ya, lox, loy, hix, hiy);
        lemma_outcode_bits(xb, yb, lox, loy, hix, hiy);
        assert(xa * 1 + (xb - xa) * 0 == xa && ya * 1 + (yb - ya) * 0 == ya);
        assert(lox * 1 == lox && hix * 1 == hix && loy * 1 == loy && hiy * 1 == hiy);
        assert(code_at(s0, zero, lox, loy, hix, hiy) == outcode(xa, ya, lox, loy, hix, hiy));
        assert(xa * 1 + (xb - xa) * 1 == xb && ya * 1 + (yb - ya) * 1 == yb);
        assert(code_at(s0, one, lox, loy, hix, hiy) == outcode(xb, yb, lox, loy, hix, hiy));
        if !rejected {
            assert(visible_at(s0, lox, loy, hix, hiy, t0.num as int, d0));
            assert(visible_at(s0, lox, loy, hix, hiy, t1.num as int, d1));
            assert forall|m: int, e: int| #[trigger] visible_at(s0, lox, loy, hix, hiy, m, e) implies t0.num
                * e <= m * d0 && m * d1 <= t1.num * e by {
                lemma_visible_within_limits(s0, lox, loy, hix, hiy, t0, t1, ex, lx, ey, ly, m, e);
            }
            assert(first_visible(s0, lox, loy, hix, hiy, t0.num as int, d0));
            assert(last_visible(s0, lox, loy, hix, hiy, t1.num as int, d1));
            lemma_lerp_range(xa, xb, t0.num as int, d0, lox, hix);
            lemma_lerp_range(ya, yb, t0.num as int, d0, loy, hiy);
            lemma_lerp_range(xa, xb, t1.num as int, d1, lox, hix);
            lemma_lerp_range(ya, yb, t1.num as int, d1, loy, hiy);
        } else {
            lemma_outcode_pair(outcode0, outcode1);
            assert forall|m: int, e: int| !visible_at(s0, lox, loy, hix, hiy, m, e) by {
                if visible_at(s0, lox, loy, hix, hiy, m, e) {
                    lemma_visible_within_limits(s0, lox, loy, hix, hiy, t0, t1, ex, lx, ey, ly, m, e);
                    let (n0, n1) = (t0.num as int, t1.num as int);
                    if outcode0 & TOP == TOP && outcode1 & TOP == TOP {
                        lemma_between_beyond(ya, yb, hiy, true, n0, d0, n1, d1, m, e);
                    } else if outcode0 & BOTTOM == BOTTOM && outcode1 & BOTTOM == BOTTOM {
                        lemma_between_beyond(ya, yb, loy, false, n0, d0, n1, d1, m, e);
                    } else if outcode0 & RIGHT == RIGHT && outcode1 & RIGHT == RIGHT {
                        lemma_between_beyond(xa, xb, hix, true, n0, d0, n1, d1, m, e);
                    } else {
                        lemma_between_beyond(xa, xb, lox, false, n0, d0, n1, d1, m, e);
                    }
                }
            }
        }
}

/// Region-code (Cohen-Sutherland) clipping: cuts `segment` in place down to
/// the part inside the viewport and says how it related to it.
///
/// The ends are tracked as exact parameters along the segment. While they
/// are undecided, the one with the larger region code is moved to where the
/// segment crosses the first edge, in the order top, bottom, right, left,
/// that it lies beyond; the result is rounded as `lerp` does. A rejected
/// segment is left as it was.
#[verifier::rlimit(100)]
pub fn cohen_sutherland_segment_clip(
    segment: &mut Segment,
    xmin: i32,
    ymin: i32,
    xmax: i32,
    ymax: i32,
) -> (r: Acceptance)
    requires
        xmin <= xmax,
        ymin <= ymax,
    ensures
        clip_outcome(
            *old(segment),
            xmin as int,
            ymin as int,
            xmax as int,
            ymax as int,
            r,
            *final(segment),
        ),
        r == Acceptance::Clip ==> cut_to_visible(
            *old(segment),
            xmin as int,
            ymin as int,
            xmax as int,
            ymax as int,
            *final(segment),
        ),
        (r == Acceptance::Reject) == !meets(
            *old(segment),
            xmin as int,
            ymin as int,
            xmax as int,
            ymax as int,
        ),
{
    let s0 = *segment;
    let (x0, y0, x1, y1) = (s0.p0.x, s0.p0.y, s0.p1.x, s0.p1.y);
    let ghost (xa, xb, ya, yb) = (x0 as int, x1 as int, y0 as int, y1 as int);
    let ghost (lox, hix, loy, hiy) = (xmin as int, xmax as int, ymin as int, ymax as int);
    let ghost xs = x0 != x1;
    let ghost ys = y0 != y1;
    let zero = Ratio { num: 0, den: 1 };
    let one = Ratio { num: 1, den: 1 };
    let (mut ex, mut lx, mut ey, mut ly) = (zero, one, zero, one);
    if x0 != x1 {
        let (e, l) = slab_limits(x0, x1, xmin, xmax);
        ex = e;
        lx = l;
    }
    if y0 != y1 {
        let (e, l) = slab_limits(y0, y1, ymin, ymax);
        ey = e;
        ly = l;
    }
    let mut t0 = zero;
    let mut t1 = one;
    let mut outcode0 = outcode_at(s0, t0, xmin, ymin, xmax, ymax);
    let mut outcode1 = outcode_at(s0, t1, xmin, ymin, xmax, ymax);
    let mut accept = Acceptance::Reject;
    loop
        invariant_except_break
            accept == Acceptance::Reject || accept == Acceptance::Clip,
            accept == Acceptance::Reject ==> t0 == zero && t1 == one,
            accept == Acceptance::Clip ==> code_at(s0, zero, lox, loy, hix, hiy) != INSIDE
                || code_at(s0, one, lox, loy, hix, hiy) != INSIDE,
        invariant
            xmin <= xmax,
            ymin <= ymax,
            s0 == *old(segment),
            *segment == s0,
            xa == x0 && xb == x1 && ya == y0 && yb == y1,
            x0 == s0.p0.x && y0 == s0.p0.y && x1 == s0.p1.x && y1 == s0.p1.y,
            lox == xmin && hix == xmax && loy == ymin && hiy == ymax,
            xs == (x0 != x1),
            ys == (y0 != y1),
            zero == (Ratio { num: 0, den: 1 }),
            one == (Ratio { num: 1, den: 1 }),
            xs ==> limits_of(xa, xb, lox, hix, ex, lx),
            ys ==> limits_of(ya, yb, loy, hiy, ey, ly),
            small(ex) && small(lx) && small(ey) && small(ly),
            small(t0) && small(t1),
            t0 == zero || (xs && t0 == ex) || (ys && t0 == ey),
            t1 == one || (xs && t1 == lx) || (ys && t1 == ly),
            le(t0, t1),
            le(zero, t0),
            le(t1, one),
            outcode0 == code_at(s0, t0, lox, loy, hix, hiy),
            outcode1 == code_at(s0, t1, lox, loy, hix, hiy),
        ensures
            accept == Acceptance::Accept ==> t0 == zero && t1 == one,
            accept != Acceptance::Reject ==> outcode0 == INSIDE && outcode1 == INSIDE,
            accept == Acceptance::Reject ==> (outcode0 & outcode1) != INSIDE,
            accept == Acceptance::Clip ==> code_at(s0, zero, lox, loy, hix, hiy) != INSIDE
                || code_at(s0, one, lox, loy, hix, hiy) != INSIDE,
        decreases limits_left(t0, t1, ex, lx, ey, ly, xs, ys),
    {
        proof {
            lemma_scaled_order(lox, hix, t0.den as int);
            lemma_scaled_order(loy, hiy, t0.den as int);
            lemma_scaled_order(lox, hix, t1.den as int);
            lemma_scaled_order(loy, hiy, t1.den as int);
            let (d0, d1) = (t0.den as int, t1.den as int);
            lemma_outcode_bits(xa * d0 + (xb - xa) * t0.num, ya * d0 + (yb - ya) * t0.num, lox * d0, loy * d0, hix * d0, hiy * d0);
            lemma_outcode_bits(xa * d1 + (xb - xa) * t1.num, ya * d1 + (yb - ya) * t1.num, lox * d1, loy * d1, hix * d1, hiy * d1);
            lemma_outcode_pair(outcode0, outcode1);
            if xs {
                lemma_side(xa, xb, lox, hix, ex, lx, t0);
                lemma_side(xa, xb, lox, hix, ex, lx, t1);
            }
            if ys {
                lemma_side(ya, yb, loy, hiy, ey, ly, t0);
                lemma_side(ya, yb, loy, hiy, ey, ly, t1);
            } else {
                lemma_fixed_axis(ya, loy, hiy, d0);
                lemma_fixed_axis(ya, loy, hiy, d1);
                assert((yb - ya) * t0.num == 0 && (yb - ya) * t1.num == 0) by (nonlinear_arith)
                    requires
                        yb - ya == 0,
                ;
            }
            if !xs {
                lemma_fixed_axis(xa, lox, hix, d0);
                lemma_fixed_axis(xa, lox, hix, d1);
                assert((xb - xa) * t0.num == 0 && (xb - xa) * t1.num == 0) by (nonlinear_arith)
                    requires
                        xb - xa == 0,
                ;
            }
        }
        if (outcode0 | outcode1) == INSIDE {
            if accept == Acceptance::Reject {
                accept = Acceptance::Accept;
            }
            break;
        } else if (outcode0 & outcode1) != INSIDE {
            accept = Acceptance::Reject;
            break;
        } else {
            let ghost (old0, old1) = (t0, t1);
            let outcode_out = if outcode1 > outcode0 {
                outcode1
            } else {
                outcode0
            };
            let horizontal = outcode_out & (TOP | BOTTOM) != INSIDE;
            assert(outcode_out != 0u8);
            assert(TOP | BOTTOM == 12u8) by (bit_vector);
            assert((outcode_out & 12u8 != 0u8) == (outcode_out & TOP == TOP || outcode_out & BOTTOM
                == BOTTOM) && (outcode_out != 0u8 && outcode_out < 16u8 && outcode_out & 12u8
                == 0u8 ==> outcode_out & LEFT == LEFT || outcode_out & RIGHT == RIGHT))
                by (bit_vector)
                requires
                    outcode_out < 16u8,
            ;
            if outcode_out == outcode0 {
                proof {
                    if horizontal {
                        assert(ys);
                        assert(!le(ey, t0)) by {
                            if !le(t0, ly) {
                                lemma_lt_le_trans(ly, t0, t1);
                            }
                        }
                        assert(le(ey, t1));
                        if xs && !le(ex, ey) {
                            lemma_lt_le_trans(t0, ey, ex);
                        }
                    } else {
                        assert(xs);
                        assert(!le(ex, t0)) by {
                            if !le(t0, lx) {
                                lemma_lt_le_trans(lx, t0, t1);
                            }
                        }
                        assert(le(ex, t1));
                        if ys && !le(ey, ex) {
                            lemma_lt_le_trans(t0, ex, ey);
                        }
                    }
                }
                t0 = if horizontal {
                    ey
                } else {
                    ex
                };
                outcode0 = outcode_at(s0, t0, xmin, ymin, xmax, ymax);
                proof {
                    lemma_le_trans(zero, old0, t0);
                    if xs && !le(ex, t0) {
                        lemma_le_lt_trans(old0, t0, ex);
                    }
                    if ys && !le(ey, t0) {
                        lemma_le_lt_trans(old0, t0, ey);
                    }
                }
            } else {
                proof {
                    if horizontal {
                        assert(ys);
                        assert(!le(t1, ly)) by {
                            if !le(ey, t1) {
                                lemma_le_lt_trans(t0, t1, ey);
                            }
                        }
                        assert(le(t0, ly));
                    } else {
                        assert(xs);
                        assert(!le(t1, lx)) by {
                            if !le(ex, t1) {
                                lemma_le_lt_trans(t0, t1, ex);
                            }
                        }
                        assert(le(t0, lx));
                    }
                }
                t1 = if horizontal {
                    ly
                } else {
                    lx
                };
                outcode1 = outcode_at(s0, t1, xmin, ymin, xmax, ymax);
                proof {
                    lemma_le_trans(t1, old1, one);
                    if xs && !le(t1, lx) {
                        lemma_lt_le_trans(lx, t1, old1);
                    }
                    if ys && !le(t1, ly) {
                        lemma_lt_le_trans(ly, t1, old1);
                    }
                }
            }
            accept = Acceptance::Clip;
        }
    }
    proof {
        lemma_cut_result(s0, lox, loy, hix, hiy, t0, t1, ex, lx, ey, ly, outcode0, outcode1,
            accept == Acceptance::Reject);
        if segment_inside(s0, lox, loy, hix, hiy) {
            assert(xa * 1 + (xb - xa) * 0 == xa && ya * 1 + (yb - ya) * 0 == ya);
            assert(visible_at(s0, lox, loy, hix, hiy, 0, 1));
        }
        if accept != Acceptance::Reject {
            assert(fits(xa, xb, lox, hix, t0) && fits(ya, yb, loy, hiy, t0));
            lemma_outside(xa, xb, lox, hix, t0);
            lemma_outside(ya, yb, loy, hiy, t0);
        }
    }
    if accept == Acceptance::Clip {
        segment.p0 = Point::new(
            interpolate(x0, x1, t0.num, t0.den),
            interpolate(y0, y1, t0.num, t0.den),
        );
        segment.p1 = Point::new(
            interpolate(x0, x1, t1.num, t1.den),
            interpolate(y0, y1, t1.num, t1.den),
        );
        assert(rounded_at(s0, t0.num as int, t0.den as int, segment.p0));
        assert(rounded_at(s0, t1.num as int, t1.den as int, segment.p1));
    }
    accept
}

/// Clips a copy of `segment` with the parametric algorithm, leaving
/// `segment` itself untouched; always `Some`.
pub fn clip_line_copy(
    segment: &Segment,
    xmin: i32,
    ymin: i32,
    xmax: i32,
    ymax: i32,
) -> (r: Option<(Segment, Acceptance)>)
    requires
        xmin <= xmax,
        ymin <= ymax,
    ensures
        r is Some,
        clip_outcome(
            *segment,
            xmin as int,
            ymin as int,
            xmax as int,
            ymax as int,
            r.unwrap().1,
            r.unwrap().0,
        ),
        (r.unwrap().1 == Acceptance::Reject) == !meets(
            *segment,
            xmin as int,
            ymin as int,
            xmax as int,
            ymax as int,
        ),
        r.unwrap().1 == Acceptance::Clip ==> cut_to_visible(
            *segment,
            xmin as int,
            ymin as int,
            xmax as int,
            ymax as int,
            r.unwrap().0,
        ),
{
    let mut seg = *segment;
    let accept = liang_barsky_clipper(&mut seg, xmin, ymin, xmax, ymax);
    Some((seg, accept))
}

/// A segment with both ends inside the viewport is accepted and kept as it
/// is, by either algorithm.
pub proof fn lemma_inside_accepted(
    s: Segment,
    xmin: int,
    ymin: int,
    xmax: int,
    ymax: int,
    r: Acceptance,
    t: Segment,
)
    requires
        clip_outcome(s, xmin, ymin, xmax, ymax, r, t),
        segment_inside(s, xmin, ymin, xmax, ymax),
    ensures
        r == Acceptance::Accept,
        t == s,
{
}

/// A segment with both ends beyond the same edge is rejected, by either
/// algorithm.
pub proof fn lemma_one_side_rejected(
    s: Segment,
    xmin: int,
    ymin: int,
    xmax: int,
    ymax: int,
    r: Acceptance,
    t: Segment,
)
    requires
        clip_outcome(s, xmin, ymin, xmax, ymax, r, t),
        beyond_one_edge(s, xmin, ymin, xmax, ymax),
    ensures
        r == Acceptance::Reject,
{
}

/// Where one algorithm accepts a segment, the other does not reject it: it
/// accepts it too.
pub proof fn lemma_accept_agrees(
    s: Segment,
    xmin: int,
    ymin: int,
    xmax: int,
    ymax: int,
    ra: Acceptance,
    ta: Segment,
    rb: Acceptance,
    tb: Segment,
)
    requires
        clip_outcome(s, xmin, ymin, xmax, ymax, ra, ta),
        clip_outcome(s, xmin, ymin, xmax, ymax, rb, tb),
        ra == Acceptance::Accept,
    ensures
        rb != Acceptance::Reject,
        rb == Acceptance::Accept,
{
}

/// The two algorithms classify every segment alike: each accepts exactly
/// the segments inside the viewport and rejects exactly those that miss it.
pub proof fn lemma_same_classification(
    s: Segment,
    xmin: int,
    ymin: int,
    xmax: int,
    ymax: int,
    ra: Acceptance,
    ta: Segment,
    rb: Acceptance,
    tb: Segment,
)
    requires
        clip_outcome(s, xmin, ymin, xmax, ymax, ra, ta),
        clip_outcome(s, xmin, ymin, xmax, ymax, rb, tb),
        (ra == Acceptance::Reject) == !meets(s, xmin, ymin, xmax, ymax),
        (rb == Acceptance::Reject) == !meets(s, xmin, ymin, xmax, ymax),
    ensures
        ra == rb,
{
}

/// Clipping a segment that was accepted or clipped against the same
/// viewport once more accepts it and leaves it as it is.
pub proof fn lemma_clip_idempotent(
    s: Segment,
    xmin: int,
    ymin: int,
    xmax: int,
    ymax: int,
    r: Acceptance,
    t: Segment,
    r2: Acceptance,
    t2: Segment,
)
    requires
        clip_outcome(s, xmin, ymin, xmax, ymax, r, t),
        r != Acceptance::Reject,
        clip_outcome(t, xmin, ymin, xmax, ymax, r2, t2),
    ensures
        r2 == Acceptance::Accept,
        t2 == t,
{
}

} // verus!
