//! Writing into a row-major framebuffer of packed colors, where pixel
//! `(x, y)` of a frame `width` pixels wide is at index `x + y * width`.
use vstd::prelude::*;
use crate::color::{is_merge, rgba_merge};
use crate::point::between;
use crate::segment::Segment;

verus! {

pub open spec fn pixel_index(x: int, y: int, width: int) -> int {
    x + y * width
}

pub open spec fn in_frame(x: int, y: int, width: int, height: int) -> bool {
    0 <= x < width && 0 <= y < height
}

proof fn lemma_index_in_frame(x: int, y: int, width: int, height: int)
    requires
        in_frame(x, y, width, height),
    ensures
        0 <= pixel_index(x, y, width) < width * height,
{
    assert(0 <= x + y * width < width * height) by (nonlinear_arith)
        requires
            0 <= x < width,
            0 <= y < height,
    ;
}

proof fn lemma_index_unique(x1: int, y1: int, x2: int, y2: int, width: int)
    requires
        0 <= x1 < width,
        0 <= x2 < width,
        pixel_index(x1, y1, width) == pixel_index(x2, y2, width),
    ensures
        x1 == x2,
        y1 == y2,
{
    assert(y1 == y2) by (nonlinear_arith)
        requires
            0 <= x1 < width,
            0 <= x2 < width,
            x1 + y1 * width == x2 + y2 * width,
    ;
}

/// Composites the translucent `color_rgba` over pixel `(x, y)`.
pub fn draw_rgba(buffer: &mut Vec<u32>, width: usize, x: usize, y: usize, color_rgba: u32)
    requires
        x + y * width < old(buffer).len(),
    ensures
        final(buffer)@.len() == old(buffer)@.len(),
        forall|i: int|
            0 <= i < old(buffer)@.len() && i != x + y * width ==> final(buffer)@[i] == old(
                buffer,
            )@[i],
        is_merge(final(buffer)@[x + y * width], old(buffer)@[x + y * width], color_rgba),
{
    let i = x + y * width;
    let c = rgba_merge(buffer[i], color_rgba);
    buffer.set(i, c);
}

/// `new` is what stroking `color` over the pixel value `old` gives:
/// `color` composited over `old` when `blend` is set, else `color` itself.
pub open spec fn stroked(new: u32, old: u32, color: u32, blend: bool) -> bool {
    if blend {
        is_merge(new, old, color)
    } else {
        new == color
    }
}

/// Step direction from `a0` towards `a1`.
pub open spec fn step_dir(a0: int, a1: int) -> int {
    if a0 < a1 { 1 } else { -1 }
}

pub open spec fn dist(a0: int, a1: int) -> int {
    if a1 >= a0 { a1 - a0 } else { a0 - a1 }
}

/// After `k` steps along an axis of extent `major`, `m` steps along the
/// other axis (of extent `minor`) keep the pixel within half a pixel of the
/// ideal line: `m` is `k * minor / major` rounded to nearest, halves down.
pub open spec fn step_ok(k: int, m: int, major: int, minor: int) -> bool {
    (major == 0 && m == 0) || (-major < 2 * minor * k - 2 * major * m <= major)
}

/// `(px, py)` is a pixel of the scan-converted segment `s`: one pixel for
/// each step along the axis of the larger extent, from `p0` to `p1`.
pub open spec fn on_path(s: Segment, px: int, py: int) -> bool {
    let (x0, y0, x1, y1) = (s.p0.x as int, s.p0.y as int, s.p1.x as int, s.p1.y as int);
    let (dx, dy) = (dist(x0, x1), dist(y0, y1));
    let (ix, iy) = (step_dir(x0, x1), step_dir(y0, y1));
    if dx >= dy {
        exists|k: int, m: int|
            0 <= k <= dx && px == x0 + ix * k && py == y0 + iy * m && #[trigger] step_ok(k, m, dx, dy)
    } else {
        exists|k: int, m: int|
            0 <= k <= dy && py == y0 + iy * k && px == x0 + ix * m && #[trigger] step_ok(k, m, dy, dx)
    }
}

/// Each pixel of the frame on the path of `s` was stroked with `color` over
/// its value in `before`; every other pixel kept its value.
pub open spec fn line_drawn(
    buf: Seq<u32>,
    before: Seq<u32>,
    width: int,
    height: int,
    s: Segment,
    color: u32,
    blend: bool,
) -> bool {
    forall|px: int, py: int|
        #![trigger pixel_index(px, py, width)]
        in_frame(px, py, width, height) ==> if on_path(s, px, py) {
            stroked(buf[pixel_index(px, py, width)], before[pixel_index(px, py, width)], color, blend)
        } else {
            buf[pixel_index(px, py, width)] == before[pixel_index(px, py, width)]
        }
}

/// The walk has covered pixel `(px, py)`: along the major axis it lies
/// between the start of `s` and the current position `cur`.
spec fn walked(px: int, py: int, s: Segment, major_x: bool, cur: int) -> bool {
    if major_x {
        between(px, s.p0.x as int, cur)
    } else {
        between(py, s.p0.y as int, cur)
    }
}

/// What the walk has written so far: the path pixels it covered, each
/// stroked once over its value in `orig`; nothing else.
spec fn walk_pixels(
    buf: Seq<u32>,
    orig: Seq<u32>,
    width: int,
    height: int,
    s: Segment,
    color: u32,
    blend: bool,
    major_x: bool,
    cur: int,
) -> bool {
    forall|px: int, py: int|
        #![trigger pixel_index(px, py, width)]
        in_frame(px, py, width, height) ==> if on_path(s, px, py) && walked(px, py, s, major_x, cur) {
            stroked(buf[pixel_index(px, py, width)], orig[pixel_index(px, py, width)], color, blend)
        } else {
            buf[pixel_index(px, py, width)] == orig[pixel_index(px, py, width)]
        }
}

/// Strokes pixel `(x, y)` with `color` when it lies in the frame.
fn put(buffer: &mut Vec<u32>, width: usize, height: usize, x: i64, y: i64, color: u32, blend: bool)
    requires
        old(buffer).len() == width * height,
    ensures
        final(buffer)@.len() == old(buffer)@.len(),
        in_frame(x as int, y as int, width as int, height as int) ==> final(buffer)@ == old(
            buffer,
        )@.update(
            pixel_index(x as int, y as int, width as int),
            final(buffer)@[pixel_index(x as int, y as int, width as int)],
        ) && stroked(
            final(buffer)@[pixel_index(x as int, y as int, width as int)],
            old(buffer)@[pixel_index(x as int, y as int, width as int)],
            color,
            blend,
        ),
        !in_frame(x as int, y as int, width as int, height as int) ==> final(buffer)@ == old(
            buffer,
        )@,
{
    if x >= 0 && y >= 0 && (x as u64) < (width as u64) && (y as u64) < (height as u64) {
        proof {
            lemma_index_in_frame(x as int, y as int, width as int, height as int);
        }
        let i = x as usize + (y as usize) * width;
        let v = if blend {
            rgba_merge(buffer[i], color)
        } else {
            color
        };
        buffer.set(i, v);
    }
}

proof fn lemma_put_step(
    before: Seq<u32>,
    after: Seq<u32>,
    orig: Seq<u32>,
    width: int,
    height: int,
    s: Segment,
    color: u32,
    blend: bool,
    major_x: bool,
    cur: int,
    next: int,
    x: int,
    y: int,
)
    requires
        before.len() == width * height,
        orig.len() == width * height,
        in_frame(x, y, width, height) ==> after == before.update(
            pixel_index(x, y, width),
            after[pixel_index(x, y, width)],
        ) && stroked(after[pixel_index(x, y, width)], before[pixel_index(x, y, width)], color, blend),
        !in_frame(x, y, width, height) ==> after == before,
        walk_pixels(before, orig, width, height, s, color, blend, major_x, cur),
        on_path(s, x, y),
        !walked(x, y, s, major_x, cur),
        walked(x, y, s, major_x, next),
        forall|px: int, py: int|
            #![trigger on_path(s, px, py)]
            on_path(s, px, py) && (px != x || py != y) ==> (walked(px, py, s, major_x, next)
                == walked(px, py, s, major_x, cur)),
    ensures
        walk_pixels(after, orig, width, height, s, color, blend, major_x, next),
{
    assert forall|px: int, py: int|
        #![trigger pixel_index(px, py, width)]
        in_frame(px, py, width, height) implies if on_path(s, px, py) && walked(px, py, s, major_x, next) {
            stroked(after[pixel_index(px, py, width)], orig[pixel_index(px, py, width)], color, blend)
        } else {
            after[pixel_index(px, py, width)] == orig[pixel_index(px, py, width)]
        } by {
        lemma_index_in_frame(px, py, width, height);
        if in_frame(x, y, width, height) {
            lemma_index_in_frame(x, y, width, height);
            if pixel_index(px, py, width) == pixel_index(x, y, width) {
                lemma_index_unique(px, py, x, y, width);
            }
        }
        if on_path(s, px, py) && (px != x || py != y) {
            assert(walked(px, py, s, major_x, next) == walked(px, py, s, major_x, cur));
        }
    }
}

proof fn lemma_put_first(
    orig: Seq<u32>,
    after: Seq<u32>,
    width: int,
    height: int,
    s: Segment,
    color: u32,
    blend: bool,
    major_x: bool,
    next: int,
    x: int,
    y: int,
)
    requires
        orig.len() == width * height,
        in_frame(x, y, width, height) ==> after == orig.update(
            pixel_index(x, y, width),
            after[pixel_index(x, y, width)],
        ) && stroked(after[pixel_index(x, y, width)], orig[pixel_index(x, y, width)], color, blend),
        !in_frame(x, y, width, height) ==> after == orig,
        on_path(s, x, y),
        walked(x, y, s, major_x, next),
        forall|px: int, py: int|
            #![trigger on_path(s, px, py)]
            on_path(s, px, py) && (px != x || py != y) ==> !walked(px, py, s, major_x, next),
    ensures
        walk_pixels(after, orig, width, height, s, color, blend, major_x, next),
{
    assert forall|px: int, py: int|
        #![trigger pixel_index(px, py, width)]
        in_frame(px, py, width, height) implies if on_path(s, px, py) && walked(px, py, s, major_x, next) {
            stroked(after[pixel_index(px, py, width)], orig[pixel_index(px, py, width)], color, blend)
        } else {
            after[pixel_index(px, py, width)] == orig[pixel_index(px, py, width)]
        } by {
        lemma_index_in_frame(px, py, width, height);
        if in_frame(x, y, width, height) {
            lemma_index_in_frame(x, y, width, height);
            if pixel_index(px, py, width) == pixel_index(x, y, width) {
                lemma_index_unique(px, py, x, y, width);
            }
        }
        if on_path(s, px, py) && (px != x || py != y) {
            assert(!walked(px, py, s, major_x, next));
        }
    }
}

/// Along the x axis, the path holds one pixel in each column it crosses.
proof fn lemma_column_unique(s: Segment, px: int, py: int, k: int, m: int)
    requires
        dist(s.p0.x as int, s.p1.x as int) >= dist(s.p0.y as int, s.p1.y as int),
        on_path(s, px, py),
        0 <= k <= dist(s.p0.x as int, s.p1.x as int),
        px == s.p0.x + step_dir(s.p0.x as int, s.p1.x as int) * k,
        step_ok(k, m, dist(s.p0.x as int, s.p1.x as int), dist(s.p0.y as int, s.p1.y as int)),
    ensures
        py == s.p0.y + step_dir(s.p0.y as int, s.p1.y as int) * m,
{
    let (x0, y0, x1, y1) = (s.p0.x as int, s.p0.y as int, s.p1.x as int, s.p1.y as int);
    let (dx, dy) = (dist(x0, x1), dist(y0, y1));
    let (ix, iy) = (step_dir(x0, x1), step_dir(y0, y1));
    let (k2, m2) = choose|k2: int, m2: int|
        0 <= k2 <= dx && px == x0 + ix * k2 && py == y0 + iy * m2 && #[trigger] step_ok(k2, m2, dx, dy);
    assert(k2 == k) by (nonlinear_arith)
        requires
            x0 + ix * k2 == x0 + ix * k,
            ix == 1 || ix == -1,
    ;
    assert(m2 == m) by (nonlinear_arith)
        requires
            step_ok(k, m, dx, dy),
            step_ok(k, m2, dx, dy),
            dx >= 0,
    ;
}

/// Along the y axis, the path holds one pixel in each row it crosses.
proof fn lemma_row_unique(s: Segment, px: int, py: int, k: int, m: int)
    requires
        dist(s.p0.x as int, s.p1.x as int) < dist(s.p0.y as int, s.p1.y as int),
        on_path(s, px, py),
        0 <= k <= dist(s.p0.y as int, s.p1.y as int),
        py == s.p0.y + step_dir(s.p0.y as int, s.p1.y as int) * k,
        step_ok(k, m, dist(s.p0.y as int, s.p1.y as int), dist(s.p0.x as int, s.p1.x as int)),
    ensures
        px == s.p0.x + step_dir(s.p0.x as int, s.p1.x as int) * m,
{
    let (x0, y0, x1, y1) = (s.p0.x as int, s.p0.y as int, s.p1.x as int, s.p1.y as int);
    let (dx, dy) = (dist(x0, x1), dist(y0, y1));
    let (ix, iy) = (step_dir(x0, x1), step_dir(y0, y1));
    let (k2, m2) = choose|k2: int, m2: int|
        0 <= k2 <= dy && py == y0 + iy * k2 && px == x0 + ix * m2 && #[trigger] step_ok(k2, m2, dy, dx);
    assert(k2 == k) by (nonlinear_arith)
        requires
            y0 + iy * k2 == y0 + iy * k,
            iy == 1 || iy == -1,
    ;
    assert(m2 == m) by (nonlinear_arith)
        requires
            step_ok(k, m, dy, dx),
            step_ok(k, m2, dy, dx),
            dy >= 0,
    ;
}

/// Every pixel of the path lies between the ends along the major axis.
proof fn lemma_path_span(s: Segment, px: int, py: int)
    requires
        on_path(s, px, py),
    ensures
        dist(s.p0.x as int, s.p1.x as int) >= dist(s.p0.y as int, s.p1.y as int) ==> between(
            px,
            s.p0.x as int,
            s.p1.x as int,
        ),
        dist(s.p0.x as int, s.p1.x as int) < dist(s.p0.y as int, s.p1.y as int) ==> between(
            py,
            s.p0.y as int,
            s.p1.y as int,
        ),
{
    let (x0, y0, x1, y1) = (s.p0.x as int, s.p0.y as int, s.p1.x as int, s.p1.y as int);
    let (dx, dy) = (dist(x0, x1), dist(y0, y1));
    let (ix, iy) = (step_dir(x0, x1), step_dir(y0, y1));
    if dx >= dy {
        let (k2, m2) = choose|k2: int, m2: int|
            0 <= k2 <= dx && px == x0 + ix * k2 && py == y0 + iy * m2 && #[trigger] step_ok(k2, m2, dx, dy);
        assert(between(px, x0, x1)) by (nonlinear_arith)
            requires
                px == x0 + ix * k2,
                0 <= k2 <= dx,
                dx == dist(x0, x1),
                ix == step_dir(x0, x1),
        ;
    } else {
        let (k2, m2) = choose|k2: int, m2: int|
            0 <= k2 <= dy && py == y0 + iy * k2 && px == x0 + ix * m2 && #[trigger] step_ok(k2, m2, dy, dx);
        assert(between(py, y0, y1)) by (nonlinear_arith)
            requires
                py == y0 + iy * k2,
                0 <= k2 <= dy,
                dy == dist(y0, y1),
                iy == step_dir(y0, y1),
        ;
    }
}

/// Scan-converts `segment`, stroking each pixel of its path that lies in
/// the frame once with `color`. Stepping goes one pixel at a time along the
/// axis of the larger extent; the other coordinate follows an integer error
/// term.
fn stroke_line(
    buffer: &mut Vec<u32>,
    width: usize,
    height: usize,
    segment: Segment,
    color: u32,
    blend: bool,
)
    requires
        old(buffer).len() == width * height,
    ensures
        final(buffer)@.len() == old(buffer)@.len(),
        line_drawn(final(buffer)@, old(buffer)@, width as int, height as int, segment, color, blend),
{
    let ghost orig = buffer@;
    let ghost w = width as int;
    let ghost h = height as int;
    let (x0, y0) = (segment.p0.x as i64, segment.p0.y as i64);
    let (x1, y1) = (segment.p1.x as i64, segment.p1.y as i64);

    let mut d: i64 = 0;
    let dx: i64 = if x1 >= x0 { x1 - x0 } else { x0 - x1 };
    let dy: i64 = if y1 >= y0 { y1 - y0 } else { y0 - y1 };
    let dx2: i64 = dx * 2;
    let dy2: i64 = dy * 2;
    let ix: i64 = if x0 < x1 { 1 } else { -1 };
    let iy: i64 = if y0 < y1 { 1 } else { -1 };
    assert(x1 - x0 == ix * dx && y1 - y0 == iy * dy) by (nonlinear_arith)
        requires
            dx == (if x1 >= x0 { x1 - x0 } else { x0 - x1 }),
            dy == (if y1 >= y0 { y1 - y0 } else { y0 - y1 }),
            ix == (if x0 < x1 { 1int } else { -1int }),
            iy == (if y0 < y1 { 1int } else { -1int }),
    ;

    let mut x: i64 = x0;
    let mut y: i64 = y0;
    let major_x = dx >= dy;
    let ghost start = if major_x { x0 as int } else { y0 as int };
    proof {
        assert(x0 == x0 + ix * 0 && y0 == y0 + iy * 0);
        if major_x {
            assert(step_ok(0, 0, dx as int, dy as int));
        } else {
            assert(step_ok(0, 0, dy as int, dx as int));
        }
        assert(on_path(segment, x0 as int, y0 as int));
        assert forall|px: int, py: int|
            #![trigger on_path(segment, px, py)]
            on_path(segment, px, py) && (px != x0 || py != y0) implies !walked(
                px,
                py,
                segment,
                major_x,
                start,
            ) by {
            if major_x && px == x0 {
                lemma_column_unique(segment, px, py, 0, 0);
            }
            if !major_x && py == y0 {
                lemma_row_unique(segment, px, py, 0, 0);
            }
        }
    }
    put(buffer, width, height, x, y, color, blend);
    proof {
        lemma_put_first(orig, buffer@, w, h, segment, color, blend, major_x, start, x as int, y as int);
    }
    if major_x {
        let ghost mut k: int = 0;
        let ghost mut m: int = 0;
        while x != x1
            invariant
                buffer@.len() == w * h,
                orig.len() == w * h,
                w == width,
                h == height,
                x0 == segment.p0.x,
                y0 == segment.p0.y,
                x1 == segment.p1.x,
                y1 == segment.p1.y,
                major_x,
                dx == dist(x0 as int, x1 as int),
                dy == dist(y0 as int, y1 as int),
                ix == step_dir(x0 as int, x1 as int),
                iy == step_dir(y0 as int, y1 as int),
                x1 - x0 == ix * dx,
                y1 - y0 == iy * dy,
                ix == 1 || ix == -1,
                iy == 1 || iy == -1,
                0 <= dy <= dx <= 0xffff_ffff,
                dx2 == 2 * dx,
                dy2 == 2 * dy,
                x == x0 + ix * k,
                y == y0 + iy * m,
                ix == 1 ==> x >= x0,
                ix == -1 ==> x <= x0,
                0 <= k <= dx,
                0 <= m <= k,
                m <= dy,
                d == dy2 * k - dx2 * m,
                -dx <= d <= dx,
                dx > 0 ==> -dx < d,
                walk_pixels(buffer@, orig, w, h, segment, color, blend, major_x, x as int),
            decreases dx - k,
        {
            assert(k < dx);
            let ghost before = buffer@;
            let ghost cur = x as int;
            assert(x0 <= x < x1 || x1 < x <= x0) by (nonlinear_arith)
                requires
                    x1 - x0 == ix * dx,
                    x == x0 + ix * k,
                    ix == 1 || ix == -1,
                    0 <= k < dx,
            ;
            x = x + ix;
            d = d + dy2;
            proof {
                assert(d == dy2 * (k + 1) - dx2 * m) by (nonlinear_arith)
                    requires
                        d == dy2 * k - dx2 * m + dy2,
                ;
                assert(x == x0 + ix * (k + 1)) by (nonlinear_arith)
                    requires
                        x == x0 + ix * k + ix,
                ;
                k = k + 1;
            }
            if d > dx {
                proof {
                    if m >= dy {
                        assert(dy2 * k <= dy2 * dx) by (nonlinear_arith)
                            requires
                                k <= dx,
                                0 <= dy2,
                        ;
                        assert(dx2 * m >= dx2 * dy) by (nonlinear_arith)
                            requires
                                m >= dy,
                                0 <= dx2,
                        ;
                        assert(dy2 * dx == dx2 * dy) by (nonlinear_arith)
                            requires
                                dx2 == 2 * dx,
                                dy2 == 2 * dy,
                        ;
                    }
                }
                y = y + iy;
                d = d - dx2;
                proof {
                    assert(d == dy2 * k - dx2 * (m + 1) && y == y0 + iy * (m + 1)) by (nonlinear_arith)
                        requires
                            d == dy2 * k - dx2 * m - dx2,
                            y == y0 + iy * m + iy,
                    ;
                    m = m + 1;
                }
            }
            proof {
                assert(step_ok(k, m, dx as int, dy as int)) by (nonlinear_arith)
                    requires
                        d == dy2 * k - dx2 * m,
                        -dx < d <= dx,
                        dx2 == 2 * dx,
                        dy2 == 2 * dy,
                ;
                assert(on_path(segment, x as int, y as int));
                assert forall|px: int, py: int|
                    #![trigger on_path(segment, px, py)]
                    on_path(segment, px, py) && (px != x || py != y) implies (walked(
                        px,
                        py,
                        segment,
                        major_x,
                        x as int,
                    ) == walked(px, py, segment, major_x, cur)) by {
                    if px == x {
                        lemma_column_unique(segment, px, py, k, m);
                    }
                }
            }
            put(buffer, width, height, x, y, color, blend);
            proof {
                lemma_put_step(before, buffer@, orig, w, h, segment, color, blend, major_x, cur,
                    x as int, x as int, y as int);
            }
        }
        proof {
            assert forall|px: int, py: int|
                #![trigger on_path(segment, px, py)]
                on_path(segment, px, py) implies walked(px, py, segment, major_x, x as int) by {
                lemma_path_span(segment, px, py);
            }
        }
    } else {
        let ghost mut k: int = 0;
        let ghost mut m: int = 0;
        while y != y1
            invariant
                buffer@.len() == w * h,
                orig.len() == w * h,
                w == width,
                h == height,
                y0 == segment.p0.y,
                x0 == segment.p0.x,
                y1 == segment.p1.y,
                x1 == segment.p1.x,
                !major_x,
                dy == dist(y0 as int, y1 as int),
                dx == dist(x0 as int, x1 as int),
                iy == step_dir(y0 as int, y1 as int),
                ix == step_dir(x0 as int, x1 as int),
                y1 - y0 == iy * dy,
                x1 - x0 == ix * dx,
                iy == 1 || iy == -1,
                ix == 1 || ix == -1,
                0 <= dx < dy <= 0xffff_ffff,
                dy2 == 2 * dy,
                dx2 == 2 * dx,
                y == y0 + iy * k,
                x == x0 + ix * m,
                iy == 1 ==> y >= y0,
                iy == -1 ==> y <= y0,
                0 <= k <= dy,
                0 <= m <= k,
                m <= dx,
                d == dx2 * k - dy2 * m,
                -dy <= d <= dy,
                dy > 0 ==> -dy < d,
                walk_pixels(buffer@, orig, w, h, segment, color, blend, major_x, y as int),
            decreases dy - k,
        {
            assert(k < dy);
            let ghost before = buffer@;
            let ghost cur = y as int;
            assert(y0 <= y < y1 || y1 < y <= y0) by (nonlinear_arith)
                requires
                    y1 - y0 == iy * dy,
                    y == y0 + iy * k,
                    iy == 1 || iy == -1,
                    0 <= k < dy,
            ;
            y = y + iy;
            d = d + dx2;
            proof {
                assert(d == dx2 * (k + 1) - dy2 * m) by (nonlinear_arith)
                    requires
                        d == dx2 * k - dy2 * m + dx2,
                ;
                assert(y == y0 + iy * (k + 1)) by (nonlinear_arith)
                    requires
                        y == y0 + iy * k + iy,
                ;
                k = k + 1;
            }
            if d > dy {
                proof {
                    if m >= dx {
                        assert(dx2 * k <= dx2 * dy) by (nonlinear_arith)
                            requires
                                k <= dy,
                                0 <= dx2,
                        ;
                        assert(dy2 * m >= dy2 * dx) by (nonlinear_arith)
                            requires
                                m >= dx,
                                0 <= dy2,
                        ;
                        assert(dx2 * dy == dy2 * dx) by (nonlinear_arith)
                            requires
                                dy2 == 2 * dy,
                                dx2 == 2 * dx,
                        ;
                    }
                }
                x = x + ix;
                d = d - dy2;
                proof {
                    assert(d == dx2 * k - dy2 * (m + 1) && x == x0 + ix * (m + 1)) by (nonlinear_arith)
                        requires
                            d == dx2 * k - dy2 * m - dy2,
                            x == x0 + ix * m + ix,
                    ;
                    m = m + 1;
                }
            }
            proof {
                assert(step_ok(k, m, dy as int, dx as int)) by (nonlinear_arith)
                    requires
                        d == dx2 * k - dy2 * m,
                        -dy < d <= dy,
                        dy2 == 2 * dy,
                        dx2 == 2 * dx,
                ;
                assert(on_path(segment, x as int, y as int));
                assert forall|px: int, py: int|
                    #![trigger on_path(segment, px, py)]
                    on_path(segment, px, py) && (px != x || py != y) implies (walked(
                        px,
                        py,
                        segment,
                        major_x,
                        y as int,
                    ) == walked(px, py, segment, major_x, cur)) by {
                    if py == y {
                        lemma_row_unique(segment, px, py, k, m);
                    }
                }
            }
            put(buffer, width, height, x, y, color, blend);
            proof {
                lemma_put_step(before, buffer@, orig, w, h, segment, color, blend, major_x, cur,
                    y as int, x as int, y as int);
            }
        }
        proof {
            assert forall|px: int, py: int|
                #![trigger on_path(segment, px, py)]
                on_path(segment, px, py) implies walked(px, py, segment, major_x, y as int) by {
                lemma_path_span(segment, px, py);
            }
        }
    }
}

/// Scan-converts `segment` into the frame, compositing the translucent
/// `color_rgba` once over each pixel of its path; path pixels outside
/// `[0, width) x [0, height)` are skipped and no other pixel changes.
pub fn draw_line(
    buffer_rgb: &mut Vec<u32>,
    width: usize,
    height: usize,
    segment: Segment,
    color_rgba: u32,
)
    requires
        old(buffer_rgb).len() == width * height,
    ensures
        final(buffer_rgb)@.len() == old(buffer_rgb)@.len(),
        line_drawn(
            final(buffer_rgb)@,
            old(buffer_rgb)@,
            width as int,
            height as int,
            segment,
            color_rgba,
            true,
        ),
{
    stroke_line(buffer_rgb, width, height, segment, color_rgba, true);
}

/// The opaque path of line drawing: like `draw_line`, but overwrites each
/// path pixel with the opaque `color_rgb` instead of compositing.
pub fn draw_line_opaque(
    buffer_rgb: &mut Vec<u32>,
    width: usize,
    height: usize,
    segment: Segment,
    color_rgb: u32,
)
    requires
        old(buffer_rgb).len() == width * height,
    ensures
        final(buffer_rgb)@.len() == old(buffer_rgb)@.len(),
        line_drawn(
            final(buffer_rgb)@,
            old(buffer_rgb)@,
            width as int,
            height as int,
            segment,
            color_rgb,
            false,
        ),
{
    stroke_line(buffer_rgb, width, height, segment, color_rgb, false);
}

/// `(px, py)` lies on the outline that `draw_rect` paints: the rows `y0`
/// and `y1` over `x0 <= px < x1`, and the columns `x0` and `x1` over
/// `y0 <= py < y1`.
pub open spec fn on_outline(px: int, py: int, x0: int, y0: int, x1: int, y1: int) -> bool {
    ||| (py == y0 || py == y1) && x0 <= px < x1
    ||| (px == x0 || px == x1) && y0 <= py < y1
}

/// A pixel of the frame: `px` within the row, its index within the buffer.
pub open spec fn in_buffer(px: int, py: int, width: int, len: int) -> bool {
    0 <= px < width && 0 <= py && pixel_index(px, py, width) < len
}

proof fn lemma_set_pixel(before: Seq<u32>, after: Seq<u32>, width: int, a: int, b: int, c: u32)
    requires
        0 <= a < width,
        0 <= b,
        0 <= pixel_index(a, b, width) < before.len(),
        after == before.update(pixel_index(a, b, width), c),
    ensures
        forall|px: int, py: int|
            #![trigger pixel_index(px, py, width)]
            in_buffer(px, py, width, before.len() as int) ==> after[pixel_index(px, py, width)] == if px
                == a && py == b {
                c
            } else {
                before[pixel_index(px, py, width)]
            },
{
    assert forall|px: int, py: int|
        #![trigger pixel_index(px, py, width)]
        in_buffer(px, py, width, before.len() as int) implies after[pixel_index(px, py, width)]
            == if px == a && py == b {
            c
        } else {
            before[pixel_index(px, py, width)]
        } by {
        if pixel_index(px, py, width) == pixel_index(a, b, width) {
            lemma_index_unique(px, py, a, b, width);
        }
    }
}

/// Overwrites pixel `(x, y)` with `color` when it lies in the buffer.
fn set_pixel(buffer: &mut Vec<u32>, width: usize, x: usize, y: usize, color: u32)
    ensures
        in_buffer(x as int, y as int, width as int, old(buffer)@.len() as int) ==> final(buffer)@
            == old(buffer)@.update(pixel_index(x as int, y as int, width as int), color),
        !in_buffer(x as int, y as int, width as int, old(buffer)@.len() as int) ==> final(buffer)@
            == old(buffer)@,
{
    assert((y as u128) * (width as u128) <= 0xffff_ffff_ffff_ffff * 0xffff_ffff_ffff_ffff)
        by (nonlinear_arith)
        requires
            y <= 0xffff_ffff_ffff_ffff,
            width <= 0xffff_ffff_ffff_ffff,
    ;
    if x < width && (x as u128) + (y as u128) * (width as u128) < buffer.len() as u128 {
        buffer.set(x + y * width, color);
    }
}

/// Paints the outline of the rectangle with corners `(x0, y0)` and
/// `(x1, y1)` with `color`, overwriting what was there; outline pixels that
/// fall outside the buffer are skipped.
pub fn draw_rect(
    buffer: &mut Vec<u32>,
    width: usize,
    x0: usize,
    y0: usize,
    x1: usize,
    y1: usize,
    color: u32,
)
    ensures
        final(buffer)@.len() == old(buffer)@.len(),
        forall|px: int, py: int|
            #![trigger pixel_index(px, py, width as int)]
            in_buffer(px, py, width as int, old(buffer)@.len() as int) ==> final(buffer)@[pixel_index(
                px,
                py,
                width as int,
            )] == if on_outline(px, py, x0 as int, y0 as int, x1 as int, y1 as int) {
                color
            } else {
                old(buffer)@[pixel_index(px, py, width as int)]
            },
{
    let ghost orig = buffer@;
    let ghost w = width as int;
    let ghost len = buffer@.len() as int;
    let mut x: usize = x0;
    while x < x1
        invariant
            x0 <= x,
            x0 <= x1 ==> x <= x1,
            x0 > x1 ==> x == x0,
            w == width,
            buffer@.len() == len,
            forall|px: int, py: int|
                #![trigger pixel_index(px, py, w)]
                in_buffer(px, py, w, len) ==> buffer@[pixel_index(px, py, w)] == if (py == y0 || py
                    == y1) && x0 <= px < x {
                    color
                } else {
                    orig[pixel_index(px, py, w)]
                },
        decreases x1 - x,
    {
        let ghost b0 = buffer@;
        set_pixel(buffer, width, x, y0, color);
        proof {
            if in_buffer(x as int, y0 as int, w, len) {
                lemma_set_pixel(b0, buffer@, w, x as int, y0 as int, color);
            }
        }
        let ghost b1 = buffer@;
        set_pixel(buffer, width, x, y1, color);
        proof {
            if in_buffer(x as int, y1 as int, w, len) {
                lemma_set_pixel(b1, buffer@, w, x as int, y1 as int, color);
            }
        }
        x = x + 1;
    }
    let mut y: usize = y0;
    while y < y1
        invariant
            y0 <= y,
            y0 <= y1 ==> y <= y1,
            y0 > y1 ==> y == y0,
            w == width,
            buffer@.len() == len,
            forall|px: int, py: int|
                #![trigger pixel_index(px, py, w)]
                in_buffer(px, py, w, len) ==> buffer@[pixel_index(px, py, w)] == if ((py == y0 || py
                    == y1) && x0 <= px < x1) || ((px == x0 || px == x1) && y0 <= py < y) {
                    color
                } else {
                    orig[pixel_index(px, py, w)]
                },
        decreases y1 - y,
    {
        let ghost b0 = buffer@;
        set_pixel(buffer, width, x0, y, color);
        proof {
            if in_buffer(x0 as int, y as int, w, len) {
                lemma_set_pixel(b0, buffer@, w, x0 as int, y as int, color);
            }
        }
        let ghost b1 = buffer@;
        set_pixel(buffer, width, x1, y, color);
        proof {
            if in_buffer(x1 as int, y as int, w, len) {
                lemma_set_pixel(b1, buffer@, w, x1 as int, y as int, color);
            }
        }
        y = y + 1;
    }
}

} // verus!
