//! Exact plane geometry on integer grid cells.
//!
//! Crossings come out of sign tests on integer cross products, with no
//! tolerance anywhere, exact for every cell. The layout keeps its cells
//! [`bounded`], well inside the `i64` range.

use vstd::prelude::*;

use crate::grid::GridPoint;

verus! {

/// The coordinate magnitude below which every product this module forms fits
/// in `i128`.
pub open spec fn coord_limit() -> int {
    0x4000_0000_0000_0000
}

/// A cell whose coordinates are strictly inside `(-2^62, 2^62)`.
pub open spec fn bounded(p: GridPoint) -> bool {
    -coord_limit() < p.i < coord_limit() && -coord_limit() < p.j < coord_limit()
}

/// Twice the signed area of the triangle `a, b, c`.
pub open spec fn cross(a: GridPoint, b: GridPoint, c: GridPoint) -> int {
    (b.i - a.i) * (c.j - a.j) - (b.j - a.j) * (c.i - a.i)
}

/// The sign of [`cross`]: `1` counter-clockwise, `-1` clockwise, `0` collinear.
pub open spec fn turn(a: GridPoint, b: GridPoint, c: GridPoint) -> int {
    let x = cross(a, b, c);
    if x > 0 {
        1
    } else if x < 0 {
        -1
    } else {
        0
    }
}

/// The sign of an integer: `1`, `-1` or `0`.
pub open spec fn signum(v: int) -> int {
    if v > 0 {
        1
    } else if v < 0 {
        -1
    } else {
        0
    }
}

/// The magnitude of an integer.
pub open spec fn magnitude(v: int) -> int {
    if v < 0 {
        -v
    } else {
        v
    }
}

proof fn lemma_product_magnitude(x: int, y: int)
    requires
        magnitude(x) < 0x1_0000_0000_0000_0000,
        magnitude(y) < 0x1_0000_0000_0000_0000,
    ensures
        magnitude(x * y) == magnitude(x) * magnitude(y),
        magnitude(x) * magnitude(y) < 0x1_0000_0000_0000_0000_0000_0000_0000_0000,
        signum(x * y) == signum(x) * signum(y),
{
    let lim: int = 0x1_0000_0000_0000_0000;
    let (ax, ay) = (magnitude(x), magnitude(y));
    assert(ax * ay < lim * lim) by (nonlinear_arith)
        requires
            0 <= ax < lim,
            0 <= ay < lim,
    ;
    assert(lim * lim == 0x1_0000_0000_0000_0000_0000_0000_0000_0000) by (nonlinear_arith)
        requires
            lim == 0x1_0000_0000_0000_0000,
    ;
    assert(magnitude(x * y) == ax * ay && signum(x * y) == signum(x) * signum(y)) by (nonlinear_arith)
        requires
            ax == magnitude(x),
            ay == magnitude(y),
    {
        if x < 0 && y < 0 {
            assert(x * y == (-x) * (-y));
        } else if x < 0 && y > 0 {
            assert(x * y == -((-x) * y));
        } else if x > 0 && y < 0 {
            assert(x * y == -(x * (-y)));
        }
    }
}

/// The sign and magnitude of `x * y`, exactly: the magnitude of a product
/// of two factors below `2^64` in size fits in `u128`.
fn signed_product(x: i128, y: i128) -> (r: (i8, u128))
    requires
        magnitude(x as int) < 0x1_0000_0000_0000_0000,
        magnitude(y as int) < 0x1_0000_0000_0000_0000,
    ensures
        r.0 as int == signum(x * y),
        r.1 as int == magnitude(x * y),
{
    proof {
        lemma_product_magnitude(x as int, y as int);
    }
    let ax: u128 = if x < 0 { (-x) as u128 } else { x as u128 };
    let ay: u128 = if y < 0 { (-y) as u128 } else { y as u128 };
    let m = ax * ay;
    let s: i8 = if x == 0 || y == 0 {
        0
    } else if (x > 0) == (y > 0) {
        1
    } else {
        -1
    };
    (s, m)
}

/// The sign of `x1 * y1 - x2 * y2`, exactly, for factors below `2^64` in
/// size: each product is taken as a sign and a magnitude, which never
/// overflow, and the two are compared.
pub fn difference_sign(x1: i128, y1: i128, x2: i128, y2: i128) -> (r: i8)
    requires
        magnitude(x1 as int) < 0x1_0000_0000_0000_0000,
        magnitude(y1 as int) < 0x1_0000_0000_0000_0000,
        magnitude(x2 as int) < 0x1_0000_0000_0000_0000,
        magnitude(y2 as int) < 0x1_0000_0000_0000_0000,
    ensures
        r as int == signum(x1 * y1 - x2 * y2),
{
    let (s1, m1) = signed_product(x1, y1);
    let (s2, m2) = signed_product(x2, y2);
    if s1 > s2 {
        1
    } else if s1 < s2 {
        -1
    } else if s1 == 0 {
        0
    } else if m1 == m2 {
        0
    } else if (m1 > m2) == (s1 > 0) {
        1
    } else {
        -1
    }
}

/// Which way the ordered triple `a → b → c` turns: `1` counter-clockwise, `-1`
/// clockwise, `0` collinear. Exact for every cell.
pub fn orientation(a: GridPoint, b: GridPoint, c: GridPoint) -> (r: i8)
    ensures
        r as int == turn(a, b, c),
{
    difference_sign(
        b.i as i128 - a.i as i128,
        c.j as i128 - a.j as i128,
        b.j as i128 - a.j as i128,
        c.i as i128 - a.i as i128,
    )
}

/// Whether `p` lies in the bounding box of `a`-`b`.
pub open spec fn in_box(a: GridPoint, b: GridPoint, p: GridPoint) -> bool {
    &&& (if a.i <= b.i { a.i <= p.i <= b.i } else { b.i <= p.i <= a.i })
    &&& (if a.j <= b.j { a.j <= p.j <= b.j } else { b.j <= p.j <= a.j })
}

/// Whether `p` lies on the closed segment `a`-`b`.
pub open spec fn on_segment(a: GridPoint, b: GridPoint, p: GridPoint) -> bool {
    cross(a, b, p) == 0 && in_box(a, b, p)
}

/// Whether `p` lies on segment `a`-`b`, **given that the three are collinear**.
pub fn on_collinear_segment(a: GridPoint, b: GridPoint, p: GridPoint) -> (r: bool)
    ensures
        r == in_box(a, b, p),
{
    let (lo_i, hi_i) = if a.i <= b.i { (a.i, b.i) } else { (b.i, a.i) };
    let (lo_j, hi_j) = if a.j <= b.j { (a.j, b.j) } else { (b.j, a.j) };
    p.i >= lo_i && p.i <= hi_i && p.j >= lo_j && p.j <= hi_j
}

/// Whether the closed segments `a1`-`a2` and `b1`-`b2` intersect, by the
/// orientation test: either each segment separates the other's endpoints, or
/// an endpoint of one lies on the other.
pub open spec fn closed_segments_meet(
    a1: GridPoint,
    a2: GridPoint,
    b1: GridPoint,
    b2: GridPoint,
) -> bool {
    ||| (turn(a1, a2, b1) != turn(a1, a2, b2) && turn(b1, b2, a1) != turn(b1, b2, a2))
    ||| on_segment(a1, a2, b1)
    ||| on_segment(a1, a2, b2)
    ||| on_segment(b1, b2, a1)
    ||| on_segment(b1, b2, a2)
}

/// Whether two **closed** segments intersect.
///
/// Closed is deliberate: an endpoint lying in the other segment's interior, and a
/// collinear overlap, both read as a crossing to the eye. Exact — every
/// comparison is on integers.
pub fn segments_intersect(a1: GridPoint, a2: GridPoint, b1: GridPoint, b2: GridPoint) -> (r: bool)
    ensures
        r == closed_segments_meet(a1, a2, b1, b2),
{
    let o1 = orientation(a1, a2, b1);
    let o2 = orientation(a1, a2, b2);
    let o3 = orientation(b1, b2, a1);
    let o4 = orientation(b1, b2, a2);

    // The general case: each segment separates the other's endpoints.
    if o1 != o2 && o3 != o4 {
        return true;
    }
    // The collinear and touching cases the general test misses.
    (o1 == 0 && on_collinear_segment(a1, a2, b1)) || (o2 == 0 && on_collinear_segment(a1, a2, b2))
        || (o3 == 0 && on_collinear_segment(b1, b2, a1)) || (o4 == 0 && on_collinear_segment(
        b1,
        b2,
        a2,
    ))
}

/// Whether the half-open overlap of the intervals spanned by `a1`-`a2` and
/// `b1`-`b2` on one axis holds more than a single point.
pub open spec fn spans_overlap(a1: int, a2: int, b1: int, b2: int) -> bool {
    let lo = if a1 <= a2 { a1 } else { a2 };
    let hi = if a1 <= a2 { a2 } else { a1 };
    let lo2 = if b1 <= b2 { b1 } else { b2 };
    let hi2 = if b1 <= b2 { b2 } else { b1 };
    (if lo >= lo2 { lo } else { lo2 }) < (if hi <= hi2 { hi } else { hi2 })
}

/// Whether segment `b1`-`b2` lies **along** `a1`-`a2`: all four points on one
/// line, sharing more than a single point.
///
/// On a common line the points are ordered by either coordinate the line is
/// not perpendicular to, so the overlap is read on the `i` axis unless
/// `a1`-`a2` is vertical, and on `j` then. Two segments meeting end to end, as
/// a straight-through does, share one point and do not overlap.
pub open spec fn lies_along(a1: GridPoint, a2: GridPoint, b1: GridPoint, b2: GridPoint) -> bool {
    &&& cross(a1, a2, b1) == 0
    &&& cross(a1, a2, b2) == 0
    &&& if a1.i != a2.i {
        spans_overlap(a1.i as int, a2.i as int, b1.i as int, b2.i as int)
    } else {
        spans_overlap(a1.j as int, a2.j as int, b1.j as int, b2.j as int)
    }
}

fn span_overlap(a1: i64, a2: i64, b1: i64, b2: i64) -> (r: bool)
    ensures
        r == spans_overlap(a1 as int, a2 as int, b1 as int, b2 as int),
{
    let (lo, hi) = if a1 <= a2 { (a1, a2) } else { (a2, a1) };
    let (lo2, hi2) = if b1 <= b2 { (b1, b2) } else { (b2, b1) };
    let start = if lo >= lo2 { lo } else { lo2 };
    let end = if hi <= hi2 { hi } else { hi2 };
    start < end
}

/// Whether two segments are collinear and share more than a single point.
///
/// This is the fold-back test: one edge lying along another. Unlike
/// [`segments_intersect`] it does not count a single touching point, which is
/// what lets a straight-through — two edges meeting end to end on one line —
/// stand.
pub fn segments_overlap(a1: GridPoint, a2: GridPoint, b1: GridPoint, b2: GridPoint) -> (r: bool)
    ensures
        r == lies_along(a1, a2, b1, b2),
{
    if orientation(a1, a2, b1) != 0 || orientation(a1, a2, b2) != 0 {
        return false;
    }
    if a1.i != a2.i {
        span_overlap(a1.i, a2.i, b1.i, b2.i)
    } else {
        span_overlap(a1.j, a2.j, b1.j, b2.j)
    }
}

/// A point on the line through `a` and `b`, inside their span on an axis the
/// line is not perpendicular to, lies on the segment.
proof fn lemma_on_line_in_span(a: GridPoint, b: GridPoint, p: GridPoint)
    requires
        cross(a, b, p) == 0,
        a.i != b.i,
        (a.i <= p.i <= b.i) || (b.i <= p.i <= a.i),
    ensures
        on_segment(a, b, p),
{
    let d: int = b.i - a.i;
    let x: int = p.i - a.i;
    let e: int = b.j - a.j;
    let y: int = p.j - a.j;
    assert(d * y == e * x);
    if d > 0 {
        assert(0 <= x <= d);
        assert((e >= 0 ==> 0 <= y <= e) && (e < 0 ==> e <= y <= 0)) by (nonlinear_arith)
            requires
                d > 0,
                0 <= x <= d,
                d * y == e * x,
        ;
    } else {
        assert(d <= x <= 0);
        assert((e >= 0 ==> 0 <= y <= e) && (e < 0 ==> e <= y <= 0)) by (nonlinear_arith)
            requires
                d < 0,
                d <= x <= 0,
                d * y == e * x,
        ;
    }
}

/// A point on a vertical line shares its `i`.
proof fn lemma_vertical_same_i(a: GridPoint, b: GridPoint, p: GridPoint)
    requires
        cross(a, b, p) == 0,
        a.i == b.i,
        a.j != b.j,
    ensures
        p.i == a.i,
{
    let e: int = b.j - a.j;
    let x: int = p.i - a.i;
    assert(e * x == 0) by (nonlinear_arith)
        requires
            (b.i - a.i) * (p.j - a.j) - (b.j - a.j) * (p.i - a.i) == 0,
            b.i - a.i == 0,
            e == b.j - a.j,
            x == p.i - a.i,
    ;
    assert(x == 0) by (nonlinear_arith)
        requires
            e * x == 0,
            e != 0,
    ;
}

/// The same on a vertical line.
proof fn lemma_on_vertical_in_span(a: GridPoint, b: GridPoint, p: GridPoint)
    requires
        cross(a, b, p) == 0,
        a.i == b.i,
        a.j != b.j,
        (a.j <= p.j <= b.j) || (b.j <= p.j <= a.j),
    ensures
        on_segment(a, b, p),
{
    lemma_vertical_same_i(a, b, p);
}

/// Four points on one line: `b1` and `b2` on the line through `a1` and `a2`
/// put `a1` on the line through `b1` and `b2`.
proof fn lemma_collinear_swap(a1: GridPoint, a2: GridPoint, b1: GridPoint, b2: GridPoint)
    requires
        cross(a1, a2, b1) == 0,
        cross(a1, a2, b2) == 0,
        a1 != a2,
    ensures
        cross(b1, b2, a1) == 0,
        cross(b1, b2, a2) == 0,
{
    let dx: int = a2.i - a1.i;
    let dy: int = a2.j - a1.j;
    let ux: int = b1.i - a1.i;
    let uy: int = b1.j - a1.j;
    let vx: int = b2.i - a1.i;
    let vy: int = b2.j - a1.j;
    assert(dx * uy == dy * ux);
    assert(dx * vy == dy * vx);
    assert(dx != 0 || dy != 0);
    // b2 - b1 and a1 - b1 are both parallel to a2 - a1.
    assert(ux * vy - uy * vx == 0) by (nonlinear_arith)
        requires
            dx * uy == dy * ux,
            dx * vy == dy * vx,
            dx != 0 || dy != 0,
    ;
    assert(cross(b1, b2, a1) == (vx - ux) * (0 - uy) - (vy - uy) * (0 - ux));
    assert((vx - ux) * (0 - uy) - (vy - uy) * (0 - ux) == ux * vy - uy * vx) by (nonlinear_arith);
    assert(cross(b1, b2, a2) == (vx - ux) * (dy - uy) - (vy - uy) * (dx - ux));
    assert((vx - ux) * (dy - uy) - (vy - uy) * (dx - ux) == (vx * dy - vy * dx) - (ux * dy - uy * dx) + (ux
        * vy - uy * vx)) by (nonlinear_arith);
}

/// **An overlap is an intersection.** Two segments lying along one another
/// meet as closed segments, which is why the crossing count already charges a
/// collinear overlap; the converse fails at a single touching point.
pub proof fn lemma_overlap_meets(a1: GridPoint, a2: GridPoint, b1: GridPoint, b2: GridPoint)
    requires
        lies_along(a1, a2, b1, b2),
    ensures
        closed_segments_meet(a1, a2, b1, b2),
{
    if a1.i != a2.i {
        let (lo, hi) = if a1.i <= a2.i { (a1.i as int, a2.i as int) } else { (a2.i as int, a1.i as int) };
        let (lo2, hi2) = if b1.i <= b2.i { (b1.i as int, b2.i as int) } else { (b2.i as int, b1.i as int) };
        if lo <= b1.i <= hi {
            lemma_on_line_in_span(a1, a2, b1);
        } else if lo <= b2.i <= hi {
            lemma_on_line_in_span(a1, a2, b2);
        } else {
            // b spans a entirely on this axis, so a's endpoints lie on b.
            assert(lo2 < lo && hi < hi2);
            lemma_collinear_swap(a1, a2, b1, b2);
            lemma_on_line_in_span(b1, b2, a1);
        }
    } else {
        assert(a1.j != a2.j);
        let (lo, hi) = if a1.j <= a2.j { (a1.j as int, a2.j as int) } else { (a2.j as int, a1.j as int) };
        let (lo2, hi2) = if b1.j <= b2.j { (b1.j as int, b2.j as int) } else { (b2.j as int, b1.j as int) };
        if lo <= b1.j <= hi {
            lemma_on_vertical_in_span(a1, a2, b1);
        } else if lo <= b2.j <= hi {
            lemma_on_vertical_in_span(a1, a2, b2);
        } else {
            assert(lo2 < lo && hi < hi2);
            lemma_collinear_swap(a1, a2, b1, b2);
            lemma_vertical_same_i(a1, a2, b1);
            lemma_vertical_same_i(a1, a2, b2);
            lemma_on_vertical_in_span(b1, b2, a1);
        }
    }
}

} // verus!
