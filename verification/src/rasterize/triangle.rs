//! Scanline triangle rasterization over integer vertices.
use vstd::prelude::*;
use vstd::arithmetic::div_mod::{lemma_fundamental_div_mod, lemma_mod_bound};
use vstd::seq_lib::lemma_seq_concat_contains_all_elements;

use super::line::max_int;

verus! {

/// The three vertices ordered by `y`, vertices with equal `y` keeping the
/// order in which they were given (a stable sort on `y`).
pub open spec fn sort_by_y(p0: (i32, i32), p1: (i32, i32), p2: (i32, i32)) -> ((i32, i32), (i32, i32), (i32, i32)) {
    if p0.1 <= p1.1 {
        if p1.1 <= p2.1 {
            (p0, p1, p2)
        } else if p0.1 <= p2.1 {
            (p0, p2, p1)
        } else {
            (p2, p0, p1)
        }
    } else {
        if p0.1 <= p2.1 {
            (p1, p0, p2)
        } else if p1.1 <= p2.1 {
            (p1, p2, p0)
        } else {
            (p2, p1, p0)
        }
    }
}

/// `n / d` rounded down, for `d > 0`.
pub open spec fn floor_div(n: int, d: int) -> int {
    n / d
}

/// `n / d` rounded up, for `d > 0`.
pub open spec fn ceil_div(n: int, d: int) -> int {
    -((-n) / d)
}

/// The smallest integer `x` not left of where the edge from `f` to `t`
/// crosses row `y` (the edge's start `x` when the edge is horizontal).
pub open spec fn cross_ceil(f: (i32, i32), t: (i32, i32), y: int) -> int {
    if t.1 == f.1 {
        f.0 as int
    } else {
        f.0 + ceil_div((y - f.1) * (t.0 - f.0), t.1 - f.1)
    }
}

/// The largest integer `x` not right of where the edge from `f` to `t`
/// crosses row `y` (the edge's start `x` when the edge is horizontal).
pub open spec fn cross_floor(f: (i32, i32), t: (i32, i32), y: int) -> int {
    if t.1 == f.1 {
        f.0 as int
    } else {
        f.0 + floor_div((y - f.1) * (t.0 - f.0), t.1 - f.1)
    }
}

pub open spec fn min_int(a: int, b: int) -> int {
    if a <= b {
        a
    } else {
        b
    }
}

/// The points `(lo, y), (lo + 1, y), ..., (hi, y)`; none when `hi < lo`.
pub open spec fn row_points(lo: int, hi: int, y: int) -> Seq<(i32, i32)> {
    Seq::new(if lo <= hi { (hi - lo + 1) as nat } else { 0 }, |k: int| ((lo + k) as i32, y as i32))
}

/// The integer points of row `y` between the crossings of the edges
/// `e1f -> e1t` and `e2f -> e2t`, from left to right.
pub open spec fn span_points(
    e1f: (i32, i32),
    e1t: (i32, i32),
    e2f: (i32, i32),
    e2t: (i32, i32),
    y: int,
) -> Seq<(i32, i32)> {
    row_points(
        min_int(cross_ceil(e1f, e1t, y), cross_ceil(e2f, e2t, y)),
        max_int(cross_floor(e1f, e1t, y), cross_floor(e2f, e2t, y)),
        y,
    )
}

/// The spans of rows `ylo, ..., yhi - 1` between two edges, row by row.
pub open spec fn band(
    e1f: (i32, i32),
    e1t: (i32, i32),
    e2f: (i32, i32),
    e2t: (i32, i32),
    ylo: int,
    yhi: int,
) -> Seq<(i32, i32)>
    decreases yhi - ylo,
{
    if yhi <= ylo {
        Seq::empty()
    } else {
        band(e1f, e1t, e2f, e2t, ylo, yhi - 1) + span_points(e1f, e1t, e2f, e2t, yhi - 1)
    }
}

/// The row just above the lower half, whose rows run from `a` up to `b`:
/// `b`'s own row belongs to the upper half, unless `b` and `c` share it (a
/// flat top), in which case the lower half includes it.
pub open spec fn lower_end(b: (i32, i32), c: (i32, i32)) -> int {
    if b.1 == c.1 {
        b.1 + 1
    } else {
        b.1 as int
    }
}

/// The points that scanline rasterization of the triangle yields: with the
/// vertices `a`, `b`, `c` sorted by `y`, the rows of the lower half (from
/// `a` up to `b`, see `lower_end`) are filled between the edges `a -> b`
/// and `a -> c`, and the rows from `b` up to and including `c` between
/// `b -> c` and `a -> c`.  A half whose two vertices share a row is skipped,
/// so a triangle whose three vertices share a row yields nothing.
pub open spec fn triangle_points(x0: i32, y0: i32, x1: i32, y1: i32, x2: i32, y2: i32) -> Seq<(i32, i32)> {
    let (a, b, c) = sort_by_y((x0, y0), (x1, y1), (x2, y2));
    let lower = if a.1 != b.1 {
        band(a, b, a, c, a.1 as int, lower_end(b, c))
    } else {
        Seq::empty()
    };
    let upper = if b.1 != c.1 {
        band(b, c, a, c, b.1 as int, c.1 + 1)
    } else {
        Seq::empty()
    };
    lower + upper
}

/// Euclidean division by a positive divisor rounds down.
proof fn lemma_floor_div(n: int, d: int)
    requires
        d > 0,
    ensures
        d * (n / d) <= n < d * (n / d) + d,
{
    lemma_fundamental_div_mod(n, d);
    lemma_mod_bound(n, d);
}

/// Where an edge crosses a row between its two end rows, the crossing, both
/// rounded up and rounded down, lies between the edge's end columns.
pub proof fn lemma_cross_in_range(f: (i32, i32), t: (i32, i32), y: int)
    requires
        f.1 <= y <= t.1,
    ensures
        min_int(f.0 as int, t.0 as int) <= cross_floor(f, t, y) <= max_int(f.0 as int, t.0 as int),
        min_int(f.0 as int, t.0 as int) <= cross_ceil(f, t, y) <= max_int(f.0 as int, t.0 as int),
        cross_floor(f, t, y) <= cross_ceil(f, t, y) <= cross_floor(f, t, y) + 1,
{
    if t.1 != f.1 {
        let d = t.1 - f.1;
        let s = y - f.1;
        let w = t.0 - f.0;
        let n = s * w;
        let q = n / d;
        let r = (-n) / d;
        lemma_floor_div(n, d);
        lemma_floor_div(-n, d);
        assert(min_int(0, w) <= q <= max_int(0, w)) by (nonlinear_arith)
            requires
                d > 0,
                0 <= s <= d,
                n == s * w,
                d * q <= n < d * q + d,
        ;
        assert(min_int(0, w) <= -r <= max_int(0, w)) by (nonlinear_arith)
            requires
                d > 0,
                0 <= s <= d,
                n == s * w,
                d * r <= -n < d * r + d,
        ;
        assert(q <= -r <= q + 1) by (nonlinear_arith)
            requires
                d > 0,
                d * q <= n < d * q + d,
                d * r <= -n < d * r + d,
        ;
    }
}

/// `n / d` rounded down, for `d > 0`.
fn floor_div_exec(n: i128, d: i128) -> (q: i128)
    requires
        d > 0,
        -0x1_0000_0000_0000_0000_0000 <= n <= 0x1_0000_0000_0000_0000_0000,
    ensures
        q == floor_div(n as int, d as int),
{
    if n >= 0 {
        let q = (n as u128) / (d as u128);
        assert(q as int == (n as int) / (d as int));
        q as i128
    } else {
        let m = (-n) as u128;
        let dd = d as u128;
        let r = (m + dd - 1) / dd;
        proof {
            let ri = r as int;
            lemma_floor_div((m + dd - 1) as int, dd as int);
            assert(d * (-ri) <= n < d * (-ri) + d) by (nonlinear_arith)
                requires
                    dd * ri <= m + dd - 1 < dd * ri + dd,
                    m == -n,
                    dd == d,
            ;
            assert(ri <= m) by (nonlinear_arith)
                requires
                    dd * ri <= m + dd - 1,
                    dd >= 1,
                    m >= 1,
            ;
            vstd::arithmetic::div_mod::lemma_fundamental_div_mod_converse(
                n as int,
                d as int,
                -ri,
                n - d * (-ri),
            );
        }
        -(r as i128)
    }
}

/// Where the edge from `f` to `t` crosses row `y`, rounded up and rounded
/// down.
fn cross_bounds(f: (i32, i32), t: (i32, i32), y: i64) -> (r: (i64, i64))
    requires
        f.1 <= y <= t.1,
    ensures
        r.0 == cross_ceil(f, t, y as int),
        r.1 == cross_floor(f, t, y as int),
{
    proof {
        lemma_cross_in_range(f, t, y as int);
    }
    if t.1 == f.1 {
        (f.0 as i64, f.0 as i64)
    } else {
        let d: i128 = t.1 as i128 - f.1 as i128;
        let s: i128 = y as i128 - f.1 as i128;
        let w: i128 = t.0 as i128 - f.0 as i128;
        assert(-0x1_0000_0000_0000_0000 <= s * w <= 0x1_0000_0000_0000_0000) by (nonlinear_arith)
            requires
                0 <= s <= 0x1_0000_0000,
                -0x1_0000_0000 <= w <= 0x1_0000_0000,
        ;
        let n: i128 = s * w;
        let lo = floor_div_exec(-n, d);
        let hi = floor_div_exec(n, d);
        (f.0 as i64 - lo as i64, f.0 as i64 + hi as i64)
    }
}

/// Appends `(lo, y), ..., (hi, y)`.
fn push_row(points: &mut Vec<(i32, i32)>, lo: i64, hi: i64, y: i32)
    requires
        lo <= hi ==> i32::MIN <= lo && hi <= i32::MAX,
    ensures
        final(points)@ == old(points)@ + row_points(lo as int, hi as int, y as int),
{
    let ghost start = points@;
    let mut x: i64 = lo;
    while x <= hi
        invariant
            lo <= hi ==> i32::MIN <= lo && hi <= i32::MAX,
            lo <= x,
            lo <= hi ==> x <= hi + 1,
            lo > hi ==> x == lo,
            points@ =~= start + row_points(lo as int, x - 1, y as int),
        decreases hi + 1 - x,
    {
        points.push((x as i32, y));
        x = x + 1;
    }
    assert(row_points(lo as int, x - 1, y as int) =~= row_points(lo as int, hi as int, y as int));
}

/// Appends the spans of rows `ylo, ..., yhi - 1` between two edges that both
/// cover those rows.
fn push_band(
    points: &mut Vec<(i32, i32)>,
    e1f: (i32, i32),
    e1t: (i32, i32),
    e2f: (i32, i32),
    e2t: (i32, i32),
    ylo: i64,
    yhi: i64,
)
    requires
        ylo < yhi,
        e1f.1 <= ylo,
        yhi - 1 <= e1t.1,
        e2f.1 <= ylo,
        yhi - 1 <= e2t.1,
    ensures
        final(points)@ == old(points)@ + band(e1f, e1t, e2f, e2t, ylo as int, yhi as int),
{
    let ghost start = points@;
    let mut y: i64 = ylo;
    while y < yhi
        invariant
            ylo <= y <= yhi,
            e1f.1 <= ylo,
            yhi - 1 <= e1t.1,
            e2f.1 <= ylo,
            yhi - 1 <= e2t.1,
            points@ =~= start + band(e1f, e1t, e2f, e2t, ylo as int, y as int),
        decreases yhi - y,
    {
        let c1 = cross_bounds(e1f, e1t, y);
        let c2 = cross_bounds(e2f, e2t, y);
        proof {
            lemma_cross_in_range(e1f, e1t, y as int);
            lemma_cross_in_range(e2f, e2t, y as int);
        }
        let lo = if c1.0 <= c2.0 {
            c1.0
        } else {
            c2.0
        };
        let hi = if c1.1 >= c2.1 {
            c1.1
        } else {
            c2.1
        };
        push_row(points, lo, hi, y as i32);
        assert(band(e1f, e1t, e2f, e2t, ylo as int, y + 1) =~= band(
            e1f,
            e1t,
            e2f,
            e2t,
            ylo as int,
            y as int,
        ) + span_points(e1f, e1t, e2f, e2t, y as int));
        y = y + 1;
    }
}

/// Sorts three vertices by `y`, keeping the given order among equal `y`.
fn sort_by_y_exec(p0: (i32, i32), p1: (i32, i32), p2: (i32, i32)) -> (r: (
    (i32, i32),
    (i32, i32),
    (i32, i32),
))
    ensures
        r == sort_by_y(p0, p1, p2),
{
    if p0.1 <= p1.1 {
        if p1.1 <= p2.1 {
            (p0, p1, p2)
        } else if p0.1 <= p2.1 {
            (p0, p2, p1)
        } else {
            (p2, p0, p1)
        }
    } else {
        if p0.1 <= p2.1 {
            (p1, p0, p2)
        } else if p1.1 <= p2.1 {
            (p1, p2, p0)
        } else {
            (p2, p1, p0)
        }
    }
}

/// Scanline triangle rasterization. Returns all integer points inside the
/// triangle (none when its three vertices share a row), row by row from the
/// lowest `y` up, each row from left to right.  Where an edge crosses a row
/// is found exactly (in rationals), then rounded inward.
pub fn scanline_triangle(x0: i32, y0: i32, x1: i32, y1: i32, x2: i32, y2: i32) -> (points: Vec<
    (i32, i32),
>)
    ensures
        points@ == triangle_points(x0, y0, x1, y1, x2, y2),
{
    let (a, b, c) = sort_by_y_exec((x0, y0), (x1, y1), (x2, y2));
    let mut points: Vec<(i32, i32)> = Vec::new();
    if a.1 != b.1 {
        let lower_top: i64 = if b.1 == c.1 {
            b.1 as i64 + 1
        } else {
            b.1 as i64
        };
        push_band(&mut points, a, b, a, c, a.1 as i64, lower_top);
    }
    let ghost lower = points@;
    if b.1 != c.1 {
        push_band(&mut points, b, c, a, c, b.1 as i64, c.1 as i64 + 1);
    }
    assert(points@ =~= triangle_points(x0, y0, x1, y1, x2, y2));
    points
}

/// Twice the signed area of the triangle `p, q, r`: positive when the three
/// points turn counter-clockwise, negative when clockwise, zero when they are
/// collinear.
pub open spec fn orient(p: (i32, i32), q: (i32, i32), r: (i32, i32)) -> int {
    (q.0 - p.0) * (r.1 - p.1) - (q.1 - p.1) * (r.0 - p.0)
}

/// Whether `p` lies in the closed triangle `v0, v1, v2`: on the same side of
/// (or on) each of its three edges.
pub open spec fn in_triangle(v0: (i32, i32), v1: (i32, i32), v2: (i32, i32), p: (i32, i32)) -> bool {
    let o0 = orient(v0, v1, p);
    let o1 = orient(v1, v2, p);
    let o2 = orient(v2, v0, p);
    (o0 >= 0 && o1 >= 0 && o2 >= 0) || (o0 <= 0 && o1 <= 0 && o2 <= 0)
}

/// Whether scanline rasterization visits row `y`: every row from the lowest
/// vertex to the highest, and none when all three vertices share a row.
pub open spec fn scanned_row(x0: i32, y0: i32, x1: i32, y1: i32, x2: i32, y2: i32, y: int) -> bool {
    let (a, b, c) = sort_by_y((x0, y0), (x1, y1), (x2, y2));
    a.1 <= y <= c.1 && a.1 != c.1
}

proof fn lemma_orient_swap(p: (i32, i32), q: (i32, i32), r: (i32, i32))
    ensures
        orient(q, p, r) == -orient(p, q, r),
{
    assert(orient(q, p, r) == -orient(p, q, r)) by (nonlinear_arith);
}

/// Which vertex comes first does not change whether a point is inside.
proof fn lemma_in_triangle_sorted(p0: (i32, i32), p1: (i32, i32), p2: (i32, i32), p: (i32, i32))
    ensures
        ({
            let (a, b, c) = sort_by_y(p0, p1, p2);
            in_triangle(a, b, c, p) == in_triangle(p0, p1, p2, p)
        }),
{
    lemma_orient_swap(p0, p1, p);
    lemma_orient_swap(p1, p2, p);
    lemma_orient_swap(p2, p0, p);
}

/// A crossing rounded up or down, compared with a column, as a comparison
/// of cross-multiplied integers.
proof fn lemma_cross_compare(f: (i32, i32), t: (i32, i32), y: int, x: int)
    requires
        f.1 < t.1,
    ensures
        x >= cross_ceil(f, t, y) <==> (t.1 - f.1) * (x - f.0) >= (y - f.1) * (t.0 - f.0),
        x <= cross_floor(f, t, y) <==> (t.1 - f.1) * (x - f.0) <= (y - f.1) * (t.0 - f.0),
{
    let d = t.1 - f.1;
    let n = (y - f.1) * (t.0 - f.0);
    let q = n / d;
    let r = (-n) / d;
    lemma_floor_div(n, d);
    lemma_floor_div(-n, d);
    let z = x - f.0;
    assert(z >= -r <==> d * z >= n) by (nonlinear_arith)
        requires
            d > 0,
            d * r <= -n < d * r + d,
    ;
    assert(z <= q <==> d * z <= n) by (nonlinear_arith)
        requires
            d > 0,
            d * q <= n < d * q + d,
    ;
}

/// How the orientations of `p` against the three edges of `a, b, c` relate
/// to the orientation `o` of the triangle: they sum to `o`, and weighted by
/// the heights of the edges that meet at `a` (or at `c`) they sum to `o`
/// scaled by the height of `p` above `a` (or below `c`).
proof fn lemma_orient_identities(a: (i32, i32), b: (i32, i32), c: (i32, i32), p: (i32, i32))
    ensures
        orient(a, b, p) + orient(c, a, p) + orient(b, c, p) == orient(a, b, c),
        (c.1 - a.1) * orient(a, b, p) + (b.1 - a.1) * orient(c, a, p) == (p.1 - a.1) * orient(a, b, c),
        (c.1 - a.1) * orient(b, c, p) + (c.1 - b.1) * orient(c, a, p) == (c.1 - p.1) * orient(a, b, c),
{
    // Coordinates relative to `a`.
    let xb = b.0 - a.0;
    let yb = b.1 - a.1;
    let xc = c.0 - a.0;
    let yc = c.1 - a.1;
    let xp = p.0 - a.0;
    let yp = p.1 - a.1;
    let f = xb * yp - yb * xp;
    let g = yc * xp - xc * yp;
    let h = (xc - xb) * (yp - yb) - (yc - yb) * (xp - xb);
    let o = xb * yc - yb * xc;
    assert(orient(a, b, p) == f);
    assert(orient(c, a, p) == g) by (nonlinear_arith)
        requires
            xc == c.0 - a.0,
            yc == c.1 - a.1,
            xp == p.0 - a.0,
            yp == p.1 - a.1,
            g == yc * xp - xc * yp,
    ;
    assert(orient(b, c, p) == h) by (nonlinear_arith)
        requires
            xb == b.0 - a.0,
            yb == b.1 - a.1,
            xc == c.0 - a.0,
            yc == c.1 - a.1,
            xp == p.0 - a.0,
            yp == p.1 - a.1,
            h == (xc - xb) * (yp - yb) - (yc - yb) * (xp - xb),
    ;
    assert(orient(a, b, c) == o);
    assert(f + g + h == o) by (nonlinear_arith)
        requires
            f == xb * yp - yb * xp,
            g == yc * xp - xc * yp,
            h == (xc - xb) * (yp - yb) - (yc - yb) * (xp - xb),
            o == xb * yc - yb * xc,
    ;
    assert(yc * f + yb * g == yp * o) by (nonlinear_arith)
        requires
            f == xb * yp - yb * xp,
            g == yc * xp - xc * yp,
            o == xb * yc - yb * xc,
    ;
    assert(yc * h + (yc - yb) * g == (yc - yp) * o) by (nonlinear_arith)
        requires
            h == o - f - g,
            yc * f + yb * g == yp * o,
    ;
}

/// Near the apex where edges `f` and `g` meet, at a distance `u` within the
/// shorter of the two edge heights `d1 <= d2`: a point on the same side of
/// both edges is on the same side of the third edge `h` too.
proof fn lemma_apex_signs(f: int, g: int, h: int, o: int, u: int, d1: int, d2: int)
    requires
        0 <= u <= d1 <= d2,
        0 < d1,
        f + g + h == o,
        d2 * f + d1 * g == u * o,
        (f >= 0 && g >= 0) || (f <= 0 && g <= 0),
    ensures
        (f >= 0 && g >= 0 && h >= 0) || (f <= 0 && g <= 0 && h <= 0),
{
    assert(d1 * h == (d1 - u) * o + (d2 - d1) * f) by (nonlinear_arith)
        requires
            f + g + h == o,
            d2 * f + d1 * g == u * o,
    ;
    if u == 0 {
        assert(f == 0 && g == 0) by (nonlinear_arith)
            requires
                d2 * f + d1 * g == 0,
                0 < d1 <= d2,
                (f >= 0 && g >= 0) || (f <= 0 && g <= 0),
        ;
    } else if f >= 0 && g >= 0 {
        assert(h >= 0) by (nonlinear_arith)
            requires
                d1 * h == (d1 - u) * o + (d2 - d1) * f,
                d2 * f + d1 * g == u * o,
                0 < u <= d1 <= d2,
                f >= 0,
                g >= 0,
        ;
    } else {
        assert(h <= 0) by (nonlinear_arith)
            requires
                d1 * h == (d1 - u) * o + (d2 - d1) * f,
                d2 * f + d1 * g == u * o,
                0 < u <= d1 <= d2,
                f <= 0,
                g <= 0,
        ;
    }
}

/// On a row from `a` up to `b`, the span between the crossings of `a -> b`
/// and `a -> c` holds exactly the points inside the triangle.
proof fn lemma_lower_span(a: (i32, i32), b: (i32, i32), c: (i32, i32), p: (i32, i32))
    requires
        a.1 <= p.1 <= b.1 <= c.1,
        a.1 < b.1,
    ensures
        (min_int(cross_ceil(a, b, p.1 as int), cross_ceil(a, c, p.1 as int)) <= p.0 <= max_int(
            cross_floor(a, b, p.1 as int),
            cross_floor(a, c, p.1 as int),
        )) <==> in_triangle(a, b, c, p),
{
    let y = p.1 as int;
    let x = p.0 as int;
    lemma_cross_compare(a, b, y, x);
    lemma_cross_compare(a, c, y, x);
    let f = orient(a, b, p);
    let g = orient(c, a, p);
    let h = orient(b, c, p);
    let o = orient(a, b, c);
    let u = y - a.1;
    let d1 = b.1 - a.1;
    let d2 = c.1 - a.1;
    assert(g == d2 * (x - a.0) - (c.0 - a.0) * u) by (nonlinear_arith)
        requires
            g == orient(c, a, p),
            u == y - a.1,
            d2 == c.1 - a.1,
            x == p.0,
            y == p.1,
    ;
    lemma_orient_identities(a, b, c, p);
    if (f >= 0 && g >= 0) || (f <= 0 && g <= 0) {
        lemma_apex_signs(f, g, h, o, u, d1, d2);
    }
}

/// On a row of the upper half, the span between the crossings of `b -> c`
/// and `a -> c` holds exactly the points inside the triangle.
proof fn lemma_upper_span(a: (i32, i32), b: (i32, i32), c: (i32, i32), p: (i32, i32))
    requires
        a.1 <= b.1 <= p.1 <= c.1,
        b.1 < c.1,
    ensures
        (min_int(cross_ceil(b, c, p.1 as int), cross_ceil(a, c, p.1 as int)) <= p.0 <= max_int(
            cross_floor(b, c, p.1 as int),
            cross_floor(a, c, p.1 as int),
        )) <==> in_triangle(a, b, c, p),
{
    let y = p.1 as int;
    let x = p.0 as int;
    lemma_cross_compare(b, c, y, x);
    lemma_cross_compare(a, c, y, x);
    let f = orient(a, b, p);
    let g = orient(c, a, p);
    let h = orient(b, c, p);
    let o = orient(a, b, c);
    let v = c.1 - y;
    let e1 = c.1 - b.1;
    let e2 = c.1 - a.1;
    assert(g == e2 * (x - a.0) - (c.0 - a.0) * (y - a.1)) by (nonlinear_arith)
        requires
            g == orient(c, a, p),
            e2 == c.1 - a.1,
            x == p.0,
            y == p.1,
    ;
    lemma_orient_identities(a, b, c, p);
    if (h >= 0 && g >= 0) || (h <= 0 && g <= 0) {
        lemma_apex_signs(h, g, f, o, v, e1, e2);
    }
}

/// Points of a row: `(x, y)` is among them exactly when `x` lies between
/// the two ends.
proof fn lemma_row_contains(lo: int, hi: int, y: int, p: (i32, i32))
    requires
        lo <= hi ==> i32::MIN <= lo && hi <= i32::MAX,
        i32::MIN <= y <= i32::MAX,
    ensures
        row_points(lo, hi, y).contains(p) <==> (p.1 == y && lo <= p.0 <= hi),
{
    let r = row_points(lo, hi, y);
    if p.1 == y && lo <= p.0 <= hi {
        assert(r[p.0 - lo] == p);
    }
    if r.contains(p) {
        let k = choose|k: int| 0 <= k < r.len() && r[k] == p;
        assert(r[k] == p);
    }
}

/// Points of a band: `p` is among them exactly when its row is one of the
/// band's and its column lies in that row's span.
proof fn lemma_band_contains(
    e1f: (i32, i32),
    e1t: (i32, i32),
    e2f: (i32, i32),
    e2t: (i32, i32),
    ylo: int,
    yhi: int,
    p: (i32, i32),
)
    requires
        e1f.1 <= ylo,
        yhi - 1 <= e1t.1,
        e2f.1 <= ylo,
        yhi - 1 <= e2t.1,
    ensures
        band(e1f, e1t, e2f, e2t, ylo, yhi).contains(p) <==> (ylo <= p.1 < yhi && min_int(
            cross_ceil(e1f, e1t, p.1 as int),
            cross_ceil(e2f, e2t, p.1 as int),
        ) <= p.0 <= max_int(cross_floor(e1f, e1t, p.1 as int), cross_floor(e2f, e2t, p.1 as int))),
    decreases yhi - ylo,
{
    if yhi > ylo {
        let y = yhi - 1;
        lemma_band_contains(e1f, e1t, e2f, e2t, ylo, y, p);
        lemma_cross_in_range(e1f, e1t, y);
        lemma_cross_in_range(e2f, e2t, y);
        lemma_row_contains(
            min_int(cross_ceil(e1f, e1t, y), cross_ceil(e2f, e2t, y)),
            max_int(cross_floor(e1f, e1t, y), cross_floor(e2f, e2t, y)),
            y,
            p,
        );
        lemma_seq_concat_contains_all_elements(
            band(e1f, e1t, e2f, e2t, ylo, y),
            span_points(e1f, e1t, e2f, e2t, y),
            p,
        );
    }
}

/// Scanline rasterization yields exactly the integer points inside the
/// triangle, unless all three vertices share a row, in which case it yields
/// none.
pub proof fn lemma_triangle_contains(
    x0: i32,
    y0: i32,
    x1: i32,
    y1: i32,
    x2: i32,
    y2: i32,
    p: (i32, i32),
)
    ensures
        triangle_points(x0, y0, x1, y1, x2, y2).contains(p) <==> (scanned_row(
            x0,
            y0,
            x1,
            y1,
            x2,
            y2,
            p.1 as int,
        ) && in_triangle((x0, y0), (x1, y1), (x2, y2), p)),
{
    let (a, b, c) = sort_by_y((x0, y0), (x1, y1), (x2, y2));
    lemma_in_triangle_sorted((x0, y0), (x1, y1), (x2, y2), p);
    let lower = if a.1 != b.1 {
        band(a, b, a, c, a.1 as int, lower_end(b, c))
    } else {
        Seq::empty()
    };
    let upper = if b.1 != c.1 {
        band(b, c, a, c, b.1 as int, c.1 + 1)
    } else {
        Seq::empty()
    };
    lemma_seq_concat_contains_all_elements(lower, upper, p);
    if a.1 != b.1 {
        lemma_band_contains(a, b, a, c, a.1 as int, lower_end(b, c), p);
        if a.1 <= p.1 < lower_end(b, c) {
            lemma_lower_span(a, b, c, p);
        }
    }
    if b.1 != c.1 {
        lemma_band_contains(b, c, a, c, b.1 as int, c.1 + 1, p);
        if b.1 <= p.1 <= c.1 {
            lemma_upper_span(a, b, c, p);
        }
    }
}

/// Whether the points come row by row upward, each row left to right, so
/// that no point appears twice.
pub open spec fn scan_ordered(s: Seq<(i32, i32)>) -> bool {
    forall|i: int, j: int|
        0 <= i < j < s.len() ==> (#[trigger] s[i]).1 < (#[trigger] s[j]).1 || (s[i].1 == s[j].1
            && s[i].0 < s[j].0)
}

/// Two runs of points in scan order, the first entirely on rows below the
/// second, make one run in scan order.
proof fn lemma_scan_ordered_concat(s: Seq<(i32, i32)>, t: Seq<(i32, i32)>, y: int)
    requires
        scan_ordered(s),
        scan_ordered(t),
        forall|i: int| 0 <= i < s.len() ==> (#[trigger] s[i]).1 < y,
        forall|j: int| 0 <= j < t.len() ==> (#[trigger] t[j]).1 >= y,
    ensures
        scan_ordered(s + t),
{
    let u = s + t;
    assert forall|i: int, j: int| 0 <= i < j < u.len() implies (#[trigger] u[i]).1 < (
    #[trigger] u[j]).1 || (u[i].1 == u[j].1 && u[i].0 < u[j].0) by {
        if j < s.len() {
            assert(u[i] == s[i] && u[j] == s[j]);
        } else if i < s.len() {
            assert(u[i] == s[i] && u[j] == t[j - s.len()]);
        } else {
            assert(u[i] == t[i - s.len()] && u[j] == t[j - s.len()]);
        }
    }
}

proof fn lemma_band_ordered(
    e1f: (i32, i32),
    e1t: (i32, i32),
    e2f: (i32, i32),
    e2t: (i32, i32),
    ylo: int,
    yhi: int,
)
    requires
        e1f.1 <= ylo,
        yhi - 1 <= e1t.1,
        e2f.1 <= ylo,
        yhi - 1 <= e2t.1,
    ensures
        scan_ordered(band(e1f, e1t, e2f, e2t, ylo, yhi)),
        forall|i: int|
            0 <= i < band(e1f, e1t, e2f, e2t, ylo, yhi).len() ==> ylo <= (#[trigger] band(
                e1f,
                e1t,
                e2f,
                e2t,
                ylo,
                yhi,
            )[i]).1 < yhi,
    decreases yhi - ylo,
{
    if yhi > ylo {
        let y = yhi - 1;
        let prev = band(e1f, e1t, e2f, e2t, ylo, y);
        let row = span_points(e1f, e1t, e2f, e2t, y);
        lemma_band_ordered(e1f, e1t, e2f, e2t, ylo, y);
        lemma_cross_in_range(e1f, e1t, y);
        lemma_cross_in_range(e2f, e2t, y);
        assert(forall|j: int| 0 <= j < row.len() ==> (#[trigger] row[j]).1 == y);
        lemma_scan_ordered_concat(prev, row, y);
        let all = band(e1f, e1t, e2f, e2t, ylo, yhi);
        assert(all == prev + row);
        assert forall|i: int| 0 <= i < all.len() implies ylo <= (#[trigger] all[i]).1 < yhi by {
            if i < prev.len() {
                assert(all[i] == prev[i]);
            } else {
                assert(all[i] == row[i - prev.len()]);
            }
        }
    }
}

/// Scanline rasterization yields its points row by row from the lowest row
/// up, each row from left to right, and so never the same point twice.
pub proof fn lemma_triangle_ordered(x0: i32, y0: i32, x1: i32, y1: i32, x2: i32, y2: i32)
    ensures
        scan_ordered(triangle_points(x0, y0, x1, y1, x2, y2)),
{
    let (a, b, c) = sort_by_y((x0, y0), (x1, y1), (x2, y2));
    let lower = if a.1 != b.1 {
        band(a, b, a, c, a.1 as int, lower_end(b, c))
    } else {
        Seq::empty()
    };
    let upper = if b.1 != c.1 {
        band(b, c, a, c, b.1 as int, c.1 + 1)
    } else {
        Seq::empty()
    };
    if a.1 != b.1 {
        lemma_band_ordered(a, b, a, c, a.1 as int, lower_end(b, c));
    }
    if b.1 != c.1 {
        lemma_band_ordered(b, c, a, c, b.1 as int, c.1 + 1);
    }
    lemma_scan_ordered_concat(lower, upper, lower_end(b, c));
}

/// The order in which the vertices are given does not change which points
/// are filled: swapping the first two, or rotating all three, yields the
/// same set of points.
pub proof fn lemma_triangle_vertex_order(
    x0: i32,
    y0: i32,
    x1: i32,
    y1: i32,
    x2: i32,
    y2: i32,
    p: (i32, i32),
)
    ensures
        triangle_points(x0, y0, x1, y1, x2, y2).contains(p) == triangle_points(
            x1,
            y1,
            x0,
            y0,
            x2,
            y2,
        ).contains(p),
        triangle_points(x0, y0, x1, y1, x2, y2).contains(p) == triangle_points(
            x1,
            y1,
            x2,
            y2,
            x0,
            y0,
        ).contains(p),
{
    lemma_triangle_contains(x0, y0, x1, y1, x2, y2, p);
    lemma_triangle_contains(x1, y1, x0, y0, x2, y2, p);
    lemma_triangle_contains(x1, y1, x2, y2, x0, y0, p);
    lemma_orient_swap((x0, y0), (x1, y1), p);
    lemma_orient_swap((x1, y1), (x2, y2), p);
    lemma_orient_swap((x2, y2), (x0, y0), p);
}

} // verus!
