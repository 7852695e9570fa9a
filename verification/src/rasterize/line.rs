//! Bresenham's line algorithm over integer pixel coordinates.
use vstd::prelude::*;

verus! {

/// Distance between two coordinates along one axis.
pub open spec fn span(from: int, to: int) -> int {
    if from <= to {
        to - from
    } else {
        from - to
    }
}

/// The coordinate reached after `k` unit moves from `from` toward `to`.
pub open spec fn advance(from: int, to: int, k: int) -> int {
    if from < to {
        from + k
    } else {
        from - k
    }
}

pub open spec fn max_int(a: int, b: int) -> int {
    if a >= b {
        a
    } else {
        b
    }
}

/// State of Bresenham's walk after `i` iterations, for a line that spans `a`
/// columns and `b` rows: the number of moves made along x, the number made
/// along y, and the error term (which starts at `a - b`).  An iteration moves
/// along x when twice the error is at least `-b`, and along y when twice the
/// error is at most `a`.
pub open spec fn walk(a: int, b: int, i: nat) -> (int, int, int)
    decreases i,
{
    if i == 0 {
        (0, 0, a - b)
    } else {
        let s = walk(a, b, (i - 1) as nat);
        let step_x = 2 * s.2 >= -b;
        let step_y = 2 * s.2 <= a;
        (
            if step_x { s.0 + 1 } else { s.0 },
            if step_y { s.1 + 1 } else { s.1 },
            s.2 - (if step_x { b } else { 0 }) + (if step_y { a } else { 0 }),
        )
    }
}

/// Number of moves from `(x0, y0)` to `(x1, y1)`: the longer of the two spans.
pub open spec fn line_steps(x0: int, y0: int, x1: int, y1: int) -> int {
    max_int(span(x0, x1), span(y0, y1))
}

/// The `i`-th point that the walk from `(x0, y0)` to `(x1, y1)` visits.
pub open spec fn line_point(x0: int, y0: int, x1: int, y1: int, i: nat) -> (int, int) {
    let s = walk(span(x0, x1), span(y0, y1), i);
    (advance(x0, x1, s.0), advance(y0, y1, s.1))
}

/// The points of Bresenham's line from `(x0, y0)` to `(x1, y1)`, in order.
pub open spec fn line_points(x0: i32, y0: i32, x1: i32, y1: i32) -> Seq<(i32, i32)> {
    Seq::new(
        (line_steps(x0 as int, y0 as int, x1 as int, y1 as int) + 1) as nat,
        |i: int|
            {
                let p = line_point(x0 as int, y0 as int, x1 as int, y1 as int, i as nat);
                (p.0 as i32, p.1 as i32)
            },
    )
}

/// What holds of the walk up to its last move: the move counts stay within
/// the spans, the one along the longer axis grows by one every iteration, the
/// error term equals `a * (1 + iy) - b * (1 + ix)` and stays within
/// `[-3b, 3a]` (doubled), and both spans are covered exactly at the last move.
pub proof fn lemma_walk(a: int, b: int, i: nat)
    requires
        0 <= a,
        0 <= b,
        i <= max_int(a, b),
    ensures
        0 <= walk(a, b, i).0 <= a,
        0 <= walk(a, b, i).1 <= b,
        walk(a, b, i).2 == a * (1 + walk(a, b, i).1) - b * (1 + walk(a, b, i).0),
        a >= b ==> walk(a, b, i).0 == i && -b <= 2 * walk(a, b, i).2 <= 3 * a,
        b >= a ==> walk(a, b, i).1 == i && -3 * b <= 2 * walk(a, b, i).2 <= a,
        (walk(a, b, i).0 == a && walk(a, b, i).1 == b) <==> i == max_int(a, b),
    decreases i,
{
    let s = walk(a, b, i);
    if i == 0 {
        assert(s.2 == a * (1 + s.1) - b * (1 + s.0)) by (nonlinear_arith)
            requires
                s.0 == 0,
                s.1 == 0,
                s.2 == a - b,
        ;
    } else {
        let p = walk(a, b, (i - 1) as nat);
        lemma_walk(a, b, (i - 1) as nat);
        let d = 2 * p.2;
        let step_x = d >= -b;
        let step_y = d <= a;
        assert(s.2 == a * (1 + s.1) - b * (1 + s.0)) by (nonlinear_arith)
            requires
                p.2 == a * (1 + p.1) - b * (1 + p.0),
                s.0 == if step_x { p.0 + 1 } else { p.0 },
                s.1 == if step_y { p.1 + 1 } else { p.1 },
                s.2 == p.2 - (if step_x { b } else { 0 }) + (if step_y { a } else { 0 }),
        ;
        if a >= b {
            // Every iteration moves along x.
            assert(p.0 == i - 1);
            assert(step_x);
            if p.1 == b {
                // No move along y is left, and none is taken.
                assert(d >= 2 * a) by (nonlinear_arith)
                    requires
                        d == 2 * (a * (1 + p.1) - b * (1 + p.0)),
                        p.1 == b,
                        0 <= p.0 <= a - 1,
                        0 <= b,
                ;
                assert(a > 0);
                assert(!step_y);
            }
            if s.0 == a {
                // Reaching the last column means reaching the last row.
                if s.1 < b {
                    assert(2 * s.2 < -b) by (nonlinear_arith)
                        requires
                            s.2 == a * (1 + s.1) - b * (1 + s.0),
                            s.0 == a,
                            0 <= s.1 <= b - 1,
                            0 <= a,
                    ;
                }
            }
        }
        if b >= a {
            // Every iteration moves along y.
            assert(p.1 == i - 1);
            assert(step_y);
            if p.0 == a {
                assert(d <= -2 * b) by (nonlinear_arith)
                    requires
                        d == 2 * (a * (1 + p.1) - b * (1 + p.0)),
                        p.0 == a,
                        0 <= p.1 <= b - 1,
                        0 <= a,
                ;
                assert(b > 0);
                assert(!step_x);
            }
            if s.1 == b {
                if s.0 < a {
                    assert(2 * s.2 > a) by (nonlinear_arith)
                        requires
                            s.2 == a * (1 + s.1) - b * (1 + s.0),
                            s.1 == b,
                            0 <= s.0 <= a - 1,
                            0 <= b,
                    ;
                }
            }
        }
    }
}

/// Every point of the walk lies in the bounding box of the two endpoints, so
/// it is a pair of `i32` values.
pub proof fn lemma_line_point_fits(x0: i32, y0: i32, x1: i32, y1: i32, i: nat)
    requires
        i <= line_steps(x0 as int, y0 as int, x1 as int, y1 as int),
    ensures
        ({
            let p = line_point(x0 as int, y0 as int, x1 as int, y1 as int, i);
            &&& (x0 <= p.0 <= x1 || x1 <= p.0 <= x0)
            &&& (y0 <= p.1 <= y1 || y1 <= p.1 <= y0)
            &&& line_points(x0, y0, x1, y1)[i as int] == (p.0 as i32, p.1 as i32)
            &&& p.0 as i32 == p.0
            &&& p.1 as i32 == p.1
        }),
{
    lemma_walk(span(x0 as int, x1 as int), span(y0 as int, y1 as int), i);
}

/// Bresenham's line algorithm. Returns all integer points on the line from
/// `(x0, y0)` to `(x1, y1)`: the walk starts at the first endpoint, moves one
/// pixel along the longer axis at every step, and stops at the second
/// endpoint.
pub fn bresenham_line(x0: i32, y0: i32, x1: i32, y1: i32) -> (points: Vec<(i32, i32)>)
    ensures
        points@ == line_points(x0, y0, x1, y1),
{
    let dx: i64 = if x0 <= x1 {
        x1 as i64 - x0 as i64
    } else {
        x0 as i64 - x1 as i64
    };
    let dy: i64 = if y0 <= y1 {
        y0 as i64 - y1 as i64
    } else {
        y1 as i64 - y0 as i64
    };
    let sx: i32 = if x0 < x1 {
        1
    } else {
        -1
    };
    let sy: i32 = if y0 < y1 {
        1
    } else {
        -1
    };
    let mut err: i64 = dx + dy;
    let mut x: i32 = x0;
    let mut y: i32 = y0;
    let mut points: Vec<(i32, i32)> = Vec::new();

    let ghost a = span(x0 as int, x1 as int);
    let ghost b = span(y0 as int, y1 as int);
    let ghost n = max_int(a, b);
    let ghost mut i: nat = 0;
    proof {
        lemma_walk(a, b, 0);
    }
    loop
        invariant_except_break
            a == dx,
            b == -dy,
            a == span(x0 as int, x1 as int),
            b == span(y0 as int, y1 as int),
            0 <= a <= 0xffff_ffff,
            0 <= b <= 0xffff_ffff,
            n == max_int(a, b),
            sx == (if x0 < x1 { 1int } else { -1int }),
            sy == (if y0 < y1 { 1int } else { -1int }),
            i <= n,
            x == advance(x0 as int, x1 as int, walk(a, b, i).0),
            y == advance(y0 as int, y1 as int, walk(a, b, i).1),
            err == walk(a, b, i).2,
            0 <= walk(a, b, i).0 <= a,
            0 <= walk(a, b, i).1 <= b,
            -3 * b <= 2 * walk(a, b, i).2 <= 3 * a,
            (walk(a, b, i).0 == a && walk(a, b, i).1 == b) <==> i == n,
            points@ =~= line_points(x0, y0, x1, y1).take(i as int),
        ensures
            points@ =~= line_points(x0, y0, x1, y1),
        decreases n - i,
    {
        proof {
            lemma_line_point_fits(x0, y0, x1, y1, i);
        }
        points.push((x, y));
        if x == x1 && y == y1 {
            break;
        }
        proof {
            lemma_walk(a, b, (i + 1) as nat);
        }
        let e2: i64 = 2 * err;
        if e2 >= dy {
            err = err + dy;
            x = x + sx;
        }
        if e2 <= dx {
            err = err + dx;
            y = y + sy;
        }
        proof {
            i = i + 1;
        }
    }
    points
}

/// One step of the walk: the next point is an 8-neighbour of the current
/// one, one pixel further along the longer axis, and no further from the
/// second endpoint on either axis.
pub proof fn lemma_line_step(x0: i32, y0: i32, x1: i32, y1: i32, i: int)
    requires
        0 <= i < line_steps(x0 as int, y0 as int, x1 as int, y1 as int),
    ensures
        line_step_ok(x0, y0, x1, y1, line_points(x0, y0, x1, y1)[i], line_points(x0, y0, x1, y1)[i + 1]),
{
    let a = span(x0 as int, x1 as int);
    let b = span(y0 as int, y1 as int);
    lemma_walk(a, b, i as nat);
    lemma_walk(a, b, (i + 1) as nat);
    lemma_line_point_fits(x0, y0, x1, y1, i as nat);
    lemma_line_point_fits(x0, y0, x1, y1, (i + 1) as nat);
    assert(walk(a, b, (i + 1) as nat) == {
        let s = walk(a, b, i as nat);
        let step_x = 2 * s.2 >= -b;
        let step_y = 2 * s.2 <= a;
        (
            if step_x { s.0 + 1 } else { s.0 },
            if step_y { s.1 + 1 } else { s.1 },
            s.2 - (if step_x { b } else { 0 }) + (if step_y { a } else { 0 }),
        )
    });
}

/// How consecutive points `p`, `q` of the line from `(x0, y0)` to `(x1, y1)`
/// relate: 8-neighbours, one pixel apart along the longer axis, and `q` no
/// further from the second endpoint than `p` on either axis.
pub open spec fn line_step_ok(x0: i32, y0: i32, x1: i32, y1: i32, p: (i32, i32), q: (i32, i32)) -> bool {
    &&& span(p.0 as int, q.0 as int) <= 1
    &&& span(p.1 as int, q.1 as int) <= 1
    &&& (span(x0 as int, x1 as int) >= span(y0 as int, y1 as int) ==> span(p.0 as int, q.0 as int) == 1)
    &&& (span(y0 as int, y1 as int) >= span(x0 as int, x1 as int) ==> span(p.1 as int, q.1 as int) == 1)
    &&& span(q.0 as int, x1 as int) <= span(p.0 as int, x1 as int)
    &&& span(q.1 as int, y1 as int) <= span(p.1 as int, y1 as int)
}

proof fn lemma_line_endpoints(x0: i32, y0: i32, x1: i32, y1: i32)
    ensures
        line_points(x0, y0, x1, y1).len() == line_steps(x0 as int, y0 as int, x1 as int, y1 as int)
            + 1,
        line_points(x0, y0, x1, y1)[0] == (x0, y0),
        line_points(x0, y0, x1, y1).last() == (x1, y1),
{
    let a = span(x0 as int, x1 as int);
    let b = span(y0 as int, y1 as int);
    let n = max_int(a, b);
    lemma_walk(a, b, n as nat);
    lemma_line_point_fits(x0, y0, x1, y1, 0);
    lemma_line_point_fits(x0, y0, x1, y1, n as nat);
}

/// The shape of every Bresenham line: it has one point more than the longer
/// span, starts at the first endpoint, ends at the second, and each point
/// follows the previous one as an 8-neighbour that moves exactly one pixel
/// along the longer axis and never away from the second endpoint.
pub proof fn lemma_line_shape(x0: i32, y0: i32, x1: i32, y1: i32)
    ensures
        line_points(x0, y0, x1, y1).len() == line_steps(x0 as int, y0 as int, x1 as int, y1 as int)
            + 1,
        line_points(x0, y0, x1, y1)[0] == (x0, y0),
        line_points(x0, y0, x1, y1).last() == (x1, y1),
        forall|i: int|
            0 <= i < line_points(x0, y0, x1, y1).len() - 1 ==> line_step_ok(
                x0,
                y0,
                x1,
                y1,
                #[trigger] line_points(x0, y0, x1, y1)[i],
                line_points(x0, y0, x1, y1)[i + 1],
            ),
{
    lemma_line_endpoints(x0, y0, x1, y1);
    assert forall|i: int| 0 <= i < line_points(x0, y0, x1, y1).len() - 1 implies line_step_ok(
        x0,
        y0,
        x1,
        y1,
        #[trigger] line_points(x0, y0, x1, y1)[i],
        line_points(x0, y0, x1, y1)[i + 1],
    ) by {
        lemma_line_step(x0, y0, x1, y1, i);
    }
}

/// A tighter bound on the error term: along the longer axis it stays within
/// half a pixel of the ideal line, i.e. `|2 (a * iy - b * ix)|` is at most
/// the longer span.
proof fn lemma_walk_close(a: int, b: int, i: nat)
    requires
        0 <= a,
        0 <= b,
        i <= max_int(a, b),
    ensures
        a >= b ==> a - 2 * b <= 2 * walk(a, b, i).2 <= 3 * a - 2 * b,
        b >= a ==> 2 * a - 3 * b <= 2 * walk(a, b, i).2 <= 2 * a - b,
        a >= b ==> -a <= 2 * (a * walk(a, b, i).1 - b * walk(a, b, i).0) <= a,
        b >= a ==> -b <= 2 * (b * walk(a, b, i).0 - a * walk(a, b, i).1) <= b,
    decreases i,
{
    lemma_walk(a, b, i);
    let s = walk(a, b, i);
    if i > 0 {
        lemma_walk_close(a, b, (i - 1) as nat);
        lemma_walk(a, b, (i - 1) as nat);
    }
    assert(2 * s.2 == 2 * (a * s.1 - b * s.0) + 2 * a - 2 * b) by (nonlinear_arith)
        requires
            s.2 == a * (1 + s.1) - b * (1 + s.0),
    ;
}

/// Every pixel of a Bresenham line lies within half a pixel of the ideal
/// segment between its endpoints, measured across the longer axis: the
/// cross product of `p - (x0, y0)` with `(x1, y1) - (x0, y0)`, doubled, is
/// at most the longer span in size.
pub proof fn lemma_line_close(x0: i32, y0: i32, x1: i32, y1: i32, i: int)
    requires
        0 <= i < line_points(x0, y0, x1, y1).len(),
    ensures
        ({
            let p = line_points(x0, y0, x1, y1)[i];
            let c = (p.1 - y0) * (x1 - x0) - (p.0 - x0) * (y1 - y0);
            -line_steps(x0 as int, y0 as int, x1 as int, y1 as int) <= 2 * c <= line_steps(
                x0 as int,
                y0 as int,
                x1 as int,
                y1 as int,
            )
        }),
{
    let a = span(x0 as int, x1 as int);
    let b = span(y0 as int, y1 as int);
    lemma_line_point_fits(x0, y0, x1, y1, i as nat);
    lemma_walk_close(a, b, i as nat);
    let s = walk(a, b, i as nat);
    let q = line_point(x0 as int, y0 as int, x1 as int, y1 as int, i as nat);
    let p = line_points(x0, y0, x1, y1)[i];
    assert(p.0 == q.0 && p.1 == q.1);
    let e = a * s.1 - b * s.0;
    let c = (p.1 - y0) * (x1 - x0) - (p.0 - x0) * (y1 - y0);
    let u = p.0 - x0;
    let w = x1 - x0;
    let v = p.1 - y0;
    let z = y1 - y0;
    if x0 < x1 {
        assert(u == s.0 && w == a);
    } else {
        assert(u == -s.0 && w == -a);
    }
    if y0 < y1 {
        assert(v == s.1 && z == b);
    } else {
        assert(v == -s.1 && z == -b);
    }
    assert(c == e || c == -e) by (nonlinear_arith)
        requires
            c == v * w - u * z,
            e == a * s.1 - b * s.0,
            (u == s.0 && w == a) || (u == -s.0 && w == -a),
            (v == s.1 && z == b) || (v == -s.1 && z == -b),
    ;
}

/// Moving both endpoints by `(tx, ty)` moves every point of the line by
/// `(tx, ty)`.
pub proof fn lemma_line_translate(x0: i32, y0: i32, x1: i32, y1: i32, tx: i32, ty: i32)
    requires
        i32::MIN <= x0 + tx <= i32::MAX,
        i32::MIN <= x1 + tx <= i32::MAX,
        i32::MIN <= y0 + ty <= i32::MAX,
        i32::MIN <= y1 + ty <= i32::MAX,
    ensures
        ({
            let moved = line_points(
                (x0 + tx) as i32,
                (y0 + ty) as i32,
                (x1 + tx) as i32,
                (y1 + ty) as i32,
            );
            let pts = line_points(x0, y0, x1, y1);
            &&& moved.len() == pts.len()
            &&& forall|i: int|
                0 <= i < pts.len() ==> (#[trigger] moved[i]).0 == pts[i].0 + tx && moved[i].1 == pts[i].1
                    + ty
        }),
{
    let (u0, v0, u1, v1) = ((x0 + tx) as i32, (y0 + ty) as i32, (x1 + tx) as i32, (y1 + ty) as i32);
    let moved = line_points(u0, v0, u1, v1);
    let pts = line_points(x0, y0, x1, y1);
    assert forall|i: int| 0 <= i < pts.len() implies (#[trigger] moved[i]).0 == pts[i].0 + tx
        && moved[i].1 == pts[i].1 + ty by {
        lemma_line_point_fits(x0, y0, x1, y1, i as nat);
        lemma_line_point_fits(u0, v0, u1, v1, i as nat);
    }
}

} // verus!
