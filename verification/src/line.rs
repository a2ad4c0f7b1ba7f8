//! Bresenham line rasterization: the integer scan-conversion of a segment
//! between two endpoints, symmetric over all eight octants, defined here
//! both as a specification-level point sequence and as a verified loop
//! that plots it.

use vstd::prelude::*;
use crate::buffer::{PixelBuffer, RasterError, painted, plot_step, seq_in_bounds};
use crate::color::Rgb;
use crate::geom::Point;

verus! {

pub open spec fn abs_int(v: int) -> int {
    if v < 0 {
        -v
    } else {
        v
    }
}

pub open spec fn max_int(a: int, b: int) -> int {
    if a > b {
        a
    } else {
        b
    }
}

pub open spec fn line_dx(a: Point, b: Point) -> int {
    abs_int(b.x as int - a.x as int)
}

pub open spec fn line_dy(a: Point, b: Point) -> int {
    abs_int(b.y as int - a.y as int)
}

/// Step direction per axis: +1 when strictly increasing, else -1
/// (the degenerate choice for a zero delta).
pub open spec fn line_sx(a: Point, b: Point) -> int {
    if (a.x as int) < (b.x as int) {
        1
    } else {
        -1
    }
}

pub open spec fn line_sy(a: Point, b: Point) -> int {
    if (a.y as int) < (b.y as int) {
        1
    } else {
        -1
    }
}

/// Initial error term: `dx/2` when x dominates, else `-(dy/2)`.
pub open spec fn line_err0(dx: int, dy: int) -> int {
    if dx > dy {
        dx / 2
    } else {
        -(dy / 2)
    }
}

/// One Bresenham state per recursion level: plot `(x, y)`, stop at the
/// endpoint, otherwise take the conditional x and y steps dictated by a
/// snapshot of the error term. The fuel only bounds the recursion; a
/// sufficient amount is supplied by `line_seq` and never runs out.
pub open spec fn line_rec(
    x: int,
    y: int,
    err: int,
    ex: int,
    ey: int,
    sx: int,
    sy: int,
    dx: int,
    dy: int,
    fuel: nat,
) -> Seq<(int, int)>
    decreases fuel,
{
    if (x == ex && y == ey) || fuel == 0 {
        seq![(x, y)]
    } else {
        let nx = if err > -dx {
            x + sx
        } else {
            x
        };
        let ny = if err < dy {
            y + sy
        } else {
            y
        };
        let nerr = (if err > -dx {
            err - dy
        } else {
            err
        }) + (if err < dy {
            dx
        } else {
            0
        });
        seq![(x, y)] + line_rec(nx, ny, nerr, ex, ey, sx, sy, dx, dy, (fuel - 1) as nat)
    }
}

/// The points that drawing the segment from `a` to `b` plots, in order.
pub open spec fn line_seq(a: Point, b: Point) -> Seq<(int, int)> {
    line_rec(
        a.x as int,
        a.y as int,
        line_err0(line_dx(a, b), line_dy(a, b)),
        b.x as int,
        b.y as int,
        line_sx(a, b),
        line_sy(a, b),
        line_dx(a, b),
        line_dy(a, b),
        (line_dx(a, b) + line_dy(a, b)) as nat,
    )
}

/// The set of points the segment covers.
pub open spec fn line_set(a: Point, b: Point) -> Set<(int, int)> {
    line_seq(a, b).to_set()
}

proof fn lemma_mul_succ(a: int, b: int)
    ensures
        (a + 1) * b == a * b + b,
{
    assert((a + 1) * b == a * b + b) by (nonlinear_arith);
}

/// X-dominant case: once all `dx` x-steps are taken, the error window
/// `0 <= err < dx` forces the y-steps to have finished as well.
proof fn lemma_pin_a(dx: int, dy: int, u: int, v: int, err: int)
    requires
        dx > dy,
        dy >= 0,
        0 <= v <= dy,
        err == dx / 2 - u * dy + v * dx,
        0 <= err < dx,
        u == dx,
    ensures
        v == dy,
{
    assert(v == dy) by (nonlinear_arith)
        requires
            dx > dy,
            dy >= 0,
            0 <= v <= dy,
            err == dx / 2 - u * dy + v * dx,
            0 <= err < dx,
            u == dx,
            0 <= dx / 2 < dx,
        {}
}

/// X-dominant case: while x-steps remain, a finished y-axis keeps the
/// error at or above `dy`, so no further y-step fires.
proof fn lemma_no_y_step_a(dx: int, dy: int, u: int, v: int, err: int)
    requires
        dx > dy,
        dy >= 0,
        0 <= u < dx,
        v == dy,
        err == dx / 2 - u * dy + v * dx,
    ensures
        err >= dy,
{
    assert(err >= dy) by (nonlinear_arith)
        requires
            dx > dy,
            dy >= 0,
            0 <= u < dx,
            v == dy,
            err == dx / 2 - u * dy + v * dx,
            dx / 2 >= 0,
        {}
}

/// Y-dominant case: once all `dy` y-steps are taken, the error window
/// `-dy < err <= 0` forces the x-steps to have finished as well.
proof fn lemma_pin_b(dx: int, dy: int, u: int, v: int, err: int)
    requires
        0 <= dx <= dy,
        dy >= 1,
        0 <= u <= dx,
        err == -(dy / 2) - u * dy + v * dx,
        -dy < err <= 0,
        v == dy,
    ensures
        u == dx,
{
    assert(u == dx) by (nonlinear_arith)
        requires
            0 <= dx <= dy,
            dy >= 1,
            0 <= u <= dx,
            err == -(dy / 2) - u * dy + v * dx,
            -dy < err <= 0,
            v == dy,
            0 <= dy / 2 < dy,
        {}
}

/// Y-dominant case: while y-steps remain, a finished x-axis keeps the
/// error at or below `-dx`, so no further x-step fires.
proof fn lemma_no_x_step_b(dx: int, dy: int, u: int, v: int, err: int)
    requires
        0 <= dx <= dy,
        dy >= 1,
        0 <= v < dy,
        u == dx,
        err == -(dy / 2) - u * dy + v * dx,
    ensures
        err <= -dx,
{
    assert(err <= -dx) by (nonlinear_arith)
        requires
            0 <= dx <= dy,
            dy >= 1,
            0 <= v < dy,
            u == dx,
            err == -(dy / 2) - u * dy + v * dx,
            dy / 2 >= 0,
        {}
}

/// X-dominant octants: under the error window `0 <= err < dx` the
/// recursion takes exactly one x-step per level, reaches the endpoint in
/// `dx - u` further levels, and keeps y between the current and final row.
proof fn lemma_rec_a(
    x: int,
    y: int,
    err: int,
    ex: int,
    ey: int,
    sx: int,
    sy: int,
    dx: int,
    dy: int,
    u: int,
    v: int,
    fuel: nat,
)
    requires
        dx > dy,
        dy >= 0,
        sx == 1 || sx == -1,
        sy == 1 || sy == -1,
        sx == 1 ==> ex == x + (dx - u),
        sx == -1 ==> ex == x - (dx - u),
        sy == 1 ==> ey == y + (dy - v),
        sy == -1 ==> ey == y - (dy - v),
        0 <= u <= dx,
        0 <= v <= dy,
        err == dx / 2 - u * dy + v * dx,
        0 <= err < dx,
        fuel >= dx - u,
    ensures
        line_rec(x, y, err, ex, ey, sx, sy, dx, dy, fuel).len() == dx - u + 1,
        line_rec(x, y, err, ex, ey, sx, sy, dx, dy, fuel)[0] == (x, y),
        line_rec(x, y, err, ex, ey, sx, sy, dx, dy, fuel)[dx - u] == (ex, ey),
        forall|i: int| 0 <= i <= dx - u ==> (#[trigger] line_rec(
            x, y, err, ex, ey, sx, sy, dx, dy, fuel,
        )[i]).0 == x + sx * i,
        forall|i: int| 0 <= i <= dx - u ==> {
            let py = (#[trigger] line_rec(x, y, err, ex, ey, sx, sy, dx, dy, fuel)[i]).1;
            &&& (sy == 1 ==> y <= py <= ey)
            &&& (sy == -1 ==> ey <= py <= y)
        },
    decreases dx - u,
{
    let s = line_rec(x, y, err, ex, ey, sx, sy, dx, dy, fuel);
    if x == ex && y == ey {
        assert(u == dx && v == dy);
        assert(s =~= seq![(x, y)]);
    } else {
        if u == dx {
            lemma_pin_a(dx, dy, u, v, err);
            assert(false);
        }
        assert(err > -dx);
        let ystep = err < dy;
        let nx = x + sx;
        let ny = if ystep {
            y + sy
        } else {
            y
        };
        let nerr = (err - dy) + if ystep {
            dx
        } else {
            0
        };
        let nv = if ystep {
            v + 1
        } else {
            v
        };
        if v == dy && ystep {
            lemma_no_y_step_a(dx, dy, u, v, err);
            assert(false);
        }
        lemma_mul_succ(u, dy);
        if ystep {
            lemma_mul_succ(v, dx);
        }
        assert(0 <= nerr < dx);
        lemma_rec_a(nx, ny, nerr, ex, ey, sx, sy, dx, dy, u + 1, nv, (fuel - 1) as nat);
        let s2 = line_rec(nx, ny, nerr, ex, ey, sx, sy, dx, dy, (fuel - 1) as nat);
        assert(s == seq![(x, y)] + s2);
        assert(s[dx - u] == s2[dx - u - 1]);
        assert forall|i: int| 0 <= i <= dx - u implies (#[trigger] s[i]).0 == x + sx * i by {
            if i == 0 {
                assert(sx * 0 == 0) by (nonlinear_arith);
            } else {
                assert(s[i] == s2[i - 1]);
                assert(s2[i - 1].0 == nx + sx * (i - 1));
                lemma_mul_succ(i - 1, sx);
                assert(sx * i == i * sx) by (nonlinear_arith);
                assert(sx * (i - 1) == (i - 1) * sx) by (nonlinear_arith);
            }
        }
        assert forall|i: int| 0 <= i <= dx - u implies {
            let py = (#[trigger] s[i]).1;
            &&& (sy == 1 ==> y <= py <= ey)
            &&& (sy == -1 ==> ey <= py <= y)
        } by {
            if i == 0 {
            } else {
                assert(s[i] == s2[i - 1]);
            }
        }
    }
}

/// Y-dominant octants: under the error window `-dy < err <= 0` the
/// recursion takes exactly one y-step per level; on a perfect diagonal
/// the x-step fires every level as well.
proof fn lemma_rec_b(
    x: int,
    y: int,
    err: int,
    ex: int,
    ey: int,
    sx: int,
    sy: int,
    dx: int,
    dy: int,
    u: int,
    v: int,
    fuel: nat,
)
    requires
        0 <= dx <= dy,
        dy >= 1,
        sx == 1 || sx == -1,
        sy == 1 || sy == -1,
        sx == 1 ==> ex == x + (dx - u),
        sx == -1 ==> ex == x - (dx - u),
        sy == 1 ==> ey == y + (dy - v),
        sy == -1 ==> ey == y - (dy - v),
        0 <= u <= dx,
        0 <= v <= dy,
        err == -(dy / 2) - u * dy + v * dx,
        -dy < err <= 0,
        fuel >= dy - v,
    ensures
        line_rec(x, y, err, ex, ey, sx, sy, dx, dy, fuel).len() == dy - v + 1,
        line_rec(x, y, err, ex, ey, sx, sy, dx, dy, fuel)[0] == (x, y),
        line_rec(x, y, err, ex, ey, sx, sy, dx, dy, fuel)[dy - v] == (ex, ey),
        forall|i: int| 0 <= i <= dy - v ==> (#[trigger] line_rec(
            x, y, err, ex, ey, sx, sy, dx, dy, fuel,
        )[i]).1 == y + sy * i,
        forall|i: int| 0 <= i <= dy - v ==> {
            let px = (#[trigger] line_rec(x, y, err, ex, ey, sx, sy, dx, dy, fuel)[i]).0;
            &&& (sx == 1 ==> x <= px <= ex)
            &&& (sx == -1 ==> ex <= px <= x)
        },
        dx == dy ==> forall|i: int| 0 <= i <= dy - v ==> (#[trigger] line_rec(
            x, y, err, ex, ey, sx, sy, dx, dy, fuel,
        )[i]).0 == x + sx * i,
    decreases dy - v,
{
    let s = line_rec(x, y, err, ex, ey, sx, sy, dx, dy, fuel);
    if x == ex && y == ey {
        assert(u == dx && v == dy);
        assert(s =~= seq![(x, y)]);
        assert forall|i: int| 0 <= i <= dy - v implies (#[trigger] s[i]).0 == x + sx * i by {
            assert(sx * 0 == 0) by (nonlinear_arith);
        }
    } else {
        if v == dy {
            lemma_pin_b(dx, dy, u, v, err);
            assert(false);
        }
        assert(err < dy);
        let xstep = err > -dx;
        let ny = y + sy;
        let nx = if xstep {
            x + sx
        } else {
            x
        };
        let nerr = (if xstep {
            err - dy
        } else {
            err
        }) + dx;
        let nu = if xstep {
            u + 1
        } else {
            u
        };
        if u == dx && xstep {
            lemma_no_x_step_b(dx, dy, u, v, err);
            assert(false);
        }
        if dx == dy && !xstep {
            // On a diagonal the window keeps err above -dx.
            assert(err > -dy);
            assert(false);
        }
        lemma_mul_succ(v, dx);
        if xstep {
            lemma_mul_succ(u, dy);
        }
        assert(-dy < nerr <= 0);
        lemma_rec_b(nx, ny, nerr, ex, ey, sx, sy, dx, dy, nu, v + 1, (fuel - 1) as nat);
        let s2 = line_rec(nx, ny, nerr, ex, ey, sx, sy, dx, dy, (fuel - 1) as nat);
        assert(s == seq![(x, y)] + s2);
        assert(s[dy - v] == s2[dy - v - 1]);
        assert forall|i: int| 0 <= i <= dy - v implies (#[trigger] s[i]).1 == y + sy * i by {
            if i == 0 {
                assert(sy * 0 == 0) by (nonlinear_arith);
            } else {
                assert(s[i] == s2[i - 1]);
                assert(s2[i - 1].1 == ny + sy * (i - 1));
                lemma_mul_succ(i - 1, sy);
                assert(sy * i == i * sy) by (nonlinear_arith);
                assert(sy * (i - 1) == (i - 1) * sy) by (nonlinear_arith);
            }
        }
        assert forall|i: int| 0 <= i <= dy - v implies {
            let px = (#[trigger] s[i]).0;
            &&& (sx == 1 ==> x <= px <= ex)
            &&& (sx == -1 ==> ex <= px <= x)
        } by {
            if i == 0 {
            } else {
                assert(s[i] == s2[i - 1]);
            }
        }
        if dx == dy {
            assert forall|i: int| 0 <= i <= dy - v implies (#[trigger] s[i]).0 == x + sx * i by {
                if i == 0 {
                    assert(sx * 0 == 0) by (nonlinear_arith);
                } else {
                    assert(s[i] == s2[i - 1]);
                    assert(s2[i - 1].0 == nx + sx * (i - 1));
                    lemma_mul_succ(i - 1, sx);
                    assert(sx * i == i * sx) by (nonlinear_arith);
                    assert(sx * (i - 1) == (i - 1) * sx) by (nonlinear_arith);
                }
            }
        }
    }
}

/// A degenerate segment rasterizes to its single point.
pub proof fn lemma_line_single(a: Point, b: Point)
    requires
        a.x == b.x,
        a.y == b.y,
    ensures
        line_seq(a, b) == seq![(a.x as int, a.y as int)],
{
    assert(line_seq(a, b) =~= seq![(a.x as int, a.y as int)]);
}

/// A rasterized segment starts at its first endpoint, ends at its second,
/// visits `max(|dx|, |dy|) + 1` points, and never visits one twice.
pub proof fn lemma_line_count(a: Point, b: Point)
    ensures
        line_seq(a, b).len() == max_int(line_dx(a, b), line_dy(a, b)) + 1,
        line_seq(a, b)[0] == (a.x as int, a.y as int),
        line_seq(a, b).last() == (b.x as int, b.y as int),
        line_seq(a, b).no_duplicates(),
        line_set(a, b).contains((a.x as int, a.y as int)),
        line_set(a, b).contains((b.x as int, b.y as int)),
        line_set(a, b).len() == max_int(line_dx(a, b), line_dy(a, b)) + 1,
{
    let dx = line_dx(a, b);
    let dy = line_dy(a, b);
    let sx = line_sx(a, b);
    let sy = line_sy(a, b);
    let err0 = line_err0(dx, dy);
    let s = line_seq(a, b);
    if dx > dy {
        assert(0 <= dx / 2 < dx);
        assert(err0 == dx / 2 - 0 * dy + 0 * dx) by (nonlinear_arith)
            requires
                err0 == dx / 2,
            {}
        lemma_rec_a(
            a.x as int, a.y as int, err0, b.x as int, b.y as int, sx, sy, dx, dy, 0, 0,
            (dx + dy) as nat,
        );
        assert forall|i: int, j: int| 0 <= i < s.len() && 0 <= j < s.len() && i != j
            implies s[i] != s[j] by {
            assert(s[i].0 == a.x as int + sx * i);
            assert(s[j].0 == a.x as int + sx * j);
            assert(sx * i != sx * j) by (nonlinear_arith)
                requires
                    i != j,
                    sx == 1 || sx == -1,
                {}
        }
    } else if dy > 0 {
        assert(0 <= dy / 2 < dy);
        assert(err0 == -(dy / 2) - 0 * dy + 0 * dx) by (nonlinear_arith)
            requires
                err0 == -(dy / 2),
            {}
        lemma_rec_b(
            a.x as int, a.y as int, err0, b.x as int, b.y as int, sx, sy, dx, dy, 0, 0,
            (dx + dy) as nat,
        );
        assert forall|i: int, j: int| 0 <= i < s.len() && 0 <= j < s.len() && i != j
            implies s[i] != s[j] by {
            assert(s[i].1 == a.y as int + sy * i);
            assert(s[j].1 == a.y as int + sy * j);
            assert(sy * i != sy * j) by (nonlinear_arith)
                requires
                    i != j,
                    sy == 1 || sy == -1,
                {}
        }
    } else {
        lemma_line_single(a, b);
    }
    assert(s.contains(s[0]));
    assert(s.contains(s[s.len() - 1]));
    s.unique_seq_to_set();
}

/// Drawing a segment in either direction covers the same set of points,
/// for horizontal, vertical, and perfect diagonal segments. (A general
/// segment need not satisfy this: the error term is biased toward the
/// first endpoint.)
pub proof fn lemma_line_symmetric(a: Point, b: Point)
    requires
        a.x == b.x || a.y == b.y || line_dx(a, b) == line_dy(a, b),
    ensures
        line_set(a, b) == line_set(b, a),
{
    let dx = line_dx(a, b);
    let dy = line_dy(a, b);
    lemma_line_count(a, b);
    lemma_line_count(b, a);
    let s1 = line_seq(a, b);
    let s2 = line_seq(b, a);
    let sx1 = line_sx(a, b);
    let sy1 = line_sy(a, b);
    let sx2 = line_sx(b, a);
    let sy2 = line_sy(b, a);
    if dx == 0 && dy == 0 {
        lemma_line_single(a, b);
        lemma_line_single(b, a);
        assert(line_set(a, b) =~= line_set(b, a));
    } else {
        let n = max_int(dx, dy);
        // Each point of one sequence appears in the other at the mirrored
        // index.
        assert forall|i: int| 0 <= i <= n implies s2.contains(#[trigger] s1[i]) by {
            lemma_line_point_chars(a, b, i);
            lemma_line_point_chars(b, a, n - i);
            assert(s2[n - i] == s1[i]);
            assert(s2.contains(s2[n - i]));
        }
        assert forall|i: int| 0 <= i <= n implies s1.contains(#[trigger] s2[i]) by {
            lemma_line_point_chars(b, a, i);
            lemma_line_point_chars(a, b, n - i);
            assert(s1[n - i] == s2[i]);
            assert(s1.contains(s1[n - i]));
        }
        assert forall|q: (int, int)| line_set(a, b).contains(q)
            implies line_set(b, a).contains(q) by {
            let i = choose|i: int| 0 <= i < s1.len() && s1[i] == q;
            assert(s2.contains(s1[i]));
        }
        assert forall|q: (int, int)| line_set(b, a).contains(q)
            implies line_set(a, b).contains(q) by {
            let i = choose|i: int| 0 <= i < s2.len() && s2[i] == q;
            assert(s1.contains(s2[i]));
        }
        assert(line_set(a, b) =~= line_set(b, a));
    }
}

/// Exact coordinates of point `i` of an axis-aligned or diagonal segment.
proof fn lemma_line_point_chars(a: Point, b: Point, i: int)
    requires
        a.x == b.x || a.y == b.y || line_dx(a, b) == line_dy(a, b),
        !(a.x == b.x && a.y == b.y),
        0 <= i <= max_int(line_dx(a, b), line_dy(a, b)),
    ensures
        a.y == b.y ==> (line_seq(a, b)[i]).0 == a.x as int + line_sx(a, b) * i
            && (line_seq(a, b)[i]).1 == a.y as int,
        a.x == b.x && a.y != b.y ==> (line_seq(a, b)[i]).1 == a.y as int + line_sy(a, b) * i
            && (line_seq(a, b)[i]).0 == a.x as int,
        a.x != b.x && a.y != b.y ==> (line_seq(a, b)[i]).0 == a.x as int + line_sx(a, b) * i
            && (line_seq(a, b)[i]).1 == a.y as int + line_sy(a, b) * i,
{
    let dx = line_dx(a, b);
    let dy = line_dy(a, b);
    let sx = line_sx(a, b);
    let sy = line_sy(a, b);
    let err0 = line_err0(dx, dy);
    let s = line_seq(a, b);
    if a.y == b.y {
        // Horizontal: x-dominant with dy == 0.
        assert(dy == 0 && dx > 0);
        assert(0 <= dx / 2 < dx);
        assert(err0 == dx / 2 - 0 * dy + 0 * dx) by (nonlinear_arith)
            requires
                err0 == dx / 2,
            {}
        lemma_rec_a(
            a.x as int, a.y as int, err0, b.x as int, b.y as int, sx, sy, dx, dy, 0, 0,
            (dx + dy) as nat,
        );
        assert(s[i].0 == a.x as int + sx * i);
        assert(s[i].1 == a.y as int);
    } else if a.x == b.x {
        // Vertical: y-dominant with dx == 0.
        assert(dx == 0 && dy > 0);
        assert(0 <= dy / 2 < dy);
        assert(err0 == -(dy / 2) - 0 * dy + 0 * dx) by (nonlinear_arith)
            requires
                err0 == -(dy / 2),
            {}
        lemma_rec_b(
            a.x as int, a.y as int, err0, b.x as int, b.y as int, sx, sy, dx, dy, 0, 0,
            (dx + dy) as nat,
        );
        assert(s[i].1 == a.y as int + sy * i);
        assert(s[i].0 == a.x as int);
    } else {
        // Perfect diagonal: y-dominant with dx == dy > 0.
        assert(dx == dy && dy > 0);
        assert(0 <= dy / 2 < dy);
        assert(err0 == -(dy / 2) - 0 * dy + 0 * dx) by (nonlinear_arith)
            requires
                err0 == -(dy / 2),
            {}
        lemma_rec_b(
            a.x as int, a.y as int, err0, b.x as int, b.y as int, sx, sy, dx, dy, 0, 0,
            (dx + dy) as nat,
        );
        assert(s[i].1 == a.y as int + sy * i);
        assert(s[i].0 == a.x as int + sx * i);
    }
}

/// Draws the segment from `start` to `end` by the integer Bresenham
/// algorithm, plotting every point of `line_seq(start, end)` that lies in
/// bounds. Reports `OutOfBounds` exactly when some point of the segment
/// fell outside the buffer; the remaining points are still plotted.
pub fn draw_line(buf: &mut PixelBuffer, start: Point, end: Point, color: Rgb) -> (r: Result<
    (),
    RasterError,
>)
    requires
        old(buf).wf(),
    ensures
        painted(*old(buf), *final(buf), line_set(start, end), color),
        r == if seq_in_bounds(*old(buf), line_seq(start, end)) {
            Result::<(), RasterError>::Ok(())
        } else {
            Result::<(), RasterError>::Err(RasterError::OutOfBounds)
        },
{
    let ghost b0 = *buf;
    let dxl: i64 = end.x as i64 - start.x as i64;
    let dyl: i64 = end.y as i64 - start.y as i64;
    let dx: i64 = if dxl < 0 {
        -dxl
    } else {
        dxl
    };
    let dy: i64 = if dyl < 0 {
        -dyl
    } else {
        dyl
    };
    let sx: i64 = if start.x < end.x {
        1
    } else {
        -1
    };
    let sy: i64 = if start.y < end.y {
        1
    } else {
        -1
    };
    let mut err: i64 = if dx > dy {
        dx / 2
    } else {
        -(dy / 2)
    };
    let mut x: i64 = start.x as i64;
    let mut y: i64 = start.y as i64;
    let mut all_ok: bool = true;
    let ghost total = line_seq(start, end);
    let ghost mut visited: Seq<(int, int)> = Seq::empty();
    let ghost mut u: int = 0;
    let ghost mut v: int = 0;
    proof {
        assert(total == visited + line_rec(
            x as int,
            y as int,
            err as int,
            end.x as int,
            end.y as int,
            sx as int,
            sy as int,
            dx as int,
            dy as int,
            (dx + dy) as nat,
        ));
    }
    loop
        invariant_except_break
            buf.wf(),
            b0.wf(),
            buf.spec_width() == b0.spec_width(),
            buf.spec_height() == b0.spec_height(),
            painted(b0, *buf, visited.to_set(), color),
            all_ok == seq_in_bounds(b0, visited),
            dx as int == line_dx(start, end),
            dy as int == line_dy(start, end),
            sx as int == line_sx(start, end),
            sy as int == line_sy(start, end),
            0 <= dx < 0x1_0000_0000,
            0 <= dy < 0x1_0000_0000,
            sx == 1 || sx == -1,
            sy == 1 || sy == -1,
            sx == 1 ==> x as int == start.x as int + u && end.x as int == start.x as int + dx,
            sx == -1 ==> x as int == start.x as int - u && end.x as int == start.x as int - dx,
            sy == 1 ==> y as int == start.y as int + v && end.y as int == start.y as int + dy,
            sy == -1 ==> y as int == start.y as int - v && end.y as int == start.y as int - dy,
            0 <= u <= dx,
            0 <= v <= dy,
            err as int == line_err0(dx as int, dy as int) - u * (dy as int) + v * (dx as int),
            dx > dy ==> 0 <= err < dx,
            dx <= dy && dy > 0 ==> -dy < err <= 0,
            total == visited + line_rec(
                x as int,
                y as int,
                err as int,
                end.x as int,
                end.y as int,
                sx as int,
                sy as int,
                dx as int,
                dy as int,
                ((dx as int) + (dy as int) - (if dx > dy {
                    u
                } else {
                    v
                })) as nat,
            ),
        ensures
            buf.wf(),
            buf.spec_width() == b0.spec_width(),
            buf.spec_height() == b0.spec_height(),
            painted(b0, *buf, total.to_set(), color),
            all_ok == seq_in_bounds(b0, total),
        decreases (dx as int) - u + (dy as int) - v,
    {
        let step = plot_step(buf, x, y, color, Ghost(b0), Ghost(visited), all_ok);
        all_ok = step.0;
        proof {
            visited = step.1@;
        }
        if x == end.x as i64 && y == end.y as i64 {
            proof {
                assert(line_rec(
                    x as int,
                    y as int,
                    err as int,
                    end.x as int,
                    end.y as int,
                    sx as int,
                    sy as int,
                    dx as int,
                    dy as int,
                    ((dx as int) + (dy as int) - (if dx > dy {
                        u
                    } else {
                        v
                    })) as nat,
                ) == seq![(x as int, y as int)]);
                assert(total =~= visited);
            }
            break;
        }
        proof {
            // The current point is not the endpoint, so not all steps are
            // done; the error window rules out overshoot on either axis.
            assert(u == dx && v == dy ==> x == end.x as i64 && y == end.y as i64);
            if dx > dy {
                if u == dx {
                    lemma_pin_a(dx as int, dy as int, u, v, err as int);
                    assert(false);
                }
            } else {
                if dy == 0 {
                    assert(dx == 0 && u == 0 && v == 0);
                    assert(false);
                }
                if v == dy {
                    lemma_pin_b(dx as int, dy as int, u, v, err as int);
                    assert(false);
                }
            }
        }
        let ghost fuel_pre = ((dx as int) + (dy as int) - (if dx > dy {
            u
        } else {
            v
        })) as nat;
        let e2 = err;
        if e2 > -dx {
            err = err - dy;
            x = x + sx;
            proof {
                lemma_mul_succ(u, dy as int);
                u = u + 1;
            }
        }
        if e2 < dy {
            err = err + dx;
            y = y + sy;
            proof {
                lemma_mul_succ(v, dx as int);
                v = v + 1;
            }
        }
        proof {
            // Window preservation and bounds on the step counters.
            if dx > dy {
                assert(e2 as int >= 0);
                assert(e2 > -dx);
                if v - (if e2 < dy { 1int } else { 0int }) == dy && e2 < dy {
                    lemma_no_y_step_a(dx as int, dy as int, u - 1, dy as int, e2 as int);
                    assert(false);
                }
                assert(0 <= err < dx);
            } else {
                assert(e2 as int <= 0);
                assert(e2 < dy);
                if u - (if e2 > -dx { 1int } else { 0int }) == dx && e2 > -dx {
                    lemma_no_x_step_b(dx as int, dy as int, dx as int, v - 1, e2 as int);
                    assert(false);
                }
                assert(-dy < err <= 0);
            }
            assert(fuel_pre >= 1);
            assert(total == visited + line_rec(
                x as int,
                y as int,
                err as int,
                end.x as int,
                end.y as int,
                sx as int,
                sy as int,
                dx as int,
                dy as int,
                (fuel_pre - 1) as nat,
            ));
        }
    }
    if all_ok {
        Ok(())
    } else {
        Err(RasterError::OutOfBounds)
    }
}

} // verus!
