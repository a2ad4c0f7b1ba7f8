//! Midpoint circle rasterization with four-way symmetry: each iteration
//! computes one octant point and plots its four reflections about the
//! center, driven by an integer error term.

use vstd::prelude::*;
use crate::buffer::{PixelBuffer, RasterError, painted, plot_step, seq_in_bounds};
use crate::color::Rgb;
use crate::geom::Point;

verus! {

/// The four reflections of octant point `(px, py)` about center
/// `(cx, cy)`, in plot order.
pub open spec fn circle_quad(cx: int, cy: int, px: int, py: int) -> Seq<(int, int)> {
    seq![
        (cx - px, cy + py),
        (cx - py, cy - px),
        (cx + px, cy - py),
        (cx + py, cy + px),
    ]
}

/// One midpoint-circle iteration per recursion level: plot the four
/// reflections, apply the conditional y- and x-updates against a snapshot
/// of the error term, and stop once the octant point reaches `px >= 0`.
/// The fuel only bounds the recursion; `circle_seq` supplies enough.
pub open spec fn circle_rec(cx: int, cy: int, px: int, py: int, err: int, fuel: nat) -> Seq<
    (int, int),
>
    decreases fuel,
{
    let q = circle_quad(cx, cy, px, py);
    if fuel == 0 {
        q
    } else {
        let ny = if err <= py {
            py + 1
        } else {
            py
        };
        let e1 = if err <= py {
            err + 2 * (py + 1)
        } else {
            err
        };
        let nx = if err > px || e1 > ny {
            px + 1
        } else {
            px
        };
        let e2 = if err > px || e1 > ny {
            e1 + 2 * (px + 2)
        } else {
            e1
        };
        if nx >= 0 {
            q
        } else {
            q + circle_rec(cx, cy, nx, ny, e2, (fuel - 1) as nat)
        }
    }
}

/// The points that drawing a circle of radius `r >= 0` about `c` plots,
/// in order.
pub open spec fn circle_seq(c: Point, r: int) -> Seq<(int, int)> {
    circle_rec(c.x as int, c.y as int, -r, 0, 2 - 2 * r, (2 * r + 2) as nat)
}

/// The set of points the circle covers.
pub open spec fn circle_set(c: Point, r: int) -> Set<(int, int)> {
    circle_seq(c, r).to_set()
}

/// Rotation of `q` by a quarter turn about `c`.
pub open spec fn rot_about(c: Point, q: (int, int)) -> (int, int) {
    (c.x as int - (q.1 - c.y as int), c.y as int + (q.0 - c.x as int))
}

/// The exact value of the error term as a function of the octant point:
/// it equals `px^2 + 3 px + py^2 + py + 2 + r - r^2` throughout the walk.
pub open spec fn circle_err(px: int, py: int, r: int) -> int {
    px * px + 3 * px + py * py + py + 2 + r - r * r
}

proof fn lemma_sq_succ(t: int)
    ensures
        (t + 1) * (t + 1) == t * t + 2 * t + 1,
{
    assert((t + 1) * (t + 1) == t * t + 2 * t + 1) by (nonlinear_arith);
}

/// While the error stays at or below `py`, the octant point has not yet
/// climbed to the top of the arc: `py < r`.
proof fn lemma_circle_y_bound(px: int, py: int, r: int, err: int)
    requires
        err == circle_err(px, py, r),
        err <= py,
        py >= 0,
        r >= 1,
    ensures
        py < r,
{
    assert(py < r) by (nonlinear_arith)
        requires
            px * px + 3 * px + py * py + py + 2 + r - r * r <= py,
            py >= 0,
            r >= 1,
        {}
}

/// The error term stays well inside `i64` for any radius that fits `i32`.
proof fn lemma_circle_err_range(px: int, py: int, r: int, err: int)
    requires
        err == circle_err(px, py, r),
        -r <= px <= 0,
        0 <= py <= r,
        0 <= r <= 0x8000_0000,
    ensures
        -0x4000_0000_0000_0000 <= err <= 0x4000_0000_0000_0000,
{
    assert(-0x4000_0000_0000_0000 <= err <= 0x4000_0000_0000_0000) by (nonlinear_arith)
        requires
            err == px * px + 3 * px + py * py + py + 2 + r - r * r,
            -r <= px <= 0,
            0 <= py <= r,
            0 <= r <= 0x8000_0000,
        {}
}

/// Draws the circle of the given radius about `center` by the midpoint
/// algorithm, plotting every point of `circle_seq` that lies in bounds.
/// A negative radius is rejected as `InvalidArgument`; `OutOfBounds` is
/// reported exactly when some point fell outside the buffer, the
/// remaining points still being plotted.
pub fn draw_circle(buf: &mut PixelBuffer, center: Point, radius: i32, color: Rgb) -> (r: Result<
    (),
    RasterError,
>)
    requires
        old(buf).wf(),
    ensures
        radius < 0 ==> *final(buf) == *old(buf) && r == Result::<(), RasterError>::Err(
            RasterError::InvalidArgument,
        ),
        radius >= 0 ==> painted(*old(buf), *final(buf), circle_set(center, radius as int), color),
        radius >= 0 ==> r == if seq_in_bounds(*old(buf), circle_seq(center, radius as int)) {
            Result::<(), RasterError>::Ok(())
        } else {
            Result::<(), RasterError>::Err(RasterError::OutOfBounds)
        },
{
    if radius < 0 {
        return Err(RasterError::InvalidArgument);
    }
    let ghost b0 = *buf;
    let cx: i64 = center.x as i64;
    let cy: i64 = center.y as i64;
    let rr: i64 = radius as i64;
    let mut px: i64 = -rr;
    let mut py: i64 = 0;
    let mut err: i64 = 2 - 2 * rr;
    let mut all_ok: bool = true;
    let ghost total = circle_seq(center, radius as int);
    let ghost mut visited: Seq<(int, int)> = Seq::empty();
    let ghost mut fuel_left: int = 2 * (radius as int) + 2;
    proof {
        assert(err as int == circle_err(px as int, py as int, rr as int)) by (nonlinear_arith)
            requires
                err as int == 2 - 2 * (rr as int),
                px as int == -(rr as int),
                py as int == 0,
            {}
        assert(total == visited + circle_rec(
            cx as int,
            cy as int,
            px as int,
            py as int,
            err as int,
            fuel_left as nat,
        ));
    }
    loop
        invariant_except_break
            buf.wf(),
            b0.wf(),
            buf.spec_width() == b0.spec_width(),
            buf.spec_height() == b0.spec_height(),
            painted(b0, *buf, visited.to_set(), color),
            all_ok == seq_in_bounds(b0, visited),
            cx == center.x as i64,
            cy == center.y as i64,
            rr == radius as i64,
            0 <= rr < 0x8000_0000,
            -rr <= px <= 0,
            0 <= py <= rr,
            rr > 0 ==> px <= -1,
            rr == 0 ==> px == 0 && py == 0,
            err as int == circle_err(px as int, py as int, rr as int),
            fuel_left >= 1 + (0 - px as int) + (rr as int - py as int),
            total == visited + circle_rec(
                cx as int,
                cy as int,
                px as int,
                py as int,
                err as int,
                fuel_left as nat,
            ),
        ensures
            buf.wf(),
            buf.spec_width() == b0.spec_width(),
            buf.spec_height() == b0.spec_height(),
            painted(b0, *buf, total.to_set(), color),
            all_ok == seq_in_bounds(b0, total),
        decreases (0 - px as int) + (rr as int - py as int),
    {
        proof {
            lemma_circle_err_range(px as int, py as int, rr as int, err as int);
        }
        let ghost head_px = px as int;
        let ghost head_py = py as int;
        let ghost head_err = err as int;
        let ghost head_visited = visited;
        let step1 = plot_step(buf, cx - px, cy + py, color, Ghost(b0), Ghost(visited), all_ok);
        all_ok = step1.0;
        proof {
            visited = step1.1@;
        }
        let step2 = plot_step(buf, cx - py, cy - px, color, Ghost(b0), Ghost(visited), all_ok);
        all_ok = step2.0;
        proof {
            visited = step2.1@;
        }
        let step3 = plot_step(buf, cx + px, cy - py, color, Ghost(b0), Ghost(visited), all_ok);
        all_ok = step3.0;
        proof {
            visited = step3.1@;
        }
        let step4 = plot_step(buf, cx + py, cy + px, color, Ghost(b0), Ghost(visited), all_ok);
        all_ok = step4.0;
        proof {
            visited = step4.1@;
            assert(visited =~= head_visited + circle_quad(cx as int, cy as int, head_px, head_py));
        }
        let e_snap = err;
        if e_snap <= py {
            proof {
                lemma_sq_succ(py as int);
                if rr > 0 {
                    lemma_circle_y_bound(px as int, py as int, rr as int, err as int);
                }
            }
            err = err + 2 * (py + 1);
            py = py + 1;
        }
        if e_snap > px || err > py {
            proof {
                lemma_sq_succ(px as int + 1);
                lemma_sq_succ(px as int);
            }
            err = err + 2 * (px + 2);
            px = px + 1;
        }
        proof {
            // The exec updates mirror one unfolding of the recursion.
            assert(fuel_left as nat != 0);
            assert(circle_rec(
                cx as int,
                cy as int,
                head_px,
                head_py,
                head_err,
                fuel_left as nat,
            ) == if px as int >= 0 {
                circle_quad(cx as int, cy as int, head_px, head_py)
            } else {
                circle_quad(cx as int, cy as int, head_px, head_py) + circle_rec(
                    cx as int,
                    cy as int,
                    px as int,
                    py as int,
                    err as int,
                    (fuel_left - 1) as nat,
                )
            });
        }
        if px >= 0 {
            proof {
                assert(total =~= visited);
            }
            break;
        }
        proof {
            assert(total == visited + circle_rec(
                cx as int,
                cy as int,
                px as int,
                py as int,
                err as int,
                (fuel_left - 1) as nat,
            ));
            fuel_left = fuel_left - 1;
            assert(err as int == circle_err(px as int, py as int, rr as int));
        }
    }
    if all_ok {
        Ok(())
    } else {
        Err(RasterError::OutOfBounds)
    }
}

/// A circle of radius zero covers exactly its center.
pub proof fn lemma_circle_zero(c: Point)
    ensures
        circle_set(c, 0) == set![(c.x as int, c.y as int)],
{
    let s = circle_seq(c, 0);
    assert(s =~= circle_quad(c.x as int, c.y as int, 0, 0));
    assert forall|q: (int, int)| circle_set(c, 0).contains(q)
        implies set![(c.x as int, c.y as int)].contains(q) by {
        let i = choose|i: int| 0 <= i < s.len() && s[i] == q;
    }
    assert(s[0] == (c.x as int, c.y as int));
    assert(s.contains(s[0]));
    assert(circle_set(c, 0) =~= set![(c.x as int, c.y as int)]);
}

/// The four reflections plotted per iteration rotate into one another, so
/// the set a circle covers is closed under quarter turns about its center.
proof fn lemma_circle_rec_rot(cx: int, cy: int, px: int, py: int, err: int, fuel: nat, c: Point)
    requires
        cx == c.x as int,
        cy == c.y as int,
    ensures
        forall|q: (int, int)|
            circle_rec(cx, cy, px, py, err, fuel).to_set().contains(q)
                ==> circle_rec(cx, cy, px, py, err, fuel).to_set().contains(
                #[trigger] rot_about(c, q),
            ),
    decreases fuel,
{
    let s = circle_rec(cx, cy, px, py, err, fuel);
    let quad = circle_quad(cx, cy, px, py);
    assert forall|q: (int, int)| s.to_set().contains(q)
        implies s.to_set().contains(#[trigger] rot_about(c, q)) by {
        let i = choose|i: int| 0 <= i < s.len() && s[i] == q;
        if i < 4 {
            assert(s[i] == quad[i]);
            let j = if i == 3 {
                0int
            } else {
                i + 1
            };
            assert(s[j] == quad[j]);
            assert(quad[j] == rot_about(c, quad[i]));
            assert(s.contains(s[j]));
        } else {
            // The point comes from a later iteration; recurse.
            let ny = if err <= py {
                py + 1
            } else {
                py
            };
            let e1 = if err <= py {
                err + 2 * (py + 1)
            } else {
                err
            };
            let nx = if err > px || e1 > ny {
                px + 1
            } else {
                px
            };
            let e2 = if err > px || e1 > ny {
                e1 + 2 * (px + 2)
            } else {
                e1
            };
            let rest = circle_rec(cx, cy, nx, ny, e2, (fuel - 1) as nat);
            assert(s == quad + rest);
            assert(rest[i - 4] == q);
            assert(rest.contains(q));
            lemma_circle_rec_rot(cx, cy, nx, ny, e2, (fuel - 1) as nat, c);
            assert(rest.to_set().contains(rot_about(c, q)));
            let k = choose|k: int| 0 <= k < rest.len() && rest[k] == rot_about(c, q);
            assert(s[k + 4] == rot_about(c, q));
            assert(s.contains(s[k + 4]));
        }
    }
}

/// The point set of a circle is symmetric under 90-degree rotation about
/// its center.
pub proof fn lemma_circle_rotation(c: Point, r: int)
    ensures
        forall|q: (int, int)|
            circle_set(c, r).contains(q) ==> circle_set(c, r).contains(#[trigger] rot_about(c, q)),
{
    lemma_circle_rec_rot(c.x as int, c.y as int, -r, 0, 2 - 2 * r, (2 * r + 2) as nat, c);
}

} // verus!
