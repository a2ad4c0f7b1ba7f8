//! The rasterizer's drawing entry points that decompose into others:
//! single-point plotting and triangle outlines drawn as three segments.

use vstd::prelude::*;
use crate::buffer::{PixelBuffer, RasterError, painted, seq_in_bounds, lemma_painted_compose};
use crate::color::Rgb;
use crate::geom::Point;
use crate::line::{draw_line, line_seq, line_set};

verus! {

/// Plots a single point: the sole primitive through which every shape
/// algorithm writes pixels.
pub fn plot_point(buf: &mut PixelBuffer, p: Point, color: Rgb) -> (r: Result<(), RasterError>)
    requires
        old(buf).wf(),
    ensures
        final(buf).wf(),
        final(buf).spec_width() == old(buf).spec_width(),
        final(buf).spec_height() == old(buf).spec_height(),
        r == if old(buf).in_bounds(p.x as int, p.y as int) {
            Result::<(), RasterError>::Ok(())
        } else {
            Result::<(), RasterError>::Err(RasterError::OutOfBounds)
        },
        r is Err ==> *final(buf) == *old(buf),
        r is Ok ==> final(buf).pixel(p.x as int, p.y as int) == crate::color::rgba_bytes(color),
        r is Ok ==> forall|x2: int, y2: int|
            old(buf).in_bounds(x2, y2) && !(x2 == p.x as int && y2 == p.y as int)
                ==> #[trigger] final(buf).pixel(x2, y2) == old(buf).pixel(x2, y2),
{
    buf.plot(p, color)
}

/// The set of points a triangle outline covers: the union of its three
/// edges.
pub open spec fn triangle_set(a: Point, b: Point, c: Point) -> Set<(int, int)> {
    line_set(a, b).union(line_set(b, c)).union(line_set(c, a))
}

/// Draws the triangle outline `a -> b -> c -> a` as three Bresenham
/// segments; the points plotted are exactly the union of the three
/// segments' point sets. Degenerate (collinear or coincident) vertices
/// simply produce overlapping segments. `OutOfBounds` is reported exactly
/// when some point of some edge fell outside the buffer.
pub fn draw_triangle(buf: &mut PixelBuffer, a: Point, b: Point, c: Point, color: Rgb) -> (r:
    Result<(), RasterError>)
    requires
        old(buf).wf(),
    ensures
        painted(*old(buf), *final(buf), triangle_set(a, b, c), color),
        r == if seq_in_bounds(*old(buf), line_seq(a, b)) && seq_in_bounds(
            *old(buf),
            line_seq(b, c),
        ) && seq_in_bounds(*old(buf), line_seq(c, a)) {
            Result::<(), RasterError>::Ok(())
        } else {
            Result::<(), RasterError>::Err(RasterError::OutOfBounds)
        },
{
    let ghost b0 = *buf;
    let r1 = draw_line(buf, a, b, color);
    let ghost b1 = *buf;
    let r2 = draw_line(buf, b, c, color);
    let ghost b2 = *buf;
    let r3 = draw_line(buf, c, a, color);
    proof {
        lemma_painted_compose(b0, b1, b2, line_set(a, b), line_set(b, c), color);
        lemma_painted_compose(
            b0,
            b2,
            *buf,
            line_set(a, b).union(line_set(b, c)),
            line_set(c, a),
            color,
        );
        // Bounds do not depend on pixel contents, only on dimensions.
        assert(seq_in_bounds(b1, line_seq(b, c)) == seq_in_bounds(b0, line_seq(b, c))) by {
            assert forall|x: int, y: int| true implies b1.in_bounds(x, y) == b0.in_bounds(
                x,
                y,
            ) by {}
        }
        assert(seq_in_bounds(b2, line_seq(c, a)) == seq_in_bounds(b0, line_seq(c, a))) by {
            assert forall|x: int, y: int| true implies b2.in_bounds(x, y) == b0.in_bounds(
                x,
                y,
            ) by {}
        }
    }
    if r1.is_ok() && r2.is_ok() && r3.is_ok() {
        Ok(())
    } else {
        Err(RasterError::OutOfBounds)
    }
}

} // verus!
