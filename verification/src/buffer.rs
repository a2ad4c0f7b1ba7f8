//! The pixel buffer: a fixed-size grid of RGBA pixels stored row-major,
//! four bytes per pixel in R, G, B, A channel order, with bounds-checked
//! writes by integer coordinate.

use vstd::prelude::*;
use crate::color::{Rgb, rgba_bytes};
use crate::geom::Point;

verus! {

/// Everything that can go wrong in the rasterizer.
#[derive(Debug, Clone, Copy, PartialEq, Eq, Structural)]
pub enum RasterError {
    /// A buffer was requested with a zero dimension or a byte size that
    /// does not fit in `usize`.
    AllocationError,
    /// A plot coordinate fell outside `[0, width) x [0, height)`.
    OutOfBounds,
    /// A drawing parameter is outside its meaningful domain
    /// (a negative circle radius).
    InvalidArgument,
}

/// Within a `w`-wide, `h`-high grid, the row-major cell number of an
/// in-bounds coordinate lies in `[0, w * h)`.
proof fn lemma_cell_in_range(x: int, y: int, w: int, h: int)
    requires
        0 <= x < w,
        0 <= y < h,
    ensures
        0 <= y * w + x,
        y * w + x < w * h,
{
    assert(0 <= y * w + x && y * w + x < w * h) by (nonlinear_arith)
        requires
            0 <= x < w,
            0 <= y < h,
        {}
}

/// Distinct in-bounds coordinates have distinct row-major cell numbers.
proof fn lemma_cell_injective(x1: int, y1: int, x2: int, y2: int, w: int, h: int)
    requires
        0 <= x1 < w,
        0 <= y1 < h,
        0 <= x2 < w,
        0 <= y2 < h,
        !(x1 == x2 && y1 == y2),
    ensures
        y1 * w + x1 != y2 * w + x2,
{
    assert(y1 * w + x1 != y2 * w + x2) by (nonlinear_arith)
        requires
            0 <= x1 < w,
            0 <= y1 < h,
            0 <= x2 < w,
            0 <= y2 < h,
            !(x1 == x2 && y1 == y2),
        {}
}

/// `b1` is `b0` with color `c` written (fully opaque) at exactly the
/// in-bounds points of `pts`, every other pixel untouched.
pub open spec fn painted(b0: PixelBuffer, b1: PixelBuffer, pts: Set<(int, int)>, c: Rgb) -> bool {
    &&& b1.wf()
    &&& b1.spec_width() == b0.spec_width()
    &&& b1.spec_height() == b0.spec_height()
    &&& forall|x: int, y: int| b0.in_bounds(x, y) ==> #[trigger] b1.pixel(x, y) == (
        if pts.contains((x, y)) {
            rgba_bytes(c)
        } else {
            b0.pixel(x, y)
        })
}

/// Painting `s1` and then `s2` in the same color paints their union.
pub proof fn lemma_painted_compose(
    b0: PixelBuffer,
    b1: PixelBuffer,
    b2: PixelBuffer,
    s1: Set<(int, int)>,
    s2: Set<(int, int)>,
    c: Rgb,
)
    requires
        painted(b0, b1, s1, c),
        painted(b1, b2, s2, c),
    ensures
        painted(b0, b2, s1.union(s2), c),
{
}

/// An out-of-bounds point can be added to the painted set for free.
proof fn lemma_painted_add_oob(
    b0: PixelBuffer,
    b1: PixelBuffer,
    s: Set<(int, int)>,
    p: (int, int),
    c: Rgb,
)
    requires
        painted(b0, b1, s, c),
        !b0.in_bounds(p.0, p.1),
    ensures
        painted(b0, b1, s.insert(p), c),
{
}

/// Every point of `pts` lies inside `b`.
pub open spec fn seq_in_bounds(b: PixelBuffer, pts: Seq<(int, int)>) -> bool {
    forall|i: int| 0 <= i < pts.len() ==> #[trigger] b.in_bounds(pts[i].0, pts[i].1)
}

proof fn lemma_to_set_push(s: Seq<(int, int)>, p: (int, int))
    ensures
        s.push(p).to_set() == s.to_set().insert(p),
{
    assert forall|q: (int, int)| s.push(p).to_set().contains(q)
        implies s.to_set().insert(p).contains(q) by {
        let i = choose|i: int| 0 <= i < s.push(p).len() && s.push(p)[i] == q;
        if i < s.len() {
            assert(s[i] == q);
        }
    }
    assert forall|q: (int, int)| s.to_set().insert(p).contains(q)
        implies s.push(p).to_set().contains(q) by {
        if q == p {
            assert(s.push(p)[s.len() as int] == q);
        } else {
            let i = choose|i: int| 0 <= i < s.len() && s[i] == q;
            assert(s.push(p)[i] == q);
        }
    }
    assert(s.push(p).to_set() =~= s.to_set().insert(p));
}

proof fn lemma_seq_in_bounds_push(b: PixelBuffer, s: Seq<(int, int)>, p: (int, int))
    ensures
        seq_in_bounds(b, s.push(p)) == (seq_in_bounds(b, s) && b.in_bounds(p.0, p.1)),
{
    if seq_in_bounds(b, s.push(p)) {
        assert forall|i: int| 0 <= i < s.len() implies #[trigger] b.in_bounds(s[i].0, s[i].1) by {
            assert(s.push(p)[i] == s[i]);
            assert(b.in_bounds(s.push(p)[i].0, s.push(p)[i].1));
        }
        assert(s.push(p)[s.len() as int] == p);
        assert(b.in_bounds(s.push(p)[s.len() as int].0, s.push(p)[s.len() as int].1));
    }
    if seq_in_bounds(b, s) && b.in_bounds(p.0, p.1) {
        assert forall|i: int| 0 <= i < s.push(p).len()
            implies #[trigger] b.in_bounds(s.push(p)[i].0, s.push(p)[i].1) by {
            if i < s.len() {
                assert(s.push(p)[i] == s[i]);
            } else {
                assert(s.push(p)[i] == p);
            }
        }
    }
}

/// One tracked plot inside a shape loop: plots `(x, y)` if in bounds,
/// appends it to the ghost trace of points the shape has visited, and
/// keeps the `painted` relation to the starting buffer `b0`.
pub fn plot_step(
    buf: &mut PixelBuffer,
    x: i64,
    y: i64,
    color: Rgb,
    Ghost(b0): Ghost<PixelBuffer>,
    Ghost(visited): Ghost<Seq<(int, int)>>,
    all_ok: bool,
) -> (res: (bool, Ghost<Seq<(int, int)>>))
    requires
        old(buf).wf(),
        old(buf).spec_width() == b0.spec_width(),
        old(buf).spec_height() == b0.spec_height(),
        painted(b0, *old(buf), visited.to_set(), color),
        all_ok == seq_in_bounds(b0, visited),
    ensures
        final(buf).wf(),
        final(buf).spec_width() == b0.spec_width(),
        final(buf).spec_height() == b0.spec_height(),
        res.1@ == visited.push((x as int, y as int)),
        painted(b0, *final(buf), res.1@.to_set(), color),
        res.0 == seq_in_bounds(b0, res.1@),
{
    let ghost pre = *buf;
    let ok = buf.plot_at(x, y, color);
    proof {
        let p = (x as int, y as int);
        if ok {
            assert forall|x2: int, y2: int| b0.in_bounds(x2, y2)
                implies #[trigger] buf.pixel(x2, y2) == (
                if visited.push(p).to_set().contains((x2, y2)) {
                    rgba_bytes(color)
                } else {
                    b0.pixel(x2, y2)
                }) by {
                lemma_to_set_push(visited, p);
                if x2 == p.0 && y2 == p.1 {
                } else {
                    assert(buf.pixel(x2, y2) == pre.pixel(x2, y2));
                }
            }
        } else {
            lemma_painted_add_oob(b0, *buf, visited.to_set(), p, color);
            lemma_to_set_push(visited, p);
        }
        lemma_seq_in_bounds_push(b0, visited, p);
    }
    (all_ok && ok, Ghost(visited.push((x as int, y as int))))
}

/// A rectangular RGBA pixel store. Invariant: the byte store holds exactly
/// `4 * width * height` bytes, row-major, top-left origin.
#[derive(Debug)]
pub struct PixelBuffer {
    width: u32,
    height: u32,
    data: Vec<u8>,
}

impl PixelBuffer {
    /// The store is exactly `4 * width * height` bytes.
    pub closed spec fn wf(self) -> bool {
        self.data@.len() == 4 * (self.width as int) * (self.height as int)
    }

    pub closed spec fn spec_width(self) -> int {
        self.width as int
    }

    pub closed spec fn spec_height(self) -> int {
        self.height as int
    }

    /// The raw byte store, row-major RGBA.
    pub closed spec fn bytes(self) -> Seq<u8> {
        self.data@
    }

    pub open spec fn in_bounds(self, x: int, y: int) -> bool {
        0 <= x < self.spec_width() && 0 <= y < self.spec_height()
    }

    /// Byte offset of pixel `(x, y)`.
    pub open spec fn offset(self, x: int, y: int) -> int {
        4 * (y * self.spec_width() + x)
    }

    /// The four bytes of pixel `(x, y)`, for an in-bounds coordinate.
    pub open spec fn pixel(self, x: int, y: int) -> Seq<u8> {
        self.bytes().subrange(self.offset(x, y), self.offset(x, y) + 4)
    }

    pub fn width(&self) -> (w: u32)
        ensures
            w as int == self.spec_width(),
    {
        self.width
    }

    pub fn height(&self) -> (h: u32)
        ensures
            h as int == self.spec_height(),
    {
        self.height
    }

    /// The raw row-major RGBA store, for presentation by an external
    /// display surface.
    pub fn as_bytes(&self) -> (r: &[u8])
        ensures
            r@ == self.bytes(),
    {
        self.data.as_slice()
    }

    /// Reads back the four bytes of pixel `p`, or `None` out of bounds.
    pub fn get(&self, p: Point) -> (r: Option<(u8, u8, u8, u8)>)
        requires
            self.wf(),
        ensures
            match r {
                Some(t) => self.in_bounds(p.x as int, p.y as int) && seq![t.0, t.1, t.2, t.3]
                    == self.pixel(p.x as int, p.y as int),
                None => !self.in_bounds(p.x as int, p.y as int),
            },
    {
        let x: i64 = p.x as i64;
        let y: i64 = p.y as i64;
        if x < 0 || y < 0 || x >= self.width as i64 || y >= self.height as i64 {
            return None;
        }
        proof {
            lemma_cell_in_range(x as int, y as int, self.spec_width(), self.spec_height());
            assert(4 * ((self.spec_width()) * (self.spec_height()))
                == 4 * self.spec_width() * self.spec_height()) by (nonlinear_arith);
        }
        let n: usize = self.data.len();
        proof {
            let wi = self.spec_width();
            let hi = self.spec_height();
            assert(wi * hi <= 4 * (wi * hi));
            assert((y as int) * wi + (x as int) < wi * hi);
            assert((y as usize as int) * (self.width as usize as int) <= (y as int) * wi + (
            x as int));
        }
        let w: usize = self.width as usize;
        let cell: usize = (y as usize) * w + (x as usize);
        let idx: usize = 4 * cell;
        let t = (self.data[idx], self.data[idx + 1], self.data[idx + 2], self.data[idx + 3]);
        proof {
            assert(seq![t.0, t.1, t.2, t.3] =~= self.pixel(x as int, y as int));
        }
        Some(t)
    }

    /// Allocates a zero-initialized store of `4 * width * height` bytes.
    /// Fails exactly when a dimension is zero or that byte count does not
    /// fit in `usize`.
    pub fn create(width: u32, height: u32) -> (r: Result<PixelBuffer, RasterError>)
        ensures
            match r {
                Ok(b) => {
                    &&& b.wf()
                    &&& b.spec_width() == width as int
                    &&& b.spec_height() == height as int
                    &&& b.bytes() == Seq::new((4 * (width as int) * (height as int)) as nat, |i: int| 0u8)
                    &&& width > 0 && height > 0
                    &&& 4 * (width as int) * (height as int) <= usize::MAX as int
                },
                Err(e) => {
                    &&& e == RasterError::AllocationError
                    &&& (width == 0 || height == 0
                        || 4 * (width as int) * (height as int) > usize::MAX as int)
                },
            },
    {
        if width == 0 || height == 0 {
            return Err(RasterError::AllocationError);
        }
        proof {
            assert((width as int) * (height as int) <= 0xffff_ffff * 0xffff_ffff) by (nonlinear_arith)
                requires
                    0 <= width as int <= 0xffff_ffff,
                    0 <= height as int <= 0xffff_ffff,
                {}
        }
        let prod: u64 = (width as u64) * (height as u64);
        if prod > (usize::MAX as u64) / 4 {
            proof {
                assert(4 * (width as int) * (height as int) > usize::MAX as int) by (nonlinear_arith)
                    requires
                        prod == (width as int) * (height as int),
                        prod > (usize::MAX as int) / 4,
                        usize::MAX as int >= 0,
                    {}
            }
            return Err(RasterError::AllocationError);
        }
        proof {
            assert(4 * ((usize::MAX as int) / 4) <= usize::MAX as int);
            assert(4 * (prod as int) <= usize::MAX as int);
        }
        let total: usize = (4 * prod) as usize;
        proof {
            assert(4 * ((width as int) * (height as int)) == 4 * (width as int) * (height as int))
                by (nonlinear_arith);
            assert(total as int == 4 * (width as int) * (height as int));
        }
        let mut data: Vec<u8> = Vec::new();
        let mut i: usize = 0;
        while i < total
            invariant
                i <= total,
                data@ =~= Seq::new(i as nat, |j: int| 0u8),
            decreases total - i,
        {
            data.push(0u8);
            i = i + 1;
        }
        proof {
            assert(data@ =~= Seq::new((4 * (width as int) * (height as int)) as nat, |j: int| 0u8));
        }
        Ok(PixelBuffer { width, height, data })
    }

    /// Writes `color` plus full opacity into pixel `(x, y)` if it is in
    /// bounds; otherwise leaves the buffer untouched and returns false.
    /// Coordinates are taken as `i64` so that shape algorithms can test
    /// candidate points that overflow `i32`.
    pub fn plot_at(&mut self, x: i64, y: i64, color: Rgb) -> (ok: bool)
        requires
            old(self).wf(),
        ensures
            final(self).wf(),
            final(self).spec_width() == old(self).spec_width(),
            final(self).spec_height() == old(self).spec_height(),
            ok == old(self).in_bounds(x as int, y as int),
            !ok ==> *final(self) == *old(self),
            ok ==> final(self).pixel(x as int, y as int) == rgba_bytes(color),
            ok ==> forall|x2: int, y2: int|
                old(self).in_bounds(x2, y2) && !(x2 == x as int && y2 == y as int)
                    ==> #[trigger] final(self).pixel(x2, y2) == old(self).pixel(x2, y2),
        {
        if x < 0 || y < 0 || x >= self.width as i64 || y >= self.height as i64 {
            return false;
        }
        let w: usize = self.width as usize;
        let xu: usize = x as usize;
        let yu: usize = y as usize;
        proof {
            lemma_cell_in_range(x as int, y as int, self.spec_width(), self.spec_height());
            assert(4 * ((self.spec_width()) * (self.spec_height()))
                == 4 * self.spec_width() * self.spec_height()) by (nonlinear_arith);
        }
        let n: usize = self.data.len();
        proof {
            let wi = self.spec_width();
            let hi = self.spec_height();
            assert(wi * hi <= 4 * (wi * hi));
            assert((y as int) * wi + (x as int) < wi * hi);
            assert((yu as int) * (w as int) <= (y as int) * wi + (x as int));
        }
        let cell: usize = yu * w + xu;
        let idx: usize = 4 * cell;
        let ghost prev = *self;
        self.data[idx] = color.r;
        self.data[idx + 1] = color.g;
        self.data[idx + 2] = color.b;
        self.data[idx + 3] = 0xff;
        proof {
            let xi = x as int;
            let yi = y as int;
            assert(self.pixel(xi, yi) =~= rgba_bytes(color));
            assert forall|x2: int, y2: int|
                prev.in_bounds(x2, y2) && !(x2 == xi && y2 == yi)
                    implies #[trigger] self.pixel(x2, y2) == prev.pixel(x2, y2) by {
                lemma_cell_in_range(x2, y2, prev.spec_width(), prev.spec_height());
                lemma_cell_injective(xi, yi, x2, y2, prev.spec_width(), prev.spec_height());
                assert(self.pixel(x2, y2) =~= prev.pixel(x2, y2));
            }
        }
        true
    }

    /// Writes `color` at `p` with full opacity, or reports `OutOfBounds`
    /// without touching the buffer.
    pub fn plot(&mut self, p: Point, color: Rgb) -> (r: Result<(), RasterError>)
        requires
            old(self).wf(),
        ensures
            final(self).wf(),
            final(self).spec_width() == old(self).spec_width(),
            final(self).spec_height() == old(self).spec_height(),
            r == if old(self).in_bounds(p.x as int, p.y as int) {
                Result::<(), RasterError>::Ok(())
            } else {
                Result::<(), RasterError>::Err(RasterError::OutOfBounds)
            },
            r is Err ==> *final(self) == *old(self),
            r is Ok ==> final(self).pixel(p.x as int, p.y as int) == rgba_bytes(color),
            r is Ok ==> forall|x2: int, y2: int|
                old(self).in_bounds(x2, y2) && !(x2 == p.x as int && y2 == p.y as int)
                    ==> #[trigger] final(self).pixel(x2, y2) == old(self).pixel(x2, y2),
    {
        if self.plot_at(p.x as i64, p.y as i64, color) {
            Ok(())
        } else {
            Err(RasterError::OutOfBounds)
        }
    }

    /// Reallocates the store for the new dimensions, zero-initialized;
    /// prior contents are discarded. On failure the buffer is unchanged.
    pub fn resize(&mut self, new_width: u32, new_height: u32) -> (r: Result<(), RasterError>)
        ensures
            match r {
                Ok(()) => {
                    &&& final(self).wf()
                    &&& final(self).spec_width() == new_width as int
                    &&& final(self).spec_height() == new_height as int
                    &&& final(self).bytes() == Seq::new((4 * (new_width as int) * (new_height as int)) as nat, |i: int| 0u8)
                    &&& new_width > 0 && new_height > 0
                    &&& 4 * (new_width as int) * (new_height as int) <= usize::MAX as int
                },
                Err(e) => {
                    &&& e == RasterError::AllocationError
                    &&& *final(self) == *old(self)
                    &&& (new_width == 0 || new_height == 0
                        || 4 * (new_width as int) * (new_height as int) > usize::MAX as int)
                },
            },
    {
        match PixelBuffer::create(new_width, new_height) {
            Ok(b) => {
                *self = b;
                Ok(())
            },
            Err(e) => Err(e),
        }
    }
}

} // verus!
